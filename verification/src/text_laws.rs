//! When a text is made of its lines, and lines make the text they came from.

use vstd::prelude::*;
use crate::seqs::{lemma_first_index, lemma_first_index_is};
use crate::text::{ends_with_newline, first_newline, join_lines, render, split_lines, strip_cr};

verus! {

/// The line holds no line feed.
pub open spec fn one_line(line: Seq<char>) -> bool {
    forall|j: int| 0 <= j < line.len() ==> line[j] != '\n'
}

/// The line does not end with a carriage return.
pub open spec fn plain_end(line: Seq<char>) -> bool {
    !(line.len() > 0 && line.last() == '\r')
}

/// Lines that can be written out and read again: none holds a line feed,
/// none that a line feed follows ends with a carriage return, with a final
/// line feed there is at least one line, and without it the last line is
/// not empty.
pub open spec fn writable(lines: Seq<Seq<char>>, final_newline: bool) -> bool {
    &&& forall|i: int| 0 <= i < lines.len() ==> one_line(#[trigger] lines[i])
    &&& forall|i: int|
        0 <= i < lines.len() && (i + 1 < lines.len() || final_newline) ==> plain_end(
            #[trigger] lines[i],
        )
    &&& final_newline ==> lines.len() > 0
    &&& !final_newline && lines.len() > 0 ==> lines.last().len() > 0
}

/// No carriage return of the text stands before a line feed.
pub open spec fn plain_breaks(text: Seq<char>) -> bool {
    forall|i: int|
        0 <= i && i + 1 < text.len() && (#[trigger] text[i]) == '\r' ==> text[i + 1] != '\n'
}

/// The join of lines, seen from the first line.
pub proof fn lemma_join_front(line: Seq<char>, rest: Seq<Seq<char>>)
    ensures
        join_lines(seq![line] + rest) == if rest.len() == 0 {
            line
        } else {
            line + seq!['\n'] + join_lines(rest)
        },
    decreases rest.len(),
{
    let all = seq![line] + rest;
    if rest.len() == 0 {
        assert(all =~= seq![line]);
    } else {
        let front = rest.drop_last();
        lemma_join_front(line, front);
        assert(all.drop_last() =~= seq![line] + front);
        assert(all.last() == rest.last());
        if front.len() == 0 {
            assert(rest =~= seq![rest.last()]);
            assert(join_lines(rest) == rest.last());
        } else {
            assert(join_lines(all) =~= line + seq!['\n'] + join_lines(rest));
        }
    }
}

/// A line, a line feed and more text split into the line and the lines of
/// the rest.
pub proof fn lemma_split_at_break(line: Seq<char>, tail: Seq<char>)
    requires
        one_line(line),
    ensures
        split_lines(line + seq!['\n'] + tail) == seq![strip_cr(line)] + split_lines(tail),
{
    let text = line + seq!['\n'] + tail;
    assert forall|j: int| 0 <= j < line.len() implies !(|c: char| c == '\n')(#[trigger] text[j]) by {
        assert(text[j] == line[j]);
    }
    assert(text[line.len() as int] == '\n');
    lemma_first_index_is(text, |c: char| c == '\n', line.len() as int);
    assert(text.take(line.len() as int) =~= line);
    assert(text.skip(line.len() as int + 1) =~= tail);
}

/// A line that is not empty and holds no line feed is the one line of itself.
pub proof fn lemma_split_one_line(line: Seq<char>)
    requires
        one_line(line),
        line.len() > 0,
    ensures
        split_lines(line) == seq![line],
{
    assert forall|j: int| 0 <= j < line.len() implies !(|c: char| c == '\n')(#[trigger] line[j]) by {}
    lemma_first_index_is(line, |c: char| c == '\n', line.len() as int);
}

/// Lines that can be written out and read again are the lines of the text
/// made of them, and that text ends with a line feed exactly when it was
/// told to.
pub proof fn lemma_written_lines_survive(lines: Seq<Seq<char>>, final_newline: bool)
    requires
        writable(lines, final_newline),
    ensures
        split_lines(render(lines, final_newline)) == lines,
        ends_with_newline(render(lines, final_newline)) == final_newline,
    decreases lines.len(),
{
    if lines.len() == 0 {
        assert(join_lines(lines) =~= Seq::<char>::empty());
    } else {
        let line = lines[0];
        let rest = lines.skip(1);
        assert(lines =~= seq![line] + rest);
        lemma_join_front(line, rest);
        assert(one_line(line));
        if rest.len() == 0 {
            if final_newline {
                let end = Seq::<char>::empty();
                assert(render(lines, true) =~= line + seq!['\n'] + end);
                lemma_split_at_break(line, end);
                assert(plain_end(lines[0]));
                assert(seq![line] + Seq::<Seq<char>>::empty() =~= lines);
            } else {
                assert(lines.last() == line);
                lemma_split_one_line(line);
                assert(seq![line] =~= lines);
            }
        } else {
            assert forall|i: int| 0 <= i < rest.len() implies one_line(#[trigger] rest[i]) by {
                assert(rest[i] == lines[i + 1]);
            }
            assert forall|i: int|
                0 <= i < rest.len() && (i + 1 < rest.len() || final_newline) implies plain_end(
                #[trigger] rest[i],
            ) by {
                assert(rest[i] == lines[i + 1]);
            }
            assert(rest.last() == lines.last());
            lemma_written_lines_survive(rest, final_newline);
            let tail = render(rest, final_newline);
            assert(render(lines, final_newline) =~= line + seq!['\n'] + tail);
            lemma_split_at_break(line, tail);
            assert(plain_end(lines[0]));
        }
        let text = render(lines, final_newline);
        if !final_newline {
            let last = lines.last();
            assert(one_line(last));
            if lines.len() == 1 {
                assert(text == last);
            } else {
                assert(text == join_lines(lines.drop_last()) + seq!['\n'] + last);
            }
            assert(text.last() == last.last());
        }
    }
}

/// The lines of a text can be written out and read again, where no carriage
/// return of the text stands before a line feed.
pub proof fn lemma_split_lines_writable(text: Seq<char>)
    requires
        plain_breaks(text),
    ensures
        writable(split_lines(text), ends_with_newline(text)),
        render(split_lines(text), ends_with_newline(text)) == text,
    decreases text.len(),
{
    let lines = split_lines(text);
    let nl = ends_with_newline(text);
    if text.len() == 0 {
        assert(join_lines(lines) =~= text);
    } else {
        lemma_first_index(text, |c: char| c == '\n');
        let k = first_newline(text) as int;
        if k >= text.len() {
            assert(lines =~= seq![text]);
            assert(one_line(text)) by {
                assert forall|j: int| 0 <= j < text.len() implies text[j] != '\n' by {
                    assert(!(|c: char| c == '\n')(text[j]));
                }
            }
            assert(!nl);
        } else {
            let line = text.take(k);
            let tail = text.skip(k + 1);
            assert(text =~= line + seq!['\n'] + tail);
            assert(one_line(line)) by {
                assert forall|j: int| 0 <= j < line.len() implies line[j] != '\n' by {
                    assert(!(|c: char| c == '\n')(text[j]));
                }
            }
            assert(plain_end(line)) by {
                if line.len() > 0 && line.last() == '\r' {
                    assert(text[k - 1] == '\r');
                    assert(text[k] == '\n');
                }
            }
            assert(strip_cr(line) == line);
            assert(plain_breaks(tail)) by {
                assert forall|i: int|
                    0 <= i && i + 1 < tail.len() && (#[trigger] tail[i]) == '\r' implies tail[i + 1]
                    != '\n' by {
                    assert(tail[i] == text[k + 1 + i]);
                    assert(tail[i + 1] == text[k + 1 + i + 1]);
                }
            }
            lemma_split_lines_writable(tail);
            let rest = split_lines(tail);
            assert(lines == seq![line] + rest);
            lemma_join_front(line, rest);
            if tail.len() == 0 {
                assert(rest =~= Seq::<Seq<char>>::empty());
                assert(nl);
                assert(render(lines, nl) =~= text);
            } else {
                assert(nl == ends_with_newline(tail)) by {
                    assert(text.last() == tail.last());
                }
                assert(rest.len() > 0);
                assert(render(lines, nl) =~= line + seq!['\n'] + render(rest, nl));
                assert(lines.last() == rest.last());
            }
            assert forall|i: int| 0 <= i < lines.len() implies one_line(#[trigger] lines[i]) by {
                if i > 0 {
                    assert(lines[i] == rest[i - 1]);
                }
            }
            assert forall|i: int|
                0 <= i < lines.len() && (i + 1 < lines.len() || nl) implies plain_end(
                #[trigger] lines[i],
            ) by {
                if i > 0 {
                    assert(lines[i] == rest[i - 1]);
                }
            }
        }
    }
}

} // verus!
