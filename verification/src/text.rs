//! Text as sequences of characters, split into lines and joined back.

use vstd::prelude::*;
use crate::seqs::{first_index, lemma_first_index_is};

verus! {

/// Appends one character to a `String`, as the standard library documents
/// `String::push`: the string afterwards is the string before, followed by `ch`.
pub assume_specification[ String::push ](s: &mut String, ch: char)
    ensures
        final(s)@ == old(s)@.push(ch),
;

/// Index of the first line feed in `s`, or `s.len()` when there is none.
pub open spec fn first_newline(s: Seq<char>) -> nat {
    first_index(s, |c: char| c == '\n')
}

/// A line without the carriage return that preceded its line feed.
pub open spec fn strip_cr(line: Seq<char>) -> Seq<char> {
    if line.len() > 0 && line.last() == '\r' {
        line.drop_last()
    } else {
        line
    }
}

/// The lines of a text. A line ends at a line feed, or at a carriage return
/// directly followed by one; the terminator is not part of the line. What
/// follows the last line feed is a line of its own unless it is empty.
pub open spec fn split_lines(s: Seq<char>) -> Seq<Seq<char>>
    decreases s.len(),
{
    if s.len() == 0 {
        Seq::empty()
    } else {
        let k = first_newline(s) as int;
        if k >= s.len() {
            seq![s]
        } else {
            seq![strip_cr(s.take(k))] + split_lines(s.skip(k + 1))
        }
    }
}

/// The lines joined by single line feeds.
pub open spec fn join_lines(lines: Seq<Seq<char>>) -> Seq<char>
    decreases lines.len(),
{
    if lines.len() == 0 {
        Seq::empty()
    } else if lines.len() == 1 {
        lines[0]
    } else {
        join_lines(lines.drop_last()) + seq!['\n'] + lines.last()
    }
}

/// Whether the last character of `s` is a line feed.
pub open spec fn ends_with_newline(s: Seq<char>) -> bool {
    s.len() > 0 && s.last() == '\n'
}

/// `s` without the line feeds at its end.
pub open spec fn trim_newlines(s: Seq<char>) -> Seq<char>
    decreases s.len(),
{
    if ends_with_newline(s) {
        trim_newlines(s.drop_last())
    } else {
        s
    }
}

/// The text that consists of `lines`, each but the last followed by a line
/// feed, and the last one too when `final_newline` is set.
pub open spec fn render(lines: Seq<Seq<char>>, final_newline: bool) -> Seq<char> {
    if final_newline {
        join_lines(lines).push('\n')
    } else {
        join_lines(lines)
    }
}

/// The views of a list of lines.
pub open spec fn line_views(lines: Seq<Vec<char>>) -> Seq<Seq<char>> {
    lines.map_values(|l: Vec<char>| l@)
}

/// The characters of `s`, in order.
pub fn chars_of(s: &str) -> (v: Vec<char>)
    ensures
        v@ == s@,
{
    broadcast use vstd::string::group_string_axioms;

    let mut v: Vec<char> = Vec::new();
    for c in it: s.chars()
        invariant
            it.seq() == s@,
            v@ == it.seq().take(it.index() as int),
    {
        v.push(c);
    }
    v
}

/// Splits `text` into its lines.
pub fn lines_of(text: &Vec<char>) -> (lines: Vec<Vec<char>>)
    ensures
        line_views(lines@) == split_lines(text@),
{
    let n = text.len();
    let mut lines: Vec<Vec<char>> = Vec::new();
    let mut cur: Vec<char> = Vec::new();
    let mut start: usize = 0;
    let mut i: usize = 0;
    proof {
        assert(text@.skip(0) == text@);
        assert(line_views(lines@) + split_lines(text@) == split_lines(text@));
    }
    while i < n
        invariant
            n == text.len(),
            0 <= start <= i <= n,
            cur@ == text@.subrange(start as int, i as int),
            forall|j: int| start <= j < i ==> text@[j] != '\n',
            split_lines(text@) == line_views(lines@) + split_lines(text@.skip(start as int)),
        decreases n - i,
    {
        let c = text[i];
        if c == '\n' {
            let ghost rest = text@.skip(start as int);
            proof {
                assert forall|j: int| 0 <= j < i - start implies rest[j] != '\n' by {
                    assert(rest[j] == text@[start + j]);
                }
                lemma_first_index_is(rest, |c: char| c == '\n', i - start);
                assert(rest.take(i - start) == cur@);
                assert(rest.skip(i - start + 1) == text@.skip(i + 1));
            }
            let m = cur.len();
            if m > 0 && cur[m - 1] == '\r' {
                cur.pop();
            }
            proof {
                assert(cur@ == strip_cr(rest.take(i - start)));
                assert(line_views(lines@.push(cur)) == line_views(lines@).push(cur@));
                assert(split_lines(rest) == seq![cur@] + split_lines(text@.skip(i + 1)));
            }
            lines.push(cur);
            cur = Vec::new();
            start = i + 1;
            proof {
                assert(text@.subrange(start as int, start as int) == Seq::<char>::empty());
            }
        } else {
            proof {
                assert(text@.subrange(start as int, i as int).push(c) == text@.subrange(
                    start as int,
                    i + 1,
                ));
            }
            cur.push(c);
        }
        i += 1;
    }
    let ghost rest = text@.skip(start as int);
    if start < n {
        proof {
            assert forall|j: int| 0 <= j < rest.len() implies rest[j] != '\n' by {
                assert(rest[j] == text@[start + j]);
            }
            lemma_first_index_is(rest, |c: char| c == '\n', rest.len() as int);
            assert(cur@ == rest);
            assert(line_views(lines@.push(cur)) == line_views(lines@).push(cur@));
        }
        lines.push(cur);
    }
    lines
}

/// Number of characters of `s` that are left when the line feeds at its end
/// are taken off.
pub fn trimmed_len(s: &Vec<char>) -> (end: usize)
    ensures
        end <= s.len(),
        s@.take(end as int) == trim_newlines(s@),
{
    let mut end = s.len();
    proof {
        assert(s@.take(end as int) == s@);
    }
    while end > 0 && s[end - 1] == '\n'
        invariant
            end <= s.len(),
            trim_newlines(s@) == trim_newlines(s@.take(end as int)),
        decreases end,
    {
        proof {
            let t = s@.take(end as int);
            assert(ends_with_newline(t));
            assert(t.drop_last() == s@.take(end - 1));
        }
        end -= 1;
    }
    proof {
        assert(s@.take(s.len() as int) == s@);
    }
    end
}

/// The character of a decimal digit.
pub open spec fn digit(d: nat) -> char {
    if d == 0 {
        '0'
    } else if d == 1 {
        '1'
    } else if d == 2 {
        '2'
    } else if d == 3 {
        '3'
    } else if d == 4 {
        '4'
    } else if d == 5 {
        '5'
    } else if d == 6 {
        '6'
    } else if d == 7 {
        '7'
    } else if d == 8 {
        '8'
    } else {
        '9'
    }
}

/// A number in decimal digits, without leading zeros.
pub open spec fn digits(n: nat) -> Seq<char>
    decreases n,
{
    if n < 10 {
        seq![digit(n)]
    } else {
        digits(n / 10).push(digit(n % 10))
    }
}

fn digit_char(d: u64) -> (c: char)
    requires
        d < 10,
    ensures
        c == digit(d as nat),
{
    if d == 0 {
        '0'
    } else if d == 1 {
        '1'
    } else if d == 2 {
        '2'
    } else if d == 3 {
        '3'
    } else if d == 4 {
        '4'
    } else if d == 5 {
        '5'
    } else if d == 6 {
        '6'
    } else if d == 7 {
        '7'
    } else if d == 8 {
        '8'
    } else {
        '9'
    }
}

/// Writes `n` in decimal digits behind `out`.
pub fn push_decimal(out: &mut String, n: u64)
    ensures
        final(out)@ == old(out)@ + digits(n as nat),
{
    let mut rev: Vec<char> = Vec::new();
    rev.push(digit_char(n % 10));
    let mut m: u64 = n / 10;
    proof {
        assert(rev@.reverse() =~= seq![digit((n % 10) as nat)]);
        if m > 0 {
            assert(digits(n as nat) =~= digits(m as nat) + rev@.reverse());
        } else {
            assert(digits(n as nat) =~= Seq::<char>::empty() + rev@.reverse());
        }
    }
    while m > 0
        invariant
            rev.len() > 0,
            digits(n as nat) == (if m > 0 {
                digits(m as nat)
            } else {
                Seq::<char>::empty()
            }) + rev@.reverse(),
        decreases m,
    {
        let d = digit_char(m % 10);
        proof {
            let next = rev@.push(d);
            assert(next.reverse() =~= seq![d] + rev@.reverse());
            if m >= 10 {
                assert(digits(m as nat) =~= digits((m / 10) as nat) + seq![d]);
                assert(digits(n as nat) =~= digits((m / 10) as nat) + next.reverse());
            } else {
                assert(digits(n as nat) =~= Seq::<char>::empty() + next.reverse());
            }
        }
        rev.push(d);
        m = m / 10;
    }
    let ghost base = out@;
    let ghost all = rev@.reverse();
    let mut i: usize = rev.len();
    proof {
        assert(all.take(0) =~= Seq::<char>::empty());
        assert(base + all.take(0) =~= base);
    }
    while i > 0
        invariant
            i <= rev.len(),
            all == rev@.reverse(),
            out@ == base + all.take(rev.len() - i),
        decreases i,
    {
        i -= 1;
        proof {
            let k = rev.len() - i - 1;
            assert(all[k] == rev@[i as int]);
            assert(all.take(k).push(rev@[i as int]) =~= all.take(k + 1));
            assert((base + all.take(k)).push(rev@[i as int]) =~= base + all.take(k + 1));
        }
        out.push(rev[i]);
    }
    proof {
        assert(all.take(rev.len() as int) =~= all);
    }
}

/// `n` in decimal digits.
pub fn decimal(n: u64) -> (s: String)
    ensures
        s@ == digits(n as nat),
{
    let mut s = String::new();
    push_decimal(&mut s, n);
    proof {
        assert(Seq::<char>::empty() + digits(n as nat) =~= digits(n as nat));
    }
    s
}

/// Whether `s` begins with `prefix`.
pub open spec fn has_prefix(s: Seq<char>, prefix: Seq<char>) -> bool {
    prefix.len() <= s.len() && s.take(prefix.len() as int) == prefix
}

/// Whether the characters of `text` from `from` on begin with `prefix`.
pub fn starts_with_at(text: &Vec<char>, from: usize, prefix: &Vec<char>) -> (found: bool)
    requires
        from <= text.len(),
    ensures
        found == has_prefix(text@.skip(from as int), prefix@),
{
    let rest = text.len() - from;
    if prefix.len() > rest {
        return false;
    }
    let ghost tail = text@.skip(from as int);
    let mut i: usize = 0;
    while i < prefix.len()
        invariant
            i <= prefix.len(),
            from + prefix.len() <= text.len(),
            tail == text@.skip(from as int),
            forall|j: int| 0 <= j < i ==> tail[j] == prefix@[j],
        decreases prefix.len() - i,
    {
        if text[from + i] != prefix[i] {
            proof {
                assert(tail.take(prefix.len() as int)[i as int] == tail[i as int]);
            }
            return false;
        }
        i += 1;
    }
    proof {
        assert(tail.take(prefix.len() as int) =~= prefix@);
    }
    true
}

/// The characters of `text` from `from` up to `to` as a string.
pub fn string_of(text: &Vec<char>, from: usize, to: usize) -> (s: String)
    requires
        from <= to <= text.len(),
    ensures
        s@ == text@.subrange(from as int, to as int),
{
    let mut s = String::new();
    let mut i: usize = from;
    proof {
        assert(text@.subrange(from as int, from as int) =~= Seq::<char>::empty());
    }
    while i < to
        invariant
            from <= i <= to <= text.len(),
            s@ == text@.subrange(from as int, i as int),
        decreases to - i,
    {
        proof {
            assert(text@.subrange(from as int, i as int).push(text@[i as int]) =~= text@.subrange(
                from as int,
                i + 1,
            ));
        }
        s.push(text[i]);
        i += 1;
    }
    s
}

} // verus!
