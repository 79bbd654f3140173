//! What holds of applying a hunk and taking it back.

use vstd::prelude::*;
use crate::git::diff::{HunkLine, LineType};
use crate::git::staging::{
    copy_line, lines_before, lines_from, patched_lines, patched_text, step, walk, Cursor,
};
use crate::text::{ends_with_newline, render, split_lines, trim_newlines};
use crate::text_laws::{
    lemma_split_lines_writable, lemma_written_lines_survive, one_line, plain_breaks, plain_end,
    writable,
};

verus! {

/// Whether a line of a hunk adds or deletes a line of text.
pub open spec fn is_change(line: HunkLine) -> bool {
    line.kind == LineType::Addition || line.kind == LineType::Deletion
}

/// Line `k` of the hunk meets the text: where it is a context line or a
/// deletion, the walk forward finds a line of the text under its cursor,
/// and a chosen deletion finds the line that it names.
pub open spec fn meets_text(
    text: Seq<Seq<char>>,
    lines: Seq<HunkLine>,
    selection: Set<int>,
    start: int,
    k: int,
) -> bool {
    let at = walk(text, lines, selection, false, start, k as nat).pos;
    match lines[k].kind {
        LineType::Context => at < text.len(),
        LineType::Deletion => at < text.len() && (selection.contains(k) ==> text[at]
            == trim_newlines(lines[k].content)),
        _ => true,
    }
}

/// The hunk was made from the text: it starts within the text, at line
/// `start`, and every line of it meets the text.
pub open spec fn applies_cleanly(
    text: Seq<Seq<char>>,
    lines: Seq<HunkLine>,
    selection: Set<int>,
    start: int,
) -> bool {
    &&& 0 <= start <= text.len()
    &&& forall|k: int|
        0 <= k < lines.len() ==> #[trigger] meets_text(text, lines, selection, start, k)
}

/// Number of context lines among the first `n` lines.
pub open spec fn contexts(lines: Seq<HunkLine>, n: nat) -> nat
    decreases n,
{
    if n == 0 {
        0
    } else {
        contexts(lines, (n - 1) as nat) + if lines[n - 1].kind == LineType::Context {
            1nat
        } else {
            0nat
        }
    }
}

/// Number of lines of kind `kind` among the first `n` lines that are left out.
pub open spec fn left_out(lines: Seq<HunkLine>, selection: Set<int>, kind: LineType, n: nat) -> nat
    decreases n,
{
    if n == 0 {
        0
    } else {
        left_out(lines, selection, kind, (n - 1) as nat) + if lines[n - 1].kind == kind
            && !selection.contains(n - 1) {
            1nat
        } else {
            0nat
        }
    }
}

/// Before line `k`, as many additions as deletions are left out.
pub open spec fn even_before(lines: Seq<HunkLine>, selection: Set<int>, k: int) -> bool {
    left_out(lines, selection, LineType::Addition, k as nat) == left_out(
        lines,
        selection,
        LineType::Deletion,
        k as nat,
    )
}

/// Whether line `k` is a change that is chosen.
pub open spec fn chosen_change(lines: Seq<HunkLine>, selection: Set<int>, k: int) -> bool {
    is_change(lines[k]) && selection.contains(k)
}

/// The selection is balanced: before every chosen change, as many additions
/// as deletions are left out. Every selection that leaves out no change
/// before a chosen one is balanced, and so are the whole hunk and no line
/// at all.
pub open spec fn balanced(lines: Seq<HunkLine>, selection: Set<int>) -> bool {
    forall|k: int|
        0 <= k < lines.len() && #[trigger] chosen_change(lines, selection, k) ==> even_before(
            lines,
            selection,
            k,
        )
}

/// Where every line is chosen, none is left out.
pub proof fn lemma_none_left_out(lines: Seq<HunkLine>, selection: Set<int>, kind: LineType, n: nat)
    requires
        forall|k: int| 0 <= k < n ==> selection.contains(k),
    ensures
        left_out(lines, selection, kind, n) == 0,
    decreases n,
{
    if n > 0 {
        lemma_none_left_out(lines, selection, kind, (n - 1) as nat);
    }
}

/// The whole hunk is a balanced selection.
pub proof fn lemma_whole_is_balanced(lines: Seq<HunkLine>)
    ensures
        balanced(lines, Set::full()),
{
    assert forall|k: int|
        0 <= k < lines.len() && #[trigger] chosen_change(lines, Set::full(), k) implies even_before(
        lines,
        Set::full(),
        k,
    ) by {
        lemma_none_left_out(lines, Set::full(), LineType::Addition, k as nat);
        lemma_none_left_out(lines, Set::full(), LineType::Deletion, k as nat);
    }
}

/// Index behind the last chosen change among the first `n` lines; 0 where
/// none of them is a chosen change.
pub open spec fn chosen_end(lines: Seq<HunkLine>, selection: Set<int>, n: nat) -> nat
    decreases n,
{
    if n == 0 {
        0
    } else if is_change(lines[n - 1]) && selection.contains(n - 1) {
        n
    } else {
        chosen_end(lines, selection, (n - 1) as nat)
    }
}

/// The whole text that a walk stands for: what stood before the hunk, what
/// was written, and what is left from the cursor on.
pub open spec fn completed(text: Seq<Seq<char>>, start: int, c: Cursor) -> Seq<Seq<char>> {
    lines_before(text, start) + c.out + lines_from(text, c.pos)
}

proof fn lemma_chosen_end(lines: Seq<HunkLine>, selection: Set<int>, n: nat)
    ensures
        chosen_end(lines, selection, n) <= n,
        forall|i: int|
            chosen_end(lines, selection, n) <= i < n && is_change(#[trigger] lines[i])
                ==> !selection.contains(i),
        chosen_end(lines, selection, n) > 0 ==> chosen_change(
            lines,
            selection,
            chosen_end(lines, selection, n) - 1,
        ),
    decreases n,
{
    if n > 0 {
        if !(is_change(lines[n - 1]) && selection.contains(n - 1)) {
            lemma_chosen_end(lines, selection, (n - 1) as nat);
        }
    }
}

/// A walk only adds to what it has written and only moves forward.
proof fn lemma_walk_grows(
    text: Seq<Seq<char>>,
    lines: Seq<HunkLine>,
    selection: Set<int>,
    reverse: bool,
    start: int,
    k: nat,
    n: nat,
)
    requires
        k <= n,
    ensures
        start <= walk(text, lines, selection, reverse, start, k).pos <= walk(
            text,
            lines,
            selection,
            reverse,
            start,
            n,
        ).pos,
        walk(text, lines, selection, reverse, start, k).out.len() <= walk(
            text,
            lines,
            selection,
            reverse,
            start,
            n,
        ).out.len(),
        walk(text, lines, selection, reverse, start, k).out == walk(
            text,
            lines,
            selection,
            reverse,
            start,
            n,
        ).out.take(walk(text, lines, selection, reverse, start, k).out.len() as int),
    decreases n,
{
    let a = walk(text, lines, selection, reverse, start, k);
    if k == n {
        assert(a.out.take(a.out.len() as int) =~= a.out);
        if n > 0 {
            lemma_walk_grows(text, lines, selection, reverse, start, 0, (n - 1) as nat);
        }
    } else {
        lemma_walk_grows(text, lines, selection, reverse, start, k, (n - 1) as nat);
        let b = walk(text, lines, selection, reverse, start, (n - 1) as nat);
        let c = walk(text, lines, selection, reverse, start, n);
        assert(c == step(text, lines[n - 1], selection.contains(n - 1), reverse, b));
        assert(c.out.take(a.out.len() as int) =~= b.out.take(a.out.len() as int));
    }
}

/// Lines that are copied, or left out without a trace, do not change the
/// text that the walk stands for.
proof fn lemma_completed_stable(
    text: Seq<Seq<char>>,
    lines: Seq<HunkLine>,
    selection: Set<int>,
    reverse: bool,
    start: int,
    k: nat,
    n: nat,
)
    requires
        0 <= start <= text.len(),
        k <= n <= lines.len(),
        forall|i: int| k <= i < n && is_change(#[trigger] lines[i]) ==> !selection.contains(i),
    ensures
        completed(text, start, walk(text, lines, selection, reverse, start, n)) == completed(
            text,
            start,
            walk(text, lines, selection, reverse, start, k),
        ),
    decreases n,
{
    if k < n {
        lemma_completed_stable(text, lines, selection, reverse, start, k, (n - 1) as nat);
        lemma_walk_grows(text, lines, selection, reverse, start, 0, (n - 1) as nat);
        let b = walk(text, lines, selection, reverse, start, (n - 1) as nat);
        let c = walk(text, lines, selection, reverse, start, n);
        assert(c == step(text, lines[n - 1], selection.contains(n - 1), reverse, b));
        assert(c == b || c == copy_line(text, b)) by {
            assert(is_change(lines[n - 1]) ==> !selection.contains(n - 1));
        }
        if c != b {
            assert(0 <= b.pos < text.len());
            assert(lines_from(text, b.pos) =~= seq![text[b.pos]] + lines_from(text, b.pos + 1));
            assert(completed(text, start, c) =~= completed(text, start, b));
        }
    }
}

/// One more line that is copied or chosen: the walk back through the
/// patched text still stands where the walk forward has written to, and has
/// written what the walk forward has passed.
proof fn lemma_undo_step(
    text: Seq<Seq<char>>,
    lines: Seq<HunkLine>,
    selection: Set<int>,
    start: int,
    k: nat,
)
    requires
        0 <= start <= text.len(),
        1 <= k <= lines.len(),
        is_change(lines[k - 1]) ==> selection.contains(k - 1),
        meets_text(text, lines, selection, start, k - 1),
        ({
            let patched = patched_lines(text, lines, selection, false, start);
            let there = walk(text, lines, selection, false, start, (k - 1) as nat);
            let back = walk(patched, lines, selection, true, start, (k - 1) as nat);
            &&& start <= there.pos <= text.len()
            &&& back.pos == start + there.out.len()
            &&& back.out == text.subrange(start, there.pos)
        }),
    ensures
        ({
            let patched = patched_lines(text, lines, selection, false, start);
            let there = walk(text, lines, selection, false, start, k);
            let back = walk(patched, lines, selection, true, start, k);
            &&& start <= there.pos <= text.len()
            &&& back.pos == start + there.out.len()
            &&& back.out == text.subrange(start, there.pos)
        }),
{
    let patched = patched_lines(text, lines, selection, false, start);
    let end = walk(text, lines, selection, false, start, lines.len());
    let there = walk(text, lines, selection, false, start, k);
    let back = walk(patched, lines, selection, true, start, k);
    let there0 = walk(text, lines, selection, false, start, (k - 1) as nat);
    let back0 = walk(patched, lines, selection, true, start, (k - 1) as nat);
    let line = lines[k - 1];
    let chosen = selection.contains(k - 1);
    assert(there == step(text, line, chosen, false, there0));
    assert(back == step(patched, line, chosen, true, back0));
    lemma_walk_grows(text, lines, selection, false, start, k, lines.len());
    assert(lines_before(text, start) =~= text.take(start));
    let at = there0.pos;
    match line.kind {
        LineType::Context => {
            assert(there.out == there0.out.push(text[at]));
            let j = there0.out.len() as int;
            assert(end.out[j] == end.out.take(there.out.len() as int)[j]);
            assert(patched[start + j] == text[at]);
            assert(back.out =~= text.subrange(start, at + 1));
        },
        LineType::Deletion => {
            assert(back.out =~= text.subrange(start, at + 1));
        },
        LineType::Addition => {},
        LineType::Header => {},
    }
}

/// Where the walk back has undone all that the walk forward did.
pub open spec fn undone(
    text: Seq<Seq<char>>,
    lines: Seq<HunkLine>,
    selection: Set<int>,
    start: int,
    k: nat,
) -> bool {
    let patched = patched_lines(text, lines, selection, false, start);
    let there = walk(text, lines, selection, false, start, k);
    let back = walk(patched, lines, selection, true, start, k);
    &&& start <= there.pos <= text.len()
    &&& back.pos == start + there.out.len()
    &&& back.out == text.subrange(start, there.pos)
}

/// The counts of lines grow with the number of lines counted.
proof fn lemma_counts_grow(lines: Seq<HunkLine>, selection: Set<int>, kind: LineType, j: nat, n: nat)
    requires
        j <= n,
    ensures
        contexts(lines, j) <= contexts(lines, n),
        left_out(lines, selection, kind, j) <= left_out(lines, selection, kind, n),
    decreases n,
{
    if j < n {
        lemma_counts_grow(lines, selection, kind, j, (n - 1) as nat);
    }
}

/// Through lines without a chosen change the walk forward copies the text
/// line by line: one line for each context line and each deletion left out.
proof fn lemma_stretch_there(
    text: Seq<Seq<char>>,
    lines: Seq<HunkLine>,
    selection: Set<int>,
    start: int,
    a: nat,
    j: nat,
)
    requires
        applies_cleanly(text, lines, selection, start),
        a <= j <= lines.len(),
        start <= walk(text, lines, selection, false, start, a).pos,
        forall|i: int| a <= i < j && is_change(#[trigger] lines[i]) ==> !selection.contains(i),
    ensures
        ({
            let from = walk(text, lines, selection, false, start, a);
            let to = walk(text, lines, selection, false, start, j);
            &&& to.pos == from.pos + (contexts(lines, j) - contexts(lines, a)) + (left_out(
                lines,
                selection,
                LineType::Deletion,
                j,
            ) - left_out(lines, selection, LineType::Deletion, a))
            &&& 0 <= from.pos <= to.pos <= text.len()
            &&& to.out == from.out + text.subrange(from.pos, to.pos)
            &&& to.out.len() == from.out.len() + (to.pos - from.pos)
        }),
    decreases j,
{
    let from = walk(text, lines, selection, false, start, a);
    let to = walk(text, lines, selection, false, start, j);
    lemma_there_in_text(text, lines, selection, start, a);
    lemma_there_in_text(text, lines, selection, start, j);
    lemma_counts_grow(lines, selection, LineType::Deletion, a, j);
    if j == a {
        assert(from.out + text.subrange(from.pos, from.pos) =~= from.out);
    } else {
        lemma_stretch_there(text, lines, selection, start, a, (j - 1) as nat);
        lemma_there_in_text(text, lines, selection, start, (j - 1) as nat);
        let before = walk(text, lines, selection, false, start, (j - 1) as nat);
        assert(to == step(text, lines[j - 1], selection.contains(j - 1), false, before));
        assert(is_change(lines[j - 1]) ==> !selection.contains(j - 1));
        assert(meets_text(text, lines, selection, start, j - 1));
        if to != before {
            assert(to == copy_line(text, before));
            assert(from.pos <= before.pos < text.len());
            assert(text.subrange(from.pos, before.pos).push(text[before.pos]) =~= text.subrange(
                from.pos,
                to.pos,
            ));
            assert(to.out =~= from.out + text.subrange(from.pos, to.pos));
        }
    }
}

/// The walk forward through a hunk that was made from the text stays in the text.
proof fn lemma_there_in_text(
    text: Seq<Seq<char>>,
    lines: Seq<HunkLine>,
    selection: Set<int>,
    start: int,
    k: nat,
)
    requires
        applies_cleanly(text, lines, selection, start),
        k <= lines.len(),
    ensures
        start <= walk(text, lines, selection, false, start, k).pos <= text.len(),
    decreases k,
{
    if k > 0 {
        lemma_there_in_text(text, lines, selection, start, (k - 1) as nat);
        let before = walk(text, lines, selection, false, start, (k - 1) as nat);
        let now = walk(text, lines, selection, false, start, k);
        assert(now == step(text, lines[k - 1], selection.contains(k - 1), false, before));
        assert(meets_text(text, lines, selection, start, k - 1));
    }
}

/// Through lines without a chosen change the walk back copies the patched
/// text line by line: one line for each context line and each addition left
/// out. As long as it has copied no more than the walk forward will have
/// copied by the end of these lines, what it copies are lines of the text.
proof fn lemma_stretch_back(
    text: Seq<Seq<char>>,
    lines: Seq<HunkLine>,
    selection: Set<int>,
    start: int,
    a: nat,
    j: nat,
    b: nat,
)
    requires
        applies_cleanly(text, lines, selection, start),
        a <= j <= b <= lines.len(),
        undone(text, lines, selection, start, a),
        forall|i: int| a <= i < b && is_change(#[trigger] lines[i]) ==> !selection.contains(i),
        left_out(lines, selection, LineType::Addition, b) - left_out(
            lines,
            selection,
            LineType::Addition,
            a,
        ) == left_out(lines, selection, LineType::Deletion, b) - left_out(
            lines,
            selection,
            LineType::Deletion,
            a,
        ),
    ensures
        ({
            let patched = patched_lines(text, lines, selection, false, start);
            let from = walk(text, lines, selection, false, start, a);
            let back = walk(patched, lines, selection, true, start, j);
            let copied = (contexts(lines, j) - contexts(lines, a)) + (left_out(
                lines,
                selection,
                LineType::Addition,
                j,
            ) - left_out(lines, selection, LineType::Addition, a));
            &&& back.pos == start + from.out.len() + copied
            &&& back.out == text.subrange(start, from.pos + copied)
        }),
    decreases j,
{
    let patched = patched_lines(text, lines, selection, false, start);
    let from = walk(text, lines, selection, false, start, a);
    let to = walk(text, lines, selection, false, start, b);
    let end = walk(text, lines, selection, false, start, lines.len());
    let back = walk(patched, lines, selection, true, start, j);
    if j > a {
        let i = (j - 1) as nat;
        lemma_stretch_back(text, lines, selection, start, a, i, b);
        let back0 = walk(patched, lines, selection, true, start, i);
        let line = lines[i as int];
        assert(back == step(patched, line, selection.contains(i as int), true, back0));
        assert(is_change(line) ==> !selection.contains(i as int));
        let copied0 = (contexts(lines, i) - contexts(lines, a)) + (left_out(
            lines,
            selection,
            LineType::Addition,
            i,
        ) - left_out(lines, selection, LineType::Addition, a));
        lemma_counts_grow(lines, selection, LineType::Addition, a, i);
        if line.kind == LineType::Context || line.kind == LineType::Addition {
            // the line is copied from the patched text, where the walk
            // forward has written a line of the text
            lemma_stretch_there(text, lines, selection, start, a, b);
            lemma_there_in_text(text, lines, selection, start, a);
            lemma_counts_grow(lines, selection, LineType::Addition, j, b);
            assert(0 <= copied0 < to.pos - from.pos);
            assert(to.out.len() == from.out.len() + (to.pos - from.pos));
            lemma_walk_grows(text, lines, selection, false, start, b, lines.len());
            let at = from.out.len() + copied0;
            assert(to.out[at] == text[from.pos + copied0]);
            assert(end.out[at] == end.out.take(to.out.len() as int)[at]);
            assert(lines_before(text, start) =~= text.take(start));
            assert(patched[start + at] == text[from.pos + copied0]);
            assert(back.out =~= text.subrange(start, from.pos + copied0 + 1));
        }
    }
}

/// Before every chosen change, and behind the last one, the walk back has
/// undone all that the walk forward did.
proof fn lemma_undone_upto(
    text: Seq<Seq<char>>,
    lines: Seq<HunkLine>,
    selection: Set<int>,
    start: int,
    m: nat,
)
    requires
        applies_cleanly(text, lines, selection, start),
        balanced(lines, selection),
        m < lines.len(),
        chosen_change(lines, selection, m as int),
    ensures
        undone(text, lines, selection, start, m),
    decreases m,
{
    let a = chosen_end(lines, selection, m);
    lemma_chosen_end(lines, selection, m);
    assert(even_before(lines, selection, m as int));
    if a == 0 {
        assert(Seq::<Seq<char>>::empty() =~= text.subrange(start, start));
        assert(undone(text, lines, selection, start, 0));
    } else {
        let c = (a - 1) as nat;
        assert(chosen_change(lines, selection, c as int));
        assert(even_before(lines, selection, c as int));
        lemma_undone_upto(text, lines, selection, start, c);
        assert(meets_text(text, lines, selection, start, c as int));
        lemma_undo_step(text, lines, selection, start, a);
        assert(left_out(lines, selection, LineType::Addition, a) == left_out(
            lines,
            selection,
            LineType::Addition,
            c,
        ));
        assert(left_out(lines, selection, LineType::Deletion, a) == left_out(
            lines,
            selection,
            LineType::Deletion,
            c,
        ));
    }
    if a < m {
        lemma_there_in_text(text, lines, selection, start, a);
        lemma_stretch_there(text, lines, selection, start, a, m);
        lemma_stretch_back(text, lines, selection, start, a, m, m);
        let from = walk(text, lines, selection, false, start, a);
        let there = walk(text, lines, selection, false, start, m);
        assert(there.out.len() == from.out.len() + (there.pos - from.pos));
    }
}

/// From a place where the walk back has undone all that the walk forward
/// did, and with no chosen change to come, the walk back ends on the lines
/// that one began with.
proof fn lemma_undo_rest(
    text: Seq<Seq<char>>,
    lines: Seq<HunkLine>,
    selection: Set<int>,
    start: int,
    k: nat,
)
    requires
        0 <= start <= text.len(),
        k <= lines.len(),
        forall|i: int|
            k <= i < lines.len() && is_change(#[trigger] lines[i]) ==> !selection.contains(i),
        ({
            let patched = patched_lines(text, lines, selection, false, start);
            let there = walk(text, lines, selection, false, start, k);
            let back = walk(patched, lines, selection, true, start, k);
            &&& start <= there.pos <= text.len()
            &&& back.pos == start + there.out.len()
            &&& back.out == text.subrange(start, there.pos)
        }),
    ensures
        patched_lines(
            patched_lines(text, lines, selection, false, start),
            lines,
            selection,
            true,
            start,
        ) == text,
{
    let n = lines.len();
    let patched = patched_lines(text, lines, selection, false, start);
    let there = walk(text, lines, selection, false, start, k);
    let back = walk(patched, lines, selection, true, start, k);
    lemma_completed_stable(text, lines, selection, false, start, k, n);
    assert(patched == completed(text, start, there));
    assert(lines_before(text, start) =~= text.take(start));
    assert(patched.len() >= start + there.out.len());
    lemma_completed_stable(patched, lines, selection, true, start, k, n);
    let undone = patched_lines(patched, lines, selection, true, start);
    assert(undone == completed(patched, start, back));
    assert(lines_before(patched, start) =~= text.take(start));
    assert(lines_from(patched, back.pos) =~= lines_from(text, there.pos));
    assert(undone =~= text);
}

/// Taking back what was applied gives the lines that one began with, where
/// the hunk was made from them and the selection is balanced.
pub proof fn lemma_lines_round_trip(
    text: Seq<Seq<char>>,
    lines: Seq<HunkLine>,
    selection: Set<int>,
    start: int,
)
    requires
        applies_cleanly(text, lines, selection, start),
        balanced(lines, selection),
    ensures
        patched_lines(
            patched_lines(text, lines, selection, false, start),
            lines,
            selection,
            true,
            start,
        ) == text,
{
    let k = chosen_end(lines, selection, lines.len());
    lemma_chosen_end(lines, selection, lines.len());
    if k == 0 {
        assert(Seq::<Seq<char>>::empty() =~= text.subrange(start, start));
    } else {
        assert(chosen_change(lines, selection, k - 1));
        lemma_undone_upto(text, lines, selection, start, (k - 1) as nat);
        assert(meets_text(text, lines, selection, start, k - 1));
        lemma_undo_step(text, lines, selection, start, k);
    }
    lemma_undo_rest(text, lines, selection, start, k);
}

/// The text is made of its lines: splitting it and joining the lines gives
/// it back. A text fails this where a carriage return stands before a line feed.
pub open spec fn made_of_lines(text: Seq<char>) -> bool {
    render(split_lines(text), ends_with_newline(text)) == text
}

/// The lines survive being written out: the text made of them, with or
/// without a final line feed, splits into them again and ends as it was told to.
pub open spec fn survive_writing(lines: Seq<Seq<char>>, final_newline: bool) -> bool {
    &&& split_lines(render(lines, final_newline)) == lines
    &&& ends_with_newline(render(lines, final_newline)) == final_newline
}

/// Selective round trip: applying the chosen lines of a hunk to a text and
/// taking the same lines back gives the text that one began with, character
/// for character.
///
/// This holds where the hunk was made from the text and is applied and taken
/// back at the same line, where the selection is balanced, and where both
/// the text and the patched text are made of their lines.
pub proof fn lemma_selective_round_trip(
    text: Seq<char>,
    lines: Seq<HunkLine>,
    selection: Set<int>,
    start: int,
)
    requires
        made_of_lines(text),
        applies_cleanly(split_lines(text), lines, selection, start),
        balanced(lines, selection),
        survive_writing(
            patched_lines(split_lines(text), lines, selection, false, start),
            ends_with_newline(text),
        ),
    ensures
        patched_text(
            patched_text(text, lines, selection, false, start),
            lines,
            selection,
            true,
            start,
        ) == text,
{
    lemma_lines_round_trip(split_lines(text), lines, selection, start);
}

/// Patch round trip: applying a whole hunk to a text and taking the whole
/// hunk back gives the text that one began with, character for character and
/// with its final line feed where it had one.
///
/// This holds where the hunk was made from the text and is applied and taken
/// back at the same line, and where both the text and the patched text are
/// made of their lines.
pub proof fn lemma_patch_round_trip(text: Seq<char>, lines: Seq<HunkLine>, start: int)
    requires
        made_of_lines(text),
        applies_cleanly(split_lines(text), lines, Set::full(), start),
        survive_writing(
            patched_lines(split_lines(text), lines, Set::full(), false, start),
            ends_with_newline(text),
        ),
    ensures
        patched_text(
            patched_text(text, lines, Set::full(), false, start),
            lines,
            Set::full(),
            true,
            start,
        ) == text,
{
    lemma_whole_is_balanced(lines);
    lemma_selective_round_trip(text, lines, Set::full(), start);
}

/// A walk asks of a selection only which lines of the hunk it names.
pub proof fn lemma_walk_reads_selection(
    text: Seq<Seq<char>>,
    lines: Seq<HunkLine>,
    a: Set<int>,
    b: Set<int>,
    reverse: bool,
    start: int,
    n: nat,
)
    requires
        n <= lines.len(),
        forall|k: int| 0 <= k < lines.len() ==> a.contains(k) == b.contains(k),
    ensures
        walk(text, lines, a, reverse, start, n) == walk(text, lines, b, reverse, start, n),
    decreases n,
{
    if n > 0 {
        lemma_walk_reads_selection(text, lines, a, b, reverse, start, (n - 1) as nat);
    }
}

/// Applying a whole hunk is applying all of its lines: a selection that
/// names every line of the hunk gives the text that the whole hunk gives,
/// forwards and backwards.
pub proof fn lemma_whole_hunk_is_every_line(
    text: Seq<char>,
    lines: Seq<HunkLine>,
    selection: Set<int>,
    reverse: bool,
    start: int,
)
    requires
        forall|k: int| 0 <= k < lines.len() ==> selection.contains(k),
    ensures
        patched_text(text, lines, selection, reverse, start) == patched_text(
            text,
            lines,
            Set::full(),
            reverse,
            start,
        ),
{
    lemma_walk_reads_selection(
        split_lines(text),
        lines,
        selection,
        Set::full(),
        reverse,
        start,
        lines.len(),
    );
}

/// A text that ends with a line feed still ends with one when it is patched.
pub proof fn lemma_final_newline_stays(
    text: Seq<char>,
    lines: Seq<HunkLine>,
    selection: Set<int>,
    reverse: bool,
    start: int,
)
    requires
        ends_with_newline(text),
    ensures
        ends_with_newline(patched_text(text, lines, selection, reverse, start)),
{
}

/// A line that can stand anywhere in a text: it holds no line feed and does
/// not end with a carriage return.
pub open spec fn plain_line(line: Seq<char>) -> bool {
    one_line(line) && plain_end(line)
}

/// Every chosen addition of the hunk adds a plain line.
pub open spec fn adds_plain_lines(lines: Seq<HunkLine>, selection: Set<int>) -> bool {
    forall|k: int|
        0 <= k < lines.len() && (#[trigger] lines[k]).kind == LineType::Addition
            && selection.contains(k) ==> plain_line(trim_newlines(lines[k].content))
}

/// What a walk forward writes are lines of the text and chosen additions.
proof fn lemma_walk_writes_plain_lines(
    text: Seq<Seq<char>>,
    lines: Seq<HunkLine>,
    selection: Set<int>,
    start: int,
    n: nat,
)
    requires
        n <= lines.len(),
        forall|i: int| 0 <= i < text.len() ==> plain_line(#[trigger] text[i]),
        adds_plain_lines(lines, selection),
    ensures
        forall|i: int|
            0 <= i < walk(text, lines, selection, false, start, n).out.len() ==> plain_line(
                #[trigger] walk(text, lines, selection, false, start, n).out[i],
            ),
    decreases n,
{
    if n > 0 {
        lemma_walk_writes_plain_lines(text, lines, selection, start, (n - 1) as nat);
        let before = walk(text, lines, selection, false, start, (n - 1) as nat);
        let now = walk(text, lines, selection, false, start, n);
        assert(now == step(text, lines[n - 1], selection.contains(n - 1), false, before));
        assert forall|i: int| 0 <= i < now.out.len() implies plain_line(#[trigger] now.out[i]) by {
            if i < before.out.len() {
                assert(now.out[i] == before.out[i]);
            } else {
                if lines[n - 1].kind == LineType::Addition {
                    assert(now.out[i] == trim_newlines(lines[n - 1].content));
                } else {
                    assert(now.out[i] == text[before.pos]);
                }
            }
        }
    }
}

/// Selective round trip of a plain text: applying the chosen lines of a
/// hunk and taking the same lines back gives the text that one began with.
///
/// This holds where no carriage return of the text stands before a line
/// feed or at its end, where the hunk was made from the text and is applied
/// and taken back at the same line, where the selection is balanced, where
/// every chosen addition adds a plain line, and where the patched text keeps
/// a line if the text ends with a line feed, and a last line that is not
/// empty if it does not.
pub proof fn lemma_plain_round_trip(
    text: Seq<char>,
    lines: Seq<HunkLine>,
    selection: Set<int>,
    start: int,
)
    requires
        plain_breaks(text),
        plain_end(text),
        applies_cleanly(split_lines(text), lines, selection, start),
        balanced(lines, selection),
        adds_plain_lines(lines, selection),
        ({
            let patched = patched_lines(split_lines(text), lines, selection, false, start);
            if ends_with_newline(text) {
                patched.len() > 0
            } else {
                patched.len() > 0 ==> patched.last().len() > 0
            }
        }),
    ensures
        patched_text(
            patched_text(text, lines, selection, false, start),
            lines,
            selection,
            true,
            start,
        ) == text,
{
    let old = split_lines(text);
    let nl = ends_with_newline(text);
    let patched = patched_lines(old, lines, selection, false, start);
    lemma_split_lines_writable(text);
    assert forall|i: int| 0 <= i < old.len() implies plain_line(#[trigger] old[i]) by {
        if i + 1 == old.len() && !nl {
            let last = old[i];
            let joined = crate::text::join_lines(old);
            assert(joined == text);
            if old.len() == 1 {
                assert(joined == last);
            } else {
                assert(joined == crate::text::join_lines(old.drop_last()) + seq!['\n'] + last);
                assert(last.len() > 0);
                assert(joined.last() == last.last());
            }
        }
    }
    lemma_walk_writes_plain_lines(old, lines, selection, start, lines.len());
    let end = walk(old, lines, selection, false, start, lines.len());
    assert forall|i: int| 0 <= i < patched.len() implies plain_line(#[trigger] patched[i]) by {
        let before = lines_before(old, start);
        if i < before.len() {
            assert(patched[i] == before[i]);
            assert(before[i] == old[i]);
        } else if i < before.len() + end.out.len() {
            assert(patched[i] == end.out[i - before.len()]);
        } else {
            let rest = lines_from(old, end.pos);
            assert(patched[i] == rest[i - before.len() - end.out.len()]);
            assert(rest[i - before.len() - end.out.len()] == old[end.pos + (i - before.len()
                - end.out.len())]);
        }
    }
    assert(writable(patched, nl));
    lemma_written_lines_survive(patched, nl);
    lemma_selective_round_trip(text, lines, selection, start);
}

} // verus!
