//! What the budget bounds: the bytes of the lines that a diff holds.

use vstd::prelude::*;
use crate::git::diff::{
    all_hunks, begin_hunk, begins_hunk, byte_len, capped_sum, count_line, fed, feed, Hunk, HunkLine, Loading, Report,
};

verus! {

/// Bytes of the text of some lines.
pub open spec fn line_bytes(lines: Seq<HunkLine>) -> nat
    decreases lines.len(),
{
    if lines.len() == 0 {
        0
    } else {
        line_bytes(lines.drop_last()) + byte_len(lines.last().content)
    }
}

/// Bytes of the text of the lines that some hunks hold.
pub open spec fn held_bytes(hunks: Seq<Hunk>) -> nat
    decreases hunks.len(),
{
    if hunks.len() == 0 {
        0
    } else {
        held_bytes(hunks.drop_last()) + line_bytes(hunks.last().lines)
    }
}

/// Every hunk that is not loaded holds no line.
pub open spec fn unloaded_hold_nothing(hunks: Seq<Hunk>) -> bool {
    forall|i: int| 0 <= i < hunks.len() && !(#[trigger] hunks[i]).is_loaded ==> hunks[i].lines.len() == 0
}

/// What holds of a diff while it is loaded under a budget of `max_bytes`:
/// the lines held take no more bytes than the budget, while the budget
/// lasts they are all the bytes that were counted, and the current hunk is
/// loaded exactly while the budget lasts.
pub open spec fn in_budget(st: Loading, max_bytes: nat) -> bool {
    &&& held_bytes(all_hunks(st)) <= max_bytes
    &&& unloaded_hold_nothing(all_hunks(st))
    &&& !st.exceeded ==> st.bytes == held_bytes(all_hunks(st))
    &&& st.current matches Some(c) ==> c.is_loaded == !st.exceeded
}

proof fn lemma_held_push(hunks: Seq<Hunk>, hunk: Hunk)
    ensures
        held_bytes(hunks.push(hunk)) == held_bytes(hunks) + line_bytes(hunk.lines),
{
    assert(hunks.push(hunk).drop_last() =~= hunks);
}

proof fn lemma_line_bytes_push(lines: Seq<HunkLine>, line: HunkLine)
    ensures
        line_bytes(lines.push(line)) == line_bytes(lines) + byte_len(line.content),
{
    assert(lines.push(line).drop_last() =~= lines);
}

proof fn lemma_line_bytes_none()
    ensures
        line_bytes(Seq::<HunkLine>::empty()) == 0,
{
}

/// One report keeps a diff within its budget.
proof fn lemma_feed_in_budget(st: Loading, report: Report, max_bytes: nat)
    requires
        in_budget(st, max_bytes),
        max_bytes < usize::MAX,
    ensures
        in_budget(feed(st, report, max_bytes), max_bytes),
{
    if report.is_binary {
        assert(all_hunks(feed(st, report, max_bytes)) == all_hunks(st));
    } else {
        let begun = if begins_hunk(st, report) {
            begin_hunk(st, report)
        } else {
            st
        };
        if begins_hunk(st, report) {
            let opened = begun.current->0;
            assert(begun.hunks == all_hunks(st));
            lemma_held_push(begun.hunks, opened);
            lemma_line_bytes_none();
            assert(unloaded_hold_nothing(all_hunks(begun))) by {
                assert forall|i: int|
                    0 <= i < all_hunks(begun).len() && !(#[trigger] all_hunks(
                        begun,
                    )[i]).is_loaded implies all_hunks(begun)[i].lines.len() == 0 by {
                    if i < begun.hunks.len() {
                        assert(all_hunks(begun)[i] == all_hunks(st)[i]);
                    }
                }
            }
        }
        assert(in_budget(begun, max_bytes));
        let next = count_line(begun, report.line, max_bytes);
        match begun.current {
            None => {},
            Some(c) => {
                if !begun.exceeded {
                    let bytes = capped_sum(begun.bytes, byte_len(report.line.content));
                    lemma_held_push(begun.hunks, c);
                    let now = next.current->0;
                    lemma_held_push(next.hunks, now);
                    if bytes > max_bytes {
                        lemma_line_bytes_none();
                    } else {
                        lemma_line_bytes_push(c.lines, report.line);
                    }
                    assert(unloaded_hold_nothing(all_hunks(next))) by {
                        assert forall|i: int|
                            0 <= i < all_hunks(next).len() && !(#[trigger] all_hunks(
                                next,
                            )[i]).is_loaded implies all_hunks(next)[i].lines.len() == 0 by {
                            if i < next.hunks.len() {
                                assert(all_hunks(next)[i] == all_hunks(begun)[i]);
                            } else {
                                assert(all_hunks(begun)[i] == c);
                            }
                        }
                    }
                } else {
                    assert(all_hunks(next) == all_hunks(begun));
                }
            },
        }

    }
}

/// The budget bounds what is held: however many lines a diff has, the lines
/// that are held after any number of reports take no more bytes than the
/// budget, and a hunk that is not loaded holds no line. This is said of a
/// budget below the largest `usize`, which stands for no limit.
pub proof fn lemma_budget_bounds_held_lines(reports: Seq<Report>, max_bytes: nat, n: nat)
    requires
        max_bytes < usize::MAX,
    ensures
        held_bytes(all_hunks(fed(reports, max_bytes, n))) <= max_bytes,
        unloaded_hold_nothing(all_hunks(fed(reports, max_bytes, n))),
        in_budget(fed(reports, max_bytes, n), max_bytes),
    decreases n,
{
    if n > 0 {
        lemma_budget_bounds_held_lines(reports, max_bytes, (n - 1) as nat);
        lemma_feed_in_budget(fed(reports, max_bytes, (n - 1) as nat), reports[n - 1], max_bytes);
    }
}

} // verus!
