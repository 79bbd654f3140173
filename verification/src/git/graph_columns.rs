//! Columns are used again: no row lies further right than there were
//! branches open at one time.

use vstd::prelude::*;
use crate::git::commit::Node;
use crate::git::graph::{
    arrive, draw, first_free, graph_rows, layout, link_first_parent, link_merge_parent,
    link_merge_parents, place, resolve, Draft, Lanes,
};
use crate::git::graph_laws::{lemma_place_keeps, lemma_place_last};
use crate::seqs::lemma_first_index;

verus! {

/// Number of columns that are reserved.
pub open spec fn open_count(active: Seq<Option<Seq<char>>>) -> nat
    decreases active.len(),
{
    if active.len() == 0 {
        0
    } else {
        open_count(active.drop_last()) + if active.last() is Some {
            1nat
        } else {
            0nat
        }
    }
}

/// The greatest number of columns that were reserved at one time, between
/// any two of the first `n` rows or after them.
pub open spec fn peak_open(commits: Seq<Node>, n: nat) -> nat
    decreases n,
{
    let now = open_count(layout(commits, n).lanes.active);
    if n == 0 {
        now
    } else if peak_open(commits, (n - 1) as nat) >= now {
        peak_open(commits, (n - 1) as nat)
    } else {
        now
    }
}

/// Every reserved column lies left of column `m`.
pub open spec fn within(lanes: Lanes, m: int) -> bool {
    forall|h: Seq<char>| #[trigger] lanes.reserved.contains_key(h) ==> lanes.reserved[h] < m
}

/// The greater of two numbers.
pub open spec fn larger(a: int, b: int) -> int {
    if a >= b {
        a
    } else {
        b
    }
}

/// Where the first `k` columns are all reserved, at least `k` columns are.
proof fn lemma_open_count(active: Seq<Option<Seq<char>>>, k: int)
    requires
        0 <= k <= active.len(),
        forall|i: int| 0 <= i < k ==> (#[trigger] active[i]) is Some,
    ensures
        open_count(active) >= k,
    decreases active.len(),
{
    if active.len() > 0 {
        let front = active.drop_last();
        if k < active.len() {
            assert forall|i: int| 0 <= i < k implies (#[trigger] front[i]) is Some by {
                assert(active[i] is Some);
            }
            lemma_open_count(front, k);
        } else {
            assert forall|i: int| 0 <= i < k - 1 implies (#[trigger] front[i]) is Some by {
                assert(active[i] is Some);
            }
            lemma_open_count(front, k - 1);
            assert(active[k - 1] is Some);
        }
    }
}

/// The lowest free column has only reserved columns to its left, so at
/// least as many columns are reserved.
proof fn lemma_first_free(active: Seq<Option<Seq<char>>>)
    ensures
        first_free(active) <= active.len(),
        first_free(active) <= open_count(active),
        first_free(active) < active.len() ==> active[first_free(active) as int] is None,
        forall|i: int| 0 <= i < first_free(active) ==> (#[trigger] active[i]) is Some,
{
    lemma_first_index(active, |c: Option<Seq<char>>| c is None);
    lemma_open_count(active, first_free(active) as int);
}

/// Where the first `k` columns are all reserved, the lowest free column is
/// none of them.
proof fn lemma_first_free_behind(active: Seq<Option<Seq<char>>>, k: int)
    requires
        0 <= k <= active.len(),
        forall|i: int| 0 <= i < k ==> (#[trigger] active[i]) is Some,
    ensures
        first_free(active) >= k,
{
    lemma_first_free(active);
    let f = first_free(active) as int;
    if f < k {
        assert(active[f] is Some);
    }
}

/// When a commit has arrived, its column lies no further right than the
/// greater of `m` and the number of reserved columns.
proof fn lemma_arrive_within(lanes: Lanes, hash: Seq<char>, m: int)
    requires
        lanes.wf(),
        within(lanes, m),
    ensures
        ({
            let (column, is_tip) = resolve(lanes, hash);
            let d = arrive(lanes, column);
            &&& 0 <= column < d.lanes.active.len()
            &&& column <= larger(m, open_count(lanes.active) as int)
            &&& d.lanes.wf()
            &&& within(d.lanes, m)
            &&& column < m || forall|i: int| 0 <= i < column ==> (#[trigger] d.lanes.active[i]) is Some
        }),
{
    let (column, is_tip) = resolve(lanes, hash);
    let d = arrive(lanes, column);
    lemma_first_free(lanes.active);
    if !lanes.reserved.contains_key(hash) {
        assert forall|i: int| 0 <= i < column implies (#[trigger] d.lanes.active[i]) is Some by {
            assert(lanes.active[i] is Some);
        }
    }
}

/// The line to the first parent keeps every reserved column left of the
/// greater of `m` and the lowest free column.
proof fn lemma_link_first_within(d: Draft, parent: Seq<char>, column: int, m: int)
    requires
        d.lanes.wf(),
        within(d.lanes, m),
        0 <= column < d.lanes.active.len(),
        column < m || forall|i: int| 0 <= i < column ==> (#[trigger] d.lanes.active[i]) is Some,
    ensures
        ({
            let e = link_first_parent(d, parent, column);
            &&& e.lanes.wf()
            &&& within(e.lanes, larger(m, first_free(e.lanes.active) as int))
        }),
{
    let e = link_first_parent(d, parent, column);
    if !d.lanes.reserved.contains_key(parent) || column < d.lanes.reserved[parent] {
        if column >= m {
            assert forall|i: int| 0 <= i < column + 1 implies (#[trigger] e.lanes.active[i]) is Some by {
                if i < column {
                    assert(d.lanes.active[i] is Some);
                }
            }
            lemma_first_free_behind(e.lanes.active, column + 1);
        }
        assert forall|h: Seq<char>| #[trigger] e.lanes.reserved.contains_key(h) implies 0
            <= e.lanes.reserved[h] < e.lanes.active.len() && e.lanes.reserved[h] < larger(
            m,
            first_free(e.lanes.active) as int,
        ) by {
            if h != parent {
                assert(d.lanes.reserved.contains_key(h));
            }
        }
    }
}

/// The line to one more parent of a merge keeps every reserved column left
/// of the greater of `m` and the lowest free column.
proof fn lemma_link_merge_within(d: Draft, parent: Seq<char>, column: int, m: int)
    requires
        d.lanes.wf(),
        within(d.lanes, larger(m, first_free(d.lanes.active) as int)),
    ensures
        ({
            let e = link_merge_parent(d, parent, column);
            &&& e.lanes.wf()
            &&& within(e.lanes, larger(m, first_free(e.lanes.active) as int))
        }),
{
    let e = link_merge_parent(d, parent, column);
    lemma_first_free(d.lanes.active);
    if !d.lanes.reserved.contains_key(parent) {
        let target = first_free(d.lanes.active) as int;
        assert forall|i: int| 0 <= i < target + 1 implies (#[trigger] e.lanes.active[i]) is Some by {
            if i < target {
                assert(d.lanes.active[i] is Some);
            }
        }
        lemma_first_free_behind(e.lanes.active, target + 1);
        assert forall|h: Seq<char>| #[trigger] e.lanes.reserved.contains_key(h) implies 0
            <= e.lanes.reserved[h] < e.lanes.active.len() && e.lanes.reserved[h] < larger(
            m,
            first_free(e.lanes.active) as int,
        ) by {
            if h != parent {
                assert(d.lanes.reserved.contains_key(h));
            }
        }
    }
}

proof fn lemma_link_merges_within(
    d: Draft,
    parents: Seq<Seq<char>>,
    column: int,
    m: int,
    k: nat,
)
    requires
        d.lanes.wf(),
        within(d.lanes, larger(m, first_free(d.lanes.active) as int)),
    ensures
        ({
            let e = link_merge_parents(d, parents, column, k);
            &&& e.lanes.wf()
            &&& within(e.lanes, larger(m, first_free(e.lanes.active) as int))
        }),
    decreases k,
{
    if k > 1 {
        lemma_link_merges_within(d, parents, column, m, (k - 1) as nat);
        lemma_link_merge_within(
            link_merge_parents(d, parents, column, (k - 1) as nat),
            parents[k - 1],
            column,
            m,
        );
    }
}

/// A row lies no further right than the greater of `m` and the number of
/// reserved columns before it, and leaves every reserved column left of the
/// greater of `m` and the number of reserved columns after it.
proof fn lemma_draw_within(lanes: Lanes, node: Node, m: int)
    requires
        lanes.wf(),
        within(lanes, m),
    ensures
        ({
            let column = resolve(lanes, node.hash).0;
            let e = draw(lanes, node, column);
            &&& 0 <= column <= larger(m, open_count(lanes.active) as int)
            &&& e.lanes.wf()
            &&& within(e.lanes, larger(m, open_count(e.lanes.active) as int))
        }),
{
    let column = resolve(lanes, node.hash).0;
    let e = draw(lanes, node, column);
    lemma_arrive_within(lanes, node.hash, m);
    let d = arrive(lanes, column);
    let first = if node.parents.len() > 0 {
        link_first_parent(d, node.parents[0], column)
    } else {
        d
    };
    if node.parents.len() > 0 {
        lemma_link_first_within(d, node.parents[0], column, m);
    }
    lemma_link_merges_within(first, node.parents, column, m, node.parents.len());
    lemma_first_free(e.lanes.active);
}

/// The peak never falls, and is at least the number of columns reserved now.
proof fn lemma_peak_grows(commits: Seq<Node>, k: nat, n: nat)
    requires
        k <= n,
    ensures
        peak_open(commits, k) <= peak_open(commits, n),
        open_count(layout(commits, n).lanes.active) <= peak_open(commits, n),
    decreases n,
{
    if k < n {
        lemma_peak_grows(commits, k, (n - 1) as nat);
    }
}

proof fn lemma_columns_upto(commits: Seq<Node>, n: nat)
    ensures
        layout(commits, n).rows.len() == n,
        layout(commits, n).lanes.wf(),
        within(layout(commits, n).lanes, peak_open(commits, n) as int),
        forall|i: int|
            0 <= i < n ==> 0 <= (#[trigger] layout(commits, n).rows[i]).column <= peak_open(
                commits,
                i as nat,
            ),
    decreases n,
{
    if n > 0 {
        let k = (n - 1) as nat;
        let st = layout(commits, k);
        let next = place(st, commits, k as int);
        lemma_columns_upto(commits, k);
        lemma_place_last(st, commits, k as int);
        lemma_draw_within(st.lanes, commits[k as int], peak_open(commits, k) as int);
        lemma_peak_grows(commits, k, k);
        assert forall|i: int| 0 <= i < n implies 0 <= (#[trigger] next.rows[i]).column
            <= peak_open(commits, i as nat) by {
            if i < k {
                lemma_place_keeps(st, commits, k as int, i);
            }
        }
    }
}

/// Convergence frees columns: no row lies further right than there were
/// branches open at one time, up to that row. Columns that a branch has left
/// are taken again; the graph does not grow to the right with its length.
pub proof fn lemma_columns_are_reused(commits: Seq<Node>, i: int)
    requires
        0 <= i < commits.len(),
    ensures
        0 <= graph_rows(commits)[i].column <= peak_open(commits, i as nat),
{
    lemma_columns_upto(commits, commits.len());
}

} // verus!
