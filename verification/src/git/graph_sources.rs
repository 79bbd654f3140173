//! Every line that enters a node from above begins in the row above.

use vstd::prelude::*;
use crate::git::commit::Node;
use crate::git::graph::{
    arrive, draw, drop_pass_through, first_parent, from_above, graph_rows, incoming,
    last_child, layout, leads_to, lemma_last_child_local, link_first_parent, link_merge_parent,
    link_merge_parents, passes_through, place, resolve, retarget, takes_over,
    to_parent, with_column, Draft, Edge, GraphLineType, Lanes, Layout, Row,
};
use crate::git::graph_laws::lemma_place_last;
use crate::seqs::{first_index, lemma_first_index};

verus! {

/// Whether a commit with hash `h` is among the first `n` commits.
pub open spec fn arrived(commits: Seq<Node>, n: nat, h: Seq<char>) -> bool {
    exists|i: int| 0 <= i < n && (#[trigger] commits[i]).hash == h
}

/// No two commits have the same hash.
pub open spec fn distinct_hashes(commits: Seq<Node>) -> bool {
    forall|i: int, j: int|
        0 <= i < j < commits.len() ==> (#[trigger] commits[i]).hash != (#[trigger] commits[j]).hash
}

/// First parents come after their children: the first parent of a commit
/// is neither the commit itself nor a commit before it.
pub open spec fn parents_follow(commits: Seq<Node>) -> bool {
    forall|i: int, j: int|
        0 <= j <= i < commits.len() && commits[i].parents.len() > 0 ==> (
        #[trigger] commits[i]).parents[0] != (#[trigger] commits[j]).hash
}

/// Whether a line ends in column `c` of the row below: a line to a parent in
/// that column, or a line that passes through it.
pub open spec fn feeds(line: Edge, c: int) -> bool {
    (line.kind == GraphLineType::ToParent && line.to == c) || (line.kind
        == GraphLineType::PassThrough && line.from == c)
}

/// Whether one of the lines ends in column `c` of the row below.
pub open spec fn has_source(lines: Seq<Edge>, c: int) -> bool {
    exists|j: int| 0 <= j < lines.len() && feeds(#[trigger] lines[j], c)
}

/// Every reservation of a commit that is yet to come holds its column.
pub open spec fn live(lanes: Lanes, commits: Seq<Node>, n: nat) -> bool {
    &&& lanes.wf()
    &&& forall|h: Seq<char>| #[trigger]
        lanes.reserved.contains_key(h) && !arrived(commits, n, h) ==> lanes.active[lanes.reserved[h]]
            == Some(h)
}

/// Every reserved column has a line of the row that ends in it.
pub open spec fn fed(d: Draft) -> bool {
    forall|c: int|
        0 <= c < d.lanes.active.len() && (#[trigger] d.lanes.active[c]) is Some ==> has_source(
            d.lines,
            c,
        )
}

/// Every line of the row that comes from above enters the node in column `column`.
pub open spec fn enters_at(lines: Seq<Edge>, column: int) -> bool {
    forall|j: int|
        0 <= j < lines.len() && (#[trigger] lines[j]).kind == GraphLineType::FromAbove
            ==> lines[j].from == column
}

/// Whether one of the lines comes from above.
pub open spec fn comes_from_above(lines: Seq<Edge>) -> bool {
    exists|j: int| 0 <= j < lines.len() && (#[trigger] lines[j]).kind == GraphLineType::FromAbove
}

/// The lines that enter a row: one for each reserved column, and no other.
proof fn lemma_incoming(active: Seq<Option<Seq<char>>>, column: int, n: nat)
    requires
        n <= active.len(),
    ensures
        forall|c: int|
            0 <= c < n && (#[trigger] active[c]) is Some ==> exists|j: int|
                0 <= j < incoming(active, column, n).len() && #[trigger] incoming(
                    active,
                    column,
                    n,
                )[j] == from_above(c, column),
        forall|j: int|
            0 <= j < incoming(active, column, n).len() ==> exists|c: int|
                0 <= c < n && active[c] is Some && #[trigger] incoming(active, column, n)[j]
                    == from_above(c, column),
    decreases n,
{
    if n > 0 {
        lemma_incoming(active, column, (n - 1) as nat);
        let before = incoming(active, column, (n - 1) as nat);
        let now = incoming(active, column, n);
        assert forall|c: int| 0 <= c < n && (#[trigger] active[c]) is Some implies exists|j: int|
            0 <= j < now.len() && #[trigger] now[j] == from_above(c, column) by {
            if c < n - 1 {
                let j = choose|j: int|
                    0 <= j < before.len() && #[trigger] before[j] == from_above(c, column);
                assert(now[j] == from_above(c, column));
            } else {
                assert(now[now.len() - 1] == from_above(c, column));
            }
        }
        assert forall|j: int| 0 <= j < now.len() implies exists|c: int|
            0 <= c < n && active[c] is Some && #[trigger] now[j] == from_above(c, column) by {
            if j < before.len() {
                let c = choose|c: int|
                    0 <= c < n - 1 && active[c] is Some && #[trigger] before[j] == from_above(
                        c,
                        column,
                    );
                assert(0 <= c < n && active[c] is Some && now[j] == from_above(c, column));
            } else {
                assert(active[n - 1] is Some && now[j] == from_above(n - 1, column));
            }
        }
    }
}

/// Dropping the lines that pass through a column keeps every other line, and
/// brings in no line.
proof fn lemma_drop_pass_through(lines: Seq<Edge>, column: int)
    ensures
        forall|j: int|
            0 <= j < lines.len() && !passes_through(#[trigger] lines[j], column) ==> exists|k: int|
                0 <= k < drop_pass_through(lines, column).len() && #[trigger] drop_pass_through(
                    lines,
                    column,
                )[k] == lines[j],
        forall|k: int|
            0 <= k < drop_pass_through(lines, column).len() ==> exists|j: int|
                0 <= j < lines.len() && lines[j] == #[trigger] drop_pass_through(lines, column)[k],
    decreases lines.len(),
{
    if lines.len() > 0 {
        let front = lines.drop_last();
        lemma_drop_pass_through(front, column);
        let before = drop_pass_through(front, column);
        let now = drop_pass_through(lines, column);
        assert forall|j: int|
            0 <= j < lines.len() && !passes_through(#[trigger] lines[j], column) implies exists|
            k: int,
        | 0 <= k < now.len() && #[trigger] now[k] == lines[j] by {
            if j < front.len() {
                assert(front[j] == lines[j]);
                let k = choose|k: int| 0 <= k < before.len() && #[trigger] before[k] == front[j];
                assert(now[k] == lines[j]);
            } else {
                assert(now[now.len() - 1] == lines[j]);
            }
        }
        assert forall|k: int| 0 <= k < now.len() implies exists|j: int|
            0 <= j < lines.len() && lines[j] == #[trigger] now[k] by {
            if k < before.len() {
                let j = choose|j: int| 0 <= j < front.len() && front[j] == #[trigger] before[k];
                assert(lines[j] == now[k]);
            } else {
                assert(lines[lines.len() - 1] == now[k]);
            }
        }
    }
}

/// A commit that has come is among the commits that have come by any later row.
proof fn lemma_arrived_later(commits: Seq<Node>, n: nat, h: Seq<char>)
    ensures
        arrived(commits, n, h) ==> arrived(commits, n + 1, h),
        arrived(commits, n + 1, commits[n as int].hash),
        arrived(commits, n + 1, h) ==> arrived(commits, n, h) || h == commits[n as int].hash,
{
    if arrived(commits, n, h) {
        let i = choose|i: int| 0 <= i < n && (#[trigger] commits[i]).hash == h;
        assert(0 <= i < n + 1 && commits[i].hash == h);
    }
    assert(0 <= n < n + 1 && commits[n as int].hash == commits[n as int].hash);
    if arrived(commits, n + 1, h) {
        let i = choose|i: int| 0 <= i < n + 1 && (#[trigger] commits[i]).hash == h;
        if i < n {
            assert(0 <= i < n && commits[i].hash == h);
        }
    }
}

/// What holds when commit `n` has arrived in its row: its column is free,
/// the reservations of the commits yet to come still hold, every column
/// that is still reserved has a line passing through it, and a line from
/// above enters the node only where the column was reserved.
proof fn lemma_arrive(lanes: Lanes, commits: Seq<Node>, n: nat)
    requires
        live(lanes, commits, n),
        !arrived(commits, n, commits[n as int].hash),
    ensures
        ({
            let column = resolve(lanes, commits[n as int].hash).0;
            let d = arrive(lanes, column);
            &&& 0 <= column < d.lanes.active.len()
            &&& lanes.active.len() <= d.lanes.active.len()
            &&& d.lanes.active[column] is None
            &&& d.lanes.reserved == lanes.reserved
            &&& live(d.lanes, commits, n + 1)
            &&& fed(d)
            &&& enters_at(d.lines, column)
            &&& comes_from_above(d.lines) ==> column < lanes.active.len()
                && lanes.active[column] is Some
            &&& lanes.reserved.contains_key(commits[n as int].hash) ==> comes_from_above(d.lines)
            &&& forall|h: Seq<char>| #[trigger]
                lanes.reserved.contains_key(h) && !arrived(commits, n + 1, h)
                    ==> lanes.reserved[h] != column
        }),
{
    let hash = commits[n as int].hash;
    let column = resolve(lanes, hash).0;
    let d = arrive(lanes, column);
    let wide = with_column(lanes.active, column);
    lemma_first_index(lanes.active, |c: Option<Seq<char>>| c is None);
    if lanes.reserved.contains_key(hash) {
        assert(lanes.active[column] == Some(hash));
    }
    assert(wide[column] is Some ==> lanes.reserved.contains_key(hash));
    lemma_incoming(wide, column, wide.len());
    if lanes.reserved.contains_key(hash) {
        assert(wide[column] is Some);
        let j = choose|j: int|
            0 <= j < d.lines.len() && #[trigger] d.lines[j] == from_above(column, column);
        assert(d.lines[j].kind == GraphLineType::FromAbove);
    }
    assert forall|h: Seq<char>| #[trigger]
        lanes.reserved.contains_key(h) && !arrived(commits, n + 1, h) implies lanes.reserved[h]
        != column && d.lanes.active[lanes.reserved[h]] == Some(h) by {
        lemma_arrived_later(commits, n, h);
        assert(lanes.active[lanes.reserved[h]] == Some(h));
    }
    assert forall|c: int|
        0 <= c < d.lanes.active.len() && (#[trigger] d.lanes.active[c]) is Some implies has_source(
        d.lines,
        c,
    ) by {
        assert(wide[c] is Some);
        let j = choose|j: int|
            0 <= j < d.lines.len() && #[trigger] d.lines[j] == from_above(c, column);
        assert(feeds(d.lines[j], c));
    }
    assert forall|j: int|
        0 <= j < d.lines.len() && (#[trigger] d.lines[j]).kind
            == GraphLineType::FromAbove implies d.lines[j].from == column && column
        < lanes.active.len() && lanes.active[column] is Some by {
        let c = choose|c: int|
            0 <= c < wide.len() && wide[c] is Some && #[trigger] d.lines[j] == from_above(
                c,
                column,
            );
        assert(c == column);
    }
}

/// The reservations of `a` are kept in `b`, but for that of `moved`.
pub open spec fn keeps_reservations(a: Lanes, b: Lanes, moved: Option<Seq<char>>) -> bool {
    forall|h: Seq<char>| #[trigger]
        a.reserved.contains_key(h) ==> b.reserved.contains_key(h) && (Some(h) != moved
            ==> b.reserved[h] == a.reserved[h])
}

/// A line more keeps the sources of a row.
proof fn lemma_push_keeps(lines: Seq<Edge>, line: Edge, column: int)
    requires
        line.kind != GraphLineType::FromAbove,
    ensures
        forall|c: int| has_source(lines, c) ==> has_source(lines.push(line), c),
        has_source(lines.push(line), line.to) || line.kind != GraphLineType::ToParent,
        enters_at(lines, column) ==> enters_at(lines.push(line), column),
        comes_from_above(lines.push(line)) == comes_from_above(lines),
{
    let more = lines.push(line);
    assert forall|c: int| has_source(lines, c) implies has_source(more, c) by {
        let j = choose|j: int| 0 <= j < lines.len() && feeds(#[trigger] lines[j], c);
        assert(feeds(more[j], c));
    }
    if line.kind == GraphLineType::ToParent {
        assert(feeds(more[lines.len() as int], line.to));
    }
    if comes_from_above(lines) {
        let j = choose|j: int|
            0 <= j < lines.len() && (#[trigger] lines[j]).kind == GraphLineType::FromAbove;
        assert(more[j].kind == GraphLineType::FromAbove);
    }
    if comes_from_above(more) {
        let j = choose|j: int|
            0 <= j < more.len() && (#[trigger] more[j]).kind == GraphLineType::FromAbove;
        assert(lines[j].kind == GraphLineType::FromAbove);
    }
    if enters_at(lines, column) {
        assert forall|j: int|
            0 <= j < more.len() && (#[trigger] more[j]).kind
                == GraphLineType::FromAbove implies more[j].from == column by {
            assert(more[j] == lines[j]);
        }
    }
}

/// Dropping the lines that pass through a column keeps the sources of every
/// other column, and the lines from above.
proof fn lemma_drop_keeps(lines: Seq<Edge>, gone: int, column: int)
    ensures
        forall|c: int|
            c != gone && has_source(lines, c) ==> has_source(drop_pass_through(lines, gone), c),
        enters_at(lines, column) ==> enters_at(drop_pass_through(lines, gone), column),
        comes_from_above(drop_pass_through(lines, gone)) == comes_from_above(lines),
{
    let kept = drop_pass_through(lines, gone);
    lemma_drop_pass_through(lines, gone);
    assert forall|c: int| c != gone && has_source(lines, c) implies has_source(kept, c) by {
        let j = choose|j: int| 0 <= j < lines.len() && feeds(#[trigger] lines[j], c);
        assert(!passes_through(lines[j], gone));
        let k = choose|k: int| 0 <= k < kept.len() && #[trigger] kept[k] == lines[j];
        assert(feeds(kept[k], c));
    }
    if comes_from_above(lines) {
        let j = choose|j: int|
            0 <= j < lines.len() && (#[trigger] lines[j]).kind == GraphLineType::FromAbove;
        assert(!passes_through(lines[j], gone));
        let k = choose|k: int| 0 <= k < kept.len() && #[trigger] kept[k] == lines[j];
        assert(kept[k].kind == GraphLineType::FromAbove);
    }
    if comes_from_above(kept) {
        let k = choose|k: int|
            0 <= k < kept.len() && (#[trigger] kept[k]).kind == GraphLineType::FromAbove;
        let j = choose|j: int| 0 <= j < lines.len() && lines[j] == #[trigger] kept[k];
        assert(lines[j].kind == GraphLineType::FromAbove);
    }
    if enters_at(lines, column) {
        assert forall|k: int|
            0 <= k < kept.len() && (#[trigger] kept[k]).kind
                == GraphLineType::FromAbove implies kept[k].from == column by {
            let j = choose|j: int| 0 <= j < lines.len() && lines[j] == #[trigger] kept[k];
            assert(lines[j].from == column);
        }
    }
}

/// The line to the first parent keeps what holds of a row.
proof fn lemma_link_first(d: Draft, commits: Seq<Node>, n: nat, parent: Seq<char>, column: int)
    requires
        live(d.lanes, commits, n),
        fed(d),
        0 <= column < d.lanes.active.len(),
        d.lanes.active[column] is None,
        !arrived(commits, n, parent),
        forall|h: Seq<char>| #[trigger]
            d.lanes.reserved.contains_key(h) && !arrived(commits, n, h) ==> d.lanes.reserved[h]
                != column,
    ensures
        ({
            let e = link_first_parent(d, parent, column);
            &&& live(e.lanes, commits, n)
            &&& fed(e)
            &&& enters_at(d.lines, column) ==> enters_at(e.lines, column)
            &&& comes_from_above(e.lines) == comes_from_above(d.lines)
            &&& e.lanes.reserved.contains_key(parent)
            &&& e.lanes.active.len() == d.lanes.active.len()
            &&& keeps_reservations(d.lanes, e.lanes, Some(parent))
        }),
{
    let e = link_first_parent(d, parent, column);
    let straight = to_parent(column, column, false);
    if !d.lanes.reserved.contains_key(parent) {
        lemma_push_keeps(d.lines, straight, column);
        assert forall|c: int|
            0 <= c < e.lanes.active.len() && (#[trigger] e.lanes.active[c]) is Some implies has_source(
            e.lines,
            c,
        ) by {
            if c != column {
                assert(d.lanes.active[c] is Some);
            }
        }
    } else if column < d.lanes.reserved[parent] {
        let old = d.lanes.reserved[parent];
        assert(d.lanes.active[old] == Some(parent));
        let more = d.lines.push(straight);
        lemma_push_keeps(d.lines, straight, column);
        lemma_drop_keeps(more, old, column);
        assert forall|c: int|
            0 <= c < e.lanes.active.len() && (#[trigger] e.lanes.active[c]) is Some implies has_source(
            e.lines,
            c,
        ) by {
            if c != column {
                assert(d.lanes.active[c] is Some);
                assert(has_source(more, c));
            }
        }
        assert forall|h: Seq<char>| #[trigger]
            e.lanes.reserved.contains_key(h) && !arrived(commits, n, h) implies e.lanes.active[e.lanes.reserved[h]]
            == Some(h) by {
            if h != parent {
                assert(d.lanes.reserved.contains_key(h));
                assert(d.lanes.active[d.lanes.reserved[h]] == Some(h));
            }
        }
    } else {
        let bent = to_parent(column, d.lanes.reserved[parent], false);
        lemma_push_keeps(d.lines, bent, column);
    }
}

/// The line to one more parent of a merge keeps what holds of a row.
proof fn lemma_link_merge(d: Draft, commits: Seq<Node>, n: nat, parent: Seq<char>, column: int)
    requires
        live(d.lanes, commits, n),
        fed(d),
    ensures
        ({
            let e = link_merge_parent(d, parent, column);
            &&& live(e.lanes, commits, n)
            &&& fed(e)
            &&& enters_at(d.lines, column) ==> enters_at(e.lines, column)
            &&& comes_from_above(e.lines) == comes_from_above(d.lines)
            &&& e.lanes.active.len() >= d.lanes.active.len()
            &&& keeps_reservations(d.lanes, e.lanes, None)
        }),
{
    let e = link_merge_parent(d, parent, column);
    let target = crate::git::graph::merge_target(d.lanes, parent);
    let line = to_parent(column, target, true);
    lemma_push_keeps(d.lines, line, column);
    lemma_first_index(d.lanes.active, |c: Option<Seq<char>>| c is None);
    if !d.lanes.reserved.contains_key(parent) {
        assert forall|c: int|
            0 <= c < e.lanes.active.len() && (#[trigger] e.lanes.active[c]) is Some implies has_source(
            e.lines,
            c,
        ) by {
            if c != target {
                assert(d.lanes.active[c] is Some);
            }
        }
        assert forall|h: Seq<char>| #[trigger]
            e.lanes.reserved.contains_key(h) && !arrived(commits, n, h) implies e.lanes.active[e.lanes.reserved[h]]
            == Some(h) by {
            if h != parent {
                assert(d.lanes.reserved.contains_key(h));
                assert(d.lanes.active[d.lanes.reserved[h]] == Some(h));
            }
        }
    }
}

/// The lines to the further parents of a merge keep what holds of a row.
proof fn lemma_link_merges(
    d: Draft,
    commits: Seq<Node>,
    n: nat,
    parents: Seq<Seq<char>>,
    column: int,
    k: nat,
)
    requires
        live(d.lanes, commits, n),
        fed(d),
    ensures
        ({
            let e = link_merge_parents(d, parents, column, k);
            &&& live(e.lanes, commits, n)
            &&& fed(e)
            &&& enters_at(d.lines, column) ==> enters_at(e.lines, column)
            &&& comes_from_above(e.lines) == comes_from_above(d.lines)
            &&& e.lanes.active.len() >= d.lanes.active.len()
            &&& keeps_reservations(d.lanes, e.lanes, None)
        }),
    decreases k,
{
    if k > 1 {
        lemma_link_merges(d, commits, n, parents, column, (k - 1) as nat);
        let before = link_merge_parents(d, parents, column, (k - 1) as nat);
        lemma_link_merge(before, commits, n, parents[k - 1], column);
    }
}

/// What holds of the row of commit `n` when it is drawn: the reservations
/// of the commits yet to come hold, every reserved column has a line of the
/// row that ends in it, and a line from above enters the node, in the row's
/// column, only where that column was reserved.
proof fn lemma_draw(lanes: Lanes, commits: Seq<Node>, n: nat)
    requires
        live(lanes, commits, n),
        !arrived(commits, n, commits[n as int].hash),
        commits[n as int].parents.len() > 0 ==> !arrived(
            commits,
            n + 1,
            commits[n as int].parents[0],
        ),
    ensures
        ({
            let node = commits[n as int];
            let column = resolve(lanes, node.hash).0;
            let e = draw(lanes, node, column);
            &&& 0 <= column
            &&& live(e.lanes, commits, n + 1)
            &&& fed(e)
            &&& enters_at(e.lines, column)
            &&& comes_from_above(e.lines) ==> column < lanes.active.len()
                && lanes.active[column] is Some
            &&& lanes.reserved.contains_key(node.hash) ==> comes_from_above(e.lines)
            &&& e.lanes.active.len() >= lanes.active.len()
            &&& keeps_reservations(lanes, e.lanes, first_parent(node))
            &&& node.parents.len() > 0 ==> e.lanes.reserved.contains_key(node.parents[0])
        }),
{
    let node = commits[n as int];
    let column = resolve(lanes, node.hash).0;
    lemma_arrive(lanes, commits, n);
    let arrived_at = arrive(lanes, column);
    let first = if node.parents.len() > 0 {
        link_first_parent(arrived_at, node.parents[0], column)
    } else {
        arrived_at
    };
    if node.parents.len() > 0 {
        lemma_link_first(arrived_at, commits, n + 1, node.parents[0], column);
    }
    lemma_link_merges(first, commits, n + 1, node.parents, column, node.parents.len());
}

/// Turning a line to a first parent from column `old` to another column
/// keeps the sources of every other column, and the lines from above.
proof fn lemma_retarget_keeps(lines: Seq<Edge>, old: int, new: int, column: int)
    ensures
        forall|c: int|
            c != old && has_source(lines, c) ==> has_source(retarget(lines, old, new), c),
        enters_at(lines, column) ==> enters_at(retarget(lines, old, new), column),
        comes_from_above(retarget(lines, old, new)) == comes_from_above(lines),
{
    let turned = retarget(lines, old, new);
    let k = first_index(lines, |l: Edge| leads_to(l, old)) as int;
    lemma_first_index(lines, |l: Edge| leads_to(l, old));
    if k < lines.len() {
        assert(leads_to(lines[k], old));
        assert forall|c: int| c != old && has_source(lines, c) implies has_source(turned, c) by {
            let j = choose|j: int| 0 <= j < lines.len() && feeds(#[trigger] lines[j], c);
            assert(j != k);
            assert(feeds(turned[j], c));
        }
        if comes_from_above(lines) {
            let j = choose|j: int|
                0 <= j < lines.len() && (#[trigger] lines[j]).kind == GraphLineType::FromAbove;
            assert(turned[j].kind == GraphLineType::FromAbove);
        }
        if comes_from_above(turned) {
            let j = choose|j: int|
                0 <= j < turned.len() && (#[trigger] turned[j]).kind == GraphLineType::FromAbove;
            assert(lines[j].kind == GraphLineType::FromAbove);
        }
        if enters_at(lines, column) {
            assert forall|j: int|
                0 <= j < turned.len() && (#[trigger] turned[j]).kind
                    == GraphLineType::FromAbove implies turned[j].from == column by {
                assert(lines[j].kind == GraphLineType::FromAbove);
            }
        }
    }
}

/// Whether commit `n` takes its first parent over from a column further right.
pub open spec fn moves_parent(st: Layout, commits: Seq<Node>, n: int) -> bool {
    commits[n].parents.len() > 0 && takes_over(
        st.lanes,
        commits[n].parents[0],
        resolve(st.lanes, commits[n].hash).0,
    )
}

/// The rows that `place` leaves behind, but for the last: those it found,
/// with one line turned in the row of the last child of a parent that moved.
proof fn lemma_place_rows(st: Layout, commits: Seq<Node>, n: int, i: int)
    requires
        0 <= i < st.rows.len(),
    ensures
        ({
            let next = place(st, commits, n);
            let p = commits[n].parents[0];
            &&& next.rows.len() == st.rows.len() + 1
            &&& next.rows[i].column == st.rows[i].column
            &&& next.rows[i].is_tip == st.rows[i].is_tip
            &&& next.rows[i].lines == if moves_parent(st, commits, n) && i == last_child(
                commits,
                p,
                st.rows.len(),
            ) {
                retarget(
                    st.rows[i].lines,
                    st.lanes.reserved[p],
                    resolve(st.lanes, commits[n].hash).0,
                )
            } else {
                st.rows[i].lines
            }
        }),
{
    let p = commits[n].parents[0];
    lemma_last_child_local(commits, commits, p, st.rows.len());
}

/// Every line that comes from above enters the node in its row's column.
pub open spec fn rows_enter(rows: Seq<Row>) -> bool {
    forall|i: int| 0 <= i < rows.len() ==> enters_at((#[trigger] rows[i]).lines, rows[i].column)
}

/// Every row but the first that has a line from above has its source in the
/// row above it.
pub open spec fn rows_fed(rows: Seq<Row>) -> bool {
    forall|i: int|
        0 < i < rows.len() && comes_from_above((#[trigger] rows[i]).lines) ==> has_source(
            rows[i - 1].lines,
            rows[i].column,
        )
}

/// Every row of a commit that is no tip has a line from above.
pub open spec fn rows_entered(rows: Seq<Row>) -> bool {
    forall|i: int|
        0 <= i < rows.len() && !(#[trigger] rows[i]).is_tip ==> comes_from_above(rows[i].lines)
}

/// The row below the last child of a parent that is yet to come is not in
/// the column that is reserved for that parent.
pub open spec fn clear_below_child(st: Layout, commits: Seq<Node>, n: nat) -> bool {
    forall|p: Seq<char>| #[trigger]
        st.lanes.reserved.contains_key(p) && !arrived(commits, n, p) ==> {
            let r = last_child(commits, p, n);
            r >= 0 && r + 1 < n ==> st.rows[r + 1].column != st.lanes.reserved[p]
        }
}

/// Every first parent of a commit that has come has a column reserved.
pub open spec fn children_reserve(st: Layout, commits: Seq<Node>, n: nat) -> bool {
    forall|p: Seq<char>| #[trigger]
        last_child(commits, p, n) >= 0 ==> st.lanes.reserved.contains_key(p)
}

/// What holds of the layout after `n` commits of a well-ordered history.
pub open spec fn sound(commits: Seq<Node>, n: nat) -> bool {
    let st = layout(commits, n);
    &&& st.rows.len() == n
    &&& live(st.lanes, commits, n)
    &&& n > 0 ==> fed(Draft { lanes: st.lanes, lines: st.rows[n - 1].lines })
    &&& rows_enter(st.rows)
    &&& rows_fed(st.rows)
    &&& rows_entered(st.rows)
    &&& clear_below_child(st, commits, n)
    &&& children_reserve(st, commits, n)
}

/// In a well-ordered history, commit `n` has not come before, and its first
/// parent has not come by its row.
proof fn lemma_yet_to_come(commits: Seq<Node>, n: nat)
    requires
        distinct_hashes(commits),
        parents_follow(commits),
        n < commits.len(),
    ensures
        row_to_come(commits, n),
{
    if arrived(commits, n, commits[n as int].hash) {
        let i = choose|i: int|
            0 <= i < n && (#[trigger] commits[i]).hash == commits[n as int].hash;
        assert(commits[i].hash != commits[n as int].hash);
    }
    if commits[n as int].parents.len() > 0 {
        let p = commits[n as int].parents[0];
        if arrived(commits, n + 1, p) {
            let j = choose|j: int| 0 <= j < n + 1 && (#[trigger] commits[j]).hash == p;
            assert(commits[n as int].parents[0] != commits[j].hash);
        }
    }
}

/// What a well-ordered history gives for the row of commit `n`: the commit
/// has not come before, and its first parent has not come by its row.
pub open spec fn row_to_come(commits: Seq<Node>, n: nat) -> bool {
    &&& !arrived(commits, n, commits[n as int].hash)
    &&& commits[n as int].parents.len() > 0 ==> !arrived(
        commits,
        n + 1,
        commits[n as int].parents[0],
    )
}

proof fn lemma_step_rows_enter(commits: Seq<Node>, n: nat)
    requires
        sound(commits, n),
        row_to_come(commits, n),
    ensures
        rows_enter(layout(commits, n + 1).rows),
{
    let st = layout(commits, n);
    let next = place(st, commits, n as int);
    let node = commits[n as int];
    let column = resolve(st.lanes, node.hash).0;
    lemma_place_last(st, commits, n as int);
    lemma_draw(st.lanes, commits, n);
    assert forall|i: int| 0 <= i < next.rows.len() implies enters_at(
        (#[trigger] next.rows[i]).lines,
        next.rows[i].column,
    ) by {
        if i < n {
            lemma_place_rows(st, commits, n as int, i);
            lemma_retarget_keeps(
                st.rows[i].lines,
                st.lanes.reserved[node.parents[0]],
                column,
                st.rows[i].column,
            );
            assert(enters_at(st.rows[i].lines, st.rows[i].column));
        }
    }
}

proof fn lemma_step_rows_entered(commits: Seq<Node>, n: nat)
    requires
        sound(commits, n),
        row_to_come(commits, n),
    ensures
        rows_entered(layout(commits, n + 1).rows),
{
    let st = layout(commits, n);
    let next = place(st, commits, n as int);
    let node = commits[n as int];
    let column = resolve(st.lanes, node.hash).0;
    lemma_place_last(st, commits, n as int);
    lemma_draw(st.lanes, commits, n);
    assert forall|i: int|
        0 <= i < next.rows.len() && !(#[trigger] next.rows[i]).is_tip implies comes_from_above(
        next.rows[i].lines,
    ) by {
        if i < n {
            lemma_place_rows(st, commits, n as int, i);
            lemma_retarget_keeps(
                st.rows[i].lines,
                st.lanes.reserved[node.parents[0]],
                column,
                st.rows[i].column,
            );
            assert(!st.rows[i].is_tip);
        }
    }
}

proof fn lemma_step_rows_fed(commits: Seq<Node>, n: nat)
    requires
        sound(commits, n),
        row_to_come(commits, n),
    ensures
        rows_fed(layout(commits, n + 1).rows),
{
    let st = layout(commits, n);
    let next = place(st, commits, n as int);
    let node = commits[n as int];
    let column = resolve(st.lanes, node.hash).0;
    let p = node.parents[0];
    let old = st.lanes.reserved[p];
    let r = last_child(commits, p, n);
    lemma_place_last(st, commits, n as int);
    lemma_draw(st.lanes, commits, n);
    assert forall|i: int|
        0 < i < next.rows.len() && comes_from_above((#[trigger] next.rows[i]).lines) implies has_source(
        next.rows[i - 1].lines,
        next.rows[i].column,
    ) by {
        lemma_place_rows(st, commits, n as int, i - 1);
        lemma_retarget_keeps(st.rows[i - 1].lines, old, column, next.rows[i].column);
        if i < n {
            lemma_place_rows(st, commits, n as int, i);
            lemma_retarget_keeps(st.rows[i].lines, old, column, st.rows[i].column);
            assert(comes_from_above(st.rows[i].lines));
            assert(has_source(st.rows[i - 1].lines, st.rows[i].column));
            if moves_parent(st, commits, n as int) && i - 1 == r {
                lemma_arrived_later(commits, n, p);
                assert(st.lanes.reserved.contains_key(p) && !arrived(commits, n, p));
                assert(st.rows[r + 1].column != old);
            }
        } else {
            assert(st.lanes.active[column] is Some);
            assert(has_source(st.rows[n - 1].lines, column));
        }
    }
}

proof fn lemma_step_children_reserve(commits: Seq<Node>, n: nat)
    requires
        sound(commits, n),
        row_to_come(commits, n),
    ensures
        children_reserve(layout(commits, n + 1), commits, n + 1),
{
    let st = layout(commits, n);
    let next = place(st, commits, n as int);
    let node = commits[n as int];
    lemma_place_last(st, commits, n as int);
    lemma_draw(st.lanes, commits, n);
    assert forall|p: Seq<char>| #[trigger] last_child(commits, p, n + 1) >= 0 implies next.lanes.reserved.contains_key(
    p) by {
        if first_parent(node) != Some(p) {
            assert(last_child(commits, p, n) >= 0);
            assert(st.lanes.reserved.contains_key(p));
        }
    }
}

proof fn lemma_step_clear_below_child(commits: Seq<Node>, n: nat)
    requires
        sound(commits, n),
        row_to_come(commits, n),
    ensures
        clear_below_child(layout(commits, n + 1), commits, n + 1),
{
    let st = layout(commits, n);
    let next = place(st, commits, n as int);
    let node = commits[n as int];
    let column = resolve(st.lanes, node.hash).0;
    lemma_place_last(st, commits, n as int);
    lemma_draw(st.lanes, commits, n);
    lemma_arrive(st.lanes, commits, n);
    assert forall|p: Seq<char>| #[trigger]
        next.lanes.reserved.contains_key(p) && !arrived(commits, n + 1, p) implies ({
        let r = last_child(commits, p, n + 1);
        r >= 0 && r + 1 < n + 1 ==> next.rows[r + 1].column != next.lanes.reserved[p]
    }) by {
        let r = last_child(commits, p, n + 1);
        if r >= 0 && r + 1 < n + 1 {
            assert(first_parent(node) != Some(p));
            assert(r == last_child(commits, p, n));
            assert(st.lanes.reserved.contains_key(p));
            lemma_arrived_later(commits, n, p);
            assert(next.lanes.reserved[p] == st.lanes.reserved[p]);
            if r + 1 < n {
                lemma_place_rows(st, commits, n as int, r + 1);
            }
        }
    }
}

/// The layout of a well-ordered history stays sound row by row.
proof fn lemma_sound(commits: Seq<Node>, n: nat)
    requires
        distinct_hashes(commits),
        parents_follow(commits),
        n <= commits.len(),
    ensures
        sound(commits, n),
    decreases n,
{
    if n == 0 {
        let st = layout(commits, 0);
        assert forall|p: Seq<char>| !(#[trigger] last_child(commits, p, 0) >= 0) by {}
    } else {
        let m = (n - 1) as nat;
        lemma_sound(commits, m);
        lemma_yet_to_come(commits, m);
        let st = layout(commits, m);
        lemma_place_last(st, commits, m as int);
        lemma_draw(st.lanes, commits, m);
        lemma_step_rows_enter(commits, m);
        lemma_step_rows_entered(commits, m);
        lemma_step_rows_fed(commits, m);
        lemma_step_children_reserve(commits, m);
        lemma_step_clear_below_child(commits, m);
    }
}

/// No orphan line from above: in the graph of a history in which no hash
/// occurs twice and first parents come after their children, every line
/// that enters a node from above has a source in the row above it, which is
/// a line to a parent that ends in the same column or a line that passes
/// through that column.
pub proof fn lemma_no_orphan_from_above(commits: Seq<Node>, i: int, j: int)
    requires
        distinct_hashes(commits),
        parents_follow(commits),
        0 < i < commits.len(),
        0 <= j < graph_rows(commits)[i].lines.len(),
        graph_rows(commits)[i].lines[j].kind == GraphLineType::FromAbove,
    ensures
        has_source(graph_rows(commits)[i - 1].lines, graph_rows(commits)[i].lines[j].from),
{
    lemma_sound(commits, commits.len());
    let rows = graph_rows(commits);
    assert(enters_at(rows[i].lines, rows[i].column));
    assert(comes_from_above(rows[i].lines));
}

/// Every commit that is no tip is entered from above: in the graph of a
/// history in which no hash occurs twice and first parents come after their
/// children, the row of a commit for which an earlier row had reserved a
/// column has a line from above, and that line enters the node in the
/// row's column.
pub proof fn lemma_commits_are_entered(commits: Seq<Node>, i: int)
    requires
        distinct_hashes(commits),
        parents_follow(commits),
        0 <= i < commits.len(),
        !graph_rows(commits)[i].is_tip,
    ensures
        exists|j: int|
            0 <= j < graph_rows(commits)[i].lines.len() && (#[trigger] graph_rows(
                commits,
            )[i].lines[j]).kind == GraphLineType::FromAbove && graph_rows(commits)[i].lines[j].from
                == graph_rows(commits)[i].column,
{
    lemma_sound(commits, commits.len());
    let row = graph_rows(commits)[i];
    assert(comes_from_above(row.lines));
    assert(enters_at(row.lines, row.column));
    let j = choose|j: int|
        0 <= j < row.lines.len() && (#[trigger] row.lines[j]).kind == GraphLineType::FromAbove;
    assert(row.lines[j].from == row.column);
}

} // verus!
