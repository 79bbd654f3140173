//! What holds of every commit graph.

use vstd::prelude::*;
use crate::git::commit::Node;
use crate::git::graph::{
    arrive, draw, drop_pass_through, graph_rows, incoming, layout, link_first_parent,
    link_merge_parent, link_merge_parents, place, resolve, retarget, rewire, with_column, Draft, Edge, Lanes, Layout, Row,
};
use crate::seqs::{first_index, lemma_first_index};

verus! {

/// Number of lines that lead to a further parent of a merge.
pub open spec fn merge_count(lines: Seq<Edge>) -> nat
    decreases lines.len(),
{
    if lines.len() == 0 {
        0
    } else {
        merge_count(lines.drop_last()) + if lines.last().is_merge {
            1nat
        } else {
            0nat
        }
    }
}

/// Number of merge lines that the row of a commit with `parents` parents has.
pub open spec fn fan_out(parents: nat) -> nat {
    if parents >= 2 {
        (parents - 1) as nat
    } else {
        0
    }
}

proof fn lemma_merge_count_push(lines: Seq<Edge>, line: Edge)
    ensures
        merge_count(lines.push(line)) == merge_count(lines) + if line.is_merge {
            1nat
        } else {
            0nat
        },
{
    assert(lines.push(line).drop_last() =~= lines);
}

proof fn lemma_merge_count_update(lines: Seq<Edge>, k: int, line: Edge)
    requires
        0 <= k < lines.len(),
        line.is_merge == lines[k].is_merge,
    ensures
        merge_count(lines.update(k, line)) == merge_count(lines),
    decreases lines.len(),
{
    let changed = lines.update(k, line);
    if k == lines.len() - 1 {
        assert(changed.drop_last() =~= lines.drop_last());
    } else {
        lemma_merge_count_update(lines.drop_last(), k, line);
        assert(changed.drop_last() =~= lines.drop_last().update(k, line));
    }
}

proof fn lemma_merge_count_incoming(active: Seq<Option<Seq<char>>>, column: int, n: nat)
    ensures
        merge_count(incoming(active, column, n)) == 0,
    decreases n,
{
    if n > 0 {
        lemma_merge_count_incoming(active, column, (n - 1) as nat);
        let before = incoming(active, column, (n - 1) as nat);
        if active[n - 1] is Some {
            lemma_merge_count_push(before, incoming(active, column, n).last());
            assert(incoming(active, column, n).drop_last() =~= before);
        }
    }
}

proof fn lemma_merge_count_drop(lines: Seq<Edge>, column: int)
    ensures
        merge_count(drop_pass_through(lines, column)) <= merge_count(lines),
    decreases lines.len(),
{
    if lines.len() > 0 {
        lemma_merge_count_drop(lines.drop_last(), column);
        lemma_merge_count_push(drop_pass_through(lines.drop_last(), column), lines.last());
    }
}

proof fn lemma_merge_count_retarget(lines: Seq<Edge>, old: int, new: int)
    ensures
        merge_count(retarget(lines, old, new)) == merge_count(lines),
        retarget(lines, old, new).len() == lines.len(),
{
    let k = first_index(lines, |l: Edge| crate::git::graph::leads_to(l, old)) as int;
    lemma_first_index(lines, |l: Edge| crate::git::graph::leads_to(l, old));
    if k < lines.len() {
        lemma_merge_count_update(lines, k, Edge { to: new, ..lines[k] });
    }
}

proof fn lemma_merge_count_parents(d: Draft, parents: Seq<Seq<char>>, column: int, n: nat)
    ensures
        merge_count(link_merge_parents(d, parents, column, n).lines) == merge_count(d.lines)
            + fan_out(n),
    decreases n,
{
    if n > 1 {
        let before = link_merge_parents(d, parents, column, (n - 1) as nat);
        lemma_merge_count_parents(d, parents, column, (n - 1) as nat);
        let last = link_merge_parent(before, parents[n - 1], column).lines.last();
        lemma_merge_count_push(before.lines, last);
    }
}

/// A freshly drawn row has one merge line for each parent but the first.
proof fn lemma_merge_count_draw(lanes: Lanes, node: Node, column: int)
    ensures
        merge_count(draw(lanes, node, column).lines) == fan_out(node.parents.len()),
{
    let arrived = arrive(lanes, column);
    let active = with_column(lanes.active, column);
    lemma_merge_count_incoming(active, column, active.len());
    let first = if node.parents.len() > 0 {
        link_first_parent(arrived, node.parents[0], column)
    } else {
        arrived
    };
    if node.parents.len() > 0 {
        let p = node.parents[0];
        let line = crate::git::graph::to_parent(column, column, false);
        lemma_merge_count_push(arrived.lines, line);
        if arrived.lanes.reserved.contains_key(p) {
            let old = arrived.lanes.reserved[p];
            lemma_merge_count_drop(arrived.lines.push(line), old);
            lemma_merge_count_push(arrived.lines, crate::git::graph::to_parent(column, old, false));
        }
    }
    assert(merge_count(first.lines) == 0);
    lemma_merge_count_parents(first, node.parents, column, node.parents.len());
}

/// The layout after `n` commits has `n` rows.
pub proof fn lemma_layout_rows(commits: Seq<Node>, n: nat)
    ensures
        layout(commits, n).rows.len() == n,
    decreases n,
{
    if n > 0 {
        lemma_layout_rows(commits, (n - 1) as nat);
        let st = layout(commits, (n - 1) as nat);
        let node = commits[n - 1];
        let p = node.parents[0];
        let column = resolve(st.lanes, node.hash).0;
        crate::git::graph::lemma_last_child_local(commits, commits, p, (n - 1) as nat);
        assert(rewire(st.rows, commits, p, st.lanes.reserved[p], column).len() == st.rows.len());
    }
}

/// The rows before the last one that `place` leaves behind: those it found,
/// but for the end of one line to a first parent.
pub proof fn lemma_place_keeps(st: Layout, commits: Seq<Node>, i: int, k: int)
    requires
        0 <= k < st.rows.len(),
    ensures
        place(st, commits, i).rows.len() == st.rows.len() + 1,
        place(st, commits, i).rows[k].column == st.rows[k].column,
        place(st, commits, i).rows[k].is_tip == st.rows[k].is_tip,
        place(st, commits, i).rows[k].lines.len() == st.rows[k].lines.len(),
        merge_count(place(st, commits, i).rows[k].lines) == merge_count(st.rows[k].lines),
{
    let node = commits[i];
    let p = node.parents[0];
    let column = resolve(st.lanes, node.hash).0;
    let old = st.lanes.reserved[p];
    crate::git::graph::lemma_last_child_local(commits, commits, p, st.rows.len());
    lemma_merge_count_retarget(st.rows[k].lines, old, column);
}

/// The last row that `place` leaves behind is the row it has drawn.
pub proof fn lemma_place_last(st: Layout, commits: Seq<Node>, i: int)
    ensures
        place(st, commits, i).rows.len() == st.rows.len() + 1,
        place(st, commits, i).rows[st.rows.len() as int] == (Row {
            column: resolve(st.lanes, commits[i].hash).0,
            is_tip: resolve(st.lanes, commits[i].hash).1,
            lines: draw(st.lanes, commits[i], resolve(st.lanes, commits[i].hash).0).lines,
        }),
        place(st, commits, i).lanes == draw(
            st.lanes,
            commits[i],
            resolve(st.lanes, commits[i].hash).0,
        ).lanes,
{
    let node = commits[i];
    let p = node.parents[0];
    crate::git::graph::lemma_last_child_local(commits, commits, p, st.rows.len());
}

proof fn lemma_fan_out_upto(commits: Seq<Node>, n: nat)
    ensures
        layout(commits, n).rows.len() == n,
        forall|i: int|
            0 <= i < n ==> merge_count(#[trigger] layout(commits, n).rows[i].lines) == fan_out(
                commits[i].parents.len(),
            ),
    decreases n,
{
    if n > 0 {
        let st = layout(commits, (n - 1) as nat);
        lemma_fan_out_upto(commits, (n - 1) as nat);
        let next = place(st, commits, n - 1);
        lemma_place_last(st, commits, n - 1);
        assert forall|i: int| 0 <= i < n implies merge_count(#[trigger] next.rows[i].lines)
            == fan_out(commits[i].parents.len()) by {
            if i < n - 1 {
                lemma_place_keeps(st, commits, n - 1, i);
            } else {
                let node = commits[n - 1];
                lemma_merge_count_draw(st.lanes, node, resolve(st.lanes, node.hash).0);
            }
        }
    }
}

/// Merge fan-out: the row of a commit with two or more parents has one merge
/// line for each parent but the first, and the row of a commit with fewer
/// parents has none.
pub proof fn lemma_merge_fan_out(commits: Seq<Node>, i: int)
    requires
        0 <= i < commits.len(),
    ensures
        merge_count(graph_rows(commits)[i].lines) == fan_out(commits[i].parents.len()),
{
    lemma_fan_out_upto(commits, commits.len());
}

/// A history in which every commit but the last has the commit after it as
/// its one parent, and the last has at most one parent.
pub open spec fn linear(commits: Seq<Node>) -> bool {
    forall|i: int|
        0 <= i < commits.len() ==> (#[trigger] commits[i]).parents.len() <= 1 && (i + 1
            < commits.len() ==> commits[i].parents == seq![commits[i + 1].hash])
}

proof fn lemma_linear_upto(commits: Seq<Node>, n: nat)
    requires
        linear(commits),
        n <= commits.len(),
    ensures
        layout(commits, n).rows.len() == n,
        forall|h: Seq<char>| #[trigger]
            layout(commits, n).lanes.reserved.contains_key(h) ==> layout(
                commits,
                n,
            ).lanes.reserved[h] == 0,
        0 < n < commits.len() ==> layout(commits, n).lanes.reserved.contains_key(
            commits[n as int].hash,
        ),
        forall|i: int|
            0 <= i < n ==> (#[trigger] layout(commits, n).rows[i]).column == 0 && layout(
                commits,
                n,
            ).rows[i].is_tip == (i == 0),
    decreases n,
{
    if n > 0 {
        let st = layout(commits, (n - 1) as nat);
        lemma_linear_upto(commits, (n - 1) as nat);
        let node = commits[n - 1];
        let next = place(st, commits, n - 1);
        let (column, is_tip) = resolve(st.lanes, node.hash);
        if n == 1 {
            assert(st.lanes.active =~= Seq::empty());
            assert(!st.lanes.reserved.contains_key(node.hash));
        }
        assert(column == 0 && is_tip == (n == 1));
        lemma_place_last(st, commits, n - 1);
        let arrived = arrive(st.lanes, column);
        assert(link_merge_parents(arrived, node.parents, column, node.parents.len()) == arrived);
        if node.parents.len() > 0 {
            let first = link_first_parent(arrived, node.parents[0], column);
            assert(link_merge_parents(first, node.parents, column, node.parents.len()) == first);
        }
        assert forall|i: int| 0 <= i < n implies (#[trigger] next.rows[i]).column == 0
            && next.rows[i].is_tip == (i == 0) by {
            if i < n - 1 {
                lemma_place_keeps(st, commits, n - 1, i);
            }
        }
        if n < commits.len() {
            assert(node.parents[0] == commits[n as int].hash);
        }
    }
}

/// Column stability: in a linear history every row is in column 0, and the
/// first row is the only tip.
pub proof fn lemma_linear_history(commits: Seq<Node>, i: int)
    requires
        linear(commits),
        0 <= i < commits.len(),
    ensures
        graph_rows(commits)[i].column == 0,
        graph_rows(commits)[i].is_tip == (i == 0),
{
    lemma_linear_upto(commits, commits.len());
}

/// Number of lines that lead from a node to its first parent.
pub open spec fn lead_count(lines: Seq<Edge>) -> nat
    decreases lines.len(),
{
    if lines.len() == 0 {
        0
    } else {
        lead_count(lines.drop_last()) + if is_lead(lines.last()) {
            1nat
        } else {
            0nat
        }
    }
}

/// Whether a line leads from a node to its first parent.
pub open spec fn is_lead(line: Edge) -> bool {
    line.kind == crate::git::graph::GraphLineType::ToParent && !line.is_merge
}

proof fn lemma_lead_count_push(lines: Seq<Edge>, line: Edge)
    ensures
        lead_count(lines.push(line)) == lead_count(lines) + if is_lead(line) {
            1nat
        } else {
            0nat
        },
{
    assert(lines.push(line).drop_last() =~= lines);
}

proof fn lemma_lead_count_update(lines: Seq<Edge>, k: int, line: Edge)
    requires
        0 <= k < lines.len(),
        is_lead(line) == is_lead(lines[k]),
    ensures
        lead_count(lines.update(k, line)) == lead_count(lines),
    decreases lines.len(),
{
    let changed = lines.update(k, line);
    if k == lines.len() - 1 {
        assert(changed.drop_last() =~= lines.drop_last());
    } else {
        lemma_lead_count_update(lines.drop_last(), k, line);
        assert(changed.drop_last() =~= lines.drop_last().update(k, line));
    }
}

proof fn lemma_lead_count_incoming(active: Seq<Option<Seq<char>>>, column: int, n: nat)
    ensures
        lead_count(incoming(active, column, n)) == 0,
    decreases n,
{
    if n > 0 {
        lemma_lead_count_incoming(active, column, (n - 1) as nat);
        let before = incoming(active, column, (n - 1) as nat);
        if active[n - 1] is Some {
            lemma_lead_count_push(before, incoming(active, column, n).last());
            assert(incoming(active, column, n).drop_last() =~= before);
        }
    }
}

proof fn lemma_lead_count_drop(lines: Seq<Edge>, column: int)
    ensures
        lead_count(drop_pass_through(lines, column)) == lead_count(lines),
    decreases lines.len(),
{
    if lines.len() > 0 {
        lemma_lead_count_drop(lines.drop_last(), column);
        lemma_lead_count_push(drop_pass_through(lines.drop_last(), column), lines.last());
    }
}

proof fn lemma_lead_count_retarget(lines: Seq<Edge>, old: int, new: int)
    ensures
        lead_count(retarget(lines, old, new)) == lead_count(lines),
{
    let k = first_index(lines, |l: Edge| crate::git::graph::leads_to(l, old)) as int;
    lemma_first_index(lines, |l: Edge| crate::git::graph::leads_to(l, old));
    if k < lines.len() {
        lemma_lead_count_update(lines, k, Edge { to: new, ..lines[k] });
    }
}

proof fn lemma_lead_count_parents(d: Draft, parents: Seq<Seq<char>>, column: int, n: nat)
    ensures
        lead_count(link_merge_parents(d, parents, column, n).lines) == lead_count(d.lines),
    decreases n,
{
    if n > 1 {
        let before = link_merge_parents(d, parents, column, (n - 1) as nat);
        lemma_lead_count_parents(d, parents, column, (n - 1) as nat);
        let last = link_merge_parent(before, parents[n - 1], column).lines.last();
        lemma_lead_count_push(before.lines, last);
    }
}

proof fn lemma_lead_count_draw(lanes: Lanes, node: Node, column: int)
    ensures
        lead_count(draw(lanes, node, column).lines) == if node.parents.len() > 0 {
            1nat
        } else {
            0nat
        },
{
    let arrived = arrive(lanes, column);
    let active = with_column(lanes.active, column);
    lemma_lead_count_incoming(active, column, active.len());
    let first = if node.parents.len() > 0 {
        link_first_parent(arrived, node.parents[0], column)
    } else {
        arrived
    };
    if node.parents.len() > 0 {
        let p = node.parents[0];
        let line = crate::git::graph::to_parent(column, column, false);
        lemma_lead_count_push(arrived.lines, line);
        if arrived.lanes.reserved.contains_key(p) {
            let old = arrived.lanes.reserved[p];
            lemma_lead_count_drop(arrived.lines.push(line), old);
            lemma_lead_count_push(arrived.lines, crate::git::graph::to_parent(column, old, false));
        }
    }
    lemma_lead_count_parents(first, node.parents, column, node.parents.len());
}

proof fn lemma_lead_count_upto(commits: Seq<Node>, n: nat)
    ensures
        layout(commits, n).rows.len() == n,
        forall|i: int|
            0 <= i < n ==> lead_count(#[trigger] layout(commits, n).rows[i].lines) == if commits[i].parents.len()
                > 0 {
                1nat
            } else {
                0nat
            },
    decreases n,
{
    if n > 0 {
        let st = layout(commits, (n - 1) as nat);
        lemma_lead_count_upto(commits, (n - 1) as nat);
        let next = place(st, commits, n - 1);
        lemma_place_last(st, commits, n - 1);
        let node = commits[n - 1];
        let p = node.parents[0];
        let column = resolve(st.lanes, node.hash).0;
        let old = st.lanes.reserved[p];
        crate::git::graph::lemma_last_child_local(commits, commits, p, st.rows.len());
        assert forall|i: int| 0 <= i < n implies lead_count(#[trigger] next.rows[i].lines) == if commits[i].parents.len()
            > 0 {
            1nat
        } else {
            0nat
        } by {
            if i < n - 1 {
                lemma_lead_count_retarget(st.rows[i].lines, old, column);
            } else {
                lemma_lead_count_draw(st.lanes, node, column);
            }
        }
    }
}

/// One line to the first parent: the row of a commit with a parent has
/// exactly one line to a parent that is no merge line, and the row of a
/// commit without parents has none.
pub proof fn lemma_one_first_parent_line(commits: Seq<Node>, i: int)
    requires
        0 <= i < commits.len(),
    ensures
        lead_count(graph_rows(commits)[i].lines) == if commits[i].parents.len() > 0 {
            1nat
        } else {
            0nat
        },
{
    lemma_lead_count_upto(commits, commits.len());
}

proof fn lemma_row_stays(commits: Seq<Node>, i: int, n: nat)
    requires
        0 <= i < n,
    ensures
        layout(commits, n).rows.len() == n,
        layout(commits, n).rows[i].column == resolve(
            layout(commits, i as nat).lanes,
            commits[i].hash,
        ).0,
        layout(commits, n).rows[i].is_tip == !layout(commits, i as nat).lanes.reserved.contains_key(
            commits[i].hash,
        ),
    decreases n,
{
    let st = layout(commits, (n - 1) as nat);
    lemma_layout_rows(commits, (n - 1) as nat);
    if i == n - 1 {
        lemma_place_last(st, commits, n - 1);
    } else {
        lemma_row_stays(commits, i, (n - 1) as nat);
        lemma_place_keeps(st, commits, n - 1, i);
    }
}

/// The column of a row: the column that an earlier row reserved for the
/// commit, else the lowest column that is free when the commit arrives. The
/// commit is a tip exactly where no earlier row had reserved a column for
/// it. No later row changes either.
pub proof fn lemma_column_of_row(commits: Seq<Node>, i: int)
    requires
        0 <= i < commits.len(),
    ensures
        ({
            let before = layout(commits, i as nat).lanes;
            let row = graph_rows(commits)[i];
            &&& row.is_tip == !before.reserved.contains_key(commits[i].hash)
            &&& !row.is_tip ==> row.column == before.reserved[commits[i].hash]
            &&& row.is_tip ==> row.column == crate::git::graph::first_free(before.active)
        }),
{
    lemma_row_stays(commits, i, commits.len());
}

} // verus!
