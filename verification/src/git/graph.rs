//! The commit graph: one row per commit, with its column and the lines that
//! tie it to the rows above and below.

use vstd::prelude::*;
use vstd::hash_map::StringHashMap;
use crate::git::commit::{CommitInfo, Node};
use crate::seqs::{first_index, lemma_first_index_is};
use crate::text::{chars_of, has_prefix, starts_with_at, string_of};

verus! {

#[derive(Debug, Clone, Copy, PartialEq, Eq, Structural)]
pub enum GraphLineType {
    /// From this row's node down to a parent's row.
    ToParent,
    /// From the row above into this row's node.
    FromAbove,
    /// A branch that runs through this row without a node.
    PassThrough,
}

#[derive(Debug, Clone, Copy)]
pub struct GraphLine {
    pub from_column: usize,
    pub to_column: usize,
    pub is_merge: bool,
    pub line_type: GraphLineType,
}

/// A line of the graph, with its columns as mathematical integers.
pub struct Edge {
    pub from: int,
    pub to: int,
    pub is_merge: bool,
    pub kind: GraphLineType,
}

impl View for GraphLine {
    type V = Edge;

    open spec fn view(&self) -> Edge {
        Edge {
            from: self.from_column as int,
            to: self.to_column as int,
            is_merge: self.is_merge,
            kind: self.line_type,
        }
    }
}

#[derive(Debug, Clone, Copy, PartialEq, Eq, Structural)]
pub enum RefType {
    Branch,
    RemoteBranch,
    Tag,
}

#[derive(Debug, Clone)]
pub struct RefInfo {
    pub name: String,
    pub ref_type: RefType,
    pub is_head: bool,
}

/// The refs of a repository, by the hash of the commit they point to.
pub type RefMap = StringHashMap<Vec<RefInfo>>;

#[derive(Debug, Clone)]
pub struct GraphCommit {
    pub commit: CommitInfo,
    pub column: usize,
    pub lines: Vec<GraphLine>,
    pub refs: Vec<RefInfo>,
    /// True if no earlier row had reserved a column for this commit.
    pub is_tip: bool,
}

/// The layout of one row.
pub struct Row {
    pub column: int,
    pub is_tip: bool,
    pub lines: Seq<Edge>,
}

impl View for GraphCommit {
    type V = Row;

    open spec fn view(&self) -> Row {
        Row {
            column: self.column as int,
            is_tip: self.is_tip,
            lines: edges(self.lines@),
        }
    }
}

/// The columns of the graph at one moment of the layout.
pub struct Lanes {
    /// By column, the hash that the column is reserved for; `None` is a free column.
    pub active: Seq<Option<Seq<char>>>,
    /// By hash, the column that an earlier row reserved for it.
    pub reserved: Map<Seq<char>, int>,
}

impl Lanes {
    /// Every reserved column is one of the columns.
    pub open spec fn wf(self) -> bool {
        forall|h: Seq<char>| #[trigger]
            self.reserved.contains_key(h) ==> 0 <= self.reserved[h] < self.active.len()
    }
}

/// The state of the layout between two rows.
pub struct Layout {
    pub lanes: Lanes,
    /// The rows laid out so far.
    pub rows: Seq<Row>,
}

/// The state of the layout inside a row.
pub struct Draft {
    pub lanes: Lanes,
    /// The lines of the row so far.
    pub lines: Seq<Edge>,
}

/// A line that stays in column `column`.
pub open spec fn straight(column: int, kind: GraphLineType) -> Edge {
    Edge { from: column, to: column, is_merge: false, kind }
}

/// A line from a node in column `from` down to a parent in column `to`.
pub open spec fn to_parent(from: int, to: int, is_merge: bool) -> Edge {
    Edge { from, to, is_merge, kind: GraphLineType::ToParent }
}

/// The lowest free column; the number of columns where none is free.
pub open spec fn first_free(active: Seq<Option<Seq<char>>>) -> nat {
    first_index(active, |c: Option<Seq<char>>| c is None)
}

/// The columns with column `column` among them: a free one is added at the
/// end where `column` is the number of columns.
pub open spec fn with_column(active: Seq<Option<Seq<char>>>, column: int) -> Seq<
    Option<Seq<char>>,
> {
    if column == active.len() {
        active.push(None)
    } else {
        active
    }
}

/// The line that enters a row in column `at` from above: into the node in
/// the row's own column, past it in every other.
pub open spec fn from_above(at: int, column: int) -> Edge {
    straight(
        at,
        if at == column {
            GraphLineType::FromAbove
        } else {
            GraphLineType::PassThrough
        },
    )
}

/// The lines that enter a row from above in the first `n` columns: one for
/// each reserved column.
pub open spec fn incoming(active: Seq<Option<Seq<char>>>, column: int, n: nat) -> Seq<Edge>
    decreases n,
{
    if n == 0 {
        Seq::empty()
    } else {
        let before = incoming(active, column, (n - 1) as nat);
        if active[n - 1] is Some {
            before.push(from_above(n - 1, column))
        } else {
            before
        }
    }
}

/// Whether a line passes through column `column`.
pub open spec fn passes_through(line: Edge, column: int) -> bool {
    line.kind == GraphLineType::PassThrough && line.from == column
}

/// The lines without those that pass through column `column`.
pub open spec fn drop_pass_through(lines: Seq<Edge>, column: int) -> Seq<Edge>
    decreases lines.len(),
{
    if lines.len() == 0 {
        lines
    } else {
        let before = drop_pass_through(lines.drop_last(), column);
        if passes_through(lines.last(), column) {
            before
        } else {
            before.push(lines.last())
        }
    }
}

/// Whether a line goes from a node to its first parent in column `column`.
pub open spec fn leads_to(line: Edge, column: int) -> bool {
    line.kind == GraphLineType::ToParent && !line.is_merge && line.to == column
}

/// The lines with the first one that leads to a first parent in column
/// `old` turned to column `new`.
pub open spec fn retarget(lines: Seq<Edge>, old: int, new: int) -> Seq<Edge> {
    let k = first_index(lines, |l: Edge| leads_to(l, old)) as int;
    if k < lines.len() {
        lines.update(k, Edge { to: new, ..lines[k] })
    } else {
        lines
    }
}

/// The first parent of a commit.
pub open spec fn first_parent(node: Node) -> Option<Seq<char>> {
    if node.parents.len() > 0 {
        Some(node.parents[0])
    } else {
        None
    }
}

/// Index of the last of the first `n` commits whose first parent is
/// `parent`; -1 where there is none.
pub open spec fn last_child(commits: Seq<Node>, parent: Seq<char>, n: nat) -> int
    decreases n,
{
    if n == 0 {
        -1
    } else if first_parent(commits[n - 1]) == Some(parent) {
        n - 1
    } else {
        last_child(commits, parent, (n - 1) as nat)
    }
}

/// The rows after `parent` moved from column `old` to column `new`: in the
/// nearest row whose commit has `parent` as its first parent, the line to
/// that parent is turned to the new column.
pub open spec fn rewire(
    rows: Seq<Row>,
    commits: Seq<Node>,
    parent: Seq<char>,
    old: int,
    new: int,
) -> Seq<Row> {
    let r = last_child(commits, parent, rows.len());
    if r >= 0 {
        rows.update(r, Row { lines: retarget(rows[r].lines, old, new), ..rows[r] })
    } else {
        rows
    }
}

/// The column of a commit and whether the commit is a tip: the column that
/// was reserved for it, else the lowest free one.
pub open spec fn resolve(lanes: Lanes, hash: Seq<char>) -> (int, bool) {
    if lanes.reserved.contains_key(hash) {
        (lanes.reserved[hash], false)
    } else {
        (first_free(lanes.active) as int, true)
    }
}

/// A row's draft when its commit has arrived in column `column`: the lines
/// from above are drawn and the column is free again.
pub open spec fn arrive(lanes: Lanes, column: int) -> Draft {
    let active = with_column(lanes.active, column);
    Draft {
        lanes: Lanes { active: active.update(column, None), reserved: lanes.reserved },
        lines: incoming(active, column, active.len()),
    }
}

/// The columns with `parent` reserved in column `column`.
pub open spec fn reserve(lanes: Lanes, parent: Seq<char>, column: int) -> Lanes {
    Lanes {
        active: lanes.active.update(column, Some(parent)),
        reserved: lanes.reserved.insert(parent, column),
    }
}

/// Whether a commit in column `column` takes its first parent over from a
/// column further right.
pub open spec fn takes_over(lanes: Lanes, parent: Seq<char>, column: int) -> bool {
    lanes.reserved.contains_key(parent) && column < lanes.reserved[parent]
}

/// The draft after the line to the first parent. Where the parent has no
/// column yet, it continues in the commit's column. Where it has one further
/// right, the commit takes the parent over into its own column: the parent's
/// old column is freed and the line that passed through it is dropped. Else
/// the line runs to the parent's column and the commit's column stays free.
pub open spec fn link_first_parent(d: Draft, parent: Seq<char>, column: int) -> Draft {
    if !d.lanes.reserved.contains_key(parent) {
        Draft {
            lanes: reserve(d.lanes, parent, column),
            lines: d.lines.push(to_parent(column, column, false)),
        }
    } else if column < d.lanes.reserved[parent] {
        let old = d.lanes.reserved[parent];
        let freed = Lanes { active: d.lanes.active.update(old, None), ..d.lanes };
        Draft {
            lanes: reserve(freed, parent, column),
            lines: drop_pass_through(d.lines.push(to_parent(column, column, false)), old),
        }
    } else {
        Draft {
            lanes: d.lanes,
            lines: d.lines.push(to_parent(column, d.lanes.reserved[parent], false)),
        }
    }
}

/// The column of one more parent of a merge: the one it has, else the lowest free one.
pub open spec fn merge_target(lanes: Lanes, parent: Seq<char>) -> int {
    if lanes.reserved.contains_key(parent) {
        lanes.reserved[parent]
    } else {
        first_free(lanes.active) as int
    }
}

/// The draft after the line to one more parent of a merge.
pub open spec fn link_merge_parent(d: Draft, parent: Seq<char>, column: int) -> Draft {
    let target = merge_target(d.lanes, parent);
    Draft {
        lanes: if d.lanes.reserved.contains_key(parent) {
            d.lanes
        } else {
            reserve(
                Lanes { active: with_column(d.lanes.active, target), ..d.lanes },
                parent,
                target,
            )
        },
        lines: d.lines.push(to_parent(column, target, true)),
    }
}

/// The draft after the lines to the parents before index `n`, the first
/// parent left out.
pub open spec fn link_merge_parents(
    d: Draft,
    parents: Seq<Seq<char>>,
    column: int,
    n: nat,
) -> Draft
    decreases n,
{
    if n <= 1 {
        d
    } else {
        link_merge_parent(
            link_merge_parents(d, parents, column, (n - 1) as nat),
            parents[n - 1],
            column,
        )
    }
}

/// The draft of the row of `node` in column `column`, with the lines to all its parents.
pub open spec fn draw(lanes: Lanes, node: Node, column: int) -> Draft {
    let arrived = arrive(lanes, column);
    let first = if node.parents.len() > 0 {
        link_first_parent(arrived, node.parents[0], column)
    } else {
        arrived
    };
    link_merge_parents(first, node.parents, column, node.parents.len())
}

/// The layout after commit `i`, from the layout `st` before it.
pub open spec fn place(st: Layout, commits: Seq<Node>, i: int) -> Layout {
    let node = commits[i];
    let (column, is_tip) = resolve(st.lanes, node.hash);
    let drawn = draw(st.lanes, node, column);
    let rows = if node.parents.len() > 0 && takes_over(st.lanes, node.parents[0], column) {
        rewire(st.rows, commits, node.parents[0], st.lanes.reserved[node.parents[0]], column)
    } else {
        st.rows
    };
    Layout { lanes: drawn.lanes, rows: rows.push(Row { column, is_tip, lines: drawn.lines }) }
}

/// The layout after the first `n` commits.
pub open spec fn layout(commits: Seq<Node>, n: nat) -> Layout
    decreases n,
{
    if n == 0 {
        Layout {
            lanes: Lanes { active: Seq::empty(), reserved: Map::empty() },
            rows: Seq::empty(),
        }
    } else {
        place(layout(commits, (n - 1) as nat), commits, n - 1)
    }
}

/// The rows of the graph of `commits`.
pub open spec fn graph_rows(commits: Seq<Node>) -> Seq<Row> {
    layout(commits, commits.len()).rows
}

/// The refs that a map holds for a hash; none where it holds no entry.
pub open spec fn refs_at(refs: Map<Seq<char>, Vec<RefInfo>>, hash: Seq<char>) -> Seq<RefInfo> {
    if refs.contains_key(hash) {
        refs[hash]@
    } else {
        Seq::empty()
    }
}

/// What a column holds, by the hash's characters.
pub open spec fn hash_of(slot: Option<String>) -> Option<Seq<char>> {
    match slot {
        Some(h) => Some(h@),
        None => None,
    }
}

/// The columns of the layout as the builder holds them.
struct Columns {
    active: Vec<Option<String>>,
    reserved: StringHashMap<usize>,
}

impl View for Columns {
    type V = Lanes;

    closed spec fn view(&self) -> Lanes {
        Lanes {
            active: self.active@.map_values(|c: Option<String>| hash_of(c)),
            reserved: Map::new(
                |h: Seq<char>| self.reserved@.contains_key(h),
                |h: Seq<char>| self.reserved@[h] as int,
            ),
        }
    }
}

/// The views of a list of lines.
pub open spec fn edges(lines: Seq<GraphLine>) -> Seq<Edge> {
    lines.map_values(|l: GraphLine| l@)
}

impl Columns {
    fn new() -> (cols: Columns)
        ensures
            cols@ == (Lanes { active: Seq::empty(), reserved: Map::empty() }),
            cols@.wf(),
    {
        let cols = Columns { active: Vec::new(), reserved: StringHashMap::new() };
        proof {
            assert(cols@.active =~= Seq::empty());
            assert(cols@.reserved =~= Map::empty());
        }
        cols
    }

    /// The lowest free column, added at the end where none is free.
    fn claim_free(&mut self) -> (column: usize)
        requires
            old(self)@.wf(),
        ensures
            column == first_free(old(self)@.active),
            final(self)@ == (Lanes {
                active: with_column(old(self)@.active, column as int),
                reserved: old(self)@.reserved,
            }),
            final(self)@.wf(),
            column < final(self)@.active.len(),
            final(self)@.active[column as int] is None,
    {
        let ghost before = self@.active;
        let n = self.active.len();
        let mut j: usize = 0;
        while j < n
            invariant
                n == self.active.len(),
                j <= n,
                *self == *old(self),
                self@.wf(),
                before == self@.active,
                forall|i: int| 0 <= i < j ==> before[i] is Some,
            decreases n - j,
        {
            if self.active[j].is_none() {
                proof {
                    lemma_first_index_is(before, |c: Option<Seq<char>>| c is None, j as int);
                }
                return j;
            }
            j += 1;
        }
        proof {
            lemma_first_index_is(before, |c: Option<Seq<char>>| c is None, n as int);
        }
        self.active.push(None);
        proof {
            assert(self@.active =~= before.push(None));
            assert(self@.reserved =~= old(self)@.reserved);
        }
        n
    }

    /// The column that is reserved for `hash`.
    fn reserved_for(&self, hash: &str) -> (column: Option<usize>)
        requires
            self@.wf(),
        ensures
            column is Some == self@.reserved.contains_key(hash@),
            column matches Some(c) ==> c == self@.reserved[hash@] && c < self.active.len(),
    {
        match self.reserved.get(hash) {
            Some(c) => {
                assert(self@.reserved.contains_key(hash@));
                Some(*c)
            },
            None => None,
        }
    }

    /// Frees column `column`.
    fn release(&mut self, column: usize)
        requires
            old(self)@.wf(),
            column < old(self)@.active.len(),
        ensures
            final(self)@ == (Lanes {
                active: old(self)@.active.update(column as int, None),
                reserved: old(self)@.reserved,
            }),
            final(self)@.wf(),
    {
        self.active.set(column, None);
        proof {
            assert(self@.active =~= old(self)@.active.update(column as int, None));
            assert(self@.reserved =~= old(self)@.reserved);
        }
    }

    /// Reserves column `column` for `parent`.
    fn hold(&mut self, parent: &String, column: usize)
        requires
            old(self)@.wf(),
            column < old(self)@.active.len(),
        ensures
            final(self)@ == reserve(old(self)@, parent@, column as int),
            final(self)@.wf(),
    {
        self.reserved.insert(parent.clone(), column);
        self.active.set(column, Some(parent.clone()));
        proof {
            let want = reserve(old(self)@, parent@, column as int);
            assert(self@.active =~= want.active);
            assert(self@.reserved =~= want.reserved);
            assert forall|h: Seq<char>| #[trigger]
                self@.reserved.contains_key(h) implies 0 <= self@.reserved[h]
                < self@.active.len() by {
                if h != parent@ {
                    assert(old(self)@.reserved.contains_key(h));
                }
            }
        }
    }

    /// The lines that enter a row in column `column` from above.
    fn incoming_lines(&self, column: usize) -> (lines: Vec<GraphLine>)
        ensures
            edges(lines@) == incoming(self@.active, column as int, self@.active.len()),
    {
        let n = self.active.len();
        let mut lines: Vec<GraphLine> = Vec::new();
        let mut c: usize = 0;
        proof {
            assert(edges(lines@) =~= Seq::empty());
        }
        while c < n
            invariant
                n == self.active.len(),
                c <= n,
                edges(lines@) == incoming(self@.active, column as int, c as nat),
            decreases n - c,
        {
            if self.active[c].is_some() {
                let line_type = if c == column {
                    GraphLineType::FromAbove
                } else {
                    GraphLineType::PassThrough
                };
                let line = GraphLine { from_column: c, to_column: c, is_merge: false, line_type };
                proof {
                    assert(edges(lines@.push(line)) =~= edges(lines@).push(line@));
                }
                lines.push(line);
            }
            c += 1;
        }
        lines
    }
}

/// The lines without those that pass through column `column`.
fn without_pass_through(lines: &Vec<GraphLine>, column: usize) -> (kept: Vec<GraphLine>)
    ensures
        edges(kept@) == drop_pass_through(edges(lines@), column as int),
{
    let mut kept: Vec<GraphLine> = Vec::new();
    let mut i: usize = 0;
    proof {
        assert(edges(lines@).take(0) =~= Seq::empty());
        assert(edges(kept@) =~= Seq::empty());
    }
    while i < lines.len()
        invariant
            i <= lines.len(),
            edges(kept@) == drop_pass_through(edges(lines@).take(i as int), column as int),
        decreases lines.len() - i,
    {
        let line = lines[i];
        proof {
            let next = edges(lines@).take(i + 1);
            assert(next.drop_last() =~= edges(lines@).take(i as int));
            assert(next.last() == line@);
            assert(edges(kept@.push(line)) =~= edges(kept@).push(line@));
        }
        let through = match line.line_type {
            GraphLineType::PassThrough => line.from_column == column,
            _ => false,
        };
        if !through {
            kept.push(line);
        }
        i += 1;
    }
    proof {
        assert(edges(lines@).take(lines.len() as int) =~= edges(lines@));
    }
    kept
}

/// Draws the line to the first parent and gives the lines of the row with
/// it, and the column that the parent was taken over from, if it was.
fn link_first(cols: &mut Columns, lines: Vec<GraphLine>, parent: &String, column: usize) -> (r: (
    Vec<GraphLine>,
    Option<usize>,
))
    requires
        old(cols)@.wf(),
        column < old(cols)@.active.len(),
    ensures
        final(cols)@.wf(),
        final(cols)@.active.len() == old(cols)@.active.len(),
        (Draft { lanes: final(cols)@, lines: edges(r.0@) }) == link_first_parent(
            Draft { lanes: old(cols)@, lines: edges(lines@) },
            parent@,
            column as int,
        ),
        r.1 is Some == takes_over(old(cols)@, parent@, column as int),
        r.1 matches Some(c) ==> c == old(cols)@.reserved[parent@],
{
    let mut lines = lines;
    let ghost before = edges(lines@);
    match cols.reserved_for(parent.as_str()) {
        Some(existing) => {
            if column < existing {
                cols.release(existing);
                cols.hold(parent, column);
                let line = GraphLine {
                    from_column: column,
                    to_column: column,
                    is_merge: false,
                    line_type: GraphLineType::ToParent,
                };
                proof {
                    assert(edges(lines@.push(line)) =~= before.push(line@));
                }
                lines.push(line);
                let kept = without_pass_through(&lines, existing);
                (kept, Some(existing))
            } else {
                let line = GraphLine {
                    from_column: column,
                    to_column: existing,
                    is_merge: false,
                    line_type: GraphLineType::ToParent,
                };
                proof {
                    assert(edges(lines@.push(line)) =~= before.push(line@));
                }
                lines.push(line);
                (lines, None)
            }
        },
        None => {
            cols.hold(parent, column);
            let line = GraphLine {
                from_column: column,
                to_column: column,
                is_merge: false,
                line_type: GraphLineType::ToParent,
            };
            proof {
                assert(edges(lines@.push(line)) =~= before.push(line@));
            }
            lines.push(line);
            (lines, None)
        },
    }
}

/// Draws the line to one more parent of a merge.
fn link_merge(cols: &mut Columns, lines: &mut Vec<GraphLine>, parent: &String, column: usize)
    requires
        old(cols)@.wf(),
    ensures
        final(cols)@.wf(),
        final(cols)@.active.len() >= old(cols)@.active.len(),
        (Draft { lanes: final(cols)@, lines: edges(final(lines)@) }) == link_merge_parent(
            Draft { lanes: old(cols)@, lines: edges(old(lines)@) },
            parent@,
            column as int,
        ),
{
    let ghost before = edges(lines@);
    let target = match cols.reserved_for(parent.as_str()) {
        Some(existing) => existing,
        None => {
            let free = cols.claim_free();
            cols.hold(parent, free);
            free
        },
    };
    let line = GraphLine {
        from_column: column,
        to_column: target,
        is_merge: true,
        line_type: GraphLineType::ToParent,
    };
    proof {
        assert(edges(lines@.push(line)) =~= before.push(line@));
    }
    lines.push(line);
}

/// The views of a list of rows.
pub open spec fn row_views(rows: Seq<GraphCommit>) -> Seq<Row> {
    rows.map_values(|r: GraphCommit| r@)
}

/// The views of a list of commits.
pub open spec fn nodes(commits: Seq<CommitInfo>) -> Seq<Node> {
    commits.map_values(|c: CommitInfo| c@)
}

/// The last child of a parent among the first `n` commits depends on those commits alone.
pub proof fn lemma_last_child_local(a: Seq<Node>, b: Seq<Node>, parent: Seq<char>, n: nat)
    requires
        forall|i: int| 0 <= i < n ==> a[i] == b[i],
    ensures
        last_child(a, parent, n) == last_child(b, parent, n),
        -1 <= last_child(a, parent, n) < n,
    decreases n,
{
    if n > 0 {
        lemma_last_child_local(a, b, parent, (n - 1) as nat);
    }
}

/// Turns the first line that leads to a first parent in column `old_col` to column `new_col`.
fn retarget_line(lines: &mut Vec<GraphLine>, old_col: usize, new_col: usize)
    ensures
        edges(final(lines)@) == retarget(edges(old(lines)@), old_col as int, new_col as int),
{
    let ghost before = edges(lines@);
    let mut k: usize = 0;
    while k < lines.len()
        invariant
            k <= lines.len(),
            *lines == *old(lines),
            before == edges(lines@),
            forall|i: int| 0 <= i < k ==> !leads_to(#[trigger] before[i], old_col as int),
        decreases lines.len() - k,
    {
        let line = lines[k];
        let leads = match line.line_type {
            GraphLineType::ToParent => !line.is_merge && line.to_column == old_col,
            _ => false,
        };
        if leads {
            proof {
                lemma_first_index_is(before, |l: Edge| leads_to(l, old_col as int), k as int);
            }
            let turned = GraphLine { to_column: new_col, ..line };
            lines.set(k, turned);
            proof {
                assert(edges(lines@) =~= before.update(k as int, turned@));
            }
            return ;
        }
        k += 1;
    }
    proof {
        lemma_first_index_is(before, |l: Edge| leads_to(l, old_col as int), before.len() as int);
    }
}

/// Whether `child` is the row of the last commit so far whose first parent
/// is `parent`, or no row where there is no such commit.
pub open spec fn is_last_child(
    child: Option<usize>,
    commits: Seq<Node>,
    parent: Seq<char>,
    n: nat,
) -> bool {
    match child {
        Some(r) => r == last_child(commits, parent, n),
        None => last_child(commits, parent, n) < 0,
    }
}

/// In the row of the last child of `parent`, turns the line to that parent
/// from column `old_col` to column `new_col`.
fn rewire_row(
    rows: &mut Vec<GraphCommit>,
    child: Option<usize>,
    commits: Ghost<Seq<Node>>,
    parent: Ghost<Seq<char>>,
    old_col: usize,
    new_col: usize,
)
    requires
        is_last_child(child, commits@, parent@, old(rows).len() as nat),
    ensures
        final(rows).len() == old(rows).len(),
        forall|i: int|
            0 <= i < old(rows).len() ==> (#[trigger] final(rows)[i]).commit == old(rows)[i].commit
                && final(rows)[i].refs == old(rows)[i].refs,
        row_views(final(rows)@) == rewire(
            row_views(old(rows)@),
            commits@,
            parent@,
            old_col as int,
            new_col as int,
        ),
{
    proof {
        lemma_last_child_local(commits@, commits@, parent@, rows.len() as nat);
    }
    match child {
        Some(r) => {
            let row = &mut rows[r];
            retarget_line(&mut row.lines, old_col, new_col);
            proof {
                let want = rewire(
                    row_views(old(rows)@),
                    commits@,
                    parent@,
                    old_col as int,
                    new_col as int,
                );
                assert(row_views(rows@) =~= want);
            }
        },
        None => {},
    }
}

/// The rows of the last children, by the hash of their first parent.
struct Children {
    rows: StringHashMap<usize>,
}

impl Children {
    /// The row that is noted for a hash.
    spec fn found(&self, p: Seq<char>) -> Option<usize> {
        if self.rows@.contains_key(p) {
            Some(self.rows@[p])
        } else {
            None
        }
    }

    /// The index holds, for every hash, the row of the last of the first
    /// `n` commits whose first parent it is.
    spec fn indexes(&self, commits: Seq<Node>, n: nat) -> bool {
        forall|p: Seq<char>| is_last_child(#[trigger] self.found(p), commits, p, n)
    }

    fn new(commits: Ghost<Seq<Node>>) -> (children: Children)
        ensures
            children.indexes(commits@, 0),
    {
        Children { rows: StringHashMap::new() }
    }

    /// The row of the last child of `parent`.
    fn last_child_of(&self, parent: &str, commits: Ghost<Seq<Node>>, n: Ghost<nat>) -> (child:
        Option<usize>)
        requires
            self.indexes(commits@, n@),
        ensures
            is_last_child(child, commits@, parent@, n@),
    {
        proof {
            assert(is_last_child(self.found(parent@), commits@, parent@, n@));
        }
        match self.rows.get(parent) {
            Some(r) => Some(*r),
            None => None,
        }
    }

    /// Notes commit `row`, which is the last child of its first parent now.
    fn note(&mut self, commit: &CommitInfo, row: usize, commits: Ghost<Seq<Node>>)
        requires
            old(self).indexes(commits@, row as nat),
            commits@[row as int] == commit@,
        ensures
            final(self).indexes(commits@, (row + 1) as nat),
    {
        if commit.parent_hashes.len() > 0 {
            proof {
                assert(commit@.parents[0] == commit.parent_hashes[0]@);
            }
            self.rows.insert(commit.parent_hashes[0].clone(), row);
        }
        proof {
            assert forall|p: Seq<char>|
                is_last_child(#[trigger] self.found(p), commits@, p, (row + 1) as nat) by {
                assert(is_last_child(old(self).found(p), commits@, p, row as nat));
            }
        }
    }
}

/// The refs that the map holds for `hash`.
fn refs_for(refs: &RefMap, hash: &str) -> (out: Vec<RefInfo>)
    ensures
        out@ == refs_at(refs@, hash@),
{
    let mut out: Vec<RefInfo> = Vec::new();
    match refs.get(hash) {
        Some(list) => {
            let mut i: usize = 0;
            while i < list.len()
                invariant
                    i <= list.len(),
                    out@ == list@.take(i as int),
                decreases list.len() - i,
            {
                let r = &list[i];
                let copy = RefInfo { name: r.name.clone(), ref_type: r.ref_type, is_head: r.is_head };
                proof {
                    assert(list@.take(i as int).push(copy) =~= list@.take(i + 1));
                }
                out.push(copy);
                i += 1;
            }
            proof {
                assert(list@.take(list.len() as int) =~= list@);
            }
        },
        None => {},
    }
    out
}

/// Draws the row of `commit` in column `column`: the lines from above and
/// the lines to its parents. Gives the lines, and the column that the first
/// parent was taken over from, if it was.
fn draw_row(cols: &mut Columns, commit: &CommitInfo, column: usize) -> (r: (
    Vec<GraphLine>,
    Option<usize>,
))
    requires
        old(cols)@.wf(),
        column < old(cols)@.active.len(),
    ensures
        final(cols)@.wf(),
        (Draft { lanes: final(cols)@, lines: edges(r.0@) }) == draw(
            old(cols)@,
            commit@,
            column as int,
        ),
        r.1 is Some == (commit@.parents.len() > 0 && takes_over(
            old(cols)@,
            commit@.parents[0],
            column as int,
        )),
        r.1 matches Some(c) ==> c == old(cols)@.reserved[commit@.parents[0]],
{
    let ghost node = commit@;
    let mut lines = cols.incoming_lines(column);
    cols.release(column);
    let ghost arrived = Draft { lanes: cols@, lines: edges(lines@) };
    proof {
        assert(with_column(old(cols)@.active, column as int) == old(cols)@.active);
        assert(arrived == arrive(old(cols)@, column as int));
        assert(node.parents.len() == commit.parent_hashes.len());
    }
    let mut moved: Option<usize> = None;
    let n = commit.parent_hashes.len();
    if n > 0 {
        proof {
            assert(node.parents[0] == commit.parent_hashes[0]@);
        }
        let (with_first, from) = link_first(cols, lines, &commit.parent_hashes[0], column);
        lines = with_first;
        moved = from;
    }
    let ghost first = Draft { lanes: cols@, lines: edges(lines@) };
    proof {
        assert(n > 0 ==> first == link_first_parent(arrived, node.parents[0], column as int));
        assert(n == 0 ==> first == arrived);
    }
    let mut j: usize = 1;
    while j < n
        invariant
            n == commit.parent_hashes.len(),
            node == commit@,
            1 <= j,
            j <= n || j == 1,
            cols@.wf(),
            (Draft { lanes: cols@, lines: edges(lines@) }) == link_merge_parents(
                first,
                node.parents,
                column as int,
                j as nat,
            ),
        decreases n - j,
    {
        proof {
            assert(node.parents[j as int] == commit.parent_hashes[j as int]@);
        }
        link_merge(cols, &mut lines, &commit.parent_hashes[j], column);
        j += 1;
    }
    proof {
        let done = Draft { lanes: cols@, lines: edges(lines@) };
        assert(done == link_merge_parents(first, node.parents, column as int, n as nat));
    }
    (lines, moved)
}

/// Lays out the graph of `commits`, which are taken in the order of a walk
/// from children to parents, and attaches to each commit the refs that
/// `branch_refs` holds for its hash.
///
/// Each commit gets one row, in the order given. The row's column is the one
/// that an earlier row reserved for the commit, else the lowest free one, and
/// the commit is a tip exactly in the second case. The row's lines are those
/// that enter it from above, one for each reserved column, then the line to
/// the first parent, then one line for each further parent.
pub fn build_commit_graph(commits: Vec<CommitInfo>, branch_refs: RefMap) -> (rows: Vec<
    GraphCommit,
>)
    ensures
        rows.len() == commits.len(),
        forall|i: int|
            0 <= i < rows.len() ==> {
                &&& (#[trigger] rows[i]).commit == commits[i]
                &&& rows[i]@ == graph_rows(nodes(commits@))[i]
                &&& rows[i].refs@ == refs_at(branch_refs@, commits[i].hash@)
            },
{
    let ghost cs = nodes(commits@);
    let mut rows: Vec<GraphCommit> = Vec::new();
    let mut cols = Columns::new();
    let mut children = Children::new(Ghost(cs));
    proof {
        assert(row_views(rows@) =~= Seq::empty());
    }
    for commit in it: commits
        invariant
            it.seq() == commits@,
            cs == nodes(commits@),
            cols@.wf(),
            rows.len() == it.index(),
            children.indexes(cs, it.index() as nat),
            (Layout { lanes: cols@, rows: row_views(rows@) }) == layout(cs, it.index() as nat),
            forall|i: int|
                0 <= i < rows.len() ==> (#[trigger] rows[i]).commit == commits[i] && rows[i].refs@
                    == refs_at(branch_refs@, commits[i].hash@),
    {
        let ghost i = it.index() as int;
        let ghost st = layout(cs, i as nat);
        proof {
            assert(cs[i] == commit@);
        }
        let (column, is_tip) = match cols.reserved_for(commit.hash.as_str()) {
            Some(c) => (c, false),
            None => (cols.claim_free(), true),
        };
        proof {
            assert((column as int, is_tip) == resolve(st.lanes, commit@.hash));
            assert(draw(cols@, commit@, column as int) == draw(st.lanes, commit@, column as int))
                by {
                assert(with_column(cols@.active, column as int) == with_column(
                    st.lanes.active,
                    column as int,
                ));
            }
        }
        let (lines, moved) = draw_row(&mut cols, &commit, column);
        match moved {
            Some(old_col) => {
                let parent = &commit.parent_hashes[0];
                let child = children.last_child_of(
                    parent.as_str(),
                    Ghost(cs),
                    Ghost(rows.len() as nat),
                );
                rewire_row(&mut rows, child, Ghost(cs), Ghost(parent@), old_col, column);
            },
            None => {},
        }
        children.note(&commit, rows.len(), Ghost(cs));
        let refs = refs_for(&branch_refs, commit.hash.as_str());
        let row = GraphCommit { commit, column, lines, refs, is_tip };
        proof {
            assert(row_views(rows@.push(row)) =~= row_views(rows@).push(row@));
        }
        rows.push(row);
    }
    proof {
        assert forall|i: int| 0 <= i < rows.len() implies rows[i]@ == graph_rows(cs)[i] by {
            assert(row_views(rows@)[i] == rows[i]@);
        }
    }
    rows
}

/// The ref of a branch. A remote branch is never the head.
pub fn branch_ref(name: String, is_remote: bool, points_at_head: bool) -> (info: RefInfo)
    ensures
        info.name == name,
        info.ref_type == if is_remote {
            RefType::RemoteBranch
        } else {
            RefType::Branch
        },
        info.is_head == (points_at_head && !is_remote),
{
    RefInfo {
        name,
        ref_type: if is_remote {
            RefType::RemoteBranch
        } else {
            RefType::Branch
        },
        is_head: points_at_head && !is_remote,
    }
}

/// `s` without `prefix` at its start, as often as it stands there.
pub open spec fn without_prefixes(s: Seq<char>, prefix: Seq<char>) -> Seq<char>
    decreases s.len(),
{
    if prefix.len() > 0 && has_prefix(s, prefix) {
        without_prefixes(s.skip(prefix.len() as int), prefix)
    } else {
        s
    }
}

/// The name of a tag: the name of its ref without `refs/tags/` in front.
pub open spec fn tag_name(refname: Seq<char>) -> Seq<char> {
    without_prefixes(refname, "refs/tags/"@)
}

/// The name of the tag that a ref names.
pub fn short_tag_name(refname: &str) -> (name: String)
    ensures
        name@ == tag_name(refname@),
{
    let text = chars_of(refname);
    let prefix = chars_of("refs/tags/");
    let mut from: usize = 0;
    proof {
        assert(text@.skip(0) =~= text@);
    }
    if prefix.len() > 0 {
        while from <= text.len() && starts_with_at(&text, from, &prefix)
            invariant
                from <= text.len(),
                prefix.len() > 0,
                prefix@ == "refs/tags/"@,
                text@ == refname@,
                tag_name(refname@) == without_prefixes(text@.skip(from as int), prefix@),
            decreases text.len() - from,
        {
            proof {
                assert(text@.skip(from as int).skip(prefix.len() as int) =~= text@.skip(
                    from + prefix.len(),
                ));
            }
            from += prefix.len();
        }
    }
    proof {
        assert(text@.skip(from as int) =~= text@.subrange(from as int, text.len() as int));
    }
    string_of(&text, from, text.len())
}

/// The ref of a tag, from the name of its ref.
pub fn tag_ref(refname: &str) -> (info: RefInfo)
    ensures
        info.name@ == tag_name(refname@),
        info.ref_type == RefType::Tag,
        !info.is_head,
{
    RefInfo { name: short_tag_name(refname), ref_type: RefType::Tag, is_head: false }
}

/// Adds a ref to those that point to the commit `target`.
pub fn add_ref(refs: &mut RefMap, target: &str, info: RefInfo)
    ensures
        final(refs)@.dom() == old(refs)@.dom().insert(target@),
        refs_at(final(refs)@, target@) == refs_at(old(refs)@, target@).push(info),
        forall|h: Seq<char>| h != target@ ==> refs_at(final(refs)@, h) == refs_at(old(refs)@, h),
{
    let mut list = refs_for(refs, target);
    list.push(info);
    refs.insert(target.to_owned(), list);
}

} // verus!
