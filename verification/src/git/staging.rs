//! Applying hunks, or chosen lines of them, to a text and taking them back.
//!
//! A hunk is walked through a text by its line counts alone. Staging,
//! unstaging and discarding take a hunk that was just made from the text they
//! are given, and do not hold the text against it: on any other text they
//! still give a text, which is then not the one that was meant. Reverting
//! lines of a commit takes a hunk that may be old; it holds the text against
//! the hunk first and refuses with a conflict where they differ. A caller
//! that is not sure of its text can ask `find_conflict` before any of them.

use vstd::prelude::*;
use vstd::string::StringExecFns;
use crate::error::AppError;
use crate::git::diff::{DiffHunk, FileDiff, HunkLine, LineType};
use crate::text::{
    chars_of, ends_with_newline, join_lines, line_views, lines_of, render, split_lines,
    trim_newlines, trimmed_len,
};

verus! {

/// A walk through a hunk: the lines written so far and the place in the text.
pub struct Cursor {
    pub out: Seq<Seq<char>>,
    pub pos: int,
}

/// Copies the line under the cursor and moves on; nothing where the text has ended.
pub open spec fn copy_line(text: Seq<Seq<char>>, c: Cursor) -> Cursor {
    if 0 <= c.pos < text.len() {
        Cursor { out: c.out.push(text[c.pos]), pos: c.pos + 1 }
    } else {
        c
    }
}

/// Writes a line of the hunk; the text is not moved through.
pub open spec fn insert_line(line: HunkLine, c: Cursor) -> Cursor {
    Cursor { out: c.out.push(trim_newlines(line.content)), pos: c.pos }
}

/// Passes over the line under the cursor without writing it.
pub open spec fn drop_line(c: Cursor) -> Cursor {
    Cursor { out: c.out, pos: c.pos + 1 }
}

/// One line of a hunk, applied (`reverse` unset) or taken back (`reverse` set).
///
/// Applying, a chosen addition is written and a chosen deletion drops the
/// line under the cursor; an addition not chosen leaves no trace and a
/// deletion not chosen keeps the line. Taking back, the two kinds change
/// places: a chosen deletion is written again, a chosen addition is dropped,
/// a deletion not chosen stays absent and an addition not chosen is kept.
pub open spec fn step(
    text: Seq<Seq<char>>,
    line: HunkLine,
    selected: bool,
    reverse: bool,
    c: Cursor,
) -> Cursor {
    match line.kind {
        LineType::Context => copy_line(text, c),
        LineType::Header => c,
        LineType::Addition => if reverse {
            if selected {
                drop_line(c)
            } else {
                copy_line(text, c)
            }
        } else {
            if selected {
                insert_line(line, c)
            } else {
                c
            }
        },
        LineType::Deletion => if reverse {
            if selected {
                insert_line(line, c)
            } else {
                c
            }
        } else {
            if selected {
                drop_line(c)
            } else {
                copy_line(text, c)
            }
        },
    }
}

/// The cursor after the first `n` lines of the hunk, from line `start` of the text.
pub open spec fn walk(
    text: Seq<Seq<char>>,
    lines: Seq<HunkLine>,
    selection: Set<int>,
    reverse: bool,
    start: int,
    n: nat,
) -> Cursor
    decreases n,
{
    if n == 0 {
        Cursor { out: Seq::empty(), pos: start }
    } else {
        step(
            text,
            lines[n - 1],
            selection.contains(n - 1),
            reverse,
            walk(text, lines, selection, reverse, start, (n - 1) as nat),
        )
    }
}

/// The lines of the text before line `start`.
pub open spec fn lines_before(text: Seq<Seq<char>>, start: int) -> Seq<Seq<char>> {
    if start < text.len() {
        text.take(start)
    } else {
        text
    }
}

/// The lines of the text from line `pos` on.
pub open spec fn lines_from(text: Seq<Seq<char>>, pos: int) -> Seq<Seq<char>> {
    if 0 <= pos < text.len() {
        text.skip(pos)
    } else {
        Seq::empty()
    }
}

/// The lines of a text after a hunk was walked through it from line `start`:
/// what stood before the hunk, what the walk wrote, and what the walk left.
pub open spec fn patched_lines(
    text: Seq<Seq<char>>,
    lines: Seq<HunkLine>,
    selection: Set<int>,
    reverse: bool,
    start: int,
) -> Seq<Seq<char>>
    recommends
        0 <= start,
{
    let end = walk(text, lines, selection, reverse, start, lines.len());
    lines_before(text, start) + end.out + lines_from(text, end.pos)
}

/// The patched text: the patched lines, with a final line feed exactly where
/// the text had one.
pub open spec fn patched_text(
    text: Seq<char>,
    lines: Seq<HunkLine>,
    selection: Set<int>,
    reverse: bool,
    start: int,
) -> Seq<char> {
    render(
        patched_lines(split_lines(text), lines, selection, reverse, start),
        ends_with_newline(text),
    )
}

/// Line of the text, counted from 0, at which a hunk starts that gives
/// `start` as its first line, counted from 1.
pub open spec fn anchor(start: u32) -> int {
    if start == 0 {
        0
    } else {
        start - 1
    }
}

/// The set of hunk-line indices that a list names.
pub open spec fn index_set(indices: Seq<usize>) -> Set<int> {
    Set::new(|i: int| exists|j: int| 0 <= j < indices.len() && indices[j] == i)
}

/// The chosen lines: those that the list names, or all where there is no list.
pub open spec fn selected_set(selection: Option<Seq<usize>>) -> Set<int> {
    match selection {
        Some(indices) => index_set(indices),
        None => Set::full(),
    }
}

/// What the join of some lines becomes when one more line follows.
pub proof fn lemma_join_push(lines: Seq<Seq<char>>, line: Seq<char>)
    ensures
        join_lines(lines.push(line)) == if lines.len() == 0 {
            line
        } else {
            join_lines(lines) + seq!['\n'] + line
        },
{
    assert(lines.push(line).drop_last() == lines);
}

/// Whether `indices` names `index`.
pub fn contains_index(indices: &[usize], index: usize) -> (found: bool)
    ensures
        found == index_set(indices@).contains(index as int),
{
    let mut j: usize = 0;
    while j < indices.len()
        invariant
            j <= indices.len(),
            forall|i: int| 0 <= i < j ==> indices@[i] != index,
        decreases indices.len() - j,
    {
        if indices[j] == index {
            return true;
        }
        j += 1;
    }
    false
}

/// Writes the first `len` characters of `line` behind the lines already
/// written, after a line feed where there are any.
fn push_line(
    out: &mut String,
    written: Ghost<Seq<Seq<char>>>,
    any: bool,
    line: &Vec<char>,
    len: usize,
)
    requires
        len <= line.len(),
        old(out)@ == join_lines(written@),
        any == (written@.len() > 0),
    ensures
        final(out)@ == join_lines(written@.push(line@.take(len as int))),
{
    proof {
        lemma_join_push(written@, line@.take(len as int));
    }
    if any {
        out.push('\n');
    }
    let ghost head = out@;
    let mut i: usize = 0;
    while i < len
        invariant
            i <= len <= line.len(),
            out@ == head + line@.take(i as int),
        decreases len - i,
    {
        proof {
            assert(line@.take(i as int).push(line@[i as int]) == line@.take(i + 1));
        }
        out.push(line[i]);
        i += 1;
    }
}

/// Walks `hunk` through `content` and gives the patched text: forwards from
/// the hunk's old start, or backwards (`reverse`) from its new start.
fn patch_content(
    content: &str,
    hunk: &DiffHunk,
    selection: Option<&[usize]>,
    reverse: bool,
) -> (patched: String)
    ensures
        patched@ == patched_text(
            content@,
            hunk.changes(),
            selected_set(
                match selection {
                    Some(indices) => Some(indices@),
                    None => None,
                },
            ),
            reverse,
            anchor(
                if reverse {
                    hunk.new_start
                } else {
                    hunk.old_start
                },
            ),
        ),
{
    let text = chars_of(content);
    let lines = lines_of(&text);
    let n = lines.len();
    let first = if reverse {
        hunk.new_start
    } else {
        hunk.old_start
    };
    let start: usize = if first == 0 {
        0
    } else {
        (first - 1) as usize
    };
    let ghost tl = line_views(lines@);
    let ghost hl = hunk.changes();
    let ghost sel = selected_set(
        match selection {
            Some(indices) => Some(indices@),
            None => None,
        },
    );
    let mut out = String::new();
    let ghost mut written: Seq<Seq<char>> = Seq::empty();
    let mut any = false;

    let mut i: usize = 0;
    while i < n && i < start
        invariant
            n == lines.len(),
            tl == line_views(lines@),
            i <= n,
            i <= start,
            written == tl.take(i as int),
            out@ == join_lines(written),
            any == (written.len() > 0),
        decreases n - i,
    {
        push_line(&mut out, Ghost(written), any, &lines[i], lines[i].len());
        proof {
            assert(lines[i as int]@.take(lines[i as int].len() as int) == tl[i as int]);
            assert(tl.take(i as int).push(tl[i as int]) == tl.take(i + 1));
            written = written.push(tl[i as int]);
        }
        any = true;
        i += 1;
    }
    proof {
        assert(tl.take(n as int) == tl);
        assert(written == lines_before(tl, start as int));
    }

    let mut pos: usize = start;
    let ghost mut cur = Cursor { out: Seq::empty(), pos: start as int };
    proof {
        assert(written + cur.out == written);
    }
    let mut k: usize = 0;
    while k < hunk.lines.len()
        invariant
            n == lines.len(),
            tl == line_views(lines@),
            hl == hunk.changes(),
            sel == selected_set(
                match selection {
                    Some(indices) => Some(indices@),
                    None => None,
                },
            ),
            k <= hunk.lines.len(),
            cur == walk(tl, hl, sel, reverse, start as int, k as nat),
            written == lines_before(tl, start as int) + cur.out,
            0 <= pos <= cur.pos,
            pos < n ==> pos == cur.pos,
            out@ == join_lines(written),
            any == (written.len() > 0),
        decreases hunk.lines.len() - k,
    {
        let line = &hunk.lines[k];
        let selected = match selection {
            Some(indices) => contains_index(indices, k),
            None => true,
        };
        let ghost next = step(tl, hl[k as int], sel.contains(k as int), reverse, cur);
        proof {
            assert(hl[k as int] == line@);
            assert(walk(tl, hl, sel, reverse, start as int, (k + 1) as nat) == next);
        }
        let (inserts, drops) = if reverse {
            (LineType::Deletion, LineType::Addition)
        } else {
            (LineType::Addition, LineType::Deletion)
        };
        let t = line.line_type;
        let copy = match t {
            LineType::Context => true,
            LineType::Header => false,
            _ => t == drops && !selected,
        };
        if copy {
            if pos < n {
                push_line(&mut out, Ghost(written), any, &lines[pos], lines[pos].len());
                proof {
                    assert(lines[pos as int]@.take(lines[pos as int].len() as int) == tl[pos as int]);
                    assert((lines_before(tl, start as int) + cur.out).push(tl[pos as int])
                        == lines_before(tl, start as int) + cur.out.push(tl[pos as int]));
                    written = written.push(tl[pos as int]);
                }
                any = true;
                pos += 1;
            }
        } else if t == inserts && selected {
            let chars = chars_of(line.content.as_str());
            let len = trimmed_len(&chars);
            push_line(&mut out, Ghost(written), any, &chars, len);
            proof {
                let added = trim_newlines(line.content@);
                assert((lines_before(tl, start as int) + cur.out).push(added) == lines_before(
                    tl,
                    start as int,
                ) + cur.out.push(added));
                written = written.push(added);
            }
            any = true;
        } else if t == drops && selected {
            if pos < n {
                pos += 1;
            }
        }
        proof {
            cur = next;
        }
        k += 1;
    }

    let ghost done = written;
    let ghost from = pos as int;
    proof {
        assert(done + lines_from(tl, from).take(0) == done);
    }
    while pos < n
        invariant
            n == lines.len(),
            tl == line_views(lines@),
            tl.len() == n,
            0 <= from <= pos,
            pos <= n || pos == from,
            written == done + lines_from(tl, from).take(pos - from),
            out@ == join_lines(written),
            any == (written.len() > 0),
        decreases n - pos,
    {
        push_line(&mut out, Ghost(written), any, &lines[pos], lines[pos].len());
        proof {
            let rest = lines_from(tl, from);
            assert(lines[pos as int]@.take(lines[pos as int].len() as int) == tl[pos as int]);
            assert(rest[pos - from] == tl[pos as int]);
            assert(rest.take(pos - from).push(tl[pos as int]) == rest.take(pos - from + 1));
            assert((done + rest.take(pos - from)).push(tl[pos as int]) == done + rest.take(
                pos - from + 1,
            ));
            written = written.push(tl[pos as int]);
        }
        any = true;
        pos += 1;
    }
    proof {
        let rest = lines_from(tl, from);
        assert(rest.take(pos - from) == rest);
        assert(cur.pos < n ==> from == cur.pos);
        assert(lines_from(tl, cur.pos) == rest);
        assert(written == patched_lines(tl, hl, sel, reverse, start as int));
    }
    if text.len() > 0 && text[text.len() - 1] == '\n' {
        out.push('\n');
    }
    out
}

/// Applies the whole hunk to `content`, which it takes for the text the hunk
/// was made from.
pub fn apply_hunk_to_content(content: &str, hunk: &DiffHunk) -> (result: Result<String, AppError>)
    ensures
        result is Ok,
        result->Ok_0@ == patched_text(
            content@,
            hunk.changes(),
            Set::full(),
            false,
            anchor(hunk.old_start),
        ),
{
    Ok(patch_content(content, hunk, None, false))
}

/// Applies the lines of the hunk that `selected_indices` names to `content`:
/// a chosen addition is written, a chosen deletion removes its line, and
/// every other line of the hunk leaves the text as it was.
pub fn apply_selected_lines_to_content(
    content: &str,
    hunk: &DiffHunk,
    selected_indices: &[usize],
) -> (result: Result<String, AppError>)
    ensures
        result is Ok,
        result->Ok_0@ == patched_text(
            content@,
            hunk.changes(),
            index_set(selected_indices@),
            false,
            anchor(hunk.old_start),
        ),
{
    Ok(patch_content(content, hunk, Some(selected_indices), false))
}

/// Takes the hunk back out of `content`, which it takes for the text with
/// the hunk applied: all of its lines, or those that `selected_indices` names.
pub fn reverse_apply_hunk(
    content: &str,
    hunk: &DiffHunk,
    selected_indices: Option<&[usize]>,
) -> (result: Result<String, AppError>)
    ensures
        result is Ok,
        result->Ok_0@ == patched_text(
            content@,
            hunk.changes(),
            selected_set(
                match selected_indices {
                    Some(indices) => Some(indices@),
                    None => None,
                },
            ),
            true,
            anchor(hunk.new_start),
        ),
{
    Ok(patch_content(content, hunk, selected_indices, true))
}

/// The hunk at `hunk_index` of a diff.
pub fn hunk_at(diff: &FileDiff, hunk_index: usize) -> (result: Result<&DiffHunk, AppError>)
    ensures
        hunk_index < diff.hunks.len() ==> result is Ok && *result->Ok_0
            == diff.hunks[hunk_index as int],
        hunk_index >= diff.hunks.len() ==> result is Err && result->Err_0 == (
        AppError::IndexOutOfRange { index: hunk_index, len: diff.hunks.len() }),
{
    if hunk_index < diff.hunks.len() {
        Ok(&diff.hunks[hunk_index])
    } else {
        Err(AppError::IndexOutOfRange { index: hunk_index, len: diff.hunks.len() })
    }
}

/// What a request on hunk `hunk_index` of a diff gives: the text that
/// `patched` makes of the hunk, or the error that the index is out of range.
pub open spec fn on_hunk(
    diff: &FileDiff,
    hunk_index: usize,
    patched: spec_fn(DiffHunk) -> Seq<char>,
    result: Result<String, AppError>,
) -> bool {
    if hunk_index < diff.hunks.len() {
        result is Ok && result->Ok_0@ == patched(diff.hunks[hunk_index as int])
    } else {
        result is Err && result->Err_0 == (AppError::IndexOutOfRange {
            index: hunk_index,
            len: diff.hunks.len(),
        })
    }
}

/// The staged text with hunk `hunk_index` of the unstaged diff applied to it.
pub fn stage_hunk(index_content: &str, diff: &FileDiff, hunk_index: usize) -> (result: Result<
    String,
    AppError,
>)
    ensures
        on_hunk(
            diff,
            hunk_index,
            |h: DiffHunk|
                patched_text(index_content@, h.changes(), Set::full(), false, anchor(h.old_start)),
            result,
        ),
{
    match hunk_at(diff, hunk_index) {
        Ok(hunk) => apply_hunk_to_content(index_content, hunk),
        Err(e) => Err(e),
    }
}

/// The staged text with hunk `hunk_index` of the staged diff taken back out of it.
pub fn unstage_hunk(index_content: &str, diff: &FileDiff, hunk_index: usize) -> (result: Result<
    String,
    AppError,
>)
    ensures
        on_hunk(
            diff,
            hunk_index,
            |h: DiffHunk|
                patched_text(index_content@, h.changes(), Set::full(), true, anchor(h.new_start)),
            result,
        ),
{
    match hunk_at(diff, hunk_index) {
        Ok(hunk) => reverse_apply_hunk(index_content, hunk, None),
        Err(e) => Err(e),
    }
}

/// The staged text with the lines `line_indices` of hunk `hunk_index` of
/// the unstaged diff applied to it.
pub fn stage_lines(
    index_content: &str,
    diff: &FileDiff,
    hunk_index: usize,
    line_indices: &[usize],
) -> (result: Result<String, AppError>)
    ensures
        on_hunk(
            diff,
            hunk_index,
            |h: DiffHunk|
                patched_text(
                    index_content@,
                    h.changes(),
                    index_set(line_indices@),
                    false,
                    anchor(h.old_start),
                ),
            result,
        ),
{
    match hunk_at(diff, hunk_index) {
        Ok(hunk) => apply_selected_lines_to_content(index_content, hunk, line_indices),
        Err(e) => Err(e),
    }
}

/// The text of the working file with hunk `hunk_index` of the unstaged diff
/// taken back out of it: the whole hunk, or the lines `line_indices` of it.
pub fn discard_hunk(
    content: &str,
    diff: &FileDiff,
    hunk_index: usize,
    line_indices: Option<&[usize]>,
) -> (result: Result<String, AppError>)
    ensures
        on_hunk(
            diff,
            hunk_index,
            |h: DiffHunk|
                patched_text(
                    content@,
                    h.changes(),
                    selected_set(
                        match line_indices {
                            Some(indices) => Some(indices@),
                            None => None,
                        },
                    ),
                    true,
                    anchor(h.new_start),
                ),
            result,
        ),
{
    match hunk_at(diff, hunk_index) {
        Ok(hunk) => reverse_apply_hunk(content, hunk, line_indices),
        Err(e) => Err(e),
    }
}

/// Whether a line of a hunk is expected in the text that has the hunk applied.
pub open spec fn is_expected(line: HunkLine) -> bool {
    line.kind == LineType::Context || line.kind == LineType::Addition
}

/// Number of lines among the first `n` of a hunk that are expected in the
/// text that has the hunk applied.
pub open spec fn expected_before(lines: Seq<HunkLine>, n: nat) -> nat
    decreases n,
{
    if n == 0 {
        0
    } else {
        expected_before(lines, (n - 1) as nat) + if is_expected(lines[n - 1]) {
            1nat
        } else {
            0nat
        }
    }
}

/// Whether the text differs from line `k` of the hunk, at the place where
/// a text that has the hunk applied from line `start` on holds that line.
pub open spec fn conflicts_at(
    text: Seq<Seq<char>>,
    lines: Seq<HunkLine>,
    start: int,
    k: int,
) -> bool {
    let at = start + expected_before(lines, k as nat);
    is_expected(lines[k]) && 0 <= at < text.len() && text[at] != trim_newlines(lines[k].content)
}

/// Whether the text has changed since the hunk was made: it differs from a
/// context line or an added line of the hunk. Lines of the hunk that lie
/// behind the end of the text are not held against it.
pub open spec fn has_conflict(text: Seq<Seq<char>>, lines: Seq<HunkLine>, start: int) -> bool {
    exists|k: int| 0 <= k < lines.len() && conflicts_at(text, lines, start, k)
}

/// Whether the first `len` characters of `a` are the characters of `b`.
fn same_chars(a: &Vec<char>, len: usize, b: &Vec<char>) -> (same: bool)
    requires
        len <= a.len(),
    ensures
        same == (a@.take(len as int) == b@),
{
    if len != b.len() {
        return false;
    }
    let mut i: usize = 0;
    while i < len
        invariant
            i <= len,
            len == b.len(),
            len <= a.len(),
            forall|j: int| 0 <= j < i ==> a@[j] == b@[j],
        decreases len - i,
    {
        if a[i] != b[i] {
            proof {
                assert(a@.take(len as int)[i as int] != b@[i as int]);
            }
            return false;
        }
        i += 1;
    }
    proof {
        assert(a@.take(len as int) =~= b@);
    }
    true
}

/// Holds the text against the context lines and the added lines of a hunk.
pub fn find_conflict(content: &str, hunk: &DiffHunk) -> (conflict: bool)
    ensures
        conflict == has_conflict(split_lines(content@), hunk.changes(), anchor(hunk.new_start)),
{
    let text = chars_of(content);
    let lines = lines_of(&text);
    let n = lines.len();
    let start: usize = if hunk.new_start == 0 {
        0
    } else {
        (hunk.new_start - 1) as usize
    };
    let ghost tl = line_views(lines@);
    let ghost hl = hunk.changes();
    let mut pos: usize = start;
    let mut k: usize = 0;
    while k < hunk.lines.len()
        invariant
            n == lines.len(),
            tl == line_views(lines@),
            tl.len() == n,
            tl == split_lines(content@),
            start == anchor(hunk.new_start),
            hl == hunk.changes(),
            k <= hunk.lines.len(),
            pos <= start + expected_before(hl, k as nat),
            pos < n ==> pos == start + expected_before(hl, k as nat),
            forall|j: int| 0 <= j < k ==> !conflicts_at(tl, hl, start as int, j),
        decreases hunk.lines.len() - k,
    {
        let line = &hunk.lines[k];
        proof {
            assert(hl[k as int] == line@);
        }
        let expected = match line.line_type {
            LineType::Context => true,
            LineType::Addition => true,
            _ => false,
        };
        if expected && pos < n {
            let chars = chars_of(line.content.as_str());
            let len = trimmed_len(&chars);
            if !same_chars(&chars, len, &lines[pos]) {
                proof {
                    assert(tl[pos as int] == lines[pos as int]@);
                    assert(conflicts_at(tl, hl, start as int, k as int));
                }
                return true;
            }
            pos += 1;
        }
        k += 1;
    }
    false
}

/// The message of the error that a text has changed since a commit.
pub open spec fn conflict_message() -> Seq<char> {
    "File has been modified since this commit. The revert cannot be applied safely."@
}

/// The text of the working file with the lines `line_indices` of hunk
/// `hunk_index` of a commit's diff taken back out of it. The text is first
/// held against the hunk: where it differs from a context line or an added
/// line, nothing is taken back.
pub fn revert_commit_file_lines(
    content: &str,
    diff: &FileDiff,
    hunk_index: usize,
    line_indices: &[usize],
) -> (result: Result<String, AppError>)
    ensures
        hunk_index >= diff.hunks.len() ==> result is Err && result->Err_0 == (
        AppError::IndexOutOfRange { index: hunk_index, len: diff.hunks.len() }),
        hunk_index < diff.hunks.len() ==> ({
            let hunk = diff.hunks[hunk_index as int];
            let start = anchor(hunk.new_start);
            if has_conflict(split_lines(content@), hunk.changes(), start) {
                result matches Err(AppError::RevertConflict(msg)) && msg@ == conflict_message()
            } else {
                result is Ok && result->Ok_0@ == patched_text(
                    content@,
                    hunk.changes(),
                    index_set(line_indices@),
                    true,
                    start,
                )
            }
        }),
{
    match hunk_at(diff, hunk_index) {
        Ok(hunk) => {
            if find_conflict(content, hunk) {
                Err(
                    AppError::RevertConflict(
                        String::from_str(
                            "File has been modified since this commit. The revert cannot be applied safely.",
                        ),
                    ),
                )
            } else {
                reverse_apply_hunk(content, hunk, Some(line_indices))
            }
        },
        Err(e) => Err(e),
    }
}

#[derive(Debug, Clone, Copy, PartialEq, Eq, Structural)]
pub enum FileStatusType {
    Modified,
    Added,
    Deleted,
    Renamed,
    Copied,
    Untracked,
    Conflicted,
}

#[derive(Debug, Clone)]
pub struct FileStatus {
    pub path: String,
    pub status: FileStatusType,
    pub is_staged: bool,
}

/// The status of a file as a value.
pub struct Status {
    pub path: Seq<char>,
    pub status: FileStatusType,
    pub is_staged: bool,
}

impl View for FileStatus {
    type V = Status;

    open spec fn view(&self) -> Status {
        Status { path: self.path@, status: self.status, is_staged: self.is_staged }
    }
}

#[derive(Debug, Clone)]
pub struct FileStatuses {
    pub staged: Vec<FileStatus>,
    pub unstaged: Vec<FileStatus>,
    pub untracked: Vec<FileStatus>,
}

/// The statuses of a list as values.
pub open spec fn status_views(list: Seq<FileStatus>) -> Seq<Status> {
    list.map_values(|s: FileStatus| s@)
}

/// What the backend reports of a file: how the index differs from the last
/// commit (`index_`), how the working tree differs from the index (`wt_`),
/// and whether the file is in conflict.
#[derive(Debug, Clone, Copy, PartialEq, Eq, Structural)]
pub struct StatusFlags {
    pub index_new: bool,
    pub index_modified: bool,
    pub index_deleted: bool,
    pub index_renamed: bool,
    pub index_typechange: bool,
    pub wt_new: bool,
    pub wt_modified: bool,
    pub wt_deleted: bool,
    pub wt_typechange: bool,
    pub wt_renamed: bool,
    pub conflicted: bool,
}

impl StatusFlags {
    /// The flags of a file of which nothing is reported.
    pub fn none() -> (flags: Self)
        ensures
            flags == (StatusFlags {
                index_new: false,
                index_modified: false,
                index_deleted: false,
                index_renamed: false,
                index_typechange: false,
                wt_new: false,
                wt_modified: false,
                wt_deleted: false,
                wt_typechange: false,
                wt_renamed: false,
                conflicted: false,
            }),
    {
        StatusFlags {
            index_new: false,
            index_modified: false,
            index_deleted: false,
            index_renamed: false,
            index_typechange: false,
            wt_new: false,
            wt_modified: false,
            wt_deleted: false,
            wt_typechange: false,
            wt_renamed: false,
            conflicted: false,
        }
    }

    /// Whether the index differs from the last commit.
    pub open spec fn staged(self) -> bool {
        self.index_new || self.index_modified || self.index_deleted || self.index_renamed
            || self.index_typechange
    }

    /// Whether the working tree differs from the index in a tracked file.
    pub open spec fn unstaged(self) -> bool {
        self.wt_modified || self.wt_deleted || self.wt_typechange || self.wt_renamed
    }

    /// The kind of the staged change: new before modified before deleted
    /// before renamed, and modified where none of these is reported.
    pub open spec fn index_kind(self) -> FileStatusType {
        if self.index_new {
            FileStatusType::Added
        } else if self.index_modified {
            FileStatusType::Modified
        } else if self.index_deleted {
            FileStatusType::Deleted
        } else if self.index_renamed {
            FileStatusType::Renamed
        } else {
            FileStatusType::Modified
        }
    }

    /// The kind of the unstaged change: modified before deleted before
    /// renamed, and modified where none of these is reported.
    pub open spec fn workdir_kind(self) -> FileStatusType {
        if self.wt_modified {
            FileStatusType::Modified
        } else if self.wt_deleted {
            FileStatusType::Deleted
        } else if self.wt_renamed {
            FileStatusType::Renamed
        } else {
            FileStatusType::Modified
        }
    }
}

/// The kind of the staged change that the flags report.
pub fn index_status_to_type(status: StatusFlags) -> (kind: FileStatusType)
    ensures
        kind == status.index_kind(),
{
    if status.index_new {
        FileStatusType::Added
    } else if status.index_modified {
        FileStatusType::Modified
    } else if status.index_deleted {
        FileStatusType::Deleted
    } else if status.index_renamed {
        FileStatusType::Renamed
    } else {
        FileStatusType::Modified
    }
}

/// The kind of the unstaged change that the flags report.
pub fn workdir_status_to_type(status: StatusFlags) -> (kind: FileStatusType)
    ensures
        kind == status.workdir_kind(),
{
    if status.wt_modified {
        FileStatusType::Modified
    } else if status.wt_deleted {
        FileStatusType::Deleted
    } else if status.wt_renamed {
        FileStatusType::Renamed
    } else {
        FileStatusType::Modified
    }
}

/// A file and what the backend reports of it.
#[derive(Debug, Clone)]
pub struct StatusEntry {
    pub path: String,
    pub status: StatusFlags,
}

/// The statuses of files in three lists, as values.
pub struct Groups {
    pub staged: Seq<Status>,
    pub unstaged: Seq<Status>,
    pub untracked: Seq<Status>,
}

/// The lists with one more file sorted in. A file stands in the staged list
/// where the index differs from the last commit, in the unstaged list where
/// the working tree differs from the index, in the untracked list where it
/// is new to the working tree, and once more in the unstaged list where it
/// is in conflict.
pub open spec fn sort_in(groups: Groups, path: Seq<char>, status: StatusFlags) -> Groups {
    let changed = if status.unstaged() {
        groups.unstaged.push(Status { path, status: status.workdir_kind(), is_staged: false })
    } else {
        groups.unstaged
    };
    Groups {
        staged: if status.staged() {
            groups.staged.push(Status { path, status: status.index_kind(), is_staged: true })
        } else {
            groups.staged
        },
        unstaged: if status.conflicted {
            changed.push(Status { path, status: FileStatusType::Conflicted, is_staged: false })
        } else {
            changed
        },
        untracked: if status.wt_new {
            groups.untracked.push(
                Status { path, status: FileStatusType::Untracked, is_staged: false },
            )
        } else {
            groups.untracked
        },
    }
}

/// The lists for the first `n` files.
pub open spec fn grouped(entries: Seq<StatusEntry>, n: nat) -> Groups
    decreases n,
{
    if n == 0 {
        Groups { staged: Seq::empty(), unstaged: Seq::empty(), untracked: Seq::empty() }
    } else {
        sort_in(
            grouped(entries, (n - 1) as nat),
            entries[n - 1].path@,
            entries[n - 1].status,
        )
    }
}

fn push_status(
    list: &mut Vec<FileStatus>,
    path: &String,
    status: FileStatusType,
    is_staged: bool,
)
    ensures
        status_views(final(list)@) == status_views(old(list)@).push(
            Status { path: path@, status, is_staged },
        ),
{
    let entry = FileStatus { path: path.clone(), status, is_staged };
    proof {
        assert(status_views(list@.push(entry)) =~= status_views(list@).push(entry@));
    }
    list.push(entry);
}

/// Sorts the files that the backend reports into staged, unstaged and
/// untracked ones, each list in the order of the reports.
pub fn get_file_statuses(entries: &Vec<StatusEntry>) -> (statuses: FileStatuses)
    ensures
        (Groups {
            staged: status_views(statuses.staged@),
            unstaged: status_views(statuses.unstaged@),
            untracked: status_views(statuses.untracked@),
        }) == grouped(entries@, entries.len() as nat),
{
    let mut staged: Vec<FileStatus> = Vec::new();
    let mut unstaged: Vec<FileStatus> = Vec::new();
    let mut untracked: Vec<FileStatus> = Vec::new();
    proof {
        assert(status_views(staged@) =~= Seq::empty());
        assert(status_views(unstaged@) =~= Seq::empty());
        assert(status_views(untracked@) =~= Seq::empty());
    }
    let mut i: usize = 0;
    while i < entries.len()
        invariant
            i <= entries.len(),
            (Groups {
                staged: status_views(staged@),
                unstaged: status_views(unstaged@),
                untracked: status_views(untracked@),
            }) == grouped(entries@, i as nat),
        decreases entries.len() - i,
    {
        let entry = &entries[i];
        let status = entry.status;
        if status.index_new || status.index_modified || status.index_deleted
            || status.index_renamed || status.index_typechange {
            push_status(&mut staged, &entry.path, index_status_to_type(status), true);
        }
        if status.wt_modified || status.wt_deleted || status.wt_typechange || status.wt_renamed {
            push_status(&mut unstaged, &entry.path, workdir_status_to_type(status), false);
        }
        if status.wt_new {
            push_status(&mut untracked, &entry.path, FileStatusType::Untracked, false);
        }
        if status.conflicted {
            push_status(&mut unstaged, &entry.path, FileStatusType::Conflicted, false);
        }
        i += 1;
    }
    FileStatuses { staged, unstaged, untracked }
}

/// The parent against which a commit is reverted: the first parent of a
/// merge, counted from 1, and 0 for a commit that is no merge.
pub fn revert_mainline(parent_count: usize) -> (mainline: u32)
    ensures
        mainline == if parent_count > 1 {
            1u32
        } else {
            0u32
        },
{
    if parent_count > 1 {
        1
    } else {
        0
    }
}

} // verus!
