//! Commits as the history views read them.

use vstd::prelude::*;
use vstd::string::StringExecFns;
use crate::text::{chars_of, lines_of, split_lines, string_of};

verus! {

#[derive(Debug, Clone)]
pub struct CommitInfo {
    pub hash: String,
    pub short_hash: String,
    pub message: String,
    pub author_name: String,
    pub author_email: String,
    pub timestamp: i64,
    /// The parents' hashes; the first entry is the first parent.
    pub parent_hashes: Vec<String>,
}

/// What the graph layout reads of a commit: its hash and its parents' hashes.
pub struct Node {
    pub hash: Seq<char>,
    pub parents: Seq<Seq<char>>,
}

impl View for CommitInfo {
    type V = Node;

    open spec fn view(&self) -> Node {
        Node { hash: self.hash@, parents: self.parent_hashes@.map_values(|p: String| p@) }
    }
}

#[derive(Debug, Clone)]
pub struct CommitFileChange {
    pub path: String,
    pub status: String,
    pub old_path: Option<String>,
}

#[derive(Debug, Clone)]
pub struct CommitDetails {
    pub hash: String,
    pub message: String,
    pub author_name: String,
    pub author_email: String,
    pub committer_name: String,
    pub committer_email: String,
    pub timestamp: i64,
    pub parent_hashes: Vec<String>,
    pub files_changed: Vec<CommitFileChange>,
}

/// The first seven characters of a hash; the whole hash where it is shorter.
pub open spec fn short_form(hash: Seq<char>) -> Seq<char> {
    if hash.len() > 7 {
        hash.take(7)
    } else {
        hash
    }
}

/// The short form of a hash, which is written in ASCII characters.
pub fn short_hash(hash: &str) -> (short: String)
    requires
        hash.is_ascii(),
    ensures
        short@ == short_form(hash@),
{
    let chars = chars_of(hash);
    let end: usize = if chars.len() > 7 {
        7
    } else {
        chars.len()
    };
    proof {
        assert(chars@.subrange(0, end as int) =~= short_form(hash@));
    }
    string_of(&chars, 0, end)
}

/// The first line of a message; nothing where the message is empty.
pub open spec fn summary(message: Seq<char>) -> Seq<char> {
    let lines = split_lines(message);
    if lines.len() > 0 {
        lines[0]
    } else {
        Seq::empty()
    }
}

/// The first line of a commit message.
pub fn first_line(message: &str) -> (line: String)
    ensures
        line@ == summary(message@),
{
    let chars = chars_of(message);
    let lines = lines_of(&chars);
    if lines.len() > 0 {
        proof {
            assert(lines[0]@.subrange(0, lines[0].len() as int) =~= lines[0]@);
            assert(crate::text::line_views(lines@)[0] == lines[0]@);
        }
        string_of(&lines[0], 0, lines[0].len())
    } else {
        String::new()
    }
}

/// A commit as the history views read it: with the short form of its hash,
/// and of its message the first line.
pub fn commit_to_info(
    hash: String,
    message: &str,
    author_name: String,
    author_email: String,
    timestamp: i64,
    parent_hashes: Vec<String>,
) -> (info: CommitInfo)
    requires
        hash.is_ascii(),
    ensures
        info.hash == hash,
        info.short_hash@ == short_form(hash@),
        info.message@ == summary(message@),
        info.author_name == author_name,
        info.author_email == author_email,
        info.timestamp == timestamp,
        info.parent_hashes == parent_hashes,
{
    let short_hash = short_hash(hash.as_str());
    let message = first_line(message);
    CommitInfo { hash, short_hash, message, author_name, author_email, timestamp, parent_hashes }
}

/// How a commit changes a file, as the backend reports it.
#[derive(Debug, Clone, Copy, PartialEq, Eq, Structural)]
pub enum DeltaKind {
    Added,
    Deleted,
    Modified,
    Renamed,
    Copied,
    /// Any other report of the backend.
    Other,
}

/// The word for a kind of change; every kind without a word of its own
/// counts as modified.
pub open spec fn status_word(kind: DeltaKind) -> Seq<char> {
    match kind {
        DeltaKind::Added => "added"@,
        DeltaKind::Deleted => "deleted"@,
        DeltaKind::Modified => "modified"@,
        DeltaKind::Renamed => "renamed"@,
        DeltaKind::Copied => "copied"@,
        DeltaKind::Other => "modified"@,
    }
}

/// Whether a change of this kind has a path that the file came from.
pub open spec fn has_origin(kind: DeltaKind) -> bool {
    kind == DeltaKind::Renamed || kind == DeltaKind::Copied
}

/// The change of one file: its path, the word for the kind of change, and
/// the path that the file came from where it was renamed or copied.
pub fn file_change(path: String, kind: DeltaKind, old_path: Option<String>) -> (change:
    CommitFileChange)
    ensures
        change.path == path,
        change.status@ == status_word(kind),
        change.old_path == if has_origin(kind) {
            old_path
        } else {
            None
        },
{
    let status = match kind {
        DeltaKind::Added => String::from_str("added"),
        DeltaKind::Deleted => String::from_str("deleted"),
        DeltaKind::Modified => String::from_str("modified"),
        DeltaKind::Renamed => String::from_str("renamed"),
        DeltaKind::Copied => String::from_str("copied"),
        DeltaKind::Other => String::from_str("modified"),
    };
    let old_path = match kind {
        DeltaKind::Renamed => old_path,
        DeltaKind::Copied => old_path,
        _ => None,
    };
    CommitFileChange { path, status, old_path }
}

} // verus!
