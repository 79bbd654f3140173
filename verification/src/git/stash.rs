//! Stashes, and the branch that a stash was made on.

use vstd::prelude::*;
use crate::git::commit::CommitFileChange;
use crate::seqs::{first_index, lemma_first_index_is};
use crate::text::{chars_of, has_prefix, starts_with_at, string_of};

verus! {

#[derive(Debug, Clone)]
pub struct StashInfo {
    pub index: usize,
    pub message: String,
    pub commit_hash: String,
    pub timestamp: i64,
    pub branch_name: String,
}

#[derive(Debug, Clone)]
pub struct StashDetails {
    pub index: usize,
    pub message: String,
    pub commit_hash: String,
    pub timestamp: i64,
    pub branch_name: String,
    pub files_changed: Vec<CommitFileChange>,
}

/// What stands before the first colon of `rest`; nothing where there is no colon.
pub open spec fn before_colon(rest: Seq<char>) -> Seq<char> {
    let k = first_index(rest, |c: char| c == ':') as int;
    if k < rest.len() {
        rest.take(k)
    } else {
        Seq::empty()
    }
}

/// The branch that a stash message names. A message reads `WIP on` or `On`,
/// then the branch, then a colon; any other message names no branch.
pub open spec fn stash_branch(message: Seq<char>) -> Seq<char> {
    if has_prefix(message, "WIP on "@) {
        before_colon(message.skip("WIP on "@.len() as int))
    } else if has_prefix(message, "On "@) {
        before_colon(message.skip("On "@.len() as int))
    } else {
        Seq::empty()
    }
}

/// What stands in `text` from `from` on before the first colon.
fn read_before_colon(text: &Vec<char>, from: usize) -> (branch: String)
    requires
        from <= text.len(),
    ensures
        branch@ == before_colon(text@.skip(from as int)),
{
    let ghost rest = text@.skip(from as int);
    let mut i: usize = from;
    while i < text.len()
        invariant
            from <= i <= text.len(),
            rest == text@.skip(from as int),
            forall|j: int| 0 <= j < i - from ==> rest[j] != ':',
        decreases text.len() - i,
    {
        if text[i] == ':' {
            proof {
                lemma_first_index_is(rest, |c: char| c == ':', i - from);
                assert(rest.take(i - from) =~= text@.subrange(from as int, i as int));
            }
            return string_of(text, from, i);
        }
        i += 1;
    }
    proof {
        lemma_first_index_is(rest, |c: char| c == ':', rest.len() as int);
    }
    String::new()
}

/// The branch that a stash message names.
pub fn parse_branch_from_stash_message(message: &str) -> (branch: String)
    ensures
        branch@ == stash_branch(message@),
{
    let text = chars_of(message);
    let wip = chars_of("WIP on ");
    let on = chars_of("On ");
    proof {
        assert(text@.skip(0) =~= text@);
    }
    if starts_with_at(&text, 0, &wip) {
        read_before_colon(&text, wip.len())
    } else if starts_with_at(&text, 0, &on) {
        read_before_colon(&text, on.len())
    } else {
        String::new()
    }
}

/// A stash as the list of stashes shows it, with the branch that its message names.
pub fn stash_info(index: usize, message: String, commit_hash: String, timestamp: i64) -> (info:
    StashInfo)
    ensures
        info.index == index,
        info.message == message,
        info.commit_hash == commit_hash,
        info.timestamp == timestamp,
        info.branch_name@ == stash_branch(message@),
{
    let branch_name = parse_branch_from_stash_message(message.as_str());
    StashInfo { index, message, commit_hash, timestamp, branch_name }
}

/// A stash with the files that it changes, and the branch that its message names.
pub fn stash_details(
    index: usize,
    message: String,
    commit_hash: String,
    timestamp: i64,
    files_changed: Vec<CommitFileChange>,
) -> (details: StashDetails)
    ensures
        details.index == index,
        details.message == message,
        details.commit_hash == commit_hash,
        details.timestamp == timestamp,
        details.branch_name@ == stash_branch(message@),
        details.files_changed == files_changed,
{
    let branch_name = parse_branch_from_stash_message(message.as_str());
    StashDetails { index, message, commit_hash, timestamp, branch_name, files_changed }
}

} // verus!
