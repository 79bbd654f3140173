//! Branches and tags as the client lists them.

use vstd::prelude::*;
use vstd::string::StringExecFns;
use crate::git::graph::{short_tag_name, tag_name};
use crate::seqs::{first_index, lemma_first_index, lemma_first_index_is};
use crate::text::chars_of;

verus! {

#[derive(Debug)]
pub struct BranchInfo {
    pub name: String,
    pub is_remote: bool,
    pub is_head: bool,
    pub target_hash: String,
}

#[derive(Debug)]
pub struct TagInfo {
    pub name: String,
    pub target_hash: String,
    pub is_annotated: bool,
    pub message: Option<String>,
}

/// Whether a branch is the one that is checked out: a local branch whose
/// name is the short name of the head.
pub open spec fn is_head_branch(name: Seq<char>, is_remote: bool, head_name: Option<Seq<char>>) -> bool {
    head_name == Some(name) && !is_remote
}

/// A branch as it is listed.
pub fn branch_info(name: String, is_remote: bool, head_name: Option<&str>, target_hash: String) -> (info:
    BranchInfo)
    ensures
        info.name == name,
        info.is_remote == is_remote,
        info.target_hash == target_hash,
        info.is_head == is_head_branch(
            name@,
            is_remote,
            match head_name {
                Some(h) => Some(h@),
                None => None,
            },
        ),
{
    let is_head = match head_name {
        Some(head) => {
            let head = String::from_str(head);
            head == name && !is_remote
        },
        None => false,
    };
    BranchInfo { name, is_remote, is_head, target_hash }
}

/// A tag as it is listed, from the name of its ref. An annotated tag points
/// to the object that it names and may carry a message; any other tag points
/// to its commit and carries none.
pub fn tag_info(refname: &str, target_hash: String, annotation: Option<Option<String>>) -> (info:
    TagInfo)
    ensures
        info.name@ == tag_name(refname@),
        info.target_hash == target_hash,
        info.is_annotated == annotation is Some,
        info.message == match annotation {
            Some(message) => message,
            None => None,
        },
{
    let name = short_tag_name(refname);
    match annotation {
        Some(message) => TagInfo { name, target_hash, is_annotated: true, message },
        None => TagInfo { name, target_hash, is_annotated: false, message: None },
    }
}

/// The name of the ref of a remote branch.
pub fn remote_ref_name(branch_name: &str) -> (refname: String)
    ensures
        refname@ == "refs/remotes/"@ + branch_name@,
{
    String::from_str("refs/remotes/").concat(branch_name)
}

/// Whether a local branch cannot be deleted because it is checked out: the
/// head is a branch and has the branch's name.
pub fn is_checked_out(head_is_branch: bool, head_name: Option<&str>, branch_name: &str) -> (
    checked_out: bool)
    ensures
        checked_out == (head_is_branch && match head_name {
            Some(h) => h@ == branch_name@,
            None => false,
        }),
{
    match head_name {
        Some(head) => {
            let head = String::from_str(head);
            let branch = String::from_str(branch_name);
            head_is_branch && head == branch
        },
        None => false,
    }
}

/// Whether the name `a` comes before the name `b`: at the first place where
/// they differ `a` has the lower character, or `a` ends before `b` does.
pub open spec fn name_before(a: Seq<char>, b: Seq<char>) -> bool
    decreases a.len(),
{
    if b.len() == 0 {
        false
    } else if a.len() == 0 {
        true
    } else if a[0] != b[0] {
        (a[0] as int) < (b[0] as int)
    } else {
        name_before(a.skip(1), b.skip(1))
    }
}

/// Where a tag of name `name` goes among tags in order: before the first
/// tag that its name comes before, and so behind every tag of its own name.
pub open spec fn place_of(sorted: Seq<TagInfo>, name: Seq<char>) -> nat {
    first_index(sorted, |t: TagInfo| name_before(name, t.name@))
}

/// The tags in the order of their names; tags of one name stay in the order
/// in which they were given.
pub open spec fn sorted_tags(tags: Seq<TagInfo>) -> Seq<TagInfo>
    decreases tags.len(),
{
    if tags.len() == 0 {
        tags
    } else {
        let front = sorted_tags(tags.drop_last());
        front.insert(place_of(front, tags.last().name@) as int, tags.last())
    }
}

/// No tag has a name that comes before the name of a tag before it.
pub open spec fn in_name_order(tags: Seq<TagInfo>) -> bool {
    forall|i: int, j: int|
        0 <= i < j < tags.len() ==> !name_before(
            (#[trigger] tags[j]).name@,
            (#[trigger] tags[i]).name@,
        )
}

/// Whether the name `a` comes before the name `b`.
pub fn comes_before(a: &str, b: &str) -> (before: bool)
    ensures
        before == name_before(a@, b@),
{
    let x = chars_of(a);
    let y = chars_of(b);
    let mut i: usize = 0;
    proof {
        assert(x@.skip(0) =~= x@);
        assert(y@.skip(0) =~= y@);
    }
    while i < x.len() && i < y.len()
        invariant
            i <= x.len(),
            i <= y.len(),
            x@ == a@,
            y@ == b@,
            name_before(a@, b@) == name_before(x@.skip(i as int), y@.skip(i as int)),
        decreases x.len() - i,
    {
        proof {
            assert(x@.skip(i as int)[0] == x@[i as int]);
            assert(y@.skip(i as int)[0] == y@[i as int]);
            assert(x@.skip(i as int).skip(1) =~= x@.skip(i + 1));
            assert(y@.skip(i as int).skip(1) =~= y@.skip(i + 1));
        }
        if x[i] != y[i] {
            return x[i] < y[i];
        }
        i += 1;
    }
    i < y.len()
}

/// The tags in the order of their names.
pub fn sort_tags(tags: Vec<TagInfo>) -> (sorted: Vec<TagInfo>)
    ensures
        sorted@ == sorted_tags(tags@),
{
    let mut sorted: Vec<TagInfo> = Vec::new();
    proof {
        assert(tags@.take(0) =~= Seq::<TagInfo>::empty());
    }
    for tag in it: tags
        invariant
            it.seq() == tags@,
            sorted@ == sorted_tags(tags@.take(it.index() as int)),
    {
        let ghost name = tag.name@;
        let mut at: usize = 0;
        while at < sorted.len() && !comes_before(tag.name.as_str(), sorted[at].name.as_str())
            invariant
                at <= sorted.len(),
                name == tag.name@,
                forall|j: int| 0 <= j < at ==> !name_before(name, (#[trigger] sorted@[j]).name@),
            decreases sorted.len() - at,
        {
            at += 1;
        }
        proof {
            lemma_first_index_is(sorted@, |t: TagInfo| name_before(name, t.name@), at as int);
            let more = tags@.take(it.index() + 1);
            assert(more.drop_last() =~= tags@.take(it.index() as int));
            assert(more.last() == tag);
        }
        sorted.insert(at, tag);
    }
    proof {
        assert(tags@.take(tags@.len() as int) =~= tags@);
    }
    sorted
}

/// No name comes before itself, and of two names of which neither comes
/// before the other, every place holds the same character.
proof fn lemma_name_order(a: Seq<char>, b: Seq<char>)
    ensures
        !name_before(a, a),
        !(name_before(a, b) && name_before(b, a)),
        !name_before(a, b) && !name_before(b, a) ==> a == b,
    decreases a.len(),
{
    if a.len() > 0 {
        lemma_name_order(a.skip(1), a.skip(1));
    }
    if a.len() > 0 && b.len() > 0 {
        lemma_name_order(a.skip(1), b.skip(1));
        if a[0] == b[0] && !name_before(a, b) && !name_before(b, a) {
            assert(a =~= seq![a[0]] + a.skip(1));
            assert(b =~= seq![b[0]] + b.skip(1));
        }
    } else if a.len() == 0 && b.len() == 0 {
        assert(a =~= b);
    }
}

/// A name that comes before a second name comes before every name that the
/// second does not come behind.
proof fn lemma_name_before_chain(a: Seq<char>, b: Seq<char>, c: Seq<char>)
    ensures
        name_before(a, b) && !name_before(c, b) ==> name_before(a, c),
        !name_before(b, a) && name_before(b, c) ==> name_before(a, c),
        !name_before(b, a) && !name_before(c, b) ==> !name_before(c, a),
    decreases a.len(),
{
    lemma_name_order(a, b);
    lemma_name_order(b, c);
    lemma_name_order(a, c);
    if a.len() > 0 && b.len() > 0 && c.len() > 0 {
        lemma_name_before_chain(a.skip(1), b.skip(1), c.skip(1));
        lemma_name_order(a.skip(1), b.skip(1));
        lemma_name_order(b.skip(1), c.skip(1));
    }
}

/// Sorted tags are in the order of their names, and they are the tags that
/// were given, each as often as it was given.
pub proof fn lemma_sorted_tags(tags: Seq<TagInfo>)
    ensures
        in_name_order(sorted_tags(tags)),
        sorted_tags(tags).to_multiset() == tags.to_multiset(),
        sorted_tags(tags).len() == tags.len(),
    decreases tags.len(),
{
    if tags.len() == 0 {
    } else {
        let front = sorted_tags(tags.drop_last());
        let tag = tags.last();
        let name = tag.name@;
        let at = place_of(front, name) as int;
        let all = sorted_tags(tags);
        lemma_sorted_tags(tags.drop_last());
        lemma_first_index(front, |t: TagInfo| name_before(name, t.name@));
        vstd::seq_lib::to_multiset_insert(front, at, tag);
        assert(tags =~= tags.drop_last().push(tag));
        vstd::seq_lib::to_multiset_build(tags.drop_last(), tag);
        assert forall|i: int, j: int| 0 <= i < j < all.len() implies !name_before(
            (#[trigger] all[j]).name@,
            (#[trigger] all[i]).name@,
        ) by {
            let a = all[i].name@;
            let b = all[j].name@;
            if j == at {
                // the tag that was placed does not come before those in front of it
                assert(all[i] == front[i]);
                assert(!name_before(name, front[i].name@));
            } else if i == at {
                // the tag that was placed comes before those behind it
                assert(all[j] == front[j - 1]);
                if at < j - 1 {
                    assert(!name_before(front[j - 1].name@, front[at].name@));
                }
                assert(name_before(name, front[at].name@));
                lemma_name_before_chain(name, front[at].name@, b);
                lemma_name_order(name, b);
            } else {
                let i0 = if i < at {
                    i
                } else {
                    i - 1
                };
                let j0 = if j < at {
                    j
                } else {
                    j - 1
                };
                assert(all[i] == front[i0]);
                assert(all[j] == front[j0]);
            }
        }
    }
}

} // verus!
