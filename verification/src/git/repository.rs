//! The repository that is open.

use vstd::prelude::*;

verus! {

#[derive(Debug, Clone)]
pub struct RepositoryInfo {
    pub path: String,
    pub current_branch: Option<String>,
    pub is_detached: bool,
    pub remotes: Vec<String>,
    pub head_hash: Option<String>,
}

/// What the backend tells of the head of a repository.
#[derive(Debug)]
pub struct HeadRef {
    /// Whether the head is a branch.
    pub is_branch: bool,
    /// The short name of the head.
    pub shorthand: Option<String>,
    /// The hash of the commit that the head points to.
    pub hash: Option<String>,
}

/// What is shown of a repository. With the head on a branch, the branch is
/// named; with a head that is no branch, the repository is detached; without
/// a head it is neither, and has no commit.
pub fn repo_info(path: String, head: Option<HeadRef>, remotes: Vec<String>) -> (info:
    RepositoryInfo)
    ensures
        info.path == path,
        info.remotes == remotes,
        match head {
            Some(h) => {
                &&& info.head_hash == h.hash
                &&& info.is_detached == !h.is_branch
                &&& info.current_branch == if h.is_branch {
                    h.shorthand
                } else {
                    None
                }
            },
            None => info.current_branch is None && !info.is_detached && info.head_hash is None,
        },
{
    match head {
        Some(h) => {
            if h.is_branch {
                RepositoryInfo {
                    path,
                    current_branch: h.shorthand,
                    is_detached: false,
                    remotes,
                    head_hash: h.hash,
                }
            } else {
                RepositoryInfo {
                    path,
                    current_branch: None,
                    is_detached: true,
                    remotes,
                    head_hash: h.hash,
                }
            }
        },
        None => RepositoryInfo {
            path,
            current_branch: None,
            is_detached: false,
            remotes,
            head_hash: None,
        },
    }
}

} // verus!
