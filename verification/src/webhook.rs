//! Deciding whether a push notification concerns the shared queue file.
//! The notification transport hands in a plain description of the push;
//! this module owns the decision.

use vstd::prelude::*;

verus! {

/// The path lists of one commit in a push notification.
#[derive(Debug, Clone, PartialEq)]
pub struct CommitPaths {
    pub added: Vec<String>,
    pub modified: Vec<String>,
    pub removed: Vec<String>,
}

/// A push notification, reduced to what the queue decision reads.
#[derive(Debug, Clone, PartialEq)]
pub struct PushEventInfo {
    pub repo_full_name: Option<String>,
    pub commits: Vec<CommitPaths>,
    pub head_commit: Option<CommitPaths>,
}

/// Whether the sequence of names contains `p`.
pub open spec fn names_contain(s: Seq<Seq<char>>, p: Seq<char>) -> bool {
    exists|i: int| 0 <= i < s.len() && s[i] == p
}

impl CommitPaths {
    /// Whether this commit touched the path, in any of the three lists.
    pub open spec fn spec_includes(&self, p: Seq<char>) -> bool {
        names_contain(self.added.deep_view(), p) || names_contain(self.modified.deep_view(), p)
            || names_contain(self.removed.deep_view(), p)
    }
}

impl PushEventInfo {
    /// Whether this push, for the given repository, touched the given path:
    /// the repository must match, and either some listed commit or, failing
    /// that, the head commit must name the path.
    pub open spec fn spec_touches(&self, repo: Seq<char>, p: Seq<char>) -> bool {
        &&& match self.repo_full_name {
            Some(ref name) => name@ == repo,
            None => false,
        }
        &&& {
            ||| exists|i: int|
                0 <= i < self.commits@.len() && (#[trigger] self.commits@[i]).spec_includes(p)
            ||| match self.head_commit {
                Some(ref c) => c.spec_includes(p),
                None => false,
            }
        }
    }
}

/// Whether a list of names holds `p`.
fn name_list_contains(v: &Vec<String>, p: &String) -> (r: bool)
    ensures
        r == names_contain(v.deep_view(), p@),
{
    let mut i: usize = 0;
    while i < v.len()
        invariant
            i <= v.len(),
            forall|j: int| 0 <= j < i ==> v.deep_view()[j] != p@,
        decreases v.len() - i,
    {
        if v[i].eq(p) {
            assert(v.deep_view()[i as int] == p@);
            return true;
        }
        i = i + 1;
    }
    false
}

/// Whether one commit touched the path.
pub fn commit_paths_include(commit: &CommitPaths, path: &String) -> (r: bool)
    ensures
        r == commit.spec_includes(path@),
{
    name_list_contains(&commit.added, path) || name_list_contains(&commit.modified, path)
        || name_list_contains(&commit.removed, path)
}

/// Whether the push touched the queue file of the given repository.
pub fn queue_path_touched(body: &PushEventInfo, repo: &String, path: &String) -> (r: bool)
    ensures
        r == body.spec_touches(repo@, path@),
{
    let repo_match = match &body.repo_full_name {
        Some(name) => name.eq(repo),
        None => false,
    };
    if !repo_match {
        return false;
    }
    let mut i: usize = 0;
    while i < body.commits.len()
        invariant
            i <= body.commits@.len(),
            match body.repo_full_name {
                Some(ref name) => name@ == repo@,
                None => false,
            },
            forall|j: int| 0 <= j < i ==> !(#[trigger] body.commits@[j]).spec_includes(path@),
        decreases body.commits@.len() - i,
    {
        if commit_paths_include(&body.commits[i], path) {
            assert(body.commits@[i as int].spec_includes(path@));
            return true;
        }
        i = i + 1;
    }
    assert(!(exists|j: int|
        0 <= j < body.commits@.len() && (#[trigger] body.commits@[j]).spec_includes(path@)));
    match &body.head_commit {
        Some(c) => commit_paths_include(c, path),
        None => false,
    }
}

} // verus!
