//! Outcome of bringing the local checkout of the source repository up to date.

use vstd::prelude::*;

verus! {

/// What happened to the checkout, together with the commit hash it now sits on.
#[derive(Debug)]
pub enum RepoUpdateStatus {
    /// There was no usable checkout; a fresh clone was made.
    Cloned(String),
    /// The checkout moved to a different commit.
    Updated(String),
    /// The checkout was already on this commit.
    Same(String),
}

impl RepoUpdateStatus {
    /// The commit hash the checkout sits on after the update.
    pub open spec fn hash(self) -> Seq<char> {
        match self {
            RepoUpdateStatus::Cloned(h) => h@,
            RepoUpdateStatus::Updated(h) => h@,
            RepoUpdateStatus::Same(h) => h@,
        }
    }

    /// Tells what an update did from the commit hash read before it and the
    /// one read after it. Without a hash from before there was no checkout to
    /// read, so the repository was cloned afresh.
    pub fn from_hashes(before: Option<String>, after: String) -> (status: RepoUpdateStatus)
        ensures
            status.hash() == after@,
            match before {
                None => status is Cloned,
                Some(earlier) => if earlier@ == after@ {
                    status is Same
                } else {
                    status is Updated
                },
            },
    {
        match before {
            None => RepoUpdateStatus::Cloned(after),
            Some(earlier) => {
                if earlier == after {
                    RepoUpdateStatus::Same(after)
                } else {
                    RepoUpdateStatus::Updated(after)
                }
            },
        }
    }

    /// Whether a pass of the polling loop has to deploy: always on the first
    /// pass, and later whenever the update brought something new.
    pub fn calls_for_deploy(&self, first_run: bool) -> (due: bool)
        ensures
            due == (first_run || !(*self is Same)),
    {
        first_run || self.updated()
    }

    /// Whether the checkout holds content that has not been deployed yet:
    /// true for a fresh clone and for a moved checkout, false when nothing changed.
    pub fn updated(&self) -> (changed: bool)
        ensures
            changed == !(*self is Same),
    {
        match self {
            RepoUpdateStatus::Cloned(_) | RepoUpdateStatus::Updated(_) => true,
            RepoUpdateStatus::Same(_) => false,
        }
    }
}

} // verus!
