use vstd::prelude::*;

verus! {

/// One commit of the backup repository's history: its object id bytes and
/// its message.
#[derive(Clone)]
pub struct CommitPoint {
    pub id: Vec<u8>,
    pub message: String,
}

/// The commit history, read once from the version-control log and then
/// served unchanged.
pub struct GitStorage {
    storages: Vec<CommitPoint>,
}

impl GitStorage {
    /// The commits held, newest first as the log walker yielded them.
    pub closed spec fn commits(self) -> Seq<CommitPoint> {
        self.storages@
    }

    /// Wraps a commit list read from the version-control log.
    pub fn from_commits(commits: Vec<CommitPoint>) -> (r: Self)
        ensures
            r.commits() == commits@,
    {
        GitStorage { storages: commits }
    }

    /// The stored commit history.
    pub fn get_commits(&self) -> (r: &Vec<CommitPoint>)
        ensures
            r@ == self.commits(),
    {
        &self.storages
    }
}

} // verus!
