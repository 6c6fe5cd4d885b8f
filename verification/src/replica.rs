//! One replica: what is watched for it and what has changed in it.
use crate::model::{new_replica, relative_paths, ReplicaView};
use crate::path::{starts_with, strip_prefix, FilePath, PathView};
use crate::path_set::{insert_path, insert_paths, path_views, PathSet};
use vstd::prelude::*;

verus! {

/// A replica, that is one of the directory trees that are kept in step.
#[derive(Debug)]
pub struct Replica {
    root: FilePath,
    paths: PathSet,
    pending_changes: PathSet,
    waited_on: bool,
}

impl View for Replica {
    type V = ReplicaView;

    closed spec fn view(&self) -> ReplicaView {
        ReplicaView {
            root: self.root@,
            paths: self.paths@,
            pending_changes: self.pending_changes@,
            waited_on: self.waited_on,
        }
    }
}

impl Replica {
    /// A replica of which nothing is watched yet.
    pub fn new(root: FilePath) -> (r: Self)
        ensures
            r@ == new_replica(root@),
    {
        Self { root, paths: PathSet::new(), pending_changes: PathSet::new(), waited_on: false }
    }

    /// The directory that changes are reported relative to.
    pub fn root(&self) -> (r: &FilePath)
        ensures
            r@ == self@.root,
    {
        &self.root
    }

    /// The paths that are watched.
    pub fn paths(&self) -> (r: &PathSet)
        ensures
            r@ == self@.paths,
    {
        &self.paths
    }

    /// The changes that were not yet reported.
    pub fn pending_changes(&self) -> (r: &PathSet)
        ensures
            r@ == self@.pending_changes,
    {
        &self.pending_changes
    }

    /// Whether the other side waits for a change.
    pub fn waited_on(&self) -> (r: bool)
        ensures
            r == self@.waited_on,
    {
        self.waited_on
    }

    /// Whether `path` is a watched path or lies below one.
    pub fn is_watching(&self, path: &FilePath) -> (r: bool)
        ensures
            r == self@.is_watching(path@),
    {
        let mut i: usize = 0;
        while i < self.paths.len()
            invariant
                i <= self.paths@.len(),
                forall|j: int| 0 <= j < i ==> !starts_with(path@, #[trigger] self@.paths[j]),
            decreases self.paths@.len() - i,
        {
            if path.starts_with(self.paths.get(i)) {
                assert(starts_with(path@, self@.paths[i as int]));
                return true;
            }
            i = i + 1;
        }
        false
    }

    /// Says whether the other side waits for a change.
    pub fn set_waited_on(&mut self, waited_on: bool)
        ensures
            final(self)@ == (ReplicaView { waited_on, ..old(self)@ }),
    {
        self.waited_on = waited_on;
    }

    /// Enters a watched path.
    pub fn add_path(&mut self, path: FilePath)
        ensures
            final(self)@ == (ReplicaView {
                paths: insert_path(old(self)@.paths, path@),
                ..old(self)@
            }),
    {
        self.paths.insert(path);
    }

    /// Takes down the paths that are or lie below the root, and says whether
    /// there were any.
    pub fn record(&mut self, paths: &Vec<FilePath>) -> (r: bool)
        ensures
            final(self)@ == (ReplicaView {
                pending_changes: insert_paths(
                    old(self)@.pending_changes,
                    relative_paths(old(self)@.root, path_views(paths@)),
                ),
                ..old(self)@
            }),
            r == (relative_paths(old(self)@.root, path_views(paths@)).len() > 0),
    {
        let mut matched = false;
        let ghost all = path_views(paths@);
        let ghost root = self.root@;
        let ghost below = |path: PathView| strip_prefix(path, root);
        let mut i: usize = 0;
        assert(all.take(0) =~= Seq::<PathView>::empty());
        assert(all.take(0).filter_map(below) =~= Seq::<PathView>::empty());
        while i < paths.len()
            invariant
                all == path_views(paths@),
                root == old(self)@.root,
                below == (|path: PathView| strip_prefix(path, root)),
                i <= paths@.len(),
                self.root == old(self).root,
                self.paths == old(self).paths,
                self.waited_on == old(self).waited_on,
                self.pending_changes@ == insert_paths(
                    old(self).pending_changes@,
                    all.take(i as int).filter_map(below),
                ),
                matched == (all.take(i as int).filter_map(below).len() > 0),
            decreases paths.len() - i,
        {
            let ghost before = all.take(i as int).filter_map(below);
            proof {
                all.lemma_filter_map_take_succ(below, i as int);
            }
            let ghost after = all.take(i + 1).filter_map(below);
            assert(all[i as int] == paths@[i as int]@);
            match paths[i].strip_prefix(&self.root) {
                Some(relative) => {
                    let ghost r = relative@;
                    self.pending_changes.insert(relative);
                    matched = true;
                    assert(after =~= before.push(r));
                    assert(after.drop_last() =~= before);
                },
                None => {
                    assert(after =~= before);
                },
            }
            i = i + 1;
        }
        assert(all.take(i as int) =~= all);
        matched
    }

    /// Hands out the changes that were not yet reported, and forgets them.
    pub fn take_changes(&mut self) -> (r: PathSet)
        ensures
            r@ == old(self)@.pending_changes,
            final(self)@ == (ReplicaView { pending_changes: Seq::empty(), ..old(self)@ }),
    {
        let mut taken = PathSet::new();
        std::mem::swap(&mut taken, &mut self.pending_changes);
        taken
    }

    /// Hands out the watched paths.
    pub fn into_paths(self) -> (r: PathSet)
        ensures
            r@ == self@.paths,
    {
        self.paths
    }
}

} // verus!
