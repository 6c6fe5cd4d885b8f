//! Sets of paths. A path that is written in two ways is one element, and the
//! set keeps the way in which it came first.
use crate::path::{same_path, FilePath, PathView};
use vstd::prelude::*;

verus! {

/// Paths as they are written.
pub open spec fn path_views(paths: Seq<FilePath>) -> Seq<PathView> {
    paths.map_values(|p: FilePath| p@)
}

/// `path` is among `paths`, perhaps written in another way.
pub open spec fn contains_path(paths: Seq<PathView>, path: PathView) -> bool {
    exists|i: int| 0 <= i < paths.len() && same_path(#[trigger] paths[i], path)
}

/// No path occurs twice.
pub open spec fn distinct_paths(paths: Seq<PathView>) -> bool {
    forall|i: int, j: int|
        0 <= i < j < paths.len() ==> !same_path(#[trigger] paths[i], #[trigger] paths[j])
}

/// `paths` with `path` behind the others, unless it is among them.
pub open spec fn insert_path(paths: Seq<PathView>, path: PathView) -> Seq<PathView> {
    if contains_path(paths, path) {
        paths
    } else {
        paths.push(path)
    }
}

/// `paths` after all of `more` have been inserted, one after the other.
pub open spec fn insert_paths(paths: Seq<PathView>, more: Seq<PathView>) -> Seq<PathView>
    decreases more.len(),
{
    if more.len() == 0 {
        paths
    } else {
        insert_path(insert_paths(paths, more.drop_last()), more.last())
    }
}

/// What a set of paths is. A path is in it if and only if one of its paths is the
/// same, perhaps written in another way. One that is in it is not inserted, and
/// any other one is put behind the rest; many are inserted one after the other.
pub proof fn law_path_set(paths: Seq<PathView>, more: Seq<PathView>, path: PathView)
    ensures
        contains_path(paths, path) <==> exists|i: int|
            0 <= i < paths.len() && same_path(#[trigger] paths[i], path),
        distinct_paths(paths) <==> forall|i: int, j: int|
            0 <= i < j < paths.len() ==> !same_path(#[trigger] paths[i], #[trigger] paths[j]),
        (exists|i: int| 0 <= i < paths.len() && same_path(#[trigger] paths[i], path))
            ==> insert_path(paths, path) == paths,
        (forall|i: int| 0 <= i < paths.len() ==> !same_path(#[trigger] paths[i], path))
            ==> insert_path(paths, path) == paths.push(path),
        insert_paths(paths, Seq::empty()) == paths,
        insert_paths(paths, more.push(path)) == insert_path(insert_paths(paths, more), path),
{
    assert(more.push(path).drop_last() =~= more);
}

/// The paths of a list are those that stand in it, each in its place.
pub proof fn law_path_views(paths: Seq<FilePath>)
    ensures
        path_views(paths).len() == paths.len(),
        forall|i: int| 0 <= i < paths.len() ==> #[trigger] path_views(paths)[i] == paths[i]@,
{
}

/// An insertion keeps the paths that were there, in their order, adds the new
/// one and no other, and makes no path occur twice.
pub proof fn law_insert_path(paths: Seq<PathView>, path: PathView)
    ensures
        paths.is_prefix_of(insert_path(paths, path)),
        forall|q: PathView| #[trigger]
            contains_path(insert_path(paths, path), q) <==> contains_path(paths, q) || same_path(
                path,
                q,
            ),
        distinct_paths(paths) ==> distinct_paths(insert_path(paths, path)),
{
    let after = insert_path(paths, path);
    assert(after.take(paths.len() as int) =~= paths);
    assert forall|q: PathView| #[trigger]
        contains_path(after, q) <==> contains_path(paths, q) || same_path(path, q) by {
        if contains_path(paths, q) {
            let i = choose|i: int| 0 <= i < paths.len() && same_path(#[trigger] paths[i], q);
            assert(after[i] == paths[i]);
        }
        if same_path(path, q) {
            if contains_path(paths, path) {
                let i = choose|i: int| 0 <= i < paths.len() && same_path(#[trigger] paths[i], path);
                assert(same_path(after[i], q));
            } else {
                assert(same_path(after[paths.len() as int], q));
            }
        }
        if contains_path(after, q) {
            let i = choose|i: int| 0 <= i < after.len() && same_path(#[trigger] after[i], q);
            if i < paths.len() {
                assert(paths[i] == after[i]);
            }
        }
    }
}

/// What holds of one insertion holds of many: nothing is lost, what is added
/// is what was given, and no path occurs twice.
pub proof fn law_insert_paths(paths: Seq<PathView>, more: Seq<PathView>)
    ensures
        paths.is_prefix_of(insert_paths(paths, more)),
        forall|q: PathView| #[trigger]
            contains_path(insert_paths(paths, more), q) <==> contains_path(paths, q)
                || contains_path(more, q),
        distinct_paths(paths) ==> distinct_paths(insert_paths(paths, more)),
    decreases more.len(),
{
    if more.len() == 0 {
        assert(paths.take(paths.len() as int) =~= paths);
    } else {
        let before = insert_paths(paths, more.drop_last());
        let after = insert_paths(paths, more);
        law_insert_paths(paths, more.drop_last());
        law_insert_path(before, more.last());
        assert(after.take(before.len() as int).take(paths.len() as int) =~= after.take(
            paths.len() as int,
        ));
        assert forall|q: PathView| #[trigger]
            contains_path(after, q) <==> contains_path(paths, q) || contains_path(more, q) by {
            if contains_path(more.drop_last(), q) {
                let i = choose|i: int|
                    0 <= i < more.drop_last().len() && same_path(#[trigger] more.drop_last()[i], q);
                assert(more[i] == more.drop_last()[i]);
            }
            if same_path(more.last(), q) {
                assert(same_path(more[more.len() - 1], q));
            }
            if contains_path(more, q) {
                let i = choose|i: int| 0 <= i < more.len() && same_path(#[trigger] more[i], q);
                if i < more.len() - 1 {
                    assert(more.drop_last()[i] == more[i]);
                }
            }
        }
    }
}

/// Without one of them, distinct paths stay distinct.
pub proof fn lemma_remove_distinct(paths: Seq<PathView>, i: int)
    requires
        distinct_paths(paths),
        0 <= i < paths.len(),
    ensures
        distinct_paths(paths.remove(i)),
{
    let after = paths.remove(i);
    assert forall|j: int, k: int| 0 <= j < k < after.len() implies !same_path(
        #[trigger] after[j],
        #[trigger] after[k],
    ) by {
        assert(!same_path(
            paths[if j < i { j } else { j + 1 }],
            paths[if k < i { k } else { k + 1 }],
        ));
    }
}

/// A set of paths, in the order in which they were inserted.
#[derive(Debug)]
pub struct PathSet {
    items: Vec<FilePath>,
}

impl View for PathSet {
    type V = Seq<PathView>;

    closed spec fn view(&self) -> Seq<PathView> {
        path_views(self.items@)
    }
}

impl PathSet {
    /// The empty set.
    pub fn new() -> (r: Self)
        ensures
            r@ == Seq::<PathView>::empty(),
    {
        let r = PathSet { items: Vec::new() };
        assert(r@ =~= Seq::<PathView>::empty());
        r
    }

    /// The number of paths.
    pub fn len(&self) -> (r: usize)
        ensures
            r == self@.len(),
    {
        self.items.len()
    }

    /// The path at a place in the order of insertion.
    pub fn get(&self, i: usize) -> (r: &FilePath)
        requires
            i < self@.len(),
        ensures
            r@ == self@[i as int],
    {
        &self.items[i]
    }

    /// Whether `path` is in the set.
    pub fn contains(&self, path: &FilePath) -> (r: bool)
        ensures
            r == contains_path(self@, path@),
    {
        let mut i: usize = 0;
        while i < self.items.len()
            invariant
                i <= self.items@.len(),
                forall|j: int| 0 <= j < i ==> !same_path(#[trigger] self@[j], path@),
            decreases self.items.len() - i,
        {
            if self.items[i].same_path(path) {
                assert(same_path(self@[i as int], path@));
                return true;
            }
            i = i + 1;
        }
        false
    }

    /// Inserts `path` unless it is in the set.
    pub fn insert(&mut self, path: FilePath)
        ensures
            final(self)@ == insert_path(old(self)@, path@),
    {
        if !self.contains(&path) {
            self.items.push(path);
            assert(self@ =~= old(self)@.push(path@));
        }
    }
}

} // verus!
