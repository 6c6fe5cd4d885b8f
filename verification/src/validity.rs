//! Every step keeps the state of the monitor well-formed.
use crate::model;
use crate::model::{MonitorView, PurposeView, ReplicaView};
use crate::path::{same_path, PathView};
use crate::path_set::{insert_path, law_insert_path, law_insert_paths};
use crate::protocol::parsed;
use vstd::prelude::*;

verus! {

/// The place of a known replica is within bounds and holds its id; it is the
/// only such place.
pub proof fn lemma_replica_index(s: MonitorView, id: Seq<char>)
    requires
        s.wf(),
        s.has_replica(id),
    ensures
        0 <= s.replica_index(id) < s.replicas.len(),
        s.replicas[s.replica_index(id)].id == id,
        forall|i: int|
            0 <= i < s.replicas.len() && (#[trigger] s.replicas[i]).id == id ==> i
                == s.replica_index(id),
{
}

/// Another value for a replica keeps the state well-formed, if the value is.
pub proof fn lemma_with_replica_wf(s: MonitorView, id: Seq<char>, replica: ReplicaView)
    requires
        s.wf(),
        s.has_replica(id),
        replica.wf(),
    ensures
        s.with_replica(id, replica).wf(),
        s.with_replica(id, replica).replica(id) == Some(replica),
        forall|other: Seq<char>|
            other != id ==> #[trigger] s.with_replica(id, replica).replica(other) == s.replica(
                other,
            ),
{
    let after = s.with_replica(id, replica);
    lemma_replica_index(s, id);
    let k = s.replica_index(id);
    assert(after.replicas[k].id == id);
    assert forall|i: int| 0 <= i < s.replicas.len() implies (#[trigger] after.replicas[i]).id
        == s.replicas[i].id by {}
    assert forall|i: int, j: int| 0 <= i < j < after.replicas.len() implies (
    #[trigger] after.replicas[i]).id != (#[trigger] after.replicas[j]).id by {
        assert(s.replicas[i].id != s.replicas[j].id);
    }
    assert(after.wf());
    lemma_replica_index(after, id);
    assert forall|other: Seq<char>| other != id implies #[trigger] after.replica(other)
        == s.replica(other) by {
        if s.has_replica(other) {
            lemma_replica_index(s, other);
            assert(after.replicas[s.replica_index(other)].id == other);
            lemma_replica_index(after, other);
        }
        if after.has_replica(other) {
            lemma_replica_index(after, other);
            assert(s.replicas[after.replica_index(other)].id == other);
        }
    }
}

/// Entering a path for a replica keeps the state well-formed.
pub proof fn lemma_add_path_wf(s: MonitorView, id: Seq<char>, root: PathView, path: PathView)
    requires
        s.wf(),
    ensures
        model::add_path(s, id, root, path).wf(),
{
    match s.replica(id) {
        Some(replica) => {
            lemma_replica_index(s, id);
            law_insert_path(replica.paths, path);
            lemma_with_replica_wf(
                s,
                id,
                ReplicaView {
                    paths: insert_path(replica.paths, path),
                    ..replica
                },
            );
        },
        None => {
            let after = model::add_path(s, id, root, path);
            assert forall|i: int, j: int| 0 <= i < j < after.replicas.len() implies (
            #[trigger] after.replicas[i]).id != (#[trigger] after.replicas[j]).id by {
                assert(after.replicas[i] == s.replicas[i]);
                if j < s.replicas.len() {
                    assert(after.replicas[j] == s.replicas[j]);
                }
            }
        },
    }
}

/// Entering a link keeps the state well-formed.
pub proof fn lemma_add_link_wf(s: MonitorView, realpath: PathView, link: PathView)
    requires
        s.wf(),
    ensures
        model::add_link(s, realpath, link).wf(),
{
    let after = model::add_link(s, realpath, link);
    if s.has_links(realpath) {
        let k = s.links_index(realpath);
        law_insert_path(s.link_map[k].links, link);
        assert forall|i: int, j: int| 0 <= i < j < after.link_map.len() implies !same_path(
            (#[trigger] after.link_map[i]).realpath,
            (#[trigger] after.link_map[j]).realpath,
        ) by {
            assert(!same_path(s.link_map[i].realpath, s.link_map[j].realpath));
        }
    } else {
        assert forall|i: int, j: int| 0 <= i < j < after.link_map.len() implies !same_path(
            (#[trigger] after.link_map[i]).realpath,
            (#[trigger] after.link_map[j]).realpath,
        ) by {
            assert(after.link_map[i] == s.link_map[i]);
            if j < s.link_map.len() {
                assert(after.link_map[j] == s.link_map[j]);
            }
        }
    }
}

/// Forgetting a replica keeps the state well-formed, and the others as they are.
pub proof fn lemma_remove_replica_wf(s: MonitorView, id: Seq<char>)
    requires
        s.wf(),
        s.has_replica(id),
    ensures
        model::remove_replica(s, id).wf(),
        model::remove_replica(s, id).replica(id) is None,
        forall|other: Seq<char>|
            other != id ==> #[trigger] model::remove_replica(s, id).replica(other) == s.replica(
                other,
            ),
{
    let after = model::remove_replica(s, id);
    let k = s.replica_index(id);
    lemma_replica_index(s, id);
    assert forall|i: int| 0 <= i < after.replicas.len() implies #[trigger] after.replicas[i]
        == s.replicas[if i < k { i } else { i + 1 }] by {}
    assert forall|i: int, j: int| 0 <= i < j < after.replicas.len() implies (
    #[trigger] after.replicas[i]).id != (#[trigger] after.replicas[j]).id by {
        assert(s.replicas[if i < k { i } else { i + 1 }].id != s.replicas[if j < k {
            j
        } else {
            j + 1
        }].id);
    }
    assert(after.wf());
    if after.has_replica(id) {
        lemma_replica_index(after, id);
        let j = after.replica_index(id);
        assert(s.replicas[if j < k { j } else { j + 1 }].id == id);
    }
    assert forall|other: Seq<char>| other != id implies #[trigger] after.replica(other)
        == s.replica(other) by {
        if s.has_replica(other) {
            lemma_replica_index(s, other);
            let i = s.replica_index(other);
            assert(after.replicas[if i < k { i } else { i - 1 }] == s.replicas[i]);
            lemma_replica_index(after, other);
        }
        if after.has_replica(other) {
            lemma_replica_index(after, other);
            let j = after.replica_index(other);
            assert(s.replicas[if j < k { j } else { j + 1 }].id == other);
        }
    }
}

/// A change in the file system keeps the state well-formed.
pub proof fn law_fs_event_wf(s: MonitorView, paths: Seq<PathView>)
    requires
        s.wf(),
    ensures
        model::fs_event(s, paths).0.wf(),
{
    let all = model::event_paths(s, paths);
    let after = model::fs_event(s, paths).0;
    assert forall|i: int| 0 <= i < after.replicas.len() implies (
    #[trigger] after.replicas[i]).replica.wf() by {
        let before = s.replicas[i];
        law_insert_paths(
            before.replica.pending_changes,
            model::relative_paths(before.replica.root, all),
        );
    }
    assert forall|i: int, j: int| 0 <= i < j < after.replicas.len() implies (
    #[trigger] after.replicas[i]).id != (#[trigger] after.replicas[j]).id by {
        assert(s.replicas[i].id != s.replicas[j].id);
    }
}

/// Every line of input keeps the state well-formed.
pub proof fn law_input_wf(s: MonitorView, text: Seq<char>)
    requires
        s.wf(),
    ensures
        model::input(s, text).0.wf(),
{
    let (command, args) = parsed(text);
    let s1 = if command == "WAIT"@ {
        s
    } else {
        model::clear_wait_state(s)
    };
    assert(s1.wf());
    if args.len() > 0 {
        let id = args[0];
        if s1.has_replica(id) {
            lemma_replica_index(s1, id);
            let replica = s1.replica(id)->0;
            lemma_with_replica_wf(s1, id, ReplicaView { waited_on: true, ..replica });
            lemma_with_replica_wf(s1, id, ReplicaView { pending_changes: Seq::empty(), ..replica });
            lemma_remove_replica_wf(s1, id);
        }
        if args.len() > 1 {
            let root = model::path_of(s.syntax, args[1]);
            let path = model::start_path(s.syntax, args);
            lemma_add_path_wf(MonitorView { current_path: path, ..s1 }, id, root, path);
        }
    }
}

/// What comes of watching a path keeps the state well-formed.
pub proof fn law_watched_wf(s: MonitorView, path: PathView, purpose: PurposeView, ok: bool)
    requires
        s.wf(),
    ensures
        model::watched(s, path, purpose, ok).0.wf(),
{
    match purpose {
        PurposeView::Start { id, root } => lemma_add_path_wf(s, id, root, path),
        PurposeView::Link { link } => lemma_add_link_wf(s, path, link),
    }
}

} // verus!
