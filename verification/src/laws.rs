//! What holds of the monitor as a whole: of one command after another, of
//! commands and changes in either order, and of what it answers.
use crate::model;
use crate::model::{
    EntryView, ErrorView, LinksView, MonitorView, NextView, PurposeView, ReplicaView, StepView,
};
use crate::path::{
    fits, join, law_join_same, law_join_strip_prefix, law_starts_with_reflexive, same_path,
    starts_with, strip_prefix, PathView,
};
use crate::path_set::{contains_path, insert_path, insert_paths, law_insert_path, law_insert_paths};
use crate::protocol::{
    encoded, law_encode_injective, law_encoded_alphabet, law_parse_line, law_text_of_bytes, line,
    parsed, text_of,
};
use crate::validity::{
    law_fs_event_wf, law_input_wf, lemma_add_link_wf, lemma_add_path_wf, lemma_remove_replica_wf,
    lemma_replica_index, lemma_with_replica_wf,
};
use vstd::prelude::*;

verus! {

// ---------------------------------------------------------------------------
// Waiting
// ---------------------------------------------------------------------------

/// Nobody waits for a change of any replica.
pub open spec fn nobody_waits(s: MonitorView) -> bool {
    forall|i: int| 0 <= i < s.replicas.len() ==> !(#[trigger] s.replicas[i]).replica.waited_on
}

/// After any command but `WAIT` nobody waits.
pub proof fn law_commands_end_waiting(s: MonitorView, text: Seq<char>)
    requires
        s.wf(),
        parsed(text).0 != "WAIT"@,
    ensures
        nobody_waits(model::input(s, text).0),
{
    let (command, args) = parsed(text);
    let s1 = model::clear_wait_state(s);
    assert(s1.wf());
    assert(nobody_waits(s1));
    if args.len() > 0 && s1.has_replica(args[0]) {
        lemma_replica_index(s1, args[0]);
    }
}

/// `WAIT` for a known replica has it waited on beside those that are, and
/// changes nothing else. It announces changes exactly if some are pending.
pub proof fn law_wait(s: MonitorView, text: Seq<char>, id: Seq<char>)
    requires
        s.wf(),
        parsed(text).0 == "WAIT"@,
        parsed(text).1.len() > 0,
        parsed(text).1[0] == id,
        s.has_replica(id),
    ensures
        ({
            let (after, step) = model::input(s, text);
            &&& after.replica(id) == Some(ReplicaView { waited_on: true, ..s.replica(id)->0 })
            &&& forall|other: Seq<char>|
                other != id ==> #[trigger] after.replica(other) == s.replica(other)
            &&& after.link_map == s.link_map
            &&& after.current_path == s.current_path
            &&& step.next is Done
            &&& step.lines == (if (s.replica(id)->0).pending_changes.len() > 0 {
                seq![model::changes_line(id)]
            } else {
                Seq::empty()
            })
        }),
{
    lemma_commands_differ();
    lemma_replica_index(s, id);
    lemma_with_replica_wf(s, id, ReplicaView { waited_on: true, ..s.replica(id)->0 });
}

/// Names of commands that have to be told apart.
pub proof fn lemma_commands_differ()
    ensures
        "WAIT"@ != "VERSION"@,
        "WAIT"@ != "START"@,
        "WAIT"@ != "DIR"@,
        "WAIT"@ != "LINK"@,
        "CHANGES"@ != "WAIT"@,
        "CHANGES"@ != "VERSION"@,
        "CHANGES"@ != "START"@,
        "CHANGES"@ != "DIR"@,
        "CHANGES"@ != "LINK"@,
        "RESET"@ != "WAIT"@,
        "RESET"@ != "VERSION"@,
        "RESET"@ != "START"@,
        "RESET"@ != "DIR"@,
        "RESET"@ != "LINK"@,
        "RESET"@ != "CHANGES"@,
        "START"@ != "WAIT"@,
        "START"@ != "VERSION"@,
        "LINK"@ != "WAIT"@,
        "LINK"@ != "VERSION"@,
        "LINK"@ != "START"@,
        "LINK"@ != "DIR"@,
{
    reveal_strlit("WAIT");
    reveal_strlit("VERSION");
    reveal_strlit("START");
    reveal_strlit("DIR");
    reveal_strlit("LINK");
    reveal_strlit("CHANGES");
    reveal_strlit("RESET");
    assert("WAIT"@[0] == 'W' && "VERSION"@[0] == 'V' && "START"@[0] == 'S' && "DIR"@[0] == 'D'
        && "LINK"@[0] == 'L' && "CHANGES"@[0] == 'C' && "RESET"@[0] == 'R');
}

// ---------------------------------------------------------------------------
// Changes in the file system
// ---------------------------------------------------------------------------

/// One of the paths lies at `relative` as seen from `root`.
pub open spec fn lies_at(root: PathView, paths: Seq<PathView>, relative: PathView) -> bool {
    exists|i: int|
        0 <= i < paths.len() && starts_with(#[trigger] paths[i], root) && same_path(
            strip_prefix(paths[i], root)->0,
            relative,
        )
}

/// The relative paths are those that a path has as seen from the root.
proof fn lemma_relative_paths(root: PathView, paths: Seq<PathView>)
    ensures
        forall|i: int|
            0 <= i < paths.len() && starts_with(#[trigger] paths[i], root)
                ==> model::relative_paths(root, paths).contains(strip_prefix(paths[i], root)->0),
        forall|k: int|
            0 <= k < model::relative_paths(root, paths).len() ==> lies_at(
                root,
                paths,
                #[trigger] model::relative_paths(root, paths)[k],
            ),
    decreases paths.len(),
{
    let below = |path: PathView| strip_prefix(path, root);
    let relative = model::relative_paths(root, paths);
    if paths.len() > 0 {
        let n = paths.len() - 1;
        let front = paths.take(n as int);
        let before = model::relative_paths(root, front);
        lemma_relative_paths(root, front);
        paths.lemma_filter_map_take_succ(below, n as int);
        assert(paths.take(n + 1) =~= paths);
        assert forall|i: int|
            0 <= i < paths.len() && starts_with(#[trigger] paths[i], root) implies relative.contains(
            strip_prefix(paths[i], root)->0,
        ) by {
            if i < n {
                assert(front[i] == paths[i]);
                let k = before.index_of(strip_prefix(paths[i], root)->0);
                assert(relative[k] == before[k]);
            } else {
                assert(relative[before.len() as int] == strip_prefix(paths[i], root)->0);
            }
        }
        assert forall|k: int| 0 <= k < relative.len() implies lies_at(
            root,
            paths,
            #[trigger] relative[k],
        ) by {
            if k < before.len() {
                assert(relative[k] == before[k]);
                let i = choose|i: int|
                    0 <= i < front.len() && starts_with(#[trigger] front[i], root) && same_path(
                        strip_prefix(front[i], root)->0,
                        before[k],
                    );
                assert(paths[i] == front[i]);
            } else {
                assert(starts_with(paths[n as int], root));
            }
        }
    } else {
        assert(relative =~= Seq::empty());
    }
}

/// The relative paths are those at which a path lies.
#[verifier::rlimit(30)]
proof fn lemma_relative_path_lies(root: PathView, paths: Seq<PathView>, q: PathView)
    ensures
        contains_path(model::relative_paths(root, paths), q) <==> lies_at(root, paths, q),
{
    let more = model::relative_paths(root, paths);
    if contains_path(more, q) {
        let m = choose|m: int| 0 <= m < more.len() && same_path(#[trigger] more[m], q);
        assert(lies_at(root, paths, more[m])) by {
            lemma_relative_paths(root, paths);
        }
        let i = choose|i: int|
            0 <= i < paths.len() && starts_with(#[trigger] paths[i], root) && same_path(
                strip_prefix(paths[i], root)->0,
                more[m],
            );
        assert(starts_with(paths[i], root) && same_path(strip_prefix(paths[i], root)->0, q));
    }
    if lies_at(root, paths, q) {
        let i = choose|i: int|
            0 <= i < paths.len() && starts_with(#[trigger] paths[i], root) && same_path(
                strip_prefix(paths[i], root)->0,
                q,
            );
        let relative = strip_prefix(paths[i], root)->0;
        assert(more.contains(relative)) by {
            lemma_relative_paths(root, paths);
        }
        let m = more.index_of(relative);
        assert(same_path(more[m], q));
    }
}

/// A changed path that is or lies below the root of a replica is pending for
/// the replica afterwards, and joined onto the root what is pending is the
/// changed path, if it fits there. The same holds of the path as it is seen
/// through a link.
pub proof fn law_change_is_pending(s: MonitorView, paths: Seq<PathView>, i: int, path: PathView)
    requires
        0 <= i < s.replicas.len(),
        model::event_paths(s, paths).contains(path),
        starts_with(path, s.replicas[i].replica.root),
    ensures
        ({
            let after = model::fs_event(s, paths).0;
            let root = s.replicas[i].replica.root;
            let relative = strip_prefix(path, root)->0;
            &&& strip_prefix(path, root) is Some
            &&& contains_path(after.replicas[i].replica.pending_changes, relative)
            &&& fits(root, relative) ==> same_path(join(root, relative), path)
        }),
{
    let all = model::event_paths(s, paths);
    let entry = s.replicas[i];
    let root = entry.replica.root;
    let relative = strip_prefix(path, root)->0;
    let more = model::relative_paths(root, all);
    if fits(root, relative) {
        law_join_strip_prefix(path, root);
    }
    lemma_relative_paths(root, all);
    let j = all.index_of(path);
    assert(starts_with(all[j], root));
    let k = more.index_of(relative);
    assert(same_path(more[k], relative));
    assert(contains_path(more, relative));
    law_insert_paths(entry.replica.pending_changes, more);
}

/// What was pending stays so, in its order. A path is pending after a change if
/// and only if it was before, or a changed path lies there as seen from the root.
pub proof fn law_pending_after_change(s: MonitorView, paths: Seq<PathView>, i: int)
    requires
        0 <= i < s.replicas.len(),
    ensures
        ({
            let before = s.replicas[i].replica;
            let after = model::fs_event(s, paths).0.replicas[i].replica;
            let all = model::event_paths(s, paths);
            &&& before.pending_changes.is_prefix_of(after.pending_changes)
            &&& forall|q: PathView| #[trigger]
                contains_path(after.pending_changes, q) <==> contains_path(
                    before.pending_changes,
                    q,
                ) || lies_at(before.root, all, q)
        }),
{
    let before = s.replicas[i].replica;
    let after = model::fs_event(s, paths).0.replicas[i].replica;
    let all = model::event_paths(s, paths);
    law_insert_paths(before.pending_changes, model::relative_paths(before.root, all));
    assert forall|q: PathView| #[trigger]
        contains_path(after.pending_changes, q) <==> contains_path(before.pending_changes, q)
            || lies_at(before.root, all, q) by {
        lemma_relative_path_lies(before.root, all, q);
    }
}

/// A change in the file system touches nothing but the pending changes.
pub proof fn law_change_keeps_the_rest(s: MonitorView, paths: Seq<PathView>)
    ensures
        ({
            let after = model::fs_event(s, paths).0;
            &&& after.current_path == s.current_path
            &&& after.link_map == s.link_map
            &&& after.replicas.len() == s.replicas.len()
            &&& forall|i: int|
                0 <= i < s.replicas.len() ==> {
                    let e = #[trigger] after.replicas[i];
                    &&& e.id == s.replicas[i].id
                    &&& e.replica.root == s.replicas[i].replica.root
                    &&& e.replica.paths == s.replicas[i].replica.paths
                    &&& e.replica.waited_on == s.replicas[i].replica.waited_on
                }
        }),
{
}

/// A change outside of a replica leaves the replica as it is.
pub proof fn law_change_elsewhere(s: MonitorView, paths: Seq<PathView>, i: int)
    requires
        0 <= i < s.replicas.len(),
        forall|k: int|
            0 <= k < model::event_paths(s, paths).len() ==> !starts_with(
                #[trigger] model::event_paths(s, paths)[k],
                s.replicas[i].replica.root,
            ),
    ensures
        model::fs_event(s, paths).0.replicas[i] == s.replicas[i],
{
    let all = model::event_paths(s, paths);
    let root = s.replicas[i].replica.root;
    let more = model::relative_paths(root, all);
    lemma_relative_paths(root, all);
    if more.len() > 0 {
        assert(lies_at(root, all, more[0]));
    }
}

/// While nobody waits, changes are taken down in silence.
pub proof fn law_silent_without_wait(s: MonitorView, paths: Seq<PathView>)
    requires
        nobody_waits(s),
    ensures
        model::fs_event(s, paths).1 == model::answer(Seq::empty()),
{
    let all = model::event_paths(s, paths);
    let announced = |e: EntryView| model::is_announced(e, all);
    assert forall|i: int| 0 <= i < s.replicas.len() implies !announced(
        #[trigger] s.replicas[i],
    ) by {}
    lemma_filter_none(s.replicas, announced);
    assert(model::fs_event(s, paths).1.lines =~= Seq::<Seq<char>>::empty());
}

proof fn lemma_filter_none<A>(s: Seq<A>, pred: spec_fn(A) -> bool)
    requires
        forall|i: int| 0 <= i < s.len() ==> !pred(#[trigger] s[i]),
    ensures
        s.filter(pred) == Seq::<A>::empty(),
    decreases s.len(),
{
    reveal(Seq::filter);
    if s.len() > 0 {
        assert forall|i: int| 0 <= i < s.drop_last().len() implies !pred(
            #[trigger] s.drop_last()[i],
        ) by {
            assert(s.drop_last()[i] == s[i]);
        }
        lemma_filter_none(s.drop_last(), pred);
    }
}

/// There are relative paths if and only if the change concerns the root.
proof fn lemma_concerns(s: MonitorView, paths: Seq<PathView>, root: PathView)
    ensures
        model::concerns(s, paths, root) <==> model::relative_paths(
            root,
            model::event_paths(s, paths),
        ).len() > 0,
{
    let all = model::event_paths(s, paths);
    let more = model::relative_paths(root, all);
    lemma_relative_paths(root, all);
    if model::concerns(s, paths, root) {
        let k = choose|k: int| 0 <= k < all.len() && starts_with(#[trigger] all[k], root);
        assert(more.contains(strip_prefix(all[k], root)->0));
    }
    if more.len() > 0 {
        assert(lies_at(root, all, more[0]));
        let k = choose|k: int|
            0 <= k < all.len() && starts_with(#[trigger] all[k], root) && same_path(
                strip_prefix(all[k], root)->0,
                more[0],
            );
        assert(starts_with(all[k], root));
    }
}

/// Two ids with the same announcement are the same.
pub proof fn law_changes_line_injective(a: Seq<char>, b: Seq<char>)
    requires
        model::changes_line(a) == model::changes_line(b),
    ensures
        a == b,
{
    lemma_line_of_one("CHANGES"@, a);
    lemma_line_of_one("CHANGES"@, b);
    let head = "CHANGES"@.push(' ');
    assert((head + encoded(a)).skip(head.len() as int) =~= encoded(a));
    assert((head + encoded(b)).skip(head.len() as int) =~= encoded(b));
    law_encode_injective(a, b);
}

/// A line with one argument.
proof fn lemma_line_of_one(command: Seq<char>, arg: Seq<char>)
    ensures
        line(command, seq![arg]) == command.push(' ') + encoded(arg),
{
    reveal_with_fuel(line, 2);
    assert(seq![arg].drop_last() =~= Seq::<Seq<char>>::empty());
}

/// The line announces changes of a known replica.
pub open spec fn is_announcement(s: MonitorView, text: Seq<char>) -> bool {
    exists|id: Seq<char>| s.has_replica(id) && text == #[trigger] model::changes_line(id)
}

/// A replica is announced after a change if and only if it is waited on and
/// the change concerns it. No replica is announced twice, and nothing else is
/// written.
pub proof fn law_announcements(s: MonitorView, paths: Seq<PathView>)
    requires
        s.wf(),
    ensures
        ({
            let step = model::fs_event(s, paths).1;
            &&& step.next is Done
            &&& forall|id: Seq<char>| #[trigger]
                step.lines.contains(model::changes_line(id)) <==> (s.replica(id) matches Some(
                    replica,
                ) && replica.waited_on && model::concerns(s, paths, replica.root))
            &&& step.lines.no_duplicates()
            &&& forall|k: int|
                0 <= k < step.lines.len() ==> is_announcement(s, #[trigger] step.lines[k])
        }),
{
    let all = model::event_paths(s, paths);
    let announced = |e: EntryView| model::is_announced(e, all);
    let announce = |e: EntryView| model::changes_line(e.id);
    let chosen = s.replicas.filter(announced);
    let lines = model::fs_event(s, paths).1.lines;
    assert forall|id: Seq<char>| #[trigger] lines.contains(model::changes_line(id)) <==> (s.replica(
        id,
    ) matches Some(replica) && replica.waited_on && model::concerns(s, paths, replica.root)) by {
        if s.has_replica(id) {
            lemma_replica_index(s, id);
            let k = s.replica_index(id);
            lemma_concerns(s, paths, s.replicas[k].replica.root);
            if announced(s.replicas[k]) {
                s.replicas.lemma_filter_contains(announced, k);
                let j = chosen.index_of(s.replicas[k]);
                assert(lines[j] == model::changes_line(id));
            }
        }
        if lines.contains(model::changes_line(id)) {
            let j = lines.index_of(model::changes_line(id));
            let e = chosen[j];
            s.replicas.lemma_filter_pred(announced, j);
            assert(chosen.contains(e));
            s.replicas.lemma_filter_contains_rev(announced, e);
            let k = s.replicas.index_of(e);
            law_changes_line_injective(e.id, id);
            assert(s.replicas[k].id == id);
            lemma_replica_index(s, id);
            lemma_concerns(s, paths, e.replica.root);
        }
    }
    assert forall|i: int, j: int| 0 <= i < lines.len() && 0 <= j < lines.len() && i
        != j implies lines[i] != lines[j] by {
        if lines[i] == lines[j] {
            law_changes_line_injective(chosen[i].id, chosen[j].id);
            lemma_filter_ids_differ(s.replicas, announced);
            assert(false);
        }
    }
    assert forall|k: int| 0 <= k < lines.len() implies is_announcement(
        s,
        #[trigger] lines[k],
    ) by {
        let e = chosen[k];
        assert(chosen.contains(e));
        s.replicas.lemma_filter_contains_rev(announced, e);
        assert(s.replicas[s.replicas.index_of(e)].id == e.id);
        assert(lines[k] == model::changes_line(e.id));
    }
}

/// Entries with different ids keep different ids when some are left out.
proof fn lemma_filter_ids_differ(entries: Seq<EntryView>, pred: spec_fn(EntryView) -> bool)
    requires
        forall|i: int, j: int|
            0 <= i < j < entries.len() ==> (#[trigger] entries[i]).id != (
            #[trigger] entries[j]).id,
    ensures
        forall|i: int, j: int|
            0 <= i < j < entries.filter(pred).len() ==> (#[trigger] entries.filter(pred)[i]).id != (
            #[trigger] entries.filter(pred)[j]).id,
    decreases entries.len(),
{
    if entries.len() > 0 {
        let front = entries.drop_last();
        let last = entries.last();
        let before = front.filter(pred);
        let after = entries.filter(pred);
        assert(front.push(last) =~= entries);
        assert forall|i: int, j: int| 0 <= i < j < front.len() implies (#[trigger] front[i]).id != (
        #[trigger] front[j]).id by {
            assert(entries[i].id != entries[j].id);
        }
        lemma_filter_ids_differ(front, pred);
        front.lemma_filter_push(last, pred);
        assert forall|i: int, j: int| 0 <= i < j < after.len() implies (#[trigger] after[i]).id != (
        #[trigger] after[j]).id by {
            assert(after[i] == before[i]);
            if j < before.len() {
                assert(after[j] == before[j]);
            } else {
                assert(before.contains(before[i]));
                front.lemma_filter_contains_rev(pred, before[i]);
                let k = front.index_of(before[i]);
                assert(entries[k].id != entries[entries.len() - 1].id);
            }
        }
    } else {
        reveal(Seq::filter);
    }
}

/// It makes no difference whether the other side waits before a change or after
/// it: where nobody waits and nothing is pending for the replica, both orders
/// end in the same state and write the same lines.
pub proof fn law_wait_and_change_commute(
    s: MonitorView,
    text: Seq<char>,
    id: Seq<char>,
    paths: Seq<PathView>,
)
    requires
        s.wf(),
        nobody_waits(s),
        parsed(text).0 == "WAIT"@,
        parsed(text).1.len() > 0,
        parsed(text).1[0] == id,
        s.has_replica(id),
        (s.replica(id)->0).pending_changes.len() == 0,
    ensures
        ({
            let (s1, step1) = model::input(s, text);
            let (s2, step2) = model::fs_event(s1, paths);
            let (t1, step3) = model::fs_event(s, paths);
            let (t2, step4) = model::input(t1, text);
            &&& s2 == t2
            &&& step1.lines + step2.lines == step3.lines + step4.lines
            &&& step1.lines + step2.lines == (if model::concerns(
                s,
                paths,
                (s.replica(id)->0).root,
            ) {
                seq![model::changes_line(id)]
            } else {
                Seq::empty()
            })
        }),
{
    lemma_commands_differ();
    let k = s.replica_index(id);
    lemma_replica_index(s, id);
    let replica = s.replicas[k].replica;
    let waiting = ReplicaView { waited_on: true, ..replica };
    lemma_with_replica_wf(s, id, waiting);
    let (s1, step1) = model::input(s, text);
    let (s2, step2) = model::fs_event(s1, paths);
    let (t1, step3) = model::fs_event(s, paths);
    let (t2, step4) = model::input(t1, text);
    law_fs_event_wf(s, paths);
    let all = model::event_paths(s, paths);
    assert(model::event_paths(s1, paths) == all);
    assert(t1.replicas[k].id == id);
    assert(t1.has_replica(id));
    lemma_replica_index(t1, id);
    assert(t1.replica_index(id) == k);
    law_silent_without_wait(s, paths);
    let more = model::relative_paths(replica.root, all);
    lemma_concerns(s, paths, replica.root);
    law_insert_paths(replica.pending_changes, more);
    lemma_insert_paths_empty(more);
    assert(replica.pending_changes =~= Seq::empty());
    assert forall|i: int| 0 <= i < s.replicas.len() implies s2.replicas[i] == t2.replicas[i] by {
        assert(s2.replicas[i] == model::record(s1.replicas[i], all));
    }
    assert(s2 =~= t2);
    let announced = |e: EntryView| model::is_announced(e, all);
    let announce = |e: EntryView| model::changes_line(e.id);
    lemma_filter_only(s1.replicas, announced, k);
    assert(step2.lines =~= s1.replicas.filter(announced).map_values(announce));
    if more.len() > 0 {
        assert(announced(s1.replicas[k]));
        assert(s1.replicas.filter(announced) == seq![s1.replicas[k]]);
        assert(step2.lines =~= seq![model::changes_line(id)]);
    } else {
        assert(step2.lines =~= Seq::empty());
    }
    assert(step1.lines =~= Seq::empty());
    assert(step1.lines + step2.lines =~= step3.lines + step4.lines);
}

/// Insertions into an empty set leave it empty only if there are none.
proof fn lemma_insert_paths_empty(more: Seq<PathView>)
    ensures
        insert_paths(Seq::empty(), more).len() == 0 <==> more.len() == 0,
{
    if more.len() > 0 {
        law_insert_paths(Seq::empty(), more);
        assert(same_path(more[0], more[0]));
        assert(contains_path(more, more[0]));
        assert(contains_path(insert_paths(Seq::empty(), more), more[0]));
    }
}

/// Where only one place can satisfy the predicate, at most it is left.
proof fn lemma_filter_only<A>(s: Seq<A>, pred: spec_fn(A) -> bool, k: int)
    requires
        0 <= k < s.len(),
        forall|i: int| 0 <= i < s.len() && i != k ==> !pred(#[trigger] s[i]),
    ensures
        s.filter(pred) == (if pred(s[k]) {
            seq![s[k]]
        } else {
            Seq::empty()
        }),
    decreases s.len(),
{
    let front = s.drop_last();
    assert(front.push(s.last()) =~= s);
    front.lemma_filter_push(s.last(), pred);
    assert forall|i: int| 0 <= i < front.len() && i != k implies !pred(#[trigger] front[i]) by {
        assert(front[i] == s[i]);
    }
    if k == s.len() - 1 {
        lemma_filter_none(front, pred);
        assert(s.filter(pred) =~= (if pred(s[k]) {
            seq![s[k]]
        } else {
            Seq::empty()
        }));
    } else {
        lemma_filter_only(front, pred, k);
        assert(!pred(s[s.len() - 1]));
    }
}

// ---------------------------------------------------------------------------
// Links
// ---------------------------------------------------------------------------

/// An item of one of the parts is an item of the whole.
proof fn lemma_flat_map_contains<A, B>(s: Seq<A>, f: spec_fn(A) -> Seq<B>, i: int, b: B)
    requires
        0 <= i < s.len(),
        f(s[i]).contains(b),
    ensures
        s.flat_map(f).contains(b),
    decreases s.len(),
{
    let n = s.len() - 1;
    let front = s.take(n as int);
    s.lemma_flat_map_take_append(f, n as int);
    assert(s.take(n + 1) =~= s);
    let before = front.flat_map(f);
    let whole = s.flat_map(f);
    if i == n {
        let k = f(s[i]).index_of(b);
        assert(whole[before.len() + k] == b);
    } else {
        assert(front[i] == s[i]);
        lemma_flat_map_contains(front, f, i, b);
        let k = before.index_of(b);
        assert(whole[k] == b);
    }
}

/// A change at or below the path that a link leads to counts as a change of
/// the same path below the link.
pub proof fn law_change_behind_link(
    s: MonitorView,
    paths: Seq<PathView>,
    path: PathView,
    i: int,
    j: int,
)
    requires
        paths.contains(path),
        0 <= i < s.link_map.len(),
        0 <= j < s.link_map[i].links.len(),
        starts_with(path, s.link_map[i].realpath),
    ensures
        model::event_paths(s, paths).contains(path),
        model::event_paths(s, paths).contains(
            join(s.link_map[i].links[j], strip_prefix(path, s.link_map[i].realpath)->0),
        ),
{
    let entry = s.link_map[i];
    let alias = join(entry.links[j], strip_prefix(path, entry.realpath)->0);
    let seen = |e: LinksView| model::aliases(e, path);
    let through = |p: PathView| s.link_map.flat_map(|e: LinksView| model::aliases(e, p));
    let k = paths.index_of(path);
    let all = model::event_paths(s, paths);
    assert(all[k] == path);
    assert(seen(entry)[j] == alias);
    lemma_flat_map_contains(s.link_map, seen, i, alias);
    assert(through(paths[k]) == s.link_map.flat_map(seen));
    lemma_flat_map_contains(paths, through, k, alias);
    let m = paths.flat_map(through).index_of(alias);
    assert(all[paths.len() + m] == alias);
}

/// A link that was followed is entered: once its real path was found and is
/// watched, changes below that path count below the link too. Following a
/// link leaves the replicas as they are.
pub proof fn law_link_is_followed(s: MonitorView, path: PathView, realpath: PathView)
    requires
        s.wf(),
    ensures
        ({
            let purpose = PurposeView::Link { link: path };
            let (after, step) = model::watched(s, realpath, purpose, true);
            &&& model::resolved(path, Some(realpath)) == model::request(
                NextView::Watch { path: realpath, purpose },
            )
            &&& step == model::answer(seq![model::ack_line()])
            &&& after.replicas == s.replicas
            &&& after.has_links(realpath)
            &&& contains_path(after.link_map[after.links_index(realpath)].links, path)
        }),
{
    let after = model::add_link(s, realpath, path);
    lemma_add_link_wf(s, realpath, path);
    if s.has_links(realpath) {
        let k = s.links_index(realpath);
        law_insert_path(s.link_map[k].links, path);
        assert(same_path(after.link_map[k].realpath, realpath));
        let m = after.links_index(realpath);
        assert(same_path(after.link_map[m].realpath, after.link_map[k].realpath));
        assert(m == k);
        assert(same_path(path, path));
        assert(contains_path(after.link_map[k].links, path));
    } else {
        let k = s.link_map.len() as int;
        assert(same_path(after.link_map[k].realpath, realpath));
        let m = after.links_index(realpath);
        assert(same_path(after.link_map[m].realpath, after.link_map[k].realpath));
        assert(m == k);
        assert(same_path(after.link_map[k].links[0], path));
    }
}

/// A part that the whole has an item from.
proof fn lemma_flat_map_contains_rev<A, B>(s: Seq<A>, f: spec_fn(A) -> Seq<B>, b: B) -> (i: int)
    requires
        s.flat_map(f).contains(b),
    ensures
        0 <= i < s.len(),
        f(s[i]).contains(b),
    decreases s.len(),
{
    if s.len() == 0 {
        assert(s.flat_map(f) =~= Seq::empty());
        0
    } else {
        let n = s.len() - 1;
        let front = s.take(n as int);
        s.lemma_flat_map_take_append(f, n as int);
        assert(s.take(n + 1) =~= s);
        let before = front.flat_map(f);
        let k = s.flat_map(f).index_of(b);
        if k < before.len() {
            assert(before[k] == b);
            lemma_flat_map_contains_rev(front, f, b)
        } else {
            assert(f(s[n as int])[k - before.len()] == b);
            n as int
        }
    }
}

/// A path is seen as `q` if it is `q`, or if a link shows it there.
pub open spec fn is_seen_as(s: MonitorView, path: PathView, q: PathView) -> bool {
    ||| q == path
    ||| exists|i: int, j: int|
        0 <= i < s.link_map.len() && 0 <= j < s.link_map[i].links.len() && starts_with(
            path,
            s.link_map[i].realpath,
        ) && q == join(
            #[trigger] s.link_map[i].links[j],
            strip_prefix(path, s.link_map[i].realpath)->0,
        )
}

/// One of the paths is seen as `q`.
pub open spec fn is_one_seen_as(s: MonitorView, paths: Seq<PathView>, q: PathView) -> bool {
    exists|k: int| 0 <= k < paths.len() && is_seen_as(s, #[trigger] paths[k], q)
}

/// What counts as changed is what one of the changed paths is seen as, and
/// nothing else.
pub proof fn law_event_paths(s: MonitorView, paths: Seq<PathView>)
    ensures
        forall|q: PathView| #[trigger]
            model::event_paths(s, paths).contains(q) <==> is_one_seen_as(s, paths, q),
{
    let all = model::event_paths(s, paths);
    let through = |p: PathView| s.link_map.flat_map(|e: LinksView| model::aliases(e, p));
    assert forall|q: PathView| #[trigger] all.contains(q) <==> is_one_seen_as(s, paths, q) by {
        if all.contains(q) {
            let m = all.index_of(q);
            if m < paths.len() {
                assert(is_seen_as(s, paths[m], q));
            } else {
                assert(paths.flat_map(through)[m - paths.len()] == q);
                let k = lemma_flat_map_contains_rev(paths, through, q);
                let path = paths[k];
                let seen = |e: LinksView| model::aliases(e, path);
                assert(through(path) == s.link_map.flat_map(seen));
                let i = lemma_flat_map_contains_rev(s.link_map, seen, q);
                let j = seen(s.link_map[i]).index_of(q);
                assert(q == join(
                    s.link_map[i].links[j],
                    strip_prefix(path, s.link_map[i].realpath)->0,
                ));
                assert(is_seen_as(s, paths[k], q));
            }
        }
        if is_one_seen_as(s, paths, q) {
            let k = choose|k: int| 0 <= k < paths.len() && is_seen_as(s, #[trigger] paths[k], q);
            let path = paths[k];
            if q == path {
                assert(all[k] == q);
            } else {
                let (i, j) = choose|i: int, j: int|
                    0 <= i < s.link_map.len() && 0 <= j < s.link_map[i].links.len() && starts_with(
                        path,
                        s.link_map[i].realpath,
                    ) && q == join(
                        #[trigger] s.link_map[i].links[j],
                        strip_prefix(path, s.link_map[i].realpath)->0,
                    );
                law_change_behind_link(s, paths, path, i, j);
            }
        }
    }
}

// ---------------------------------------------------------------------------
// One change after another
// ---------------------------------------------------------------------------

/// Two sets hold the same paths.
pub open spec fn same_paths(a: Seq<PathView>, b: Seq<PathView>) -> bool {
    forall|q: PathView| #[trigger] contains_path(a, q) <==> contains_path(b, q)
}

/// Two states differ at most in the order in which changes became pending.
pub open spec fn same_but_for_order(a: MonitorView, b: MonitorView) -> bool {
    &&& a.current_path == b.current_path
    &&& a.link_map == b.link_map
    &&& a.replicas.len() == b.replicas.len()
    &&& forall|i: int|
        0 <= i < a.replicas.len() ==> {
            let e = #[trigger] a.replicas[i];
            let f = b.replicas[i];
            &&& e.id == f.id
            &&& e.replica.root == f.replica.root
            &&& e.replica.paths == f.replica.paths
            &&& e.replica.waited_on == f.replica.waited_on
            &&& same_paths(e.replica.pending_changes, f.replica.pending_changes)
        }
}

/// What is pending for a replica after two changes.
proof fn lemma_pending_after_two(
    s: MonitorView,
    first: Seq<PathView>,
    second: Seq<PathView>,
    i: int,
)
    requires
        0 <= i < s.replicas.len(),
    ensures
        ({
            let before = s.replicas[i].replica;
            let after = model::fs_event(model::fs_event(s, first).0, second).0.replicas[i].replica;
            forall|q: PathView| #[trigger]
                contains_path(after.pending_changes, q) <==> contains_path(
                    before.pending_changes,
                    q,
                ) || lies_at(before.root, model::event_paths(s, first), q) || lies_at(
                    before.root,
                    model::event_paths(s, second),
                    q,
                )
        }),
{
    let middle = model::fs_event(s, first).0;
    law_pending_after_change(s, first, i);
    law_pending_after_change(middle, second, i);
    assert(model::event_paths(middle, second) == model::event_paths(s, second));
    assert(middle.replicas[i].replica.root == s.replicas[i].replica.root);
}

/// What lies somewhere after two changes together lies there after one of them.
proof fn lemma_lies_at_together(
    s: MonitorView,
    first: Seq<PathView>,
    second: Seq<PathView>,
    root: PathView,
    q: PathView,
)
    ensures
        lies_at(root, model::event_paths(s, first + second), q) <==> lies_at(
            root,
            model::event_paths(s, first),
            q,
        ) || lies_at(root, model::event_paths(s, second), q),
{
    let a = model::event_paths(s, first);
    let b = model::event_paths(s, second);
    let both = model::event_paths(s, first + second);
    law_event_paths(s, first);
    law_event_paths(s, second);
    law_event_paths(s, first + second);
    assert forall|x: PathView| #[trigger] both.contains(x) <==> a.contains(x) || b.contains(x) by {
        if is_one_seen_as(s, first, x) {
            let k = choose|k: int| 0 <= k < first.len() && is_seen_as(s, #[trigger] first[k], x);
            assert(is_seen_as(s, (first + second)[k], x));
        }
        if is_one_seen_as(s, second, x) {
            let k = choose|k: int| 0 <= k < second.len() && is_seen_as(s, #[trigger] second[k], x);
            assert(is_seen_as(s, (first + second)[first.len() + k], x));
        }
        if is_one_seen_as(s, first + second, x) {
            let k = choose|k: int|
                0 <= k < (first + second).len() && is_seen_as(s, #[trigger] (first + second)[k], x);
            if k < first.len() {
                assert(is_seen_as(s, first[k], x));
            } else {
                assert(is_seen_as(s, second[k - first.len()], x));
            }
        }
    }
    if lies_at(root, both, q) {
        let k = choose|k: int|
            0 <= k < both.len() && starts_with(#[trigger] both[k], root) && same_path(
                strip_prefix(both[k], root)->0,
                q,
            );
        assert(both.contains(both[k]));
        lemma_lies_at_item(root, a, both[k], q);
        lemma_lies_at_item(root, b, both[k], q);
    }
    if lies_at(root, a, q) {
        let k = choose|k: int|
            0 <= k < a.len() && starts_with(#[trigger] a[k], root) && same_path(
                strip_prefix(a[k], root)->0,
                q,
            );
        assert(a.contains(a[k]));
        lemma_lies_at_item(root, both, a[k], q);
    }
    if lies_at(root, b, q) {
        let k = choose|k: int|
            0 <= k < b.len() && starts_with(#[trigger] b[k], root) && same_path(
                strip_prefix(b[k], root)->0,
                q,
            );
        assert(b.contains(b[k]));
        lemma_lies_at_item(root, both, b[k], q);
    }
}

/// One item that lies there is enough.
proof fn lemma_lies_at_item(root: PathView, paths: Seq<PathView>, path: PathView, q: PathView)
    requires
        starts_with(path, root),
        same_path(strip_prefix(path, root)->0, q),
    ensures
        paths.contains(path) ==> lies_at(root, paths, q),
{
    if paths.contains(path) {
        let k = paths.index_of(path);
        assert(starts_with(paths[k], root) && same_path(strip_prefix(paths[k], root)->0, q));
    }
}

/// Inserting what is there changes nothing.
proof fn lemma_insert_contained(paths: Seq<PathView>, more: Seq<PathView>)
    requires
        forall|k: int| 0 <= k < more.len() ==> contains_path(paths, #[trigger] more[k]),
    ensures
        insert_paths(paths, more) == paths,
    decreases more.len(),
{
    if more.len() > 0 {
        let front = more.drop_last();
        assert forall|k: int| 0 <= k < front.len() implies contains_path(
            paths,
            #[trigger] front[k],
        ) by {
            assert(front[k] == more[k]);
        }
        lemma_insert_contained(paths, front);
        assert(contains_path(paths, more[more.len() - 1]));
    }
}

/// A change that was taken down changes nothing when it comes again.
proof fn lemma_change_again(s: MonitorView, paths: Seq<PathView>)
    requires
        forall|i: int, q: PathView|
            0 <= i < s.replicas.len() && #[trigger] lies_at(
                s.replicas[i].replica.root,
                model::event_paths(s, paths),
                q,
            ) ==> contains_path(s.replicas[i].replica.pending_changes, q),
    ensures
        model::fs_event(s, paths).0 == s,
{
    let after = model::fs_event(s, paths).0;
    let all = model::event_paths(s, paths);
    assert forall|i: int| 0 <= i < s.replicas.len() implies after.replicas[i] == s.replicas[i] by {
        let replica = s.replicas[i].replica;
        let more = model::relative_paths(replica.root, all);
        lemma_relative_paths(replica.root, all);
        assert forall|k: int| 0 <= k < more.len() implies contains_path(
            replica.pending_changes,
            #[trigger] more[k],
        ) by {
            assert(lies_at(s.replicas[i].replica.root, all, more[k]));
        }
        lemma_insert_contained(replica.pending_changes, more);
    }
    assert(after =~= s);
}

/// The order of two changes makes no difference to what is pending, nor does it
/// if they come as one. A change that comes again changes nothing.
pub proof fn law_changes_in_any_order(
    s: MonitorView,
    first: Seq<PathView>,
    second: Seq<PathView>,
)
    ensures
        ({
            let one_by_one = model::fs_event(model::fs_event(s, first).0, second).0;
            let other_way = model::fs_event(model::fs_event(s, second).0, first).0;
            let at_once = model::fs_event(s, first + second).0;
            &&& same_but_for_order(one_by_one, other_way)
            &&& same_but_for_order(one_by_one, at_once)
            &&& model::fs_event(one_by_one, first).0 == one_by_one
            &&& model::fs_event(one_by_one, second).0 == one_by_one
        }),
{
    let one_by_one = model::fs_event(model::fs_event(s, first).0, second).0;
    let at_once = model::fs_event(s, first + second).0;
    assert forall|i: int| 0 <= i < s.replicas.len() implies same_paths(
        #[trigger] one_by_one.replicas[i].replica.pending_changes,
        at_once.replicas[i].replica.pending_changes,
    ) by {
        let root = s.replicas[i].replica.root;
        lemma_pending_after_two(s, first, second, i);
        law_pending_after_change(s, first + second, i);
        assert forall|q: PathView| #[trigger]
            contains_path(one_by_one.replicas[i].replica.pending_changes, q) <==> contains_path(
                at_once.replicas[i].replica.pending_changes,
                q,
            ) by {
            lemma_lies_at_together(s, first, second, root, q);
        }
    }
    assert forall|i: int| 0 <= i < s.replicas.len() implies same_paths(
        #[trigger] one_by_one.replicas[i].replica.pending_changes,
        model::fs_event(
            model::fs_event(s, second).0,
            first,
        ).0.replicas[i].replica.pending_changes,
    ) by {
        lemma_pending_after_two(s, first, second, i);
        lemma_pending_after_two(s, second, first, i);
    }
    assert(model::event_paths(one_by_one, first) == model::event_paths(s, first));
    assert(model::event_paths(one_by_one, second) == model::event_paths(s, second));
    assert forall|i: int, q: PathView|
        0 <= i < one_by_one.replicas.len() && (#[trigger] lies_at(
            one_by_one.replicas[i].replica.root,
            model::event_paths(one_by_one, first),
            q,
        )) implies contains_path(one_by_one.replicas[i].replica.pending_changes, q) by {
        lemma_pending_after_two(s, first, second, i);
    }
    lemma_change_again(one_by_one, first);
    assert forall|i: int, q: PathView|
        0 <= i < one_by_one.replicas.len() && (#[trigger] lies_at(
            one_by_one.replicas[i].replica.root,
            model::event_paths(one_by_one, second),
            q,
        )) implies contains_path(one_by_one.replicas[i].replica.pending_changes, q) by {
        lemma_pending_after_two(s, first, second, i);
    }
    lemma_change_again(one_by_one, second);
}

// ---------------------------------------------------------------------------
// Reports
// ---------------------------------------------------------------------------

/// `CHANGES` reports what is pending for the replica, each change once and
/// behind them the end, and forgets it; asked again it reports nothing. What is
/// pending for other replicas stays.
pub proof fn law_changes_report_once(s: MonitorView, text: Seq<char>, id: Seq<char>)
    requires
        s.wf(),
        parsed(text).0 == "CHANGES"@,
        parsed(text).1.len() > 0,
        parsed(text).1[0] == id,
        s.has_replica(id),
    ensures
        ({
            let (after, step) = model::input(s, text);
            let (again, silence) = model::input(after, text);
            &&& step == model::answer(
                (s.replica(id)->0).pending_changes.map_values(
                    |p: PathView| model::recursive_line(p),
                ).push(model::done_line()),
            )
            &&& silence == model::answer(seq![model::done_line()])
            &&& again == after
            &&& after.replica(id) is Some
            &&& (after.replica(id)->0).pending_changes.len() == 0
            &&& forall|other: Seq<char>|
                other != id && s.has_replica(other) ==> (#[trigger] after.replica(other)) is Some
                    && (after.replica(other)->0).pending_changes == (s.replica(
                    other,
                )->0).pending_changes
        }),
{
    lemma_commands_differ();
    let s1 = model::clear_wait_state(s);
    lemma_cleared(s);
    lemma_replica_index(s1, id);
    let emptied = ReplicaView { pending_changes: Seq::empty(), ..s1.replica(id)->0 };
    lemma_with_replica_wf(s1, id, emptied);
    let (after, step) = model::input(s, text);
    assert(after == s1.with_replica(id, emptied));
    assert forall|i: int| 0 <= i < after.replicas.len() implies !(
    #[trigger] after.replicas[i]).replica.waited_on by {
        assert(!s1.replicas[i].replica.waited_on);
    }
    assert(model::clear_wait_state(after) =~= after);
    assert(Seq::<PathView>::empty().map_values(|p: PathView| model::recursive_line(p)).push(
        model::done_line(),
    ) =~= seq![model::done_line()]);
    lemma_replica_index(after, id);
    assert(after.with_replica(id, emptied) =~= after);
    assert forall|other: Seq<char>| other != id && s.has_replica(other) implies (
    #[trigger] after.replica(other)) is Some && (after.replica(other)->0).pending_changes == (
    s.replica(other)->0).pending_changes by {
        assert(after.replica(other) == s1.replica(other));
    }
}

/// Ending the waiting changes nothing but who is waited on.
proof fn lemma_cleared(s: MonitorView)
    requires
        s.wf(),
    ensures
        model::clear_wait_state(s).wf(),
        nobody_waits(model::clear_wait_state(s)),
        forall|id: Seq<char>| #[trigger]
            model::clear_wait_state(s).replica(id) == (match s.replica(id) {
                Some(r) => Some(ReplicaView { waited_on: false, ..r }),
                None => None,
            }),
{
    let s1 = model::clear_wait_state(s);
    assert(s1.wf());
    assert forall|id: Seq<char>| #[trigger] s1.replica(id) == (match s.replica(id) {
        Some(r) => Some(ReplicaView { waited_on: false, ..r }),
        None => None,
    }) by {
        if s.has_replica(id) {
            lemma_replica_index(s, id);
            assert(s1.replicas[s.replica_index(id)].id == id);
            lemma_replica_index(s1, id);
        }
        if s1.has_replica(id) {
            lemma_replica_index(s1, id);
            assert(s.replicas[s1.replica_index(id)].id == id);
        }
    }
}

/// What changes is what is reported: after a change of a path at or below the
/// root of a replica, one of the lines that `CHANGES` is answered with names
/// where it lies there. Joined onto the root that is the path, if it fits.
pub proof fn law_change_is_reported(
    s: MonitorView,
    paths: Seq<PathView>,
    text: Seq<char>,
    id: Seq<char>,
    path: PathView,
)
    requires
        s.wf(),
        s.has_replica(id),
        parsed(text).0 == "CHANGES"@,
        parsed(text).1.len() > 0,
        parsed(text).1[0] == id,
        model::event_paths(s, paths).contains(path),
        starts_with(path, (s.replica(id)->0).root),
    ensures
        ({
            let after = model::fs_event(s, paths).0;
            let step = model::input(after, text).1;
            let root = (s.replica(id)->0).root;
            exists|q: PathView| #[trigger]
                step.lines.contains(model::recursive_line(q)) && same_path(
                    q,
                    strip_prefix(path, root)->0,
                ) && (fits(root, q) ==> same_path(join(root, q), path))
        }),
{
    let after = model::fs_event(s, paths).0;
    let step = model::input(after, text).1;
    let k = s.replica_index(id);
    lemma_replica_index(s, id);
    let root = s.replicas[k].replica.root;
    let relative = strip_prefix(path, root)->0;
    law_fs_event_wf(s, paths);
    assert(after.replicas[k].id == id);
    lemma_replica_index(after, id);
    law_change_is_pending(s, paths, k, path);
    law_changes_report_once(after, text, id);
    let pending = after.replicas[k].replica.pending_changes;
    let m = choose|m: int| 0 <= m < pending.len() && same_path(#[trigger] pending[m], relative);
    let q = pending[m];
    assert(step.lines[m] == model::recursive_line(q));
    if fits(root, q) {
        law_join_same(root, q, relative);
    }
    assert(step.lines.contains(model::recursive_line(q)) && same_path(q, relative));
}

/// What is announced and reported is read back as it was meant, unless it is
/// empty: the other side gets the id of the replica, and the text of the
/// changed path.
pub proof fn law_lines_read_back(id: Seq<char>, path: PathView, message: Seq<char>)
    ensures
        id.len() > 0 ==> parsed(model::changes_line(id)) == ("CHANGES"@, seq![id]),
        path.bytes.len() > 0 ==> parsed(model::recursive_line(path)) == (
            "RECURSIVE"@,
            seq![text_of(path.bytes)],
        ),
        message.len() > 0 ==> parsed(line("ERROR"@, seq![message])) == ("ERROR"@, seq![message]),
        parsed(model::version_line()) == ("VERSION"@, seq!["1"@]),
        parsed(model::ack_line()) == ("OK"@, Seq::<Seq<char>>::empty()),
        parsed(model::done_line()) == ("DONE"@, Seq::<Seq<char>>::empty()),
{
    reveal_strlit("CHANGES");
    reveal_strlit("RECURSIVE");
    reveal_strlit("ERROR");
    reveal_strlit("VERSION");
    reveal_strlit("OK");
    reveal_strlit("DONE");
    reveal_strlit("1");
    if id.len() > 0 {
        law_parse_line("CHANGES"@, seq![id]);
    }
    if path.bytes.len() > 0 {
        law_text_of_bytes(path.bytes);
        law_parse_line("RECURSIVE"@, seq![text_of(path.bytes)]);
    }
    if message.len() > 0 {
        law_parse_line("ERROR"@, seq![message]);
    }
    law_parse_line("VERSION"@, seq!["1"@]);
    law_parse_line("OK"@, Seq::empty());
    law_parse_line("DONE"@, Seq::empty());
}

/// The words that a line that is written can start with.
pub open spec fn is_answer(word: Seq<char>) -> bool {
    ||| word == "VERSION"@
    ||| word == "OK"@
    ||| word == "CHANGES"@
    ||| word == "RECURSIVE"@
    ||| word == "DONE"@
    ||| word == "ERROR"@
}

/// The characters that occur in a line: letters, digits, percent signs, spaces.
pub open spec fn is_plain(c: char) -> bool {
    c == ' ' || c == '%' || '0' <= c <= '9' || 'A' <= c <= 'Z' || 'a' <= c <= 'z'
}

/// The text is one of the answers with encoded arguments, and plain throughout.
pub open spec fn is_message(text: Seq<char>) -> bool {
    &&& exists|word: Seq<char>, args: Seq<Seq<char>>|
        is_answer(word) && text == #[trigger] line(word, args)
    &&& forall|k: int| 0 <= k < text.len() ==> is_plain(#[trigger] text[k])
}

/// All of the lines are messages.
pub open spec fn are_messages(lines: Seq<Seq<char>>) -> bool {
    forall|i: int| 0 <= i < lines.len() ==> is_message(#[trigger] lines[i])
}

/// An answer with encoded arguments is a message.
proof fn lemma_is_message(word: Seq<char>, args: Seq<Seq<char>>)
    requires
        is_answer(word),
    ensures
        is_message(line(word, args)),
    decreases args.len(),
{
    if args.len() == 0 {
        reveal_strlit("VERSION");
        reveal_strlit("OK");
        reveal_strlit("CHANGES");
        reveal_strlit("RECURSIVE");
        reveal_strlit("DONE");
        reveal_strlit("ERROR");
    } else {
        let front = line(word, args.drop_last());
        lemma_is_message(word, args.drop_last());
        law_encoded_alphabet(args.last());
        let text = line(word, args);
        assert forall|k: int| 0 <= k < text.len() implies is_plain(#[trigger] text[k]) by {
            if k < front.len() {
                assert(text[k] == front[k]);
            } else if k > front.len() {
                assert(text[k] == encoded(args.last())[k - front.len() - 1]);
            }
        }
    }
}

/// Whatever happens, each line that is written is one of the six answers with
/// encoded arguments. None of them holds a line break or another control.
pub proof fn law_lines_are_messages(
    s: MonitorView,
    text: Seq<char>,
    paths: Seq<PathView>,
    path: PathView,
    purpose: PurposeView,
    realpath: Option<PathView>,
    ok: bool,
)
    ensures
        are_messages(model::input(s, text).1.lines),
        are_messages(model::fs_event(s, paths).1.lines),
        are_messages(model::watched(s, path, purpose, ok).1.lines),
        are_messages(model::resolved(path, realpath).lines),
        are_messages(model::unwatched(path, paths, ok).lines),
{
    assert forall|word: Seq<char>, args: Seq<Seq<char>>| is_answer(word) implies is_message(
        #[trigger] line(word, args),
    ) by {
        lemma_is_message(word, args);
    }
    let lines = model::fs_event(s, paths).1.lines;
    assert forall|i: int| 0 <= i < lines.len() implies is_message(#[trigger] lines[i]) by {
        let all = model::event_paths(s, paths);
        let chosen = s.replicas.filter(|e: EntryView| model::is_announced(e, all));
        assert(lines[i] == model::changes_line(chosen[i].id));
    }
}

// ---------------------------------------------------------------------------
// Beginning and end of a replica
// ---------------------------------------------------------------------------

/// Entering a path: the replica is there and watches the path. It has the root
/// and the pending changes that it had, or the new root and none if it is new.
/// The other replicas stay as they are.
pub proof fn law_add_path(s: MonitorView, id: Seq<char>, root: PathView, path: PathView)
    requires
        s.wf(),
    ensures
        ({
            let after = model::add_path(s, id, root, path);
            let had = match s.replica(id) {
                Some(replica) => replica,
                None => model::new_replica(root),
            };
            &&& after.replica(id) == Some(
                ReplicaView { paths: insert_path(had.paths, path), ..had },
            )
            &&& (after.replica(id)->0).is_watching(path)
            &&& contains_path((after.replica(id)->0).paths, path)
            &&& forall|other: Seq<char>|
                other != id ==> #[trigger] after.replica(other) == s.replica(other)
        }),
{
    let after = model::add_path(s, id, root, path);
    let had = match s.replica(id) {
        Some(replica) => replica,
        None => model::new_replica(root),
    };
    let replica = ReplicaView { paths: insert_path(had.paths, path), ..had };
    lemma_add_path_wf(s, id, root, path);
    law_insert_path(had.paths, path);
    assert(same_path(path, path));
    assert(contains_path(replica.paths, path));
    let k = choose|k: int|
        0 <= k < replica.paths.len() && same_path(#[trigger] replica.paths[k], path);
    law_starts_with_reflexive(path);
    assert(starts_with(path, replica.paths[k]));
    if s.has_replica(id) {
        lemma_replica_index(s, id);
        lemma_with_replica_wf(s, id, replica);
    } else {
        let last = s.replicas.len() as int;
        assert(had.paths.push(path) =~= seq![path]);
        assert(after.replicas[last].id == id);
        assert(after.has_replica(id));
        lemma_replica_index(after, id);
        assert(after.replica_index(id) == last);
        assert forall|other: Seq<char>| other != id implies #[trigger] after.replica(other)
            == s.replica(other) by {
            if s.has_replica(other) {
                lemma_replica_index(s, other);
                assert(after.replicas[s.replica_index(other)].id == other);
                lemma_replica_index(after, other);
            }
            if after.has_replica(other) {
                lemma_replica_index(after, other);
                assert(s.replicas[after.replica_index(other)].id == other);
            }
        }
    }
}

/// `START`: a path that the replica does not watch yet has to be watched, and
/// until it is nothing but the current path and the waiting changes. A path
/// that it watches already needs no watching, and is acknowledged at once.
pub proof fn law_start(s: MonitorView, text: Seq<char>)
    requires
        s.wf(),
        parsed(text).0 == "START"@,
        parsed(text).1.len() >= 2,
    ensures
        ({
            let args = parsed(text).1;
            let id = args[0];
            let root = model::path_of(s.syntax, args[1]);
            let path = model::start_path(s.syntax, args);
            let (after, step) = model::input(s, text);
            let watching = s.replica(id) matches Some(replica) && replica.is_watching(path);
            &&& after.current_path == path
            &&& after.link_map == s.link_map
            &&& !watching ==> step == model::request(
                NextView::Watch { path, purpose: PurposeView::Start { id, root } },
            ) && after.replicas == model::clear_wait_state(s).replicas
            &&& watching ==> step == model::answer(seq![model::ack_line()]) && (after.replica(
                id,
            ) matches Some(replica) && replica.is_watching(path))
        }),
{
    lemma_commands_differ();
    let args = parsed(text).1;
    let s1 = model::clear_wait_state(s);
    lemma_cleared(s);
    let path = model::start_path(s.syntax, args);
    let moved = MonitorView { current_path: path, ..s1 };
    law_add_path(moved, args[0], model::path_of(s.syntax, args[1]), path);
    if s.has_replica(args[0]) {
        let before = s.replica(args[0])->0;
        let r = s1.replica(args[0])->0;
        assert(r.paths == before.paths);
        assert(r.is_watching(path) == before.is_watching(path)) by {
            if before.is_watching(path) {
                let i = choose|i: int|
                    0 <= i < before.paths.len() && starts_with(path, #[trigger] before.paths[i]);
                assert(starts_with(path, r.paths[i]));
            }
            if r.is_watching(path) {
                let i = choose|i: int|
                    0 <= i < r.paths.len() && starts_with(path, #[trigger] r.paths[i]);
                assert(starts_with(path, before.paths[i]));
            }
        }
    }
}

/// A `START` that succeeded need not be watched again: given once more, it is
/// acknowledged at once and changes nothing.
pub proof fn law_start_twice(s: MonitorView, text: Seq<char>)
    requires
        s.wf(),
        parsed(text).0 == "START"@,
        parsed(text).1.len() >= 2,
    ensures
        ({
            let args = parsed(text).1;
            let id = args[0];
            let root = model::path_of(s.syntax, args[1]);
            let path = model::start_path(s.syntax, args);
            let (first, step) = model::input(s, text);
            let started = if step.next is Watch {
                model::watched(first, path, PurposeView::Start { id, root }, true).0
            } else {
                first
            };
            &&& started.replica(id) matches Some(replica) && replica.is_watching(path)
            &&& model::input(started, text) == (started, model::answer(seq![model::ack_line()]))
        }),
{
    lemma_commands_differ();
    let args = parsed(text).1;
    let id = args[0];
    let root = model::path_of(s.syntax, args[1]);
    let path = model::start_path(s.syntax, args);
    let s1 = model::clear_wait_state(s);
    lemma_cleared(s);
    let moved = MonitorView { current_path: path, ..s1 };
    assert(moved.wf());
    lemma_same_replicas(s1, moved, id);
    law_start(s, text);
    let started = model::add_path(moved, id, root, path);
    law_add_path(moved, id, root, path);
    lemma_add_path_wf(moved, id, root, path);
    let (first, step) = model::input(s, text);
    assert(started == (if step.next is Watch {
        model::watched(first, path, PurposeView::Start { id, root }, true).0
    } else {
        first
    }));
    assert(nobody_waits(moved));
    if moved.has_replica(id) {
        lemma_replica_index(moved, id);
    }
    assert(nobody_waits(started));
    assert(model::clear_wait_state(started) =~= started);
    law_start(started, text);
    let replica = started.replica(id)->0;
    assert(insert_path(replica.paths, path) == replica.paths);
    lemma_replica_index(started, id);
    assert(started.with_replica(id, replica) =~= started);
    assert(model::add_path(started, id, root, path) =~= started);
    assert(started.current_path == path);
}

/// `RESET` forgets the replica and leaves the others, but for the waiting. It
/// has the paths unwatched that were watched for the replica and that no other
/// replica watches: all of these, in their order, and no others.
pub proof fn law_reset(s: MonitorView, text: Seq<char>, id: Seq<char>)
    requires
        s.wf(),
        parsed(text).0 == "RESET"@,
        parsed(text).1.len() > 0,
        parsed(text).1[0] == id,
        s.has_replica(id),
    ensures
        ({
            let (after, step) = model::input(s, text);
            let freed = model::unwatched_paths(after, (s.replica(id)->0).paths);
            &&& after.replica(id) is None
            &&& forall|other: Seq<char>|
                other != id ==> #[trigger] after.replica(other) == model::clear_wait_state(
                    s,
                ).replica(other)
            &&& step == model::unwatch_all(freed)
            &&& forall|p: PathView| #[trigger]
                freed.contains(p) <==> (s.replica(id)->0).paths.contains(p) && !after.is_watching(p)
        }),
{
    lemma_commands_differ();
    let s1 = model::clear_wait_state(s);
    lemma_cleared(s);
    lemma_replica_index(s1, id);
    lemma_remove_replica_wf(s1, id);
    let (after, step) = model::input(s, text);
    let paths = (s.replica(id)->0).paths;
    assert((s1.replica(id)->0).paths == paths);
    let needless = |p: PathView| !after.is_watching(p);
    let freed = paths.filter(needless);
    assert forall|p: PathView| #[trigger] freed.contains(p) <==> paths.contains(p)
        && !after.is_watching(p) by {
        if freed.contains(p) {
            paths.lemma_filter_contains_rev(needless, p);
            let i = freed.index_of(p);
            paths.lemma_filter_pred(needless, i);
        }
        if paths.contains(p) && !after.is_watching(p) {
            let i = paths.index_of(p);
            paths.lemma_filter_contains(needless, i);
        }
    }
}

/// Nothing of a replica survives its `RESET`: when a `START` with its id comes
/// next, the path has to be watched, and once it is the replica has the new
/// root and this path alone, nothing is pending and nobody waits.
pub proof fn law_start_after_reset(s: MonitorView, reset: Seq<char>, start: Seq<char>)
    requires
        s.wf(),
        parsed(reset).0 == "RESET"@,
        parsed(reset).1.len() > 0,
        parsed(start).0 == "START"@,
        parsed(start).1.len() >= 2,
        parsed(start).1[0] == parsed(reset).1[0],
    ensures
        ({
            let args = parsed(start).1;
            let id = args[0];
            let root = model::path_of(s.syntax, args[1]);
            let path = model::start_path(s.syntax, args);
            let purpose = PurposeView::Start { id, root };
            let gone = model::input(s, reset).0;
            let (moved, step) = model::input(gone, start);
            let (started, done) = model::watched(moved, path, purpose, true);
            &&& step == model::request(NextView::Watch { path, purpose })
            &&& done == model::answer(seq![model::ack_line()])
            &&& started.current_path == path
            &&& started.replica(id) == Some(
                ReplicaView {
                    root,
                    paths: seq![path],
                    pending_changes: Seq::empty(),
                    waited_on: false,
                },
            )
        }),
{
    lemma_commands_differ();
    let args = parsed(start).1;
    let id = args[0];
    let root = model::path_of(s.syntax, args[1]);
    let path = model::start_path(s.syntax, args);
    let gone = model::input(s, reset).0;
    lemma_cleared(s);
    law_input_wf(s, reset);
    if s.has_replica(id) {
        law_reset(s, reset, id);
    } else {
        assert(model::clear_wait_state(s).replica(id) is None);
        assert(gone.replica(id) is None);
    }
    law_start(gone, start);
    let moved = model::input(gone, start).0;
    law_input_wf(gone, start);
    lemma_cleared(gone);
    lemma_same_replicas(model::clear_wait_state(gone), moved, id);
    law_add_path(moved, id, root, path);
    assert(insert_path(Seq::empty(), path) =~= seq![path]);
}

/// The step after the first `n` of the paths were unwatched.
pub open spec fn after_unwatching(paths: Seq<PathView>, n: nat) -> StepView
    decreases n,
{
    if n == 0 {
        model::unwatch_all(paths)
    } else {
        match after_unwatching(paths, (n - 1) as nat).next {
            NextView::Unwatch { path, rest } => model::unwatched(path, rest, true),
            next => model::request(next),
        }
    }
}

/// Paths that must no longer be watched are gone through one by one, in their
/// order, and after the last one the event is handled. A failure at any of them
/// ends the matter.
pub proof fn law_unwatching(paths: Seq<PathView>, n: nat)
    requires
        n <= paths.len(),
    ensures
        n < paths.len() ==> after_unwatching(paths, n) == model::request(
            NextView::Unwatch { path: paths[n as int], rest: paths.skip((n + 1) as int) },
        ),
        n == paths.len() ==> after_unwatching(paths, n) == model::answer(Seq::empty()),
        n < paths.len() ==> model::unwatched(paths[n as int], paths.skip((n + 1) as int), false)
            == model::failure(ErrorView::NotUnwatched(paths[n as int])),
    decreases n,
{
    if n > 0 {
        law_unwatching(paths, (n - 1) as nat);
        let rest = paths.skip(n as int);
        if n < paths.len() {
            assert(rest[0] == paths[n as int]);
            assert(rest.skip(1) =~= paths.skip((n + 1) as int));
        }
    }
}

/// Until its `RESET` a replica stays: no other command takes it away, changes
/// its root or ends the entry of a path. Its pending changes stay until its
/// `CHANGES`.
pub proof fn law_replica_stays(s: MonitorView, text: Seq<char>, id: Seq<char>)
    requires
        s.wf(),
        s.has_replica(id),
        !(parsed(text).0 == "RESET"@ && parsed(text).1.len() > 0 && parsed(text).1[0] == id),
    ensures
        ({
            let (command, args) = parsed(text);
            let before = s.replica(id)->0;
            let after = model::input(s, text).0.replica(id)->0;
            &&& model::input(s, text).0.has_replica(id)
            &&& after.root == before.root
            &&& before.paths.is_prefix_of(after.paths)
            &&& !(command == "CHANGES"@ && args.len() > 0 && args[0] == id)
                ==> after.pending_changes == before.pending_changes
        }),
{
    let (command, args) = parsed(text);
    let before = s.replica(id)->0;
    let s1 = if command == "WAIT"@ {
        s
    } else {
        model::clear_wait_state(s)
    };
    lemma_commands_differ();
    lemma_cleared(s);
    lemma_replica_index(s1, id);
    let r1 = s1.replica(id)->0;
    assert(r1.root == before.root && r1.paths == before.paths && r1.pending_changes
        == before.pending_changes);
    assert(before.paths.take(before.paths.len() as int) =~= before.paths);
    let result = model::input(s, text).0;
    if args.len() > 0 {
        let named = args[0];
        if s1.has_replica(named) {
            lemma_replica_index(s1, named);
            let r = s1.replica(named)->0;
            lemma_with_replica_wf(s1, named, ReplicaView { waited_on: true, ..r });
            lemma_with_replica_wf(
                s1,
                named,
                ReplicaView { pending_changes: Seq::empty(), ..r },
            );
            lemma_remove_replica_wf(s1, named);
        }
        if args.len() > 1 {
            let path = model::start_path(s.syntax, args);
            let moved = MonitorView { current_path: path, ..s1 };
            lemma_same_replicas(s1, moved, id);
            lemma_same_replicas(s1, moved, named);
            law_add_path(moved, named, model::path_of(s.syntax, args[1]), path);
            law_insert_path(r1.paths, path);
        }
    }
    assert(result.replica(id) is Some);
}

/// Where the replicas are the same, so is each replica.
proof fn lemma_same_replicas(s: MonitorView, t: MonitorView, id: Seq<char>)
    requires
        s.wf(),
        t.wf(),
        s.replicas == t.replicas,
    ensures
        s.replica(id) == t.replica(id),
{
    if s.has_replica(id) {
        lemma_replica_index(s, id);
        assert(t.replicas[s.replica_index(id)].id == id);
        lemma_replica_index(t, id);
    }
    if t.has_replica(id) {
        lemma_replica_index(t, id);
        assert(s.replicas[t.replica_index(id)].id == id);
    }
}

// ---------------------------------------------------------------------------
// What is refused
// ---------------------------------------------------------------------------

/// The commands that are known.
pub open spec fn is_command(command: Seq<char>) -> bool {
    ||| command == "VERSION"@
    ||| command == "START"@
    ||| command == "DIR"@
    ||| command == "LINK"@
    ||| command == "WAIT"@
    ||| command == "CHANGES"@
    ||| command == "RESET"@
    ||| command == "DEBUG"@
    ||| command == "DONE"@
}

/// The process has to end exactly after an unknown command and after `WAIT` for
/// an unknown replica. Each is reported with one line that says what was
/// unknown.
pub proof fn law_exit(s: MonitorView, text: Seq<char>)
    ensures
        ({
            let (command, args) = parsed(text);
            let step = model::input(s, text).1;
            let unknown_replica = command == "WAIT"@ && args.len() > 0 && !s.has_replica(args[0]);
            &&& step.next is Exit <==> !is_command(command) || unknown_replica
            &&& !is_command(command) ==> step == model::fatal("Unrecognized cmd: "@ + command)
            &&& unknown_replica ==> step == model::fatal("Unknown replica: "@ + args[0])
        }),
{
    lemma_commands_differ();
}

/// A path that could not be watched, or not found, leaves the state as it is.
pub proof fn law_failures_change_nothing(s: MonitorView, path: PathView, purpose: PurposeView)
    ensures
        model::watched(s, path, purpose, false) == (
            s,
            model::failure(ErrorView::NotWatched(path)),
        ),
        model::resolved(path, None) == model::failure(ErrorView::Unresolved(path)),
{
}

} // verus!
