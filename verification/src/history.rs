//! What holds of every state that the monitor reaches, with regard to what has
//! happened before.
use crate::laws::{
    is_one_seen_as, is_seen_as, law_event_paths, law_pending_after_change, lies_at,
};
use crate::model;
use crate::model::{MonitorView, NextView, PurposeView, ReplicaView};
use crate::path::{
    components, fits, is_absolute, join, law_empty_path, law_join_same, law_join_strip_prefix,
    law_same_path, law_tail_components, same_path, starts_with, strip_prefix, PathView, Syntax,
};
use crate::path_set::{contains_path, law_insert_path};
use crate::protocol::{law_arguments_are_not_empty, parsed};
use crate::validity::{law_fs_event_wf, law_input_wf, law_watched_wf, lemma_replica_index};
use vstd::prelude::*;

verus! {

// ---------------------------------------------------------------------------
// What has happened
// ---------------------------------------------------------------------------

/// An event, and what comes of the tasks that it leads to.
pub enum Happening {
    /// A line of input. Where it is about a link, `realpath` is what was found
    /// behind the link; where a path has to be watched, `ok` says whether it is.
    Input { text: Seq<char>, realpath: Option<PathView>, ok: bool },
    /// A change of these paths.
    Change { paths: Seq<PathView> },
}

/// The state after what has to happen next has happened.
pub open spec fn after_tasks(
    s: MonitorView,
    next: NextView,
    realpath: Option<PathView>,
    ok: bool,
) -> MonitorView {
    match next {
        NextView::Watch { path, purpose } => model::watched(s, path, purpose, ok).0,
        NextView::Resolve { path } => match model::resolved(path, realpath).next {
            NextView::Watch { path, purpose } => model::watched(s, path, purpose, ok).0,
            _ => s,
        },
        _ => s,
    }
}

/// The state after one more happening.
pub open spec fn after_one(s: MonitorView, happening: Happening) -> MonitorView {
    match happening {
        Happening::Input { text, realpath, ok } => {
            let (after, step) = model::input(s, text);
            after_tasks(after, step.next, realpath, ok)
        },
        Happening::Change { paths } => model::fs_event(s, paths).0,
    }
}

/// The state that is reached from the beginning.
pub open spec fn reached(syntax: Syntax, happenings: Seq<Happening>) -> MonitorView
    decreases happenings.len(),
{
    if happenings.len() == 0 {
        model::initial_state(syntax)
    } else {
        after_one(reached(syntax, happenings.drop_last()), happenings.last())
    }
}

/// The paths that a happening says have changed.
pub open spec fn named_by(happening: Happening) -> Seq<PathView> {
    match happening {
        Happening::Input { .. } => Seq::empty(),
        Happening::Change { paths } => paths,
    }
}

/// All paths that were said to have changed.
pub open spec fn named_paths(happenings: Seq<Happening>) -> Seq<PathView>
    decreases happenings.len(),
{
    if happenings.len() == 0 {
        Seq::empty()
    } else {
        named_paths(happenings.drop_last()) + named_by(happenings.last())
    }
}

// ---------------------------------------------------------------------------
// What holds of every state
// ---------------------------------------------------------------------------

/// One of the named paths is `path`, or a link shows it there.
pub open spec fn was_named(s: MonitorView, named: Seq<PathView>, path: PathView) -> bool {
    exists|q: PathView| #[trigger] is_one_seen_as(s, named, q) && same_path(q, path)
}

/// The replica has a root and a watched path. Each pending change that fits the
/// root is relative, and joined onto the root it is a path that was named.
pub open spec fn is_grounded(s: MonitorView, named: Seq<PathView>, replica: ReplicaView) -> bool {
    &&& replica.root.bytes.len() > 0
    &&& replica.paths.len() > 0
    &&& forall|k: int|
        0 <= k < replica.pending_changes.len() && fits(
            replica.root,
            #[trigger] replica.pending_changes[k],
        ) ==> !is_absolute(replica.pending_changes[k]) && was_named(
            s,
            named,
            join(replica.root, replica.pending_changes[k]),
        )
}

/// All replicas are grounded.
pub open spec fn all_grounded(s: MonitorView, named: Seq<PathView>) -> bool {
    forall|i: int|
        0 <= i < s.replicas.len() ==> is_grounded(s, named, (#[trigger] s.replicas[i]).replica)
}

/// The links that are known stay in their places.
pub open spec fn links_stay(s: MonitorView, t: MonitorView) -> bool {
    &&& s.link_map.len() <= t.link_map.len()
    &&& forall|i: int|
        0 <= i < s.link_map.len() ==> {
            let e = #[trigger] s.link_map[i];
            &&& t.link_map[i].realpath == e.realpath
            &&& e.links.is_prefix_of(t.link_map[i].links)
        }
}

/// What was named stays named when more is named and more links are followed.
proof fn lemma_was_named_stays(
    s: MonitorView,
    t: MonitorView,
    named: Seq<PathView>,
    more: Seq<PathView>,
    path: PathView,
)
    requires
        links_stay(s, t),
        was_named(s, named, path),
    ensures
        was_named(t, named + more, path),
{
    let q = choose|q: PathView| #[trigger] is_one_seen_as(s, named, q) && same_path(q, path);
    let k = choose|k: int| 0 <= k < named.len() && is_seen_as(s, #[trigger] named[k], q);
    let p = named[k];
    if q != p {
        let (i, j) = choose|i: int, j: int|
            0 <= i < s.link_map.len() && 0 <= j < s.link_map[i].links.len() && starts_with(
                p,
                s.link_map[i].realpath,
            ) && q == join(
                #[trigger] s.link_map[i].links[j],
                strip_prefix(p, s.link_map[i].realpath)->0,
            );
        assert(t.link_map[i].links[j] == s.link_map[i].links[j]);
    }
    assert(is_seen_as(t, (named + more)[k], q));
    assert(is_one_seen_as(t, named + more, q));
}

/// A replica stays grounded when more is named, more links are followed, more
/// paths are watched or changes are forgotten.
proof fn lemma_grounded_stays(
    s: MonitorView,
    t: MonitorView,
    named: Seq<PathView>,
    more: Seq<PathView>,
    before: ReplicaView,
    after: ReplicaView,
)
    requires
        links_stay(s, t),
        is_grounded(s, named, before),
        after.root == before.root,
        after.paths.len() > 0,
        after.pending_changes == before.pending_changes || after.pending_changes.len() == 0,
    ensures
        is_grounded(t, named + more, after),
{
    assert forall|k: int|
        0 <= k < after.pending_changes.len() && fits(
            after.root,
            #[trigger] after.pending_changes[k],
        ) implies !is_absolute(after.pending_changes[k]) && was_named(
        t,
        named + more,
        join(after.root, after.pending_changes[k]),
    ) by {
        assert(!is_absolute(before.pending_changes[k]));
        lemma_was_named_stays(
            s,
            t,
            named,
            more,
            join(before.root, before.pending_changes[k]),
        );
    }
}

/// What lies at a place below a root that is not empty is relative, and joined
/// onto the root it is a path that was named.
proof fn lemma_lies_at_named(
    s: MonitorView,
    named: Seq<PathView>,
    root: PathView,
    relative: PathView,
)
    requires
        root.bytes.len() > 0,
        fits(root, relative),
        lies_at(root, model::event_paths(s, named), relative),
    ensures
        !is_absolute(relative),
        was_named(s, named, join(root, relative)),
{
    let all = model::event_paths(s, named);
    let i = choose|i: int|
        0 <= i < all.len() && starts_with(#[trigger] all[i], root) && same_path(
            strip_prefix(all[i], root)->0,
            relative,
        );
    let path = all[i];
    let rest = strip_prefix(path, root)->0;
    law_same_path(rest, relative);
    law_join_same(root, relative, rest);
    law_join_strip_prefix(path, root);
    law_empty_path(root);
    if root.syntax is Unix {
        law_tail_components(path, components(root).len());
    }
    law_event_paths(s, named);
    assert(all.contains(path));
    assert(is_one_seen_as(s, named, path) && same_path(path, join(root, relative)));
}

/// A change keeps the replicas grounded.
pub proof fn law_change_keeps_grounded(s: MonitorView, named: Seq<PathView>, paths: Seq<PathView>)
    requires
        all_grounded(s, named),
    ensures
        all_grounded(model::fs_event(s, paths).0, named + paths),
{
    let t = model::fs_event(s, paths).0;
    let whole = named + paths;
    assert(t.link_map == s.link_map);
    lemma_links_same(s, t);
    assert forall|i: int| 0 <= i < t.replicas.len() implies is_grounded(
        t,
        whole,
        (#[trigger] t.replicas[i]).replica,
    ) by {
        let before = s.replicas[i].replica;
        let after = t.replicas[i].replica;
        assert(is_grounded(s, named, before));
        law_pending_after_change(s, paths, i);
        assert forall|k: int|
            0 <= k < after.pending_changes.len() && fits(
                after.root,
                #[trigger] after.pending_changes[k],
            ) implies !is_absolute(after.pending_changes[k]) && was_named(
            t,
            whole,
            join(after.root, after.pending_changes[k]),
        ) by {
            let p = after.pending_changes[k];
            assert(same_path(after.pending_changes[k], p));
            assert(contains_path(after.pending_changes, p));
            if contains_path(before.pending_changes, p) {
                let m = choose|m: int|
                    0 <= m < before.pending_changes.len() && same_path(
                        #[trigger] before.pending_changes[m],
                        p,
                    );
                let b = before.pending_changes[m];
                law_same_path(b, p);
                law_join_same(before.root, p, b);
                lemma_was_named_stays(s, t, named, paths, join(before.root, b));
                lemma_was_named_same(t, whole, join(before.root, b), join(before.root, p));
            } else {
                lemma_lies_at_named(s, paths, before.root, p);
                lemma_was_named_behind(s, t, named, paths, join(before.root, p));
            }
        }
    }
}

/// The same path, written in another way, was named too.
proof fn lemma_was_named_same(
    s: MonitorView,
    named: Seq<PathView>,
    path: PathView,
    other: PathView,
)
    requires
        was_named(s, named, path),
        same_path(path, other),
    ensures
        was_named(s, named, other),
{
    let q = choose|q: PathView| #[trigger] is_one_seen_as(s, named, q) && same_path(q, path);
    assert(is_one_seen_as(s, named, q) && same_path(q, other));
}

/// What is named last is named.
proof fn lemma_was_named_behind(
    s: MonitorView,
    t: MonitorView,
    named: Seq<PathView>,
    more: Seq<PathView>,
    path: PathView,
)
    requires
        s.link_map == t.link_map,
        was_named(s, more, path),
    ensures
        was_named(t, named + more, path),
{
    let q = choose|q: PathView| #[trigger] is_one_seen_as(s, more, q) && same_path(q, path);
    let k = choose|k: int| 0 <= k < more.len() && is_seen_as(s, #[trigger] more[k], q);
    assert(is_seen_as(t, (named + more)[named.len() + k], q));
    assert(is_one_seen_as(t, named + more, q));
}

/// The same links stay.
proof fn lemma_links_same(s: MonitorView, t: MonitorView)
    requires
        s.link_map == t.link_map,
    ensures
        links_stay(s, t),
{
    assert forall|i: int| 0 <= i < s.link_map.len() implies {
        let e = #[trigger] s.link_map[i];
        &&& t.link_map[i].realpath == e.realpath
        &&& e.links.is_prefix_of(t.link_map[i].links)
    } by {
        let links = s.link_map[i].links;
        assert(links.take(links.len() as int) =~= links);
    }
}

/// Entering a path for a replica keeps the replicas grounded, if the root that
/// a new one gets is not empty.
proof fn lemma_add_path_grounded(
    s: MonitorView,
    named: Seq<PathView>,
    id: Seq<char>,
    root: PathView,
    path: PathView,
)
    requires
        s.wf(),
        all_grounded(s, named),
        root.bytes.len() > 0,
    ensures
        all_grounded(model::add_path(s, id, root, path), named),
{
    let t = model::add_path(s, id, root, path);
    assert(t.link_map == s.link_map);
    lemma_links_same(s, t);
    assert(named + Seq::empty() =~= named);
    if s.has_replica(id) {
        lemma_replica_index(s, id);
        law_insert_path(s.replicas[s.replica_index(id)].replica.paths, path);
    }
    assert forall|i: int| 0 <= i < t.replicas.len() implies is_grounded(
        t,
        named,
        (#[trigger] t.replicas[i]).replica,
    ) by {
        if i < s.replicas.len() {
            let before = s.replicas[i].replica;
            assert(is_grounded(s, named, before));
            lemma_grounded_stays(s, t, named, Seq::empty(), before, t.replicas[i].replica);
        }
    }
}

/// A line of input keeps the replicas grounded. A root that comes with a path
/// to watch is not empty.
pub proof fn law_input_keeps_grounded(s: MonitorView, named: Seq<PathView>, text: Seq<char>)
    requires
        s.wf(),
        all_grounded(s, named),
    ensures
        all_grounded(model::input(s, text).0, named),
        model::input(s, text).1.next matches NextView::Watch {
            purpose: PurposeView::Start { root, .. },
            ..
        } ==> root.bytes.len() > 0,
{
    let (command, args) = parsed(text);
    law_arguments_are_not_empty(text);
    let s1 = if command == "WAIT"@ {
        s
    } else {
        model::clear_wait_state(s)
    };
    let t = model::input(s, text).0;
    assert(s1.wf());
    assert(t.link_map == s.link_map);
    lemma_links_same(s, s1);
    assert(named + Seq::empty() =~= named);
    assert forall|i: int| 0 <= i < s1.replicas.len() implies is_grounded(
        s1,
        named,
        (#[trigger] s1.replicas[i]).replica,
    ) by {
        let before = s.replicas[i].replica;
        assert(is_grounded(s, named, before));
        lemma_grounded_stays(s, s1, named, Seq::empty(), before, s1.replicas[i].replica);
    }
    if args.len() > 1 {
        let root = model::path_of(s.syntax, args[1]);
        assert(args[1].len() > 0);
        assert(root.bytes.len() > 0);
        let path = model::start_path(s.syntax, args);
        let moved = MonitorView { current_path: path, ..s1 };
        lemma_links_same(s1, moved);
        assert forall|i: int| 0 <= i < moved.replicas.len() implies is_grounded(
            moved,
            named,
            (#[trigger] moved.replicas[i]).replica,
        ) by {
            let before = s1.replicas[i].replica;
            lemma_grounded_stays(s1, moved, named, Seq::empty(), before, before);
        }
        lemma_add_path_grounded(moved, named, args[0], root, path);
    }
    if command != "START"@ {
        if args.len() > 0 && s1.has_replica(args[0]) {
            lemma_replica_index(s1, args[0]);
        }
        lemma_links_same(s1, t);
        assert forall|i: int| 0 <= i < t.replicas.len() implies is_grounded(
            t,
            named,
            (#[trigger] t.replicas[i]).replica,
        ) by {
            let j = if t.replicas.len() < s1.replicas.len() && i >= s1.replica_index(args[0]) {
                i + 1
            } else {
                i
            };
            let before = s1.replicas[j].replica;
            assert(is_grounded(s1, named, before));
            lemma_grounded_stays(s1, t, named, Seq::empty(), before, t.replicas[i].replica);
        }
    }
}

/// What comes of watching a path keeps the replicas grounded, if the root that
/// a new one gets is not empty.
pub proof fn law_watched_keeps_grounded(
    s: MonitorView,
    named: Seq<PathView>,
    path: PathView,
    purpose: PurposeView,
    ok: bool,
)
    requires
        s.wf(),
        all_grounded(s, named),
        purpose matches PurposeView::Start { root, .. } ==> root.bytes.len() > 0,
    ensures
        all_grounded(model::watched(s, path, purpose, ok).0, named),
{
    if ok {
        match purpose {
            PurposeView::Start { id, root } => lemma_add_path_grounded(s, named, id, root, path),
            PurposeView::Link { link } => {
                let t = model::add_link(s, path, link);
                assert forall|i: int| 0 <= i < s.link_map.len() implies {
                    let e = #[trigger] s.link_map[i];
                    &&& t.link_map[i].realpath == e.realpath
                    &&& e.links.is_prefix_of(t.link_map[i].links)
                } by {
                    let links = s.link_map[i].links;
                    assert(links.take(links.len() as int) =~= links);
                    law_insert_path(links, link);
                }
                assert(named + Seq::empty() =~= named);
                assert forall|i: int| 0 <= i < t.replicas.len() implies is_grounded(
                    t,
                    named,
                    (#[trigger] t.replicas[i]).replica,
                ) by {
                    let before = s.replicas[i].replica;
                    assert(is_grounded(s, named, before));
                    lemma_grounded_stays(s, t, named, Seq::empty(), before, before);
                }
            },
        }
    }
}

/// In every state that is reached from the beginning no id and no path occurs
/// twice, and each replica has a root and a watched path. Each change that is
/// pending for it, and fits the root, is relative to the root, and joined onto
/// the root it is a path that was named as changed, as it stands or as a link
/// shows it. In the syntax of Unix every change fits.
pub proof fn law_reached_states(syntax: Syntax, happenings: Seq<Happening>)
    ensures
        reached(syntax, happenings).wf(),
        all_grounded(reached(syntax, happenings), named_paths(happenings)),
    decreases happenings.len(),
{
    if happenings.len() > 0 {
        let s = reached(syntax, happenings.drop_last());
        let named = named_paths(happenings.drop_last());
        law_reached_states(syntax, happenings.drop_last());
        match happenings.last() {
            Happening::Input { text, realpath, ok } => {
                let (after, step) = model::input(s, text);
                law_input_wf(s, text);
                law_input_keeps_grounded(s, named, text);
                assert(named + Seq::empty() =~= named);
                match step.next {
                    NextView::Watch { path, purpose } => {
                        law_watched_wf(after, path, purpose, ok);
                        law_watched_keeps_grounded(after, named, path, purpose, ok);
                    },
                    NextView::Resolve { path } => {
                        if let Some(found) = realpath {
                            let purpose = PurposeView::Link { link: path };
                            law_watched_wf(after, found, purpose, ok);
                            law_watched_keeps_grounded(after, named, found, purpose, ok);
                        }
                    },
                    _ => {},
                }
            },
            Happening::Change { paths } => {
                law_fs_event_wf(s, paths);
                law_change_keeps_grounded(s, named, paths);
            },
        }
    }
}

} // verus!
