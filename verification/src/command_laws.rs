//! What each command and each change does, told over the parts of the state and
//! the lines that are written.
use crate::laws::{
    is_announcement, is_one_seen_as, is_seen_as, law_announcements, law_change_is_pending,
    law_event_paths, law_link_is_followed,
};
use crate::model;
use crate::model::{
    Command, EntryView, ErrorView, MonitorView, NextView, PurposeView, ReplicaView, StepView,
};
use crate::monitor::{event_step, MonitorEvent};
use crate::path::{join, same_path, starts_with, strip_prefix, PathView, Syntax};
use crate::path_set::{
    contains_path, insert_paths, law_insert_path, law_insert_paths, path_views,
};
use crate::protocol::{encoded, escape, line, parsed, text_of};
use crate::validity::{law_fs_event_wf, lemma_add_link_wf, lemma_replica_index};
use vstd::prelude::*;
use vstd::utf8::*;

verus! {

// ---------------------------------------------------------------------------
// The state
// ---------------------------------------------------------------------------

/// At the beginning there is no replica and no link, and the current path is
/// empty.
pub proof fn law_initial_state(syntax: Syntax)
    ensures
        ({
            let s = model::initial_state(syntax);
            &&& s.syntax == syntax
            &&& s.current_path.syntax == syntax
            &&& s.current_path.bytes.len() == 0
            &&& s.replicas.len() == 0
            &&& s.link_map.len() == 0
        }),
{
}

/// The replica with an id is the one in whose entry the id stands.
pub proof fn law_replica(s: MonitorView, id: Seq<char>, i: int)
    requires
        s.wf(),
    ensures
        s.has_replica(id) <==> exists|k: int|
            0 <= k < s.replicas.len() && (#[trigger] s.replicas[k]).id == id,
        s.replica(id) is Some <==> s.has_replica(id),
        0 <= i < s.replicas.len() && s.replicas[i].id == id ==> s.replica(id) == Some(
            s.replicas[i].replica,
        ),
{
    if s.has_replica(id) {
        lemma_replica_index(s, id);
    }
}

/// A replica watches a path if and only if one of the paths that are entered for
/// it is the path or contains it. A directory above an entered one is not
/// watched, and neither is the root unless it is entered.
pub proof fn law_watching(s: MonitorView, i: int, path: PathView)
    requires
        0 <= i < s.replicas.len(),
    ensures
        s.replicas[i].replica.is_watching(path) <==> exists|k: int|
            0 <= k < s.replicas[i].replica.paths.len() && starts_with(
                path,
                #[trigger] s.replicas[i].replica.paths[k],
            ),
        s.is_watching(path) <==> exists|j: int, k: int|
            0 <= j < s.replicas.len() && 0 <= k < s.replicas[j].replica.paths.len() && starts_with(
                path,
                #[trigger] s.replicas[j].replica.paths[k],
            ),
{
    if s.is_watching(path) {
        let j = choose|j: int|
            0 <= j < s.replicas.len() && (#[trigger] s.replicas[j]).replica.is_watching(path);
        let k = choose|k: int|
            0 <= k < s.replicas[j].replica.paths.len() && starts_with(
                path,
                #[trigger] s.replicas[j].replica.paths[k],
            );
        assert(starts_with(path, s.replicas[j].replica.paths[k]));
    }
    if exists|j: int, k: int|
        0 <= j < s.replicas.len() && 0 <= k < s.replicas[j].replica.paths.len() && starts_with(
            path,
            #[trigger] s.replicas[j].replica.paths[k],
        ) {
        let (j, k) = choose|j: int, k: int|
            0 <= j < s.replicas.len() && 0 <= k < s.replicas[j].replica.paths.len() && starts_with(
                path,
                #[trigger] s.replicas[j].replica.paths[k],
            );
        assert(s.replicas[j].replica.is_watching(path));
    }
}

/// An entry on which nobody waits.
pub open spec fn not_waited_on(e: EntryView) -> EntryView {
    EntryView {
        id: e.id,
        replica: ReplicaView {
            root: e.replica.root,
            paths: e.replica.paths,
            pending_changes: e.replica.pending_changes,
            waited_on: false,
        },
    }
}

/// Nothing has changed but that nobody waits any more.
pub open spec fn waiting_ended(s: MonitorView, after: MonitorView) -> bool {
    &&& after.syntax == s.syntax
    &&& after.current_path == s.current_path
    &&& after.link_map == s.link_map
    &&& after.replicas.len() == s.replicas.len()
    &&& forall|i: int|
        0 <= i < s.replicas.len() ==> #[trigger] after.replicas[i] == not_waited_on(s.replicas[i])
}

/// Nothing is written and nothing has to be done, but the event failed.
pub open spec fn has_failed(step: StepView, error: ErrorView) -> bool {
    step.lines.len() == 0 && step.next == NextView::Failed(error)
}

/// These lines are written, and the event is handled.
pub open spec fn is_answered(step: StepView, lines: Seq<Seq<char>>) -> bool {
    step.lines == lines && step.next == NextView::Done
}

// ---------------------------------------------------------------------------
// Lines
// ---------------------------------------------------------------------------

/// What the lines are: each is its word, and behind a space the encoded id, path
/// or message.
pub proof fn law_line_texts(id: Seq<char>, path: PathView, message: Seq<char>)
    ensures
        model::ack_line() == "OK"@,
        model::done_line() == "DONE"@,
        model::version_line() == "VERSION 1"@,
        model::changes_line(id) == "CHANGES "@ + encoded(id),
        model::recursive_line(path) == "RECURSIVE "@ + encoded(text_of(path.bytes)),
        model::fatal(message).lines == seq!["ERROR "@ + encoded(message)],
        model::fatal(message).next == NextView::Exit,
{
    reveal_strlit("VERSION");
    reveal_strlit("VERSION 1");
    reveal_strlit("CHANGES");
    reveal_strlit("CHANGES ");
    reveal_strlit("RECURSIVE");
    reveal_strlit("RECURSIVE ");
    reveal_strlit("ERROR");
    reveal_strlit("ERROR ");
    reveal_strlit("1");
    lemma_line_with("VERSION"@, "1"@);
    lemma_line_with("CHANGES"@, id);
    lemma_line_with("RECURSIVE"@, text_of(path.bytes));
    lemma_line_with("ERROR"@, message);
    assert("CHANGES"@.push(' ') =~= "CHANGES "@);
    assert("RECURSIVE"@.push(' ') =~= "RECURSIVE "@);
    assert("ERROR"@.push(' ') =~= "ERROR "@);
    assert("1"@ =~= seq!['1']);
    lemma_encoded_one();
    assert("VERSION"@.push(' ') + seq!['1'] =~= "VERSION 1"@);
}

proof fn lemma_line_with(word: Seq<char>, arg: Seq<char>)
    ensures
        line(word, seq![arg]) == word.push(' ') + encoded(arg),
{
    reveal_with_fuel(line, 2);
    assert(seq![arg].drop_last() =~= Seq::<Seq<char>>::empty());
}

proof fn lemma_encoded_one()
    ensures
        encoded(seq!['1']) == seq!['1'],
{
    let text = seq!['1'];
    assert(is_ascii_chars(text));
    is_ascii_chars_encode_utf8(text);
    let bytes = encode_utf8(text);
    assert(bytes =~= seq![49u8]);
    reveal_with_fuel(escape, 2);
    assert(bytes.drop_first() =~= Seq::empty());
    assert(escape(bytes) =~= seq![49u8]);
    assert(encoded(text) =~= seq!['1']);
}

/// What the errors are in words.
pub proof fn law_error_texts(version: Seq<char>, path: PathView)
    ensures
        model::error_summary(ErrorView::MissingVersion) == "Missing protocol version"@,
        model::error_summary(ErrorView::UnexpectedVersion(version)) == "Unexpected version"@,
        model::error_summary(ErrorView::MissingReplicaId(Command::Start))
            == "Missing replica id for START"@,
        model::error_summary(ErrorView::MissingReplicaId(Command::Wait))
            == "Missing replica id for WAIT"@,
        model::error_summary(ErrorView::MissingReplicaId(Command::Changes))
            == "Missing replica id for CHANGES"@,
        model::error_summary(ErrorView::MissingReplicaId(Command::Reset))
            == "Missing replica id for RESET"@,
        model::error_summary(ErrorView::MissingRoot) == "Missing root path for START"@,
        model::error_summary(ErrorView::Unresolved(path)) == "Unable to canonicalize path"@,
        model::error_summary(ErrorView::NotWatched(path)) == "Unable to watch path"@,
        model::error_summary(ErrorView::NotUnwatched(path)) == "Unable to unwatch path"@,
{
}

// ---------------------------------------------------------------------------
// Commands
// ---------------------------------------------------------------------------

/// The names of the commands are different.
proof fn lemma_names_differ()
    ensures
        "START"@ != "VERSION"@,
        "DIR"@ != "VERSION"@,
        "DIR"@ != "START"@,
        "DIR"@ != "WAIT"@,
        "LINK"@ != "VERSION"@,
        "LINK"@ != "START"@,
        "LINK"@ != "DIR"@,
        "LINK"@ != "WAIT"@,
        "WAIT"@ != "VERSION"@,
        "WAIT"@ != "START"@,
        "WAIT"@ != "DIR"@,
        "CHANGES"@ != "VERSION"@,
        "CHANGES"@ != "START"@,
        "CHANGES"@ != "DIR"@,
        "CHANGES"@ != "LINK"@,
        "CHANGES"@ != "WAIT"@,
        "RESET"@ != "VERSION"@,
        "RESET"@ != "START"@,
        "RESET"@ != "DIR"@,
        "RESET"@ != "LINK"@,
        "RESET"@ != "WAIT"@,
        "RESET"@ != "CHANGES"@,
        "DEBUG"@ != "VERSION"@,
        "DEBUG"@ != "START"@,
        "DEBUG"@ != "DIR"@,
        "DEBUG"@ != "LINK"@,
        "DEBUG"@ != "WAIT"@,
        "DEBUG"@ != "CHANGES"@,
        "DEBUG"@ != "RESET"@,
        "DONE"@ != "VERSION"@,
        "DONE"@ != "START"@,
        "DONE"@ != "DIR"@,
        "DONE"@ != "LINK"@,
        "DONE"@ != "WAIT"@,
        "DONE"@ != "CHANGES"@,
        "DONE"@ != "RESET"@,
{
    reveal_strlit("WAIT");
    reveal_strlit("VERSION");
    reveal_strlit("START");
    reveal_strlit("DIR");
    reveal_strlit("LINK");
    reveal_strlit("CHANGES");
    reveal_strlit("RESET");
    reveal_strlit("DEBUG");
    reveal_strlit("DONE");
    assert("WAIT"@[0] == 'W' && "VERSION"@[0] == 'V' && "START"@[0] == 'S' && "DIR"@[0] == 'D'
        && "LINK"@[0] == 'L' && "CHANGES"@[0] == 'C' && "RESET"@[0] == 'R' && "DEBUG"@[0] == 'D'
        && "DONE"@[0] == 'D');
    assert("DIR"@.len() == 3 && "DEBUG"@.len() == 5 && "DONE"@.len() == 4);
}

/// A line of input does what its command does with its arguments, and an event
/// does what its line does, or what the change of its paths does.
pub proof fn law_events(s: MonitorView, text: Seq<char>, event: MonitorEvent)
    ensures
        model::input(s, text) == model::perform(s, parsed(text).0, parsed(text).1),
        match event {
            MonitorEvent::Input(string) => event_step(s, event) == model::input(s, string@),
            MonitorEvent::FsEvent(change) => event_step(s, event) == model::fs_event(
                s,
                Seq::new(change.paths@.len(), |i: int| change.paths@[i]@),
            ),
        },
{
    if let MonitorEvent::FsEvent(change) = event {
        assert(path_views(change.paths@) =~= Seq::new(
            change.paths@.len(),
            |i: int| change.paths@[i]@,
        ));
    }
}

/// `VERSION` is answered with the version exactly if the first argument is `1`.
pub proof fn law_version(s: MonitorView, args: Seq<Seq<char>>)
    ensures
        ({
            let (after, step) = model::perform(s, "VERSION"@, args);
            &&& waiting_ended(s, after)
            &&& args.len() == 0 ==> has_failed(step, ErrorView::MissingVersion)
            &&& args.len() > 0 && args[0] == "1"@ ==> is_answered(step, seq!["VERSION 1"@])
            &&& args.len() > 0 && args[0] != "1"@ ==> has_failed(
                step,
                ErrorView::UnexpectedVersion(args[0]),
            )
        }),
{
    lemma_names_differ();
    law_line_texts(Seq::empty(), s.current_path, Seq::empty());
}

/// `DIR` is acknowledged; `DEBUG` and `DONE` are not answered. What is no command
/// is reported, and the process has to end.
pub proof fn law_other_commands(s: MonitorView, command: Seq<char>, args: Seq<Seq<char>>)
    ensures
        ({
            let (after, step) = model::perform(s, command, args);
            let known = command == "VERSION"@ || command == "START"@ || command == "DIR"@
                || command == "LINK"@ || command == "WAIT"@ || command == "CHANGES"@ || command
                == "RESET"@ || command == "DEBUG"@ || command == "DONE"@;
            &&& command == "DIR"@ ==> waiting_ended(s, after) && is_answered(step, seq!["OK"@])
            &&& command == "DEBUG"@ || command == "DONE"@ ==> waiting_ended(s, after)
                && is_answered(step, Seq::empty())
            &&& !known ==> waiting_ended(s, after) && step.next == NextView::Exit && step.lines
                == seq!["ERROR "@ + encoded("Unrecognized cmd: "@ + command)]
        }),
{
    lemma_names_differ();
    law_line_texts(Seq::empty(), s.current_path, "Unrecognized cmd: "@ + command);
}

/// The path that a `START` is about: the root, or the third argument joined onto
/// it.
pub open spec fn started_path(syntax: Syntax, args: Seq<Seq<char>>) -> PathView {
    let root = PathView { syntax, bytes: encode_utf8(args[1]) };
    if args.len() > 2 {
        join(root, PathView { syntax, bytes: encode_utf8(args[2]) })
    } else {
        root
    }
}

/// One of the paths that are entered for the replica with this id is the path or
/// contains it.
pub open spec fn is_entered_for(s: MonitorView, id: Seq<char>, path: PathView) -> bool {
    exists|i: int, k: int|
        0 <= i < s.replicas.len() && s.replicas[i].id == id && 0 <= k
            < s.replicas[i].replica.paths.len() && starts_with(
            path,
            #[trigger] s.replicas[i].replica.paths[k],
        )
}

/// `START` has its path watched, unless one of the paths that are entered for the
/// replica is the path or contains it; then it is entered and acknowledged at
/// once. Either way it becomes the current path.
pub proof fn law_start_command(s: MonitorView, args: Seq<Seq<char>>)
    requires
        s.wf(),
    ensures
        ({
            let (after, step) = model::perform(s, "START"@, args);
            let path = started_path(s.syntax, args);
            let root = PathView { syntax: s.syntax, bytes: encode_utf8(args[1]) };
            let moved = MonitorView { current_path: path, ..s };
            &&& args.len() == 0 ==> waiting_ended(s, after) && has_failed(
                step,
                ErrorView::MissingReplicaId(Command::Start),
            )
            &&& args.len() == 1 ==> waiting_ended(s, after) && has_failed(
                step,
                ErrorView::MissingRoot,
            )
            &&& args.len() > 1 ==> (step.next is Watch <==> !is_entered_for(s, args[0], path))
            &&& args.len() > 1 && !is_entered_for(s, args[0], path) ==> {
                &&& waiting_ended(moved, after)
                &&& step.lines.len() == 0
                &&& step.next == NextView::Watch {
                    path,
                    purpose: PurposeView::Start { id: args[0], root },
                }
            }
            &&& args.len() > 1 && is_entered_for(s, args[0], path) ==> {
                &&& is_answered(step, seq!["OK"@])
                &&& after.syntax == s.syntax
                &&& after.current_path == path
                &&& after.link_map == s.link_map
                &&& after.replicas.len() == s.replicas.len()
                &&& forall|i: int|
                    0 <= i < s.replicas.len() ==> #[trigger] after.replicas[i] == (if s.replicas[i].id
                        == args[0] {
                        entered(not_waited_on(s.replicas[i]), path)
                    } else {
                        not_waited_on(s.replicas[i])
                    })
            }
        }),
{
    lemma_names_differ();
    law_line_texts(Seq::empty(), s.current_path, Seq::empty());
    let cleared = model::clear_wait_state(s);
    assert(waiting_ended(s, cleared));
    assert(cleared.wf());
    if args.len() > 1 {
        let id = args[0];
        let path = started_path(s.syntax, args);
        let root = PathView { syntax: s.syntax, bytes: encode_utf8(args[1]) };
        let moved = MonitorView { current_path: path, ..cleared };
        assert(model::start_path(s.syntax, args) == path);
        assert(model::path_of(s.syntax, args[1]) == root);
        assert(moved.wf());
        law_add_path_by_entry(moved, id, root, path);
        if cleared.has_replica(id) {
            lemma_replica_index(cleared, id);
            let i = cleared.replica_index(id);
            assert(s.replicas[i].id == id);
            law_watching(cleared, i, path);
            assert(cleared.replicas[i].replica.paths == s.replicas[i].replica.paths);
            if cleared.replicas[i].replica.is_watching(path) {
                let k = choose|k: int|
                    0 <= k < cleared.replicas[i].replica.paths.len() && starts_with(
                        path,
                        #[trigger] cleared.replicas[i].replica.paths[k],
                    );
                assert(starts_with(path, s.replicas[i].replica.paths[k]));
            }
            if is_entered_for(s, id, path) {
                let (j, k) = choose|j: int, k: int|
                    0 <= j < s.replicas.len() && s.replicas[j].id == id && 0 <= k
                        < s.replicas[j].replica.paths.len() && starts_with(
                        path,
                        #[trigger] s.replicas[j].replica.paths[k],
                    );
                assert(cleared.replicas[j].id == id);
                assert(starts_with(path, cleared.replicas[i].replica.paths[k]));
            }
        } else if is_entered_for(s, id, path) {
            let (j, k) = choose|j: int, k: int|
                0 <= j < s.replicas.len() && s.replicas[j].id == id && 0 <= k
                    < s.replicas[j].replica.paths.len() && starts_with(
                    path,
                    #[trigger] s.replicas[j].replica.paths[k],
                );
            assert(cleared.replicas[j].id == id);
        }
    }
}

/// An entry with a path more, unless the path is among its paths.
pub open spec fn entered(e: EntryView, path: PathView) -> EntryView {
    let paths = e.replica.paths;
    let is_there = exists|k: int| 0 <= k < paths.len() && same_path(#[trigger] paths[k], path);
    EntryView {
        id: e.id,
        replica: ReplicaView {
            root: e.replica.root,
            paths: if is_there {
                paths
            } else {
                paths.push(path)
            },
            pending_changes: e.replica.pending_changes,
            waited_on: e.replica.waited_on,
        },
    }
}

/// A path that is entered for a known replica is put behind its paths; for
/// another one a replica is put behind the others, with this root and this path
/// alone. All else stays.
pub proof fn law_add_path_by_entry(s: MonitorView, id: Seq<char>, root: PathView, path: PathView)
    requires
        s.wf(),
    ensures
        ({
            let after = model::add_path(s, id, root, path);
            let known = exists|i: int|
                0 <= i < s.replicas.len() && (#[trigger] s.replicas[i]).id == id;
            &&& after.syntax == s.syntax
            &&& after.current_path == s.current_path
            &&& after.link_map == s.link_map
            &&& known ==> after.replicas.len() == s.replicas.len() && forall|i: int|
                0 <= i < s.replicas.len() ==> #[trigger] after.replicas[i] == (if s.replicas[i].id
                    == id {
                    entered(s.replicas[i], path)
                } else {
                    s.replicas[i]
                })
            &&& !known ==> after.replicas == s.replicas.push(
                EntryView {
                    id,
                    replica: ReplicaView {
                        root,
                        paths: seq![path],
                        pending_changes: Seq::empty(),
                        waited_on: false,
                    },
                },
            )
        }),
{
    let after = model::add_path(s, id, root, path);
    if s.has_replica(id) {
        lemma_replica_index(s, id);
        let k = s.replica_index(id);
        assert(after.replicas[k] == entered(s.replicas[k], path));
    }
}

/// What comes of watching a path. If it failed nothing changes. A path that was
/// watched for a replica is entered; one that was watched for a link is dealt
/// with in `law_link_map`. Either is acknowledged.
pub proof fn law_watched(s: MonitorView, path: PathView, purpose: PurposeView)
    ensures
        ({
            let (after, step) = model::watched(s, path, purpose, true);
            &&& model::watched(s, path, purpose, false).0 == s
            &&& has_failed(
                model::watched(s, path, purpose, false).1,
                ErrorView::NotWatched(path),
            )
            &&& is_answered(step, seq!["OK"@])
            &&& purpose matches PurposeView::Start { id, root } ==> after == model::add_path(
                s,
                id,
                root,
                path,
            )
            &&& purpose matches PurposeView::Link { link } ==> after == model::add_link(
                s,
                path,
                link,
            )
        }),
{
    law_line_texts(Seq::empty(), path, Seq::empty());
}

/// `LINK` asks for the real path behind its argument, seen from the current path,
/// or behind the current path where it has none. A `START` before it says what
/// the current path is.
pub proof fn law_link_command(
    s: MonitorView,
    args: Seq<Seq<char>>,
    id: Seq<char>,
    root: Seq<char>,
    dir: Seq<char>,
)
    requires
        s.wf(),
    ensures
        ({
            let (after, step) = model::perform(s, "LINK"@, args);
            let named = PathView { syntax: s.syntax, bytes: encode_utf8(args[0]) };
            &&& waiting_ended(s, after)
            &&& step.lines.len() == 0
            &&& args.len() > 0 ==> step.next == NextView::Resolve {
                path: join(s.current_path, named),
            }
            &&& args.len() == 0 ==> step.next == NextView::Resolve { path: s.current_path }
        }),
        ({
            let started = model::perform(s, "START"@, seq![id, root, dir]).0;
            let below = join(
                PathView { syntax: s.syntax, bytes: encode_utf8(root) },
                PathView { syntax: s.syntax, bytes: encode_utf8(dir) },
            );
            let named = PathView { syntax: s.syntax, bytes: encode_utf8(args[0]) };
            &&& args.len() > 0 ==> model::perform(started, "LINK"@, args).1.next
                == NextView::Resolve { path: join(below, named) }
            &&& args.len() == 0 ==> model::perform(started, "LINK"@, args).1.next
                == NextView::Resolve { path: below }
        }),
{
    lemma_names_differ();
    law_start_command(s, seq![id, root, dir]);
    let given = seq![id, root, dir];
    assert(given[1] == root && given[2] == dir);
    assert(waiting_ended(s, model::clear_wait_state(s)));
}

/// Once the real path behind a link is found it has to be watched for the link;
/// where none was found the event fails.
pub proof fn law_resolved(path: PathView, realpath: PathView)
    ensures
        model::resolved(path, Some(realpath)).lines.len() == 0,
        model::resolved(path, Some(realpath)).next == (NextView::Watch {
            path: realpath,
            purpose: PurposeView::Link { link: path },
        }),
        has_failed(model::resolved(path, None), ErrorView::Unresolved(path)),
{
}

/// `WAIT` has the replica waited on, beside those that are, and changes nothing
/// else. It is answered exactly if a change is pending. An unknown replica is
/// reported, and the process has to end.
pub proof fn law_wait_command(s: MonitorView, args: Seq<Seq<char>>, i: int)
    requires
        s.wf(),
    ensures
        ({
            let (after, step) = model::perform(s, "WAIT"@, args);
            &&& args.len() == 0 ==> after == s && has_failed(
                step,
                ErrorView::MissingReplicaId(Command::Wait),
            )
            &&& args.len() > 0 && (forall|k: int|
                0 <= k < s.replicas.len() ==> (#[trigger] s.replicas[k]).id != args[0]) ==> after
                == s && step.next == NextView::Exit && step.lines == seq![
                "ERROR "@ + encoded("Unknown replica: "@ + args[0]),
            ]
            &&& args.len() > 0 && 0 <= i < s.replicas.len() && s.replicas[i].id == args[0] ==> {
                let e = s.replicas[i];
                &&& after.syntax == s.syntax
                &&& after.current_path == s.current_path
                &&& after.link_map == s.link_map
                &&& after.replicas == s.replicas.update(
                    i,
                    EntryView {
                        id: e.id,
                        replica: ReplicaView {
                            root: e.replica.root,
                            paths: e.replica.paths,
                            pending_changes: e.replica.pending_changes,
                            waited_on: true,
                        },
                    },
                )
                &&& is_answered(
                    step,
                    if e.replica.pending_changes.len() > 0 {
                        seq!["CHANGES "@ + encoded(args[0])]
                    } else {
                        Seq::empty()
                    },
                )
            }
        }),
{
    lemma_names_differ();
    if args.len() > 0 {
        law_line_texts(args[0], s.current_path, "Unknown replica: "@ + args[0]);
        if s.has_replica(args[0]) {
            lemma_replica_index(s, args[0]);
        }
    }
}

/// `CHANGES` reports each pending change of the replica with one line, in turn,
/// and behind them the end. Nothing is pending for the replica then. For an
/// unknown replica there is the end alone.
pub proof fn law_changes_command(s: MonitorView, args: Seq<Seq<char>>, i: int)
    requires
        s.wf(),
    ensures
        ({
            let (after, step) = model::perform(s, "CHANGES"@, args);
            &&& args.len() == 0 ==> waiting_ended(s, after) && has_failed(
                step,
                ErrorView::MissingReplicaId(Command::Changes),
            )
            &&& args.len() > 0 && (forall|k: int|
                0 <= k < s.replicas.len() ==> (#[trigger] s.replicas[k]).id != args[0])
                ==> waiting_ended(s, after) && is_answered(step, seq!["DONE"@])
            &&& args.len() > 0 && 0 <= i < s.replicas.len() && s.replicas[i].id == args[0] ==> {
                let pending = s.replicas[i].replica.pending_changes;
                let e = s.replicas[i];
                &&& step.next == NextView::Done
                &&& step.lines.len() == pending.len() + 1
                &&& forall|k: int|
                    0 <= k < pending.len() ==> #[trigger] step.lines[k] == "RECURSIVE "@ + encoded(
                        text_of(pending[k].bytes),
                    )
                &&& step.lines[pending.len() as int] == "DONE"@
                &&& after.syntax == s.syntax
                &&& after.current_path == s.current_path
                &&& after.link_map == s.link_map
                &&& after.replicas.len() == s.replicas.len()
                &&& after.replicas[i] == (EntryView {
                    id: e.id,
                    replica: ReplicaView {
                        root: e.replica.root,
                        paths: e.replica.paths,
                        pending_changes: Seq::empty(),
                        waited_on: false,
                    },
                })
                &&& forall|k: int|
                    0 <= k < s.replicas.len() && k != i ==> #[trigger] after.replicas[k]
                        == not_waited_on(s.replicas[k])
            }
        }),
{
    lemma_names_differ();
    let cleared = model::clear_wait_state(s);
    assert(waiting_ended(s, cleared));
    assert(cleared.wf());
    law_line_texts(Seq::empty(), s.current_path, Seq::empty());
    if args.len() > 0 {
        if cleared.has_replica(args[0]) {
            lemma_replica_index(cleared, args[0]);
            let j = cleared.replica_index(args[0]);
            assert(s.replicas[j].id == args[0]);
            assert(cleared.replicas[j] == not_waited_on(s.replicas[j]));
            let pending = s.replicas[j].replica.pending_changes;
            let step = model::perform(s, "CHANGES"@, args).1;
            assert forall|k: int| 0 <= k < pending.len() implies #[trigger] step.lines[k]
                == "RECURSIVE "@ + encoded(text_of(pending[k].bytes)) by {
                law_line_texts(Seq::empty(), pending[k], Seq::empty());
            }
            if 0 <= i < s.replicas.len() && s.replicas[i].id == args[0] {
                assert(cleared.replicas[i].id == args[0]);
                assert(i == j);
            }
        } else if 0 <= i < s.replicas.len() && s.replicas[i].id == args[0] {
            assert(cleared.replicas[i].id == args[0]);
        }
    }
}

/// One of the other replicas has an entered path that is the path or contains
/// it.
pub open spec fn is_needed_beside(s: MonitorView, i: int, path: PathView) -> bool {
    exists|j: int, k: int|
        0 <= j < s.replicas.len() && j != i && 0 <= k < s.replicas[j].replica.paths.len()
            && starts_with(path, #[trigger] s.replicas[j].replica.paths[k])
}

/// `RESET` takes the replica out and leaves the others in their order. A path of
/// the replica must no longer be watched if and only if none of the paths that
/// are entered for another replica is the path or contains it. For an unknown
/// replica nothing happens.
pub proof fn law_reset_command(s: MonitorView, args: Seq<Seq<char>>, i: int)
    requires
        s.wf(),
    ensures
        ({
            let (after, step) = model::perform(s, "RESET"@, args);
            &&& args.len() == 0 ==> waiting_ended(s, after) && has_failed(
                step,
                ErrorView::MissingReplicaId(Command::Reset),
            )
            &&& args.len() > 0 && (forall|k: int|
                0 <= k < s.replicas.len() ==> (#[trigger] s.replicas[k]).id != args[0])
                ==> waiting_ended(s, after) && is_answered(step, Seq::empty())
            &&& args.len() > 0 && 0 <= i < s.replicas.len() && s.replicas[i].id == args[0] ==> {
                &&& after.syntax == s.syntax
                &&& after.current_path == s.current_path
                &&& after.link_map == s.link_map
                &&& after.replicas.len() == s.replicas.len() - 1
                &&& forall|k: int|
                    0 <= k < after.replicas.len() ==> #[trigger] after.replicas[k]
                        == not_waited_on(
                        s.replicas[if k < i {
                            k
                        } else {
                            k + 1
                        }],
                    )
                &&& step.lines.len() == 0
                &&& freed_by(step).no_duplicates()
                &&& forall|p: PathView| #[trigger]
                    freed_by(step).contains(p) <==> s.replicas[i].replica.paths.contains(p)
                        && !is_needed_beside(s, i, p)
                &&& freed_by(step).len() == 0 ==> step.next == NextView::Done
            }
        }),
{
    lemma_names_differ();
    let cleared = model::clear_wait_state(s);
    assert(waiting_ended(s, cleared));
    assert(cleared.wf());
    if args.len() > 0 {
        let id = args[0];
        if cleared.has_replica(id) {
            lemma_replica_index(cleared, id);
            let j = cleared.replica_index(id);
            assert(s.replicas[j].id == id);
            if 0 <= i < s.replicas.len() && s.replicas[i].id == id {
                assert(cleared.replicas[i].id == id);
                assert(i == j);
                lemma_reset_frees(s, id, i);
            }
        } else if 0 <= i < s.replicas.len() && s.replicas[i].id == id {
            assert(cleared.replicas[i].id == id);
        }
    }
}

/// The paths that a step says must no longer be watched, now or later.
pub open spec fn freed_by(step: StepView) -> Seq<PathView> {
    match step.next {
        NextView::Unwatch { path, rest } => seq![path] + rest,
        _ => Seq::empty(),
    }
}

proof fn lemma_reset_frees(s: MonitorView, id: Seq<char>, i: int)
    requires
        s.wf(),
        0 <= i < s.replicas.len(),
        s.replicas[i].id == id,
    ensures
        ({
            let (after, step) = model::reset(model::clear_wait_state(s), seq![id]);
            &&& freed_by(step).no_duplicates()
            &&& forall|p: PathView| #[trigger]
                freed_by(step).contains(p) <==> s.replicas[i].replica.paths.contains(p)
                    && !is_needed_beside(s, i, p)
            &&& freed_by(step).len() == 0 ==> step.next == NextView::Done
            &&& step.lines.len() == 0
            &&& after.replicas.len() == s.replicas.len() - 1
            &&& forall|k: int|
                0 <= k < after.replicas.len() ==> #[trigger] after.replicas[k] == not_waited_on(
                    s.replicas[if k < i {
                        k
                    } else {
                        k + 1
                    }],
                )
        }),
{
    let cleared = model::clear_wait_state(s);
    assert(waiting_ended(s, cleared));
    assert(cleared.wf());
    assert(cleared.replicas[i].id == id);
    assert(cleared.has_replica(id));
    lemma_replica_index(cleared, id);
    let (after, step) = model::reset(cleared, seq![id]);
    let paths = s.replicas[i].replica.paths;
    let needless = |p: PathView| !after.is_watching(p);
    let freed = paths.filter(needless);
    assert(model::unwatched_paths(after, paths) == freed);
    assert forall|k: int| 0 <= k < after.replicas.len() implies #[trigger] after.replicas[k]
        == not_waited_on(s.replicas[if k < i { k } else { k + 1 }]) by {}
    assert(freed_by(step) =~= freed);
    assert forall|p: PathView| after.is_watching(p) <==> #[trigger] is_needed_beside(s, i, p) by {
        lemma_needed_beside(s, after, i, p);
    }
    assert forall|p: PathView| #[trigger] freed.contains(p) <==> paths.contains(p)
        && !is_needed_beside(s, i, p) by {
        if freed.contains(p) {
            paths.lemma_filter_contains_rev(needless, p);
            paths.lemma_filter_pred(needless, freed.index_of(p));
            assert(after.is_watching(p) <==> is_needed_beside(s, i, p));
        }
        if paths.contains(p) && !is_needed_beside(s, i, p) {
            assert(after.is_watching(p) <==> is_needed_beside(s, i, p));
            paths.lemma_filter_contains(needless, paths.index_of(p));
        }
    }
    assert(paths.no_duplicates()) by {
        assert(s.replicas[i].replica.wf());
        assert forall|x: int, y: int|
            0 <= x < paths.len() && 0 <= y < paths.len() && x != y implies paths[x]
            != paths[y] by {
            if x < y {
                assert(!same_path(paths[x], paths[y]));
            } else {
                assert(!same_path(paths[y], paths[x]));
            }
        }
    }
    lemma_filter_no_duplicates(paths, needless);
}

proof fn lemma_needed_beside(s: MonitorView, after: MonitorView, i: int, p: PathView)
    requires
        0 <= i < s.replicas.len(),
        after.replicas.len() == s.replicas.len() - 1,
        forall|k: int|
            0 <= k < after.replicas.len() ==> #[trigger] after.replicas[k] == not_waited_on(
                s.replicas[if k < i {
                    k
                } else {
                    k + 1
                }],
            ),
    ensures
        after.is_watching(p) <==> is_needed_beside(s, i, p),
{
    if after.is_watching(p) {
        let j = choose|j: int|
            0 <= j < after.replicas.len() && (#[trigger] after.replicas[j]).replica.is_watching(p);
        law_watching(after, j, p);
        let k = choose|k: int|
            0 <= k < after.replicas[j].replica.paths.len() && starts_with(
                p,
                #[trigger] after.replicas[j].replica.paths[k],
            );
        let m = if j < i { j } else { j + 1 };
        assert(starts_with(p, s.replicas[m].replica.paths[k]));
    }
    if is_needed_beside(s, i, p) {
        let (j, k) = choose|j: int, k: int|
            0 <= j < s.replicas.len() && j != i && 0 <= k < s.replicas[j].replica.paths.len()
                && starts_with(p, #[trigger] s.replicas[j].replica.paths[k]);
        let m = if j < i { j } else { j - 1 };
        assert(after.replicas[m] == not_waited_on(s.replicas[j]));
        assert(starts_with(p, after.replicas[m].replica.paths[k]));
        law_watching(after, m, p);
    }
}

proof fn lemma_filter_no_duplicates<A>(s: Seq<A>, pred: spec_fn(A) -> bool)
    requires
        s.no_duplicates(),
    ensures
        s.filter(pred).no_duplicates(),
    decreases s.len(),
{
    if s.len() == 0 {
        reveal(Seq::filter);
    } else {
        let front = s.drop_last();
        let last = s.last();
        assert(front.push(last) =~= s);
        lemma_filter_no_duplicates(front, pred);
        front.lemma_filter_push(last, pred);
        let before = front.filter(pred);
        if before.contains(last) {
            front.lemma_filter_contains_rev(pred, last);
            let k = front.index_of(last);
            assert(s[k] == s[s.len() - 1]);
        }
    }
}

/// Paths that must no longer be watched are gone through in their order: behind
/// each the next one follows, behind the last one nothing, and behind a failure
/// nothing either.
pub proof fn law_unwatched(path: PathView, rest: Seq<PathView>)
    ensures
        model::unwatched(path, rest, true).lines.len() == 0,
        freed_by(model::unwatched(path, rest, true)) == rest,
        rest.len() == 0 ==> model::unwatched(path, rest, true).next == NextView::Done,
        has_failed(model::unwatched(path, rest, false), ErrorView::NotUnwatched(path)),
{
    if rest.len() > 0 {
        assert(seq![rest[0]] + rest.skip(1) =~= rest);
    } else {
        assert(rest =~= Seq::empty());
    }
}

// ---------------------------------------------------------------------------
// Links and changes
// ---------------------------------------------------------------------------

/// A link that is entered shows what lies below its real path below the link,
/// and changes nothing else: what other links show stays, and nothing is shown
/// that none of them shows.
pub proof fn law_link_map(
    s: MonitorView,
    realpath: PathView,
    link: PathView,
    path: PathView,
    q: PathView,
)
    requires
        s.wf(),
    ensures
        ({
            let after = model::add_link(s, realpath, link);
            &&& after.syntax == s.syntax
            &&& after.current_path == s.current_path
            &&& after.replicas == s.replicas
            &&& is_seen_as(s, path, q) ==> is_seen_as(after, path, q)
            &&& is_seen_as(after, path, q) ==> is_seen_as(s, path, q) || (starts_with(
                path,
                realpath,
            ) && q == join(link, strip_prefix(path, realpath)->0))
            &&& starts_with(path, realpath) ==> exists|l: PathView|
                same_path(l, link) && is_seen_as(
                    after,
                    path,
                    #[trigger] join(l, strip_prefix(path, realpath)->0),
                )
        }),
{
    let after = model::add_link(s, realpath, link);
    lemma_add_link_wf(s, realpath, link);
    lemma_link_entered(s, realpath, link);
    let e = after.links_index(realpath);
    let links = after.link_map[e].links;
    assert forall|i: int| 0 <= i < s.link_map.len() implies (
    #[trigger] after.link_map[i]).realpath == s.link_map[i].realpath
        && s.link_map[i].links.is_prefix_of(after.link_map[i].links) by {
        let old_links = s.link_map[i].links;
        assert(old_links.take(old_links.len() as int) =~= old_links);
        law_insert_path(old_links, link);
    }
    if is_seen_as(s, path, q) && q != path {
        let (i, j) = choose|i: int, j: int|
            0 <= i < s.link_map.len() && 0 <= j < s.link_map[i].links.len() && starts_with(
                path,
                s.link_map[i].realpath,
            ) && q == join(
                #[trigger] s.link_map[i].links[j],
                strip_prefix(path, s.link_map[i].realpath)->0,
            );
        assert(after.link_map[i].realpath == s.link_map[i].realpath);
        assert(after.link_map[i].links.take(s.link_map[i].links.len() as int)[j]
            == s.link_map[i].links[j]);
        assert(after.link_map[i].links[j] == s.link_map[i].links[j]);
    }
    if is_seen_as(after, path, q) && q != path {
        let (i, j) = choose|i: int, j: int|
            0 <= i < after.link_map.len() && 0 <= j < after.link_map[i].links.len() && starts_with(
                path,
                after.link_map[i].realpath,
            ) && q == join(
                #[trigger] after.link_map[i].links[j],
                strip_prefix(path, after.link_map[i].realpath)->0,
            );
        if i < s.link_map.len() && j < s.link_map[i].links.len() {
            assert(after.link_map[i].links.take(s.link_map[i].links.len() as int)[j]
                == s.link_map[i].links[j]);
            assert(q == join(
                s.link_map[i].links[j],
                strip_prefix(path, s.link_map[i].realpath)->0,
            ));
        } else {
            assert(after.link_map[i].links[j] == link);
            assert(same_path(after.link_map[i].realpath, realpath));
        }
    }
    if starts_with(path, realpath) {
        let j = choose|j: int| 0 <= j < links.len() && same_path(#[trigger] links[j], link);
        assert(same_path(after.link_map[e].realpath, realpath));
        assert(starts_with(path, after.link_map[e].realpath));
        assert(is_seen_as(
            after,
            path,
            join(after.link_map[e].links[j], strip_prefix(path, after.link_map[e].realpath)->0),
        ));
        assert(strip_prefix(path, after.link_map[e].realpath) == strip_prefix(path, realpath));
        assert(same_path(links[j], link) && is_seen_as(
            after,
            path,
            join(links[j], strip_prefix(path, realpath)->0),
        ));
    }
}

/// A link that is entered is among those of its real path.
proof fn lemma_link_entered(s: MonitorView, realpath: PathView, link: PathView)
    requires
        s.wf(),
    ensures
        ({
            let after = model::add_link(s, realpath, link);
            let e = after.links_index(realpath);
            &&& 0 <= e < after.link_map.len()
            &&& same_path(after.link_map[e].realpath, realpath)
            &&& contains_path(after.link_map[e].links, link)
        }),
{
    law_link_is_followed(s, link, realpath);
}

/// A change concerns a root if and only if one of the changed paths is, or is
/// seen through a link as, the root or a path below it.
pub proof fn law_concerns(s: MonitorView, paths: Seq<PathView>, root: PathView)
    ensures
        model::concerns(s, paths, root) <==> exists|q: PathView| #[trigger]
            is_one_seen_as(s, paths, q) && starts_with(q, root),
{
    let all = model::event_paths(s, paths);
    law_event_paths(s, paths);
    if model::concerns(s, paths, root) {
        let k = choose|k: int| 0 <= k < all.len() && starts_with(#[trigger] all[k], root);
        assert(all.contains(all[k]));
        assert(is_one_seen_as(s, paths, all[k]) && starts_with(all[k], root));
    }
    if exists|q: PathView| #[trigger] is_one_seen_as(s, paths, q) && starts_with(q, root) {
        let q = choose|q: PathView| #[trigger]
            is_one_seen_as(s, paths, q) && starts_with(q, root);
        assert(all.contains(q));
        assert(starts_with(all[all.index_of(q)], root));
    }
}

/// What was inserted is one of the given paths, as it is written.
proof fn lemma_inserted(paths: Seq<PathView>, more: Seq<PathView>, k: int)
    requires
        paths.len() <= k < insert_paths(paths, more).len(),
    ensures
        more.contains(insert_paths(paths, more)[k]),
    decreases more.len(),
{
    if more.len() > 0 {
        let front = more.drop_last();
        let before = insert_paths(paths, front);
        if k < before.len() {
            lemma_inserted(paths, front, k);
            let m = front.index_of(before[k]);
            assert(more[m] == before[k]);
            assert(insert_paths(paths, more)[k] == before[k]);
        } else {
            assert(more[more.len() - 1] == more.last());
        }
    }
}

/// A relative path is what is left of one of the paths, as it is written.
proof fn lemma_relative_is_stripped(root: PathView, paths: Seq<PathView>, r: PathView)
    requires
        model::relative_paths(root, paths).contains(r),
    ensures
        exists|k: int|
            0 <= k < paths.len() && starts_with(#[trigger] paths[k], root) && r == strip_prefix(
                paths[k],
                root,
            )->0,
    decreases paths.len(),
{
    let below = |path: PathView| strip_prefix(path, root);
    if paths.len() == 0 {
        assert(paths =~= Seq::empty());
        assert(model::relative_paths(root, paths) =~= Seq::empty());
    } else {
        let n = paths.len() - 1;
        let front = paths.take(n as int);
        paths.lemma_filter_map_take_succ(below, n as int);
        assert(paths.take(n + 1) =~= paths);
        let before = model::relative_paths(root, front);
        if before.contains(r) {
            lemma_relative_is_stripped(root, front, r);
            let k = choose|k: int|
                0 <= k < front.len() && starts_with(#[trigger] front[k], root) && r
                    == strip_prefix(front[k], root)->0;
            assert(paths[k] == front[k]);
        } else {
            let all = model::relative_paths(root, paths);
            let m = all.index_of(r);
            if m < before.len() {
                assert(before[m] == r);
            }
            assert(starts_with(paths[n as int], root));
        }
    }
}

/// A path that is seen because of a change and is, or lies below, the root.
pub open spec fn is_change_below(
    s: MonitorView,
    paths: Seq<PathView>,
    root: PathView,
    q: PathView,
) -> bool {
    is_one_seen_as(s, paths, q) && starts_with(q, root)
}

/// Where such a path lies as seen from the root, as it is written.
pub open spec fn is_left_of_change(
    s: MonitorView,
    paths: Seq<PathView>,
    root: PathView,
    r: PathView,
) -> bool {
    exists|q: PathView| #[trigger]
        is_change_below(s, paths, root, q) && r == strip_prefix(q, root)->0
}

/// The path is among the paths, perhaps written in another way.
pub open spec fn is_among(paths: Seq<PathView>, path: PathView) -> bool {
    exists|k: int| 0 <= k < paths.len() && same_path(#[trigger] paths[k], path)
}

/// The line tells of changes of one of the replicas.
pub open spec fn is_told_of(s: MonitorView, text: Seq<char>) -> bool {
    exists|j: int|
        0 <= j < s.replicas.len() && text == "CHANGES "@ + encoded((#[trigger] s.replicas[j]).id)
}

/// What a change does to a replica: behind what was pending stands, once each
/// and as it is written, where the changed paths lie as seen from the root, be
/// it directly or through a link. Nothing else becomes pending, and nothing else
/// changes.
pub proof fn law_change(s: MonitorView, paths: Seq<PathView>, i: int)
    requires
        s.wf(),
        0 <= i < s.replicas.len(),
    ensures
        ({
            let after = model::fs_event(s, paths).0;
            let root = s.replicas[i].replica.root;
            let had = s.replicas[i].replica.pending_changes;
            let has = after.replicas[i].replica.pending_changes;
            &&& after.syntax == s.syntax
            &&& after.current_path == s.current_path
            &&& after.link_map == s.link_map
            &&& after.replicas.len() == s.replicas.len()
            &&& after.replicas[i].id == s.replicas[i].id
            &&& after.replicas[i].replica.root == root
            &&& after.replicas[i].replica.paths == s.replicas[i].replica.paths
            &&& after.replicas[i].replica.waited_on == s.replicas[i].replica.waited_on
            &&& had.len() <= has.len()
            &&& forall|k: int| 0 <= k < had.len() ==> has[k] == #[trigger] had[k]
            &&& forall|k: int|
                had.len() <= k < has.len() ==> is_left_of_change(
                    s,
                    paths,
                    root,
                    #[trigger] has[k],
                )
            &&& forall|q: PathView| #[trigger]
                is_change_below(s, paths, root, q) ==> is_among(has, strip_prefix(q, root)->0)
            &&& forall|j: int, k: int|
                0 <= j < k < has.len() ==> !same_path(#[trigger] has[j], #[trigger] has[k])
        }),
{
    let after = model::fs_event(s, paths).0;
    let root = s.replicas[i].replica.root;
    let had = s.replicas[i].replica.pending_changes;
    let has = after.replicas[i].replica.pending_changes;
    let all = model::event_paths(s, paths);
    let more = model::relative_paths(root, all);
    law_insert_paths(had, more);
    law_event_paths(s, paths);
    law_fs_event_wf(s, paths);
    assert(after.replicas[i].replica.wf());
    assert forall|k: int| 0 <= k < had.len() implies has[k] == #[trigger] had[k] by {
        assert(has.take(had.len() as int)[k] == had[k]);
    }
    assert forall|k: int| had.len() <= k < has.len() implies is_left_of_change(
        s,
        paths,
        root,
        #[trigger] has[k],
    ) by {
        lemma_inserted(had, more, k);
        lemma_relative_is_stripped(root, all, has[k]);
        let m = choose|m: int|
            0 <= m < all.len() && starts_with(#[trigger] all[m], root) && has[k] == strip_prefix(
                all[m],
                root,
            )->0;
        assert(all.contains(all[m]));
        assert(is_change_below(s, paths, root, all[m]));
    }
    assert forall|q: PathView| #[trigger] is_change_below(s, paths, root, q) implies is_among(
        has,
        strip_prefix(q, root)->0,
    ) by {
        assert(all.contains(q));
        law_change_is_pending(s, paths, i, q);
        assert(contains_path(has, strip_prefix(q, root)->0));
    }
}

/// Who is told of a change: each replica that is waited on and that the change
/// concerns, once and with one line, and nobody else.
pub proof fn law_change_is_told(s: MonitorView, paths: Seq<PathView>, i: int)
    requires
        s.wf(),
    ensures
        ({
            let step = model::fs_event(s, paths).1;
            &&& step.next == NextView::Done
            &&& step.lines.no_duplicates()
            &&& 0 <= i < s.replicas.len() ==> (step.lines.contains(
                "CHANGES "@ + encoded(s.replicas[i].id),
            ) <==> s.replicas[i].replica.waited_on && exists|q: PathView| #[trigger]
                is_change_below(s, paths, s.replicas[i].replica.root, q))
            &&& forall|k: int|
                0 <= k < step.lines.len() ==> is_told_of(s, #[trigger] step.lines[k])
        }),
{
    let step = model::fs_event(s, paths).1;
    law_announcements(s, paths);
    if 0 <= i < s.replicas.len() {
        let id = s.replicas[i].id;
        let root = s.replicas[i].replica.root;
        law_replica(s, id, i);
        law_line_texts(id, root, Seq::empty());
        law_concerns(s, paths, root);
        assert(step.lines.contains(model::changes_line(id)) <==> s.replicas[i].replica.waited_on
            && model::concerns(s, paths, root));
        if model::concerns(s, paths, root) {
            let q = choose|q: PathView| #[trigger]
                is_one_seen_as(s, paths, q) && starts_with(q, root);
            assert(is_change_below(s, paths, root, q));
        }
        if exists|q: PathView| #[trigger] is_change_below(s, paths, root, q) {
            let q = choose|q: PathView| #[trigger] is_change_below(s, paths, root, q);
            assert(is_one_seen_as(s, paths, q) && starts_with(q, root));
        }
    }
    assert forall|k: int| 0 <= k < step.lines.len() implies is_told_of(
        s,
        #[trigger] step.lines[k],
    ) by {
        assert(is_announcement(s, step.lines[k]));
        let id = choose|id: Seq<char>|
            s.has_replica(id) && step.lines[k] == #[trigger] model::changes_line(id);
        lemma_replica_index(s, id);
        law_line_texts(id, s.current_path, Seq::empty());
        assert(s.replicas[s.replica_index(id)].id == id);
    }
}

} // verus!
