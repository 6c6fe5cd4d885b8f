//! What the monitor does, as functions from its state and what comes in to its
//! next state and what goes out.
use crate::path::{join, same_path, starts_with, strip_prefix, PathView, Syntax};
use crate::path_set::{distinct_paths, insert_path, insert_paths};
use crate::protocol::{line, parsed, text_of};
use vstd::prelude::*;
use vstd::utf8::*;

verus! {

// ---------------------------------------------------------------------------
// State
// ---------------------------------------------------------------------------

/// What is known of one replica.
#[verifier::ext_equal]
pub struct ReplicaView {
    /// The directory that changes are reported relative to.
    pub root: PathView,
    /// The paths that are watched for the replica.
    pub paths: Seq<PathView>,
    /// The changes that were seen and not yet reported, relative to the root.
    pub pending_changes: Seq<PathView>,
    /// Whether the other side waits for a change.
    pub waited_on: bool,
}

/// A replica and its id.
#[verifier::ext_equal]
pub struct EntryView {
    pub id: Seq<char>,
    pub replica: ReplicaView,
}

/// The symbolic links that lead to a real path.
#[verifier::ext_equal]
pub struct LinksView {
    pub realpath: PathView,
    pub links: Seq<PathView>,
}

/// The state of the monitor.
#[verifier::ext_equal]
pub struct MonitorView {
    /// The syntax that the other side writes paths in.
    pub syntax: Syntax,
    /// The path of the last `START`.
    pub current_path: PathView,
    /// The replicas, in the order in which they were started.
    pub replicas: Seq<EntryView>,
    /// The links that are followed, in the order in which their real paths came up.
    pub link_map: Seq<LinksView>,
}

impl ReplicaView {
    /// No path stands twice in a set.
    pub open spec fn wf(self) -> bool {
        distinct_paths(self.paths) && distinct_paths(self.pending_changes)
    }

    /// Whether a path is one of the watched ones or lies below one.
    pub open spec fn is_watching(self, path: PathView) -> bool {
        exists|i: int| 0 <= i < self.paths.len() && starts_with(path, #[trigger] self.paths[i])
    }
}

impl MonitorView {
    /// Every replica has an id of its own, every real path is entered once, and
    /// no path stands twice in a set.
    pub open spec fn wf(self) -> bool {
        &&& forall|i: int, j: int|
            0 <= i < j < self.replicas.len() ==> (#[trigger] self.replicas[i]).id != (
            #[trigger] self.replicas[j]).id
        &&& forall|i: int|
            0 <= i < self.replicas.len() ==> (#[trigger] self.replicas[i]).replica.wf()
        &&& forall|i: int, j: int|
            0 <= i < j < self.link_map.len() ==> !same_path(
                (#[trigger] self.link_map[i]).realpath,
                (#[trigger] self.link_map[j]).realpath,
            )
        &&& forall|i: int|
            0 <= i < self.link_map.len() ==> distinct_paths((#[trigger] self.link_map[i]).links)
    }

    /// A replica with this id is known.
    pub open spec fn has_replica(self, id: Seq<char>) -> bool {
        exists|i: int| 0 <= i < self.replicas.len() && (#[trigger] self.replicas[i]).id == id
    }

    /// The place of the replica with this id.
    pub open spec fn replica_index(self, id: Seq<char>) -> int {
        choose|i: int| 0 <= i < self.replicas.len() && (#[trigger] self.replicas[i]).id == id
    }

    /// The replica with this id.
    pub open spec fn replica(self, id: Seq<char>) -> Option<ReplicaView> {
        if self.has_replica(id) {
            Some(self.replicas[self.replica_index(id)].replica)
        } else {
            None
        }
    }

    /// The state with another value for the replica with this id.
    pub open spec fn with_replica(self, id: Seq<char>, replica: ReplicaView) -> MonitorView {
        MonitorView {
            replicas: self.replicas.update(self.replica_index(id), EntryView { id, replica }),
            ..self
        }
    }

    /// Links are known for this real path.
    pub open spec fn has_links(self, realpath: PathView) -> bool {
        exists|i: int|
            0 <= i < self.link_map.len() && same_path(
                (#[trigger] self.link_map[i]).realpath,
                realpath,
            )
    }

    /// The place of the links of this real path.
    pub open spec fn links_index(self, realpath: PathView) -> int {
        choose|i: int|
            0 <= i < self.link_map.len() && same_path(
                (#[trigger] self.link_map[i]).realpath,
                realpath,
            )
    }

    /// Whether any replica watches the path.
    pub open spec fn is_watching(self, path: PathView) -> bool {
        exists|i: int|
            0 <= i < self.replicas.len() && (#[trigger] self.replicas[i]).replica.is_watching(path)
    }
}

/// The state at the beginning.
pub open spec fn initial_state(syntax: Syntax) -> MonitorView {
    MonitorView {
        syntax,
        current_path: PathView { syntax, bytes: Seq::empty() },
        replicas: Seq::empty(),
        link_map: Seq::empty(),
    }
}

/// The path that is written with the UTF-8 form of a text.
pub open spec fn path_of(syntax: Syntax, text: Seq<char>) -> PathView {
    PathView { syntax, bytes: encode_utf8(text) }
}

/// A replica at its beginning.
pub open spec fn new_replica(root: PathView) -> ReplicaView {
    ReplicaView { root, paths: Seq::empty(), pending_changes: Seq::empty(), waited_on: false }
}

// ---------------------------------------------------------------------------
// Steps
// ---------------------------------------------------------------------------

/// The commands that need a replica id.
#[derive(Clone, Copy, Debug, PartialEq, Eq, Structural)]
pub enum Command {
    Start,
    Wait,
    Changes,
    Reset,
}

/// Why an event could not be handled.
pub enum ErrorView {
    MissingVersion,
    UnexpectedVersion(Seq<char>),
    MissingReplicaId(Command),
    MissingRoot,
    Unresolved(PathView),
    NotWatched(PathView),
    NotUnwatched(PathView),
}

/// An error in words.
pub open spec fn error_summary(error: ErrorView) -> Seq<char> {
    match error {
        ErrorView::MissingVersion => "Missing protocol version"@,
        ErrorView::UnexpectedVersion(_) => "Unexpected version"@,
        ErrorView::MissingReplicaId(Command::Start) => "Missing replica id for START"@,
        ErrorView::MissingReplicaId(Command::Wait) => "Missing replica id for WAIT"@,
        ErrorView::MissingReplicaId(Command::Changes) => "Missing replica id for CHANGES"@,
        ErrorView::MissingReplicaId(Command::Reset) => "Missing replica id for RESET"@,
        ErrorView::MissingRoot => "Missing root path for START"@,
        ErrorView::Unresolved(_) => "Unable to canonicalize path"@,
        ErrorView::NotWatched(_) => "Unable to watch path"@,
        ErrorView::NotUnwatched(_) => "Unable to unwatch path"@,
    }
}

/// What is to be done once a path is watched.
pub enum PurposeView {
    /// Enter the path for the replica, which is made if it is not there.
    Start { id: Seq<char>, root: PathView },
    /// Enter the link for the path.
    Link { link: PathView },
}

/// What has to happen next.
pub enum NextView {
    /// Nothing: the event is handled.
    Done,
    /// Nothing: the event could not be handled.
    Failed(ErrorView),
    /// The process has to end with status 1.
    Exit,
    /// The path has to be watched.
    Watch { path: PathView, purpose: PurposeView },
    /// The real path behind the path has to be found.
    Resolve { path: PathView },
    /// The path must no longer be watched, and after it the others.
    Unwatch { path: PathView, rest: Seq<PathView> },
}

/// What goes out: first the lines, then what has to happen.
#[verifier::ext_equal]
pub struct StepView {
    pub lines: Seq<Seq<char>>,
    pub next: NextView,
}

/// The event is handled, and these lines are the answer.
pub open spec fn answer(lines: Seq<Seq<char>>) -> StepView {
    StepView { lines, next: NextView::Done }
}

/// The event could not be handled.
pub open spec fn failure(error: ErrorView) -> StepView {
    StepView { lines: Seq::empty(), next: NextView::Failed(error) }
}

/// Something has to happen before there is an answer.
pub open spec fn request(next: NextView) -> StepView {
    StepView { lines: Seq::empty(), next }
}

/// The error is reported, and the process ends.
pub open spec fn fatal(message: Seq<char>) -> StepView {
    StepView { lines: seq![line("ERROR"@, seq![message])], next: NextView::Exit }
}

pub open spec fn version_line() -> Seq<char> {
    line("VERSION"@, seq!["1"@])
}

pub open spec fn ack_line() -> Seq<char> {
    line("OK"@, Seq::empty())
}

pub open spec fn changes_line(id: Seq<char>) -> Seq<char> {
    line("CHANGES"@, seq![id])
}

pub open spec fn recursive_line(path: PathView) -> Seq<char> {
    line("RECURSIVE"@, seq![text_of(path.bytes)])
}

pub open spec fn done_line() -> Seq<char> {
    line("DONE"@, Seq::empty())
}

// ---------------------------------------------------------------------------
// Commands
// ---------------------------------------------------------------------------

/// Nobody waits any more.
pub open spec fn clear_wait_state(s: MonitorView) -> MonitorView {
    MonitorView {
        replicas: s.replicas.map_values(
            |e: EntryView|
                EntryView { replica: ReplicaView { waited_on: false, ..e.replica }, ..e },
        ),
        ..s
    }
}

/// `VERSION`: version 1 is the one that is spoken.
pub open spec fn version(args: Seq<Seq<char>>) -> StepView {
    if args.len() == 0 {
        failure(ErrorView::MissingVersion)
    } else if args[0] != "1"@ {
        failure(ErrorView::UnexpectedVersion(args[0]))
    } else {
        answer(seq![version_line()])
    }
}

/// The state with `path` entered for the replica `id`, which gets `root` if it
/// is new.
pub open spec fn add_path(
    s: MonitorView,
    id: Seq<char>,
    root: PathView,
    path: PathView,
) -> MonitorView {
    match s.replica(id) {
        Some(replica) => s.with_replica(
            id,
            ReplicaView { paths: insert_path(replica.paths, path), ..replica },
        ),
        None => MonitorView {
            replicas: s.replicas.push(
                EntryView { id, replica: ReplicaView { paths: seq![path], ..new_replica(root) } },
            ),
            ..s
        },
    }
}

/// The path that a `START` with these arguments is about.
pub open spec fn start_path(syntax: Syntax, args: Seq<Seq<char>>) -> PathView {
    if args.len() > 2 {
        join(path_of(syntax, args[1]), path_of(syntax, args[2]))
    } else {
        path_of(syntax, args[1])
    }
}

/// `START`: the path is the root, or what the third argument names below it. It
/// becomes the current path. Unless the replica watches it already, it has to
/// be watched before it is entered.
pub open spec fn start(s: MonitorView, args: Seq<Seq<char>>) -> (MonitorView, StepView) {
    if args.len() == 0 {
        (s, failure(ErrorView::MissingReplicaId(Command::Start)))
    } else if args.len() == 1 {
        (s, failure(ErrorView::MissingRoot))
    } else {
        let id = args[0];
        let root = path_of(s.syntax, args[1]);
        let path = start_path(s.syntax, args);
        let moved = MonitorView { current_path: path, ..s };
        if s.replica(id) matches Some(replica) && replica.is_watching(path) {
            (add_path(moved, id, root, path), answer(seq![ack_line()]))
        } else {
            (
                moved,
                request(NextView::Watch { path, purpose: PurposeView::Start { id, root } }),
            )
        }
    }
}

/// `LINK`: the link is the current path, or what the argument names below it.
/// The path that it leads to has to be found.
pub open spec fn link(s: MonitorView, args: Seq<Seq<char>>) -> StepView {
    let path = if args.len() > 0 {
        join(s.current_path, path_of(s.syntax, args[0]))
    } else {
        s.current_path
    };
    request(NextView::Resolve { path })
}

/// `WAIT`: the replica is waited on, and pending changes are announced at once.
pub open spec fn wait(s: MonitorView, args: Seq<Seq<char>>) -> (MonitorView, StepView) {
    if args.len() == 0 {
        (s, failure(ErrorView::MissingReplicaId(Command::Wait)))
    } else {
        let id = args[0];
        match s.replica(id) {
            Some(replica) => (
                s.with_replica(id, ReplicaView { waited_on: true, ..replica }),
                answer(
                    if replica.pending_changes.len() > 0 {
                        seq![changes_line(id)]
                    } else {
                        Seq::empty()
                    },
                ),
            ),
            None => (s, fatal("Unknown replica: "@ + id)),
        }
    }
}

/// `CHANGES`: the pending changes of the replica are reported and forgotten.
pub open spec fn changes(s: MonitorView, args: Seq<Seq<char>>) -> (MonitorView, StepView) {
    if args.len() == 0 {
        (s, failure(ErrorView::MissingReplicaId(Command::Changes)))
    } else {
        let id = args[0];
        match s.replica(id) {
            Some(replica) => (
                s.with_replica(id, ReplicaView { pending_changes: Seq::empty(), ..replica }),
                answer(
                    replica.pending_changes.map_values(|p: PathView| recursive_line(p)).push(
                        done_line(),
                    ),
                ),
            ),
            None => (s, answer(seq![done_line()])),
        }
    }
}

/// What follows when the paths must no longer be watched.
pub open spec fn unwatch_all(paths: Seq<PathView>) -> StepView {
    if paths.len() == 0 {
        answer(Seq::empty())
    } else {
        request(NextView::Unwatch { path: paths[0], rest: paths.skip(1) })
    }
}

/// The state without the replica `id`.
pub open spec fn remove_replica(s: MonitorView, id: Seq<char>) -> MonitorView {
    MonitorView { replicas: s.replicas.remove(s.replica_index(id)), ..s }
}

/// The paths, out of these, that no replica watches.
pub open spec fn unwatched_paths(s: MonitorView, paths: Seq<PathView>) -> Seq<PathView> {
    paths.filter(|p: PathView| !s.is_watching(p))
}

/// `RESET`: the replica is forgotten, and its paths that no other replica
/// watches must no longer be watched.
pub open spec fn reset(s: MonitorView, args: Seq<Seq<char>>) -> (MonitorView, StepView) {
    if args.len() == 0 {
        (s, failure(ErrorView::MissingReplicaId(Command::Reset)))
    } else {
        let id = args[0];
        match s.replica(id) {
            Some(replica) => {
                let after = remove_replica(s, id);
                (after, unwatch_all(unwatched_paths(after, replica.paths)))
            },
            None => (s, answer(Seq::empty())),
        }
    }
}

/// One command with its arguments. Every command but `WAIT` ends the waiting.
pub open spec fn perform(
    s: MonitorView,
    command: Seq<char>,
    args: Seq<Seq<char>>,
) -> (MonitorView, StepView) {
    let s = if command == "WAIT"@ {
        s
    } else {
        clear_wait_state(s)
    };
    if command == "VERSION"@ {
        (s, version(args))
    } else if command == "START"@ {
        start(s, args)
    } else if command == "DIR"@ {
        (s, answer(seq![ack_line()]))
    } else if command == "LINK"@ {
        (s, link(s, args))
    } else if command == "WAIT"@ {
        wait(s, args)
    } else if command == "CHANGES"@ {
        changes(s, args)
    } else if command == "RESET"@ {
        reset(s, args)
    } else if command == "DEBUG"@ || command == "DONE"@ {
        (s, answer(Seq::empty()))
    } else {
        (s, fatal("Unrecognized cmd: "@ + command))
    }
}

/// One line of input.
pub open spec fn input(s: MonitorView, text: Seq<char>) -> (MonitorView, StepView) {
    perform(s, parsed(text).0, parsed(text).1)
}

// ---------------------------------------------------------------------------
// Changes in the file system
// ---------------------------------------------------------------------------

/// The path as it is seen through links, if it is or lies below the path that
/// they lead to.
pub open spec fn aliases(entry: LinksView, path: PathView) -> Seq<PathView> {
    match strip_prefix(path, entry.realpath) {
        Some(rest) => entry.links.map_values(|link: PathView| join(link, rest)),
        None => Seq::empty(),
    }
}

/// The changed paths, and behind them these paths as they are seen through
/// links.
pub open spec fn event_paths(s: MonitorView, paths: Seq<PathView>) -> Seq<PathView> {
    paths + paths.flat_map(
        |path: PathView| s.link_map.flat_map(|entry: LinksView| aliases(entry, path)),
    )
}

/// A change of one of these paths concerns what is or lies below `root`.
pub open spec fn concerns(s: MonitorView, paths: Seq<PathView>, root: PathView) -> bool {
    exists|k: int|
        0 <= k < event_paths(s, paths).len() && starts_with(
            #[trigger] event_paths(s, paths)[k],
            root,
        )
}

/// The paths that are or lie below `root`, as seen from there.
pub open spec fn relative_paths(root: PathView, paths: Seq<PathView>) -> Seq<PathView> {
    paths.filter_map(|path: PathView| strip_prefix(path, root))
}

/// A replica after the paths have changed.
pub open spec fn record(entry: EntryView, paths: Seq<PathView>) -> EntryView {
    EntryView {
        replica: ReplicaView {
            pending_changes: insert_paths(
                entry.replica.pending_changes,
                relative_paths(entry.replica.root, paths),
            ),
            ..entry.replica
        },
        ..entry
    }
}

/// Whether a change of the paths has to be announced for a replica.
pub open spec fn is_announced(entry: EntryView, paths: Seq<PathView>) -> bool {
    entry.replica.waited_on && relative_paths(entry.replica.root, paths).len() > 0
}

/// Paths have changed. Each replica that they belong to takes them down, and
/// those that are waited on are announced.
pub open spec fn fs_event(s: MonitorView, paths: Seq<PathView>) -> (MonitorView, StepView) {
    let all = event_paths(s, paths);
    (
        MonitorView { replicas: s.replicas.map_values(|e: EntryView| record(e, all)), ..s },
        answer(
            s.replicas.filter(|e: EntryView| is_announced(e, all)).map_values(
                |e: EntryView| changes_line(e.id),
            ),
        ),
    )
}

// ---------------------------------------------------------------------------
// What comes back
// ---------------------------------------------------------------------------

/// The state with `link` entered for the path that it leads to.
pub open spec fn add_link(s: MonitorView, realpath: PathView, link: PathView) -> MonitorView {
    MonitorView {
        link_map: if s.has_links(realpath) {
            let i = s.links_index(realpath);
            s.link_map.update(
                i,
                LinksView { links: insert_path(s.link_map[i].links, link), ..s.link_map[i] },
            )
        } else {
            s.link_map.push(LinksView { realpath, links: seq![link] })
        },
        ..s
    }
}

/// The path was to be watched; `ok` says whether it is.
pub open spec fn watched(
    s: MonitorView,
    path: PathView,
    purpose: PurposeView,
    ok: bool,
) -> (MonitorView, StepView) {
    if !ok {
        (s, failure(ErrorView::NotWatched(path)))
    } else {
        (
            match purpose {
                PurposeView::Start { id, root } => add_path(s, id, root, path),
                PurposeView::Link { link } => add_link(s, path, link),
            },
            answer(seq![ack_line()]),
        )
    }
}

/// The real path behind a link was to be found.
pub open spec fn resolved(path: PathView, realpath: Option<PathView>) -> StepView {
    match realpath {
        Some(realpath) => request(
            NextView::Watch { path: realpath, purpose: PurposeView::Link { link: path } },
        ),
        None => failure(ErrorView::Unresolved(path)),
    }
}

/// The path was no longer to be watched; `ok` says whether that is so. The
/// first failure ends the matter.
pub open spec fn unwatched(path: PathView, rest: Seq<PathView>, ok: bool) -> StepView {
    if ok {
        unwatch_all(rest)
    } else {
        failure(ErrorView::NotUnwatched(path))
    }
}

} // verus!
