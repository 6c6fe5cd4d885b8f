//! The monitor: it takes the commands of the synchroniser and the changes of
//! the file system, and says which lines to write and what has to be done.
//!
//! It does no input or output itself. A [`Step`] holds the lines to write and,
//! in [`Next`], what the caller has to do behind them. A task that has been
//! done goes back to the monitor with what came of it, which gives the next
//! step.
use crate::model;
use crate::model::{
    Command, EntryView, ErrorView, LinksView, MonitorView, NextView, PurposeView, ReplicaView,
    StepView,
};
use crate::path::{join, same_path, starts_with, FilePath, PathView, Syntax};
use crate::path_set::{path_views, PathSet};
use crate::protocol::{format_line, line, parse_input, texts};
use crate::replica::Replica;
use crate::validity::{
    law_fs_event_wf, lemma_add_link_wf, lemma_add_path_wf, lemma_remove_replica_wf,
    lemma_with_replica_wf,
};
use vstd::prelude::*;
use vstd::string::*;

verus! {

// ---------------------------------------------------------------------------
// What comes in
// ---------------------------------------------------------------------------

/// Paths that have changed.
#[derive(Debug, PartialEq)]
pub struct FsEvent {
    pub paths: Vec<FilePath>,
}

/// What the monitor has to handle.
#[derive(Debug)]
pub enum MonitorEvent {
    /// A line that the synchroniser wrote.
    Input(String),
    /// A change in the file system.
    FsEvent(FsEvent),
}

impl MonitorEvent {
    /// A name for the kind of event.
    pub fn kind(&self) -> (r: &'static str)
        ensures
            r@ == (match self {
                MonitorEvent::Input(_) => "input"@,
                MonitorEvent::FsEvent(_) => "fs_event"@,
            }),
    {
        match self {
            MonitorEvent::Input(_) => "input",
            MonitorEvent::FsEvent(_) => "fs_event",
        }
    }
}

/// What an event does to the monitor.
pub open spec fn event_step(s: MonitorView, event: MonitorEvent) -> (MonitorView, StepView) {
    match event {
        MonitorEvent::Input(text) => model::input(s, text@),
        MonitorEvent::FsEvent(event) => model::fs_event(s, path_views(event.paths@)),
    }
}

// ---------------------------------------------------------------------------
// What goes out
// ---------------------------------------------------------------------------

/// Why an event could not be handled.
#[derive(Debug)]
pub enum MonitorError {
    /// `VERSION` without a version.
    MissingVersion,
    /// `VERSION` with another version than 1.
    UnexpectedVersion(String),
    /// A command without the id of a replica.
    MissingReplicaId(Command),
    /// `START` without a root directory.
    MissingRoot,
    /// No real path was found behind this one.
    Unresolved(FilePath),
    /// The path could not be watched.
    NotWatched(FilePath),
    /// Watching the path could not be ended.
    NotUnwatched(FilePath),
}

impl View for MonitorError {
    type V = ErrorView;

    open spec fn view(&self) -> ErrorView {
        match self {
            MonitorError::MissingVersion => ErrorView::MissingVersion,
            MonitorError::UnexpectedVersion(version) => ErrorView::UnexpectedVersion(version@),
            MonitorError::MissingReplicaId(command) => ErrorView::MissingReplicaId(*command),
            MonitorError::MissingRoot => ErrorView::MissingRoot,
            MonitorError::Unresolved(path) => ErrorView::Unresolved(path@),
            MonitorError::NotWatched(path) => ErrorView::NotWatched(path@),
            MonitorError::NotUnwatched(path) => ErrorView::NotUnwatched(path@),
        }
    }
}

impl MonitorError {
    /// The error in words, without what it is about.
    pub fn summary(&self) -> (r: &'static str)
        ensures
            r@ == model::error_summary(self@),
    {
        match self {
            MonitorError::MissingVersion => "Missing protocol version",
            MonitorError::UnexpectedVersion(_) => "Unexpected version",
            MonitorError::MissingReplicaId(Command::Start) => "Missing replica id for START",
            MonitorError::MissingReplicaId(Command::Wait) => "Missing replica id for WAIT",
            MonitorError::MissingReplicaId(Command::Changes) => "Missing replica id for CHANGES",
            MonitorError::MissingReplicaId(Command::Reset) => "Missing replica id for RESET",
            MonitorError::MissingRoot => "Missing root path for START",
            MonitorError::Unresolved(_) => "Unable to canonicalize path",
            MonitorError::NotWatched(_) => "Unable to watch path",
            MonitorError::NotUnwatched(_) => "Unable to unwatch path",
        }
    }
}

/// Why a path has to be watched.
#[derive(Debug)]
enum Purpose {
    Start { id: String, root: FilePath },
    Link { link: FilePath },
}

impl View for Purpose {
    type V = PurposeView;

    closed spec fn view(&self) -> PurposeView {
        match self {
            Purpose::Start { id, root } => PurposeView::Start { id: id@, root: root@ },
            Purpose::Link { link } => PurposeView::Link { link: link@ },
        }
    }
}

/// A path that has to be watched.
#[derive(Debug)]
pub struct WatchTask {
    path: FilePath,
    purpose: Purpose,
}

/// A path of which the real path has to be found.
#[derive(Debug)]
pub struct ResolveTask {
    path: FilePath,
}

/// A path that must no longer be watched.
#[derive(Debug)]
pub struct UnwatchTask {
    path: FilePath,
    rest: Vec<FilePath>,
}

impl WatchTask {
    /// The path and what it is watched for.
    pub closed spec fn view(&self) -> (PathView, PurposeView) {
        (self.path@, self.purpose@)
    }

    /// The path to watch, with all that lies below it.
    pub fn path(&self) -> (r: &FilePath)
        ensures
            r@ == self@.0,
    {
        &self.path
    }
}

impl ResolveTask {
    /// The path.
    pub closed spec fn view(&self) -> PathView {
        self.path@
    }

    /// The path to resolve.
    pub fn path(&self) -> (r: &FilePath)
        ensures
            r@ == self@,
    {
        &self.path
    }
}

impl UnwatchTask {
    /// The path and those that come after it.
    pub closed spec fn view(&self) -> (PathView, Seq<PathView>) {
        (self.path@, path_views(self.rest@))
    }

    /// The path that must no longer be watched.
    pub fn path(&self) -> (r: &FilePath)
        ensures
            r@ == self@.0,
    {
        &self.path
    }
}

/// What the caller has to do.
#[derive(Debug)]
pub enum Next {
    /// Nothing: the event is handled.
    Done,
    /// Nothing: the event could not be handled.
    Failed(MonitorError),
    /// End the process with status 1.
    Exit,
    /// Watch a path, and hand the outcome to [`Monitor::watched`].
    Watch(WatchTask),
    /// Find a real path, and hand it to [`Monitor::resolved`].
    Resolve(ResolveTask),
    /// End the watching of a path, and hand the outcome to [`Monitor::unwatched`].
    Unwatch(UnwatchTask),
}

impl View for Next {
    type V = NextView;

    open spec fn view(&self) -> NextView {
        match self {
            Next::Done => NextView::Done,
            Next::Failed(error) => NextView::Failed(error@),
            Next::Exit => NextView::Exit,
            Next::Watch(task) => NextView::Watch { path: task@.0, purpose: task@.1 },
            Next::Resolve(task) => NextView::Resolve { path: task@ },
            Next::Unwatch(task) => NextView::Unwatch { path: task@.0, rest: task@.1 },
        }
    }
}

/// Lines to write, each to be ended by a newline, and what to do behind them.
#[derive(Debug)]
pub struct Step {
    pub lines: Vec<String>,
    pub next: Next,
}

impl View for Step {
    type V = StepView;

    open spec fn view(&self) -> StepView {
        StepView { lines: texts(self.lines@), next: self.next@ }
    }
}

/// A step without lines.
fn silent(next: Next) -> (r: Step)
    ensures
        r@ == (StepView { lines: Seq::empty(), next: next@ }),
{
    let r = Step { lines: Vec::new(), next };
    assert(texts(r.lines@) =~= Seq::<Seq<char>>::empty());
    r
}

/// A step with one line.
fn say(line: String, next: Next) -> (r: Step)
    ensures
        r@ == (StepView { lines: seq![line@], next: next@ }),
{
    let mut lines: Vec<String> = Vec::new();
    lines.push(line);
    assert(texts(lines@) =~= seq![line@]);
    Step { lines, next }
}

/// A line with a command alone.
fn command_line(command: &str) -> (r: String)
    ensures
        r@ == line(command@, Seq::empty()),
{
    let args: Vec<String> = Vec::new();
    assert(texts(args@) =~= Seq::<Seq<char>>::empty());
    format_line(command, &args)
}

/// A line with a command and one argument.
fn command_line_with(command: &str, arg: String) -> (r: String)
    ensures
        r@ == line(command@, seq![arg@]),
{
    let mut args: Vec<String> = Vec::new();
    args.push(arg);
    assert(texts(args@) =~= seq![arg@]);
    format_line(command, &args)
}

/// The acknowledgement.
fn send_ack() -> (r: Step)
    ensures
        r@ == model::answer(seq![model::ack_line()]),
{
    say(command_line("OK"), Next::Done)
}

/// The announcement of changes.
fn send_changes(id: &String) -> (r: String)
    ensures
        r@ == model::changes_line(id@),
{
    command_line_with("CHANGES", id.clone())
}

/// The report of one change.
fn send_recursive(path: &FilePath) -> (r: String)
    ensures
        r@ == model::recursive_line(path@),
{
    command_line_with("RECURSIVE", path.to_text())
}

/// The end of the changes.
fn send_done() -> (r: String)
    ensures
        r@ == model::done_line(),
{
    command_line("DONE")
}

/// The report of an error, behind which the process ends.
fn send_error(what: &str, about: &str) -> (r: Step)
    ensures
        r@ == model::fatal(what@ + about@),
{
    let mut message = what.to_owned();
    message.append(about);
    say(command_line_with("ERROR", message), Next::Exit)
}

/// Whether two texts are the same.
fn is_text(text: &String, expected: &str) -> (r: bool)
    ensures
        r == (text@ == expected@),
{
    text.eq(&expected.to_owned())
}

// ---------------------------------------------------------------------------
// The monitor
// ---------------------------------------------------------------------------

/// A replica and its id.
#[derive(Debug)]
struct Entry {
    id: String,
    replica: Replica,
}

impl View for Entry {
    type V = EntryView;

    closed spec fn view(&self) -> EntryView {
        EntryView { id: self.id@, replica: self.replica@ }
    }
}

/// The links that lead to a real path.
#[derive(Debug)]
struct LinkEntry {
    realpath: FilePath,
    links: PathSet,
}

impl View for LinkEntry {
    type V = LinksView;

    closed spec fn view(&self) -> LinksView {
        LinksView { realpath: self.realpath@, links: self.links@ }
    }
}

/// The monitor.
#[derive(Debug)]
pub struct Monitor {
    syntax: Syntax,
    current_path: FilePath,
    replicas: Vec<Entry>,
    link_map: Vec<LinkEntry>,
}

impl View for Monitor {
    type V = MonitorView;

    closed spec fn view(&self) -> MonitorView {
        MonitorView {
            syntax: self.syntax,
            current_path: self.current_path@,
            replicas: self.replicas@.map_values(|e: Entry| e@),
            link_map: self.link_map@.map_values(|e: LinkEntry| e@),
        }
    }
}

impl Monitor {
    /// A monitor that knows no replica, and takes paths in the given syntax.
    pub fn new(syntax: Syntax) -> (r: Self)
        ensures
            r@ == model::initial_state(syntax),
            r@.wf(),
    {
        let r = Self {
            syntax,
            current_path: FilePath::new(syntax, Vec::new()),
            replicas: Vec::new(),
            link_map: Vec::new(),
        };
        assert(r@ =~= model::initial_state(syntax));
        r
    }

    /// The number of replicas.
    pub fn replica_count(&self) -> (r: usize)
        ensures
            r == self@.replicas.len(),
    {
        self.replicas.len()
    }

    /// The place of the replica with an id.
    fn find_replica(&self, id: &String) -> (r: Option<usize>)
        requires
            self@.wf(),
        ensures
            r is Some <==> self@.has_replica(id@),
            r matches Some(i) ==> i < self.replicas@.len() && i == self@.replica_index(id@)
                && self@.replicas[i as int].id == id@,
    {
        let mut i: usize = 0;
        while i < self.replicas.len()
            invariant
                self@.wf(),
                i <= self.replicas@.len(),
                forall|j: int| 0 <= j < i ==> (#[trigger] self@.replicas[j]).id != id@,
            decreases self.replicas.len() - i,
        {
            assert(self@.replicas[i as int] == self.replicas@[i as int]@);
            if self.replicas[i].id.eq(id) {
                assert(self@.has_replica(id@));
                return Some(i);
            }
            i = i + 1;
        }
        None
    }

    /// The replica with an id.
    pub fn replica(&self, id: &str) -> (r: Option<&Replica>)
        requires
            self@.wf(),
        ensures
            r is Some <==> self@.replica(id@) is Some,
            r matches Some(replica) ==> replica@ == self@.replica(id@)->0,
    {
        match self.find_replica(&id.to_owned()) {
            Some(i) => Some(&self.replicas[i].replica),
            None => None,
        }
    }

    /// Whether any replica watches `path`.
    fn is_watching(&self, path: &FilePath) -> (r: bool)
        ensures
            r == self@.is_watching(path@),
    {
        let mut i: usize = 0;
        while i < self.replicas.len()
            invariant
                i <= self.replicas@.len(),
                forall|j: int|
                    0 <= j < i ==> !(#[trigger] self@.replicas[j]).replica.is_watching(path@),
            decreases self.replicas.len() - i,
        {
            assert(self@.replicas[i as int] == self.replicas@[i as int]@);
            if self.replicas[i].replica.is_watching(path) {
                return true;
            }
            i = i + 1;
        }
        false
    }

    /// Ends the waiting on every replica.
    fn clear_wait_state(&mut self)
        requires
            old(self)@.wf(),
        ensures
            final(self)@ == model::clear_wait_state(old(self)@),
            final(self)@.wf(),
    {
        let mut i: usize = 0;
        let ghost cleared = model::clear_wait_state(self@).replicas;
        let len: usize = self.replicas.len();
        while i < len
            invariant
                cleared == model::clear_wait_state(old(self)@).replicas,
                len == self.replicas@.len() == old(self).replicas@.len() == cleared.len(),
                i <= len,
                self.syntax == old(self).syntax,
                self.current_path == old(self).current_path,
                self.link_map == old(self).link_map,
                forall|j: int| 0 <= j < i ==> (#[trigger] self.replicas@[j])@ == cleared[j],
                forall|j: int|
                    i <= j < len ==> #[trigger] self.replicas@[j] == old(self).replicas@[j],
            decreases len - i,
        {
            self.replicas[i].replica.set_waited_on(false);
            i = i + 1;
        }
        assert(self@ =~= model::clear_wait_state(old(self)@));
    }

    /// Agrees on the version of the protocol.
    fn handle_version(args: &Vec<String>) -> (step: Step)
        ensures
            step@ == model::version(texts(args@)),
    {
        if args.len() == 0 {
            return silent(Next::Failed(MonitorError::MissingVersion));
        }
        if !is_text(&args[0], "1") {
            return silent(Next::Failed(MonitorError::UnexpectedVersion(args[0].clone())));
        }
        say(command_line_with("VERSION", "1".to_owned()), Next::Done)
    }

    /// Enters a path for a replica, which is made if it is not there.
    fn add_path(&mut self, id: String, root: FilePath, path: FilePath)
        requires
            old(self)@.wf(),
        ensures
            final(self)@ == model::add_path(old(self)@, id@, root@, path@),
            final(self)@.wf(),
    {
        proof {
            lemma_add_path_wf(self@, id@, root@, path@);
        }
        match self.find_replica(&id) {
            Some(i) => {
                assert(self@.replicas[i as int] == self.replicas@[i as int]@);
                self.replicas[i].replica.add_path(path);
            },
            None => {
                let mut replica = Replica::new(root);
                replica.add_path(path);
                assert(replica@.paths =~= seq![path@]);
                self.replicas.push(Entry { id, replica });
            },
        }
        assert(self@ =~= model::add_path(old(self)@, id@, root@, path@));
    }

    /// Starts to watch a path for a replica.
    fn handle_start(&mut self, args: &Vec<String>) -> (step: Step)
        requires
            old(self)@.wf(),
        ensures
            (final(self)@, step@) == model::start(old(self)@, texts(args@)),
            final(self)@.wf(),
    {
        if args.len() == 0 {
            return silent(Next::Failed(MonitorError::MissingReplicaId(Command::Start)));
        }
        let id = args[0].clone();
        if args.len() == 1 {
            return silent(Next::Failed(MonitorError::MissingRoot));
        }
        let root = FilePath::from_text(self.syntax, args[1].as_str());
        let path = if args.len() > 2 {
            root.join(&FilePath::from_text(self.syntax, args[2].as_str()))
        } else {
            root.clone()
        };
        self.current_path = path.clone();
        assert(self@ =~= (MonitorView { current_path: path@, ..old(self)@ }));
        let should_watch = match self.find_replica(&id) {
            Some(i) => {
                assert(self@.replicas[i as int] == self.replicas@[i as int]@);
                !self.replicas[i].replica.is_watching(&path)
            },
            None => true,
        };
        assert(self@.replica(id@) == old(self)@.replica(id@));
        if should_watch {
            silent(Next::Watch(WatchTask { path, purpose: Purpose::Start { id, root } }))
        } else {
            self.add_path(id, root, path);
            send_ack()
        }
    }

    /// Starts to follow a link.
    fn handle_link(&self, args: &Vec<String>) -> (step: Step)
        ensures
            step@ == model::link(self@, texts(args@)),
    {
        let path = if args.len() > 0 {
            self.current_path.join(&FilePath::from_text(self.syntax, args[0].as_str()))
        } else {
            self.current_path.clone()
        };
        silent(Next::Resolve(ResolveTask { path }))
    }

    /// Waits for changes of a replica.
    fn handle_wait(&mut self, args: &Vec<String>) -> (step: Step)
        requires
            old(self)@.wf(),
        ensures
            (final(self)@, step@) == model::wait(old(self)@, texts(args@)),
            final(self)@.wf(),
    {
        if args.len() == 0 {
            return silent(Next::Failed(MonitorError::MissingReplicaId(Command::Wait)));
        }
        let id = &args[0];
        match self.find_replica(id) {
            Some(i) => {
                assert(self@.replicas[i as int] == self.replicas@[i as int]@);
                self.replicas[i].replica.set_waited_on(true);
                proof {
                    let replica = old(self)@.replica(id@)->0;
                    let after = ReplicaView { waited_on: true, ..replica };
                    lemma_with_replica_wf(old(self)@, id@, after);
                    assert(self@ =~= old(self)@.with_replica(id@, after));
                }
                if self.replicas[i].replica.pending_changes().len() > 0 {
                    say(send_changes(id), Next::Done)
                } else {
                    silent(Next::Done)
                }
            },
            None => send_error("Unknown replica: ", id.as_str()),
        }
    }

    /// Reports the changes of a replica.
    fn handle_changes(&mut self, args: &Vec<String>) -> (step: Step)
        requires
            old(self)@.wf(),
        ensures
            (final(self)@, step@) == model::changes(old(self)@, texts(args@)),
            final(self)@.wf(),
    {
        if args.len() == 0 {
            return silent(Next::Failed(MonitorError::MissingReplicaId(Command::Changes)));
        }
        let id = &args[0];
        match self.find_replica(id) {
            Some(i) => {
                assert(self@.replicas[i as int] == self.replicas@[i as int]@);
                let changed_paths = self.replicas[i].replica.take_changes();
                proof {
                    let replica = old(self)@.replica(id@)->0;
                    let after = ReplicaView { pending_changes: Seq::empty(), ..replica };
                    lemma_with_replica_wf(old(self)@, id@, after);
                    assert(self@ =~= old(self)@.with_replica(id@, after));
                }
                let mut lines: Vec<String> = Vec::new();
                let ghost reports = changed_paths@.map_values(
                    |p: PathView| model::recursive_line(p),
                );
                let mut j: usize = 0;
                assert(texts(lines@) =~= reports.take(0));
                while j < changed_paths.len()
                    invariant
                        reports == changed_paths@.map_values(
                            |p: PathView| model::recursive_line(p),
                        ),
                        j <= changed_paths@.len(),
                        texts(lines@) == reports.take(j as int),
                    decreases changed_paths@.len() - j,
                {
                    let ghost before = texts(lines@);
                    let report = send_recursive(changed_paths.get(j));
                    lines.push(report);
                    assert(texts(lines@) =~= before.push(report@));
                    assert(reports.take(j + 1) =~= reports.take(j as int).push(reports[j as int]));
                    j = j + 1;
                }
                assert(reports.take(j as int) =~= reports);
                let done = send_done();
                lines.push(done);
                assert(texts(lines@) =~= reports.push(done@));
                Step { lines, next: Next::Done }
            },
            None => say(send_done(), Next::Done),
        }
    }

    /// Says what follows when paths must no longer be watched.
    fn unwatch_all(paths: Vec<FilePath>) -> (step: Step)
        ensures
            step@ == model::unwatch_all(path_views(paths@)),
    {
        let mut rest = paths;
        if rest.len() == 0 {
            return silent(Next::Done);
        }
        let path = rest.remove(0);
        assert(path_views(rest@) =~= path_views(paths@).skip(1));
        silent(Next::Unwatch(UnwatchTask { path, rest }))
    }

    /// Forgets a replica.
    fn handle_reset(&mut self, args: &Vec<String>) -> (step: Step)
        requires
            old(self)@.wf(),
        ensures
            (final(self)@, step@) == model::reset(old(self)@, texts(args@)),
            final(self)@.wf(),
    {
        if args.len() == 0 {
            return silent(Next::Failed(MonitorError::MissingReplicaId(Command::Reset)));
        }
        let id = &args[0];
        match self.find_replica(id) {
            Some(i) => {
                assert(self@.replicas[i as int] == self.replicas@[i as int]@);
                let entry = self.replicas.remove(i);
                proof {
                    lemma_remove_replica_wf(old(self)@, id@);
                    assert(self@ =~= model::remove_replica(old(self)@, id@));
                }
                let paths = entry.replica.into_paths();
                let ghost needless = |p: PathView| !self@.is_watching(p);
                let mut freed: Vec<FilePath> = Vec::new();
                let mut j: usize = 0;
                assert(paths@.take(0) =~= Seq::<PathView>::empty());
                assert(path_views(freed@) =~= paths@.take(0).filter(needless));
                while j < paths.len()
                    invariant
                        needless == (|p: PathView| !self@.is_watching(p)),
                        j <= paths@.len(),
                        path_views(freed@) == paths@.take(j as int).filter(needless),
                    decreases paths@.len() - j,
                {
                    let path = paths.get(j);
                    let ghost before = path_views(freed@);
                    assert(paths@.take(j + 1) =~= paths@.take(j as int).push(path@));
                    proof {
                        paths@.take(j as int).lemma_filter_push(path@, needless);
                    }
                    if !self.is_watching(path) {
                        let copy = path.clone();
                        freed.push(copy);
                        assert(path_views(freed@) =~= before.push(path@));
                    }
                    j = j + 1;
                }
                assert(paths@.take(j as int) =~= paths@);
                Self::unwatch_all(freed)
            },
            None => silent(Next::Done),
        }
    }

    /// Handles one command with its arguments.
    pub fn handle_command(&mut self, command: &String, args: &Vec<String>) -> (step: Step)
        requires
            old(self)@.wf(),
        ensures
            (final(self)@, step@) == model::perform(old(self)@, command@, texts(args@)),
            final(self)@.wf(),
    {
        if !is_text(command, "WAIT") {
            self.clear_wait_state();
        }
        if is_text(command, "VERSION") {
            Self::handle_version(args)
        } else if is_text(command, "START") {
            self.handle_start(args)
        } else if is_text(command, "DIR") {
            send_ack()
        } else if is_text(command, "LINK") {
            self.handle_link(args)
        } else if is_text(command, "WAIT") {
            self.handle_wait(args)
        } else if is_text(command, "CHANGES") {
            self.handle_changes(args)
        } else if is_text(command, "RESET") {
            self.handle_reset(args)
        } else if is_text(command, "DEBUG") || is_text(command, "DONE") {
            silent(Next::Done)
        } else {
            send_error("Unrecognized cmd: ", command.as_str())
        }
    }

    /// Handles one line of input.
    fn handle_input(&mut self, text: &str) -> (step: Step)
        requires
            old(self)@.wf(),
        ensures
            (final(self)@, step@) == model::input(old(self)@, text@),
            final(self)@.wf(),
    {
        let (command, args) = parse_input(text);
        self.handle_command(&command, &args)
    }

    /// A path as it is seen through the links that lead to it or above it.
    fn aliases_of(&self, path: &FilePath) -> (r: Vec<FilePath>)
        ensures
            path_views(r@) == self@.link_map.flat_map(
                |entry: LinksView| model::aliases(entry, path@),
            ),
    {
        let mut out: Vec<FilePath> = Vec::new();
        let ghost seen = |entry: LinksView| model::aliases(entry, path@);
        let ghost map = self@.link_map;
        let mut i: usize = 0;
        assert(map.take(0).flat_map(seen) =~= Seq::<PathView>::empty());
        assert(path_views(out@) =~= Seq::<PathView>::empty());
        while i < self.link_map.len()
            invariant
                seen == (|entry: LinksView| model::aliases(entry, path@)),
                map == self@.link_map,
                i <= self.link_map@.len(),
                path_views(out@) == map.take(i as int).flat_map(seen),
            decreases self.link_map.len() - i,
        {
            let entry = &self.link_map[i];
            assert(map[i as int] == entry@);
            proof {
                map.lemma_flat_map_take_append(seen, i as int);
            }
            let ghost before = path_views(out@);
            match path.strip_prefix(&entry.realpath) {
                Some(rest) => {
                    let ghost joined = entry.links@.map_values(|link: PathView| join(link, rest@));
                    let mut j: usize = 0;
                    assert(path_views(out@) =~= before + joined.take(0));
                    while j < entry.links.len()
                        invariant
                            joined == entry.links@.map_values(|link: PathView| join(link, rest@)),
                            j <= entry.links@.len(),
                            path_views(out@) == before + joined.take(j as int),
                        decreases entry.links@.len() - j,
                    {
                        let ghost so_far = path_views(out@);
                        let alias = entry.links.get(j).join(&rest);
                        out.push(alias);
                        assert(path_views(out@) =~= so_far.push(alias@));
                        assert(joined.take(j + 1) =~= joined.take(j as int).push(
                            joined[j as int],
                        ));
                        assert(path_views(out@) =~= before + joined.take(j + 1));
                        j = j + 1;
                    }
                    assert(joined.take(j as int) =~= joined);
                },
                None => {
                    assert(path_views(out@) =~= before + model::aliases(entry@, path@));
                },
            }
            i = i + 1;
        }
        assert(map.take(i as int) =~= map);
        out
    }

    /// The changed paths, and behind them these paths as they are seen through
    /// links.
    fn paths_for_event(&self, event: &FsEvent) -> (r: Vec<FilePath>)
        ensures
            path_views(r@) == model::event_paths(self@, path_views(event.paths@)),
    {
        let mut paths: Vec<FilePath> = Vec::new();
        let ghost changed = path_views(event.paths@);
        let ghost through = |path: PathView|
            self@.link_map.flat_map(|entry: LinksView| model::aliases(entry, path));
        let mut i: usize = 0;
        assert(path_views(paths@) =~= changed.take(0));
        while i < event.paths.len()
            invariant
                changed == path_views(event.paths@),
                i <= event.paths@.len(),
                path_views(paths@) == changed.take(i as int),
            decreases event.paths.len() - i,
        {
            let ghost before = path_views(paths@);
            let copy = event.paths[i].clone();
            paths.push(copy);
            assert(path_views(paths@) =~= before.push(copy@));
            assert(changed.take(i + 1) =~= changed.take(i as int).push(changed[i as int]));
            i = i + 1;
        }
        assert(changed.take(i as int) =~= changed);
        let mut i: usize = 0;
        assert(changed.take(0).flat_map(through) =~= Seq::<PathView>::empty());
        assert(path_views(paths@) =~= changed + changed.take(0).flat_map(through));
        while i < event.paths.len()
            invariant
                changed == path_views(event.paths@),
                through == (|path: PathView|
                    self@.link_map.flat_map(|entry: LinksView| model::aliases(entry, path))),
                i <= event.paths@.len(),
                path_views(paths@) == changed + changed.take(i as int).flat_map(through),
            decreases event.paths.len() - i,
        {
            let ghost before = path_views(paths@);
            let mut aliases = self.aliases_of(&event.paths[i]);
            proof {
                changed.lemma_flat_map_take_append(through, i as int);
            }
            let ghost added = path_views(aliases@);
            assert(added == through(changed[i as int]));
            paths.append(&mut aliases);
            assert(path_views(paths@) =~= before + added);
            assert(path_views(paths@) =~= changed + changed.take(i + 1).flat_map(through));
            i = i + 1;
        }
        assert(changed.take(i as int) =~= changed);
        paths
    }

    /// Whether a change in the file system concerns any replica.
    pub fn is_concerned(&self, event: &FsEvent) -> (r: bool)
        ensures
            r == exists|i: int|
                0 <= i < self@.replicas.len() && model::concerns(
                    self@,
                    path_views(event.paths@),
                    (#[trigger] self@.replicas[i]).replica.root,
                ),
    {
        let paths = self.paths_for_event(event);
        let ghost changed = path_views(event.paths@);
        let ghost all = model::event_paths(self@, changed);
        let mut i: usize = 0;
        while i < self.replicas.len()
            invariant
                changed == path_views(event.paths@),
                all == model::event_paths(self@, changed),
                path_views(paths@) == all,
                i <= self.replicas@.len(),
                forall|j: int|
                    0 <= j < i ==> !model::concerns(
                        self@,
                        changed,
                        (#[trigger] self@.replicas[j]).replica.root,
                    ),
            decreases self.replicas.len() - i,
        {
            let root = self.replicas[i].replica.root();
            assert(self@.replicas[i as int].replica.root == root@);
            let mut k: usize = 0;
            while k < paths.len()
                invariant
                    changed == path_views(event.paths@),
                    all == model::event_paths(self@, changed),
                    path_views(paths@) == all,
                    i < self.replicas@.len(),
                    self@.replicas[i as int].replica.root == root@,
                    k <= paths@.len(),
                    forall|m: int| 0 <= m < k ==> !starts_with(#[trigger] all[m], root@),
                decreases paths.len() - k,
            {
                assert(all[k as int] == paths@[k as int]@);
                if paths[k].starts_with(root) {
                    assert(model::concerns(
                        self@,
                        changed,
                        self@.replicas[i as int].replica.root,
                    ));
                    return true;
                }
                k = k + 1;
            }
            assert(all.len() == paths@.len());
            i = i + 1;
        }
        false
    }

    /// Takes down a change in the file system.
    fn handle_fs_event(&mut self, event: &FsEvent) -> (step: Step)
        requires
            old(self)@.wf(),
        ensures
            (final(self)@, step@) == model::fs_event(old(self)@, path_views(event.paths@)),
            final(self)@.wf(),
    {
        let paths = self.paths_for_event(event);
        let ghost all = path_views(paths@);
        let ghost entries = self@.replicas;
        let ghost announced = |e: EntryView| model::is_announced(e, all);
        let ghost announce = |e: EntryView| model::changes_line(e.id);
        proof {
            law_fs_event_wf(self@, path_views(event.paths@));
        }
        let mut lines: Vec<String> = Vec::new();
        let len: usize = self.replicas.len();
        let mut i: usize = 0;
        assert(entries.take(0) =~= Seq::<EntryView>::empty());
        assert(texts(lines@) =~= entries.take(0).filter(announced).map_values(announce));
        while i < len
            invariant
                all == path_views(paths@),
                entries == old(self)@.replicas,
                announced == (|e: EntryView| model::is_announced(e, all)),
                announce == (|e: EntryView| model::changes_line(e.id)),
                len == self.replicas@.len() == old(self).replicas@.len(),
                i <= len,
                self.syntax == old(self).syntax,
                self.current_path == old(self).current_path,
                self.link_map == old(self).link_map,
                forall|j: int|
                    0 <= j < i ==> (#[trigger] self.replicas@[j])@ == model::record(
                        entries[j],
                        all,
                    ),
                forall|j: int|
                    i <= j < len ==> #[trigger] self.replicas@[j] == old(self).replicas@[j],
                texts(lines@) == entries.take(i as int).filter(announced).map_values(announce),
            decreases len - i,
        {
            let ghost entry = entries[i as int];
            let ghost before = texts(lines@);
            assert(self.replicas@[i as int]@ == entry);
            proof {
                entries.take(i as int).lemma_filter_push(entry, announced);
                assert(entries.take(i + 1) =~= entries.take(i as int).push(entry));
            }
            let matched = self.replicas[i].replica.record(&paths);
            if matched && self.replicas[i].replica.waited_on() {
                let text = send_changes(&self.replicas[i].id);
                lines.push(text);
                assert(texts(lines@) =~= before.push(text@));
                assert(entries.take(i + 1).filter(announced).map_values(announce)
                    =~= before.push(model::changes_line(entry.id)));
            }
            i = i + 1;
        }
        assert(entries.take(i as int) =~= entries);
        assert(self@ =~= model::fs_event(old(self)@, path_views(event.paths@)).0);
        Step { lines, next: Next::Done }
    }

    /// Handles an event.
    pub fn handle_event_ref(&mut self, event: &MonitorEvent) -> (step: Step)
        requires
            old(self)@.wf(),
        ensures
            (final(self)@, step@) == event_step(old(self)@, *event),
            final(self)@.wf(),
    {
        match event {
            MonitorEvent::Input(text) => self.handle_input(text.as_str()),
            MonitorEvent::FsEvent(event) => self.handle_fs_event(event),
        }
    }

    /// Handles an event.
    pub fn handle_event(&mut self, event: MonitorEvent) -> (step: Step)
        requires
            old(self)@.wf(),
        ensures
            (final(self)@, step@) == event_step(old(self)@, event),
            final(self)@.wf(),
    {
        self.handle_event_ref(&event)
    }

    /// Enters a link for the path that it leads to.
    fn add_link(&mut self, realpath: FilePath, link: FilePath)
        requires
            old(self)@.wf(),
        ensures
            final(self)@ == model::add_link(old(self)@, realpath@, link@),
            final(self)@.wf(),
    {
        proof {
            lemma_add_link_wf(self@, realpath@, link@);
        }
        let mut i: usize = 0;
        while i < self.link_map.len()
            invariant
                self@ == old(self)@,
                self@.wf(),
                i <= self.link_map@.len(),
                forall|j: int|
                    0 <= j < i ==> !same_path(
                        (#[trigger] self@.link_map[j]).realpath,
                        realpath@,
                    ),
                model::add_link(old(self)@, realpath@, link@).wf(),
            decreases self.link_map.len() - i,
        {
            assert(self@.link_map[i as int] == self.link_map@[i as int]@);
            if self.link_map[i].realpath.same_path(&realpath) {
                proof {
                    assert(self@.has_links(realpath@));
                    let k = self@.links_index(realpath@);
                    assert(same_path(self@.link_map[k].realpath, realpath@));
                    assert(k == i);
                }
                self.link_map[i].links.insert(link);
                assert(self@ =~= model::add_link(old(self)@, realpath@, link@));
                return ;
            }
            i = i + 1;
        }
        let mut links = PathSet::new();
        links.insert(link);
        assert(links@ =~= seq![link@]);
        assert(!self@.has_links(realpath@));
        self.link_map.push(LinkEntry { realpath, links });
        assert(self@ =~= model::add_link(old(self)@, realpath@, link@));
    }

    /// Goes on after a path was to be watched; `ok` says whether it is.
    pub fn watched(&mut self, task: WatchTask, ok: bool) -> (step: Step)
        requires
            old(self)@.wf(),
        ensures
            (final(self)@, step@) == model::watched(old(self)@, task@.0, task@.1, ok),
            final(self)@.wf(),
    {
        if !ok {
            return silent(Next::Failed(MonitorError::NotWatched(task.path)));
        }
        match task.purpose {
            Purpose::Start { id, root } => self.add_path(id, root, task.path),
            Purpose::Link { link } => self.add_link(task.path, link),
        }
        send_ack()
    }

    /// Goes on after the real path behind a link was to be found.
    pub fn resolved(&self, task: ResolveTask, realpath: Option<FilePath>) -> (step: Step)
        ensures
            step@ == model::resolved(
                task@,
                match realpath {
                    Some(path) => Some(path@),
                    None => None,
                },
            ),
    {
        match realpath {
            Some(path) => silent(
                Next::Watch(WatchTask { path, purpose: Purpose::Link { link: task.path } }),
            ),
            None => silent(Next::Failed(MonitorError::Unresolved(task.path))),
        }
    }

    /// Goes on after a path was no longer to be watched; `ok` says whether that
    /// is so.
    pub fn unwatched(&self, task: UnwatchTask, ok: bool) -> (step: Step)
        ensures
            step@ == model::unwatched(task@.0, task@.1, ok),
    {
        if ok {
            Self::unwatch_all(task.rest)
        } else {
            silent(Next::Failed(MonitorError::NotUnwatched(task.path)))
        }
    }
}

} // verus!
