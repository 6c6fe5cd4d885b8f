use std::path::PathBuf;
use unison_fsmonitor::model::Command;
use unison_fsmonitor::monitor::{MonitorError, Next, Step};
use unison_fsmonitor::{FilePath, FsEvent, Monitor, MonitorEvent, Syntax};

/// How an event ended.
#[derive(Debug)]
enum Outcome {
    Done,
    Failed(MonitorError),
    Exit,
}

/// A monitor with a watcher that remembers what it was asked, and with what was
/// written.
struct TestMonitor {
    monitor: Monitor,
    written: Vec<u8>,
    watched: Vec<FilePath>,
    unwatched: Vec<FilePath>,
    watcher_works: bool,
}

fn new_monitor() -> TestMonitor {
    TestMonitor {
        monitor: Monitor::new(Syntax::Unix),
        written: vec![],
        watched: vec![],
        unwatched: vec![],
        watcher_works: true,
    }
}

fn to_std(path: &FilePath) -> PathBuf {
    PathBuf::from(String::from_utf8(path.as_bytes().to_vec()).unwrap())
}

fn from_std(path: &PathBuf) -> FilePath {
    FilePath::from_text(Syntax::Unix, path.to_str().unwrap())
}

impl TestMonitor {
    fn handle_event(&mut self, event: MonitorEvent) -> Outcome {
        let mut step: Step = self.monitor.handle_event(event);
        loop {
            for line in &step.lines {
                self.written.extend_from_slice(line.as_bytes());
                self.written.push(b'\n');
            }
            step = match step.next {
                Next::Done => return Outcome::Done,
                Next::Failed(error) => return Outcome::Failed(error),
                Next::Exit => return Outcome::Exit,
                Next::Watch(task) => {
                    self.watched.push(task.path().clone());
                    self.monitor.watched(task, self.watcher_works)
                }
                Next::Resolve(task) => {
                    let realpath = to_std(task.path()).canonicalize().ok();
                    self.monitor
                        .resolved(task, realpath.map(|path| from_std(&path)))
                }
                Next::Unwatch(task) => {
                    self.unwatched.push(task.path().clone());
                    self.monitor.unwatched(task, self.watcher_works)
                }
            };
        }
    }

    fn input(&mut self, text: &str) -> Outcome {
        self.handle_event(MonitorEvent::Input(text.into()))
    }

    fn create(&mut self, path: &str) -> Outcome {
        self.handle_event(MonitorEvent::FsEvent(create_event(PathBuf::from(path))))
    }
}

fn written_lines(monitor: &mut TestMonitor) -> Vec<String> {
    std::str::from_utf8(&monitor.written)
        .unwrap()
        .lines()
        .map(str::to_owned)
        .collect()
}

fn create_event(path: PathBuf) -> FsEvent {
    FsEvent {
        paths: vec![from_std(&path)],
    }
}

fn handled(outcome: Outcome) {
    assert!(matches!(outcome, Outcome::Done), "{:?}", outcome);
}

#[test]
fn test_version() {
    let mut monitor = new_monitor();

    handled(monitor.handle_event(MonitorEvent::Input("VERSION 1\n".into())));

    assert_eq!(written_lines(&mut monitor), vec!["VERSION 1".to_owned()]);
}

#[test]
fn test_start() {
    let mut monitor = new_monitor();
    let id = "123";
    let root = PathBuf::from("/tmp/sample");

    handled(monitor.handle_event(MonitorEvent::Input(format!(
        "START {} {}\n",
        id,
        root.to_string_lossy()
    ))));

    assert_eq!(monitor.monitor.replica_count(), 1);
    assert!(monitor.monitor.replica(id).is_some());
    assert_eq!(to_std(monitor.monitor.replica(id).unwrap().root()), root);
    assert!(monitor
        .monitor
        .replica(id)
        .unwrap()
        .paths()
        .contains(&from_std(&root)));
    assert_eq!(written_lines(&mut monitor), vec!["OK".to_owned()]);
}

#[test]
fn test_start_with_subdir() {
    let mut monitor = new_monitor();
    let id = "123";
    let root = PathBuf::from("/tmp/sample");
    let subdir = PathBuf::from("subdir");

    handled(monitor.handle_event(MonitorEvent::Input(format!(
        "START {} {} {}\n",
        id,
        root.to_string_lossy(),
        subdir.to_string_lossy()
    ))));

    assert_eq!(monitor.monitor.replica_count(), 1);
    assert!(monitor.monitor.replica(id).is_some());
    assert_eq!(to_std(monitor.monitor.replica(id).unwrap().root()), root);
    assert!(monitor
        .monitor
        .replica(id)
        .unwrap()
        .paths()
        .contains(&from_std(&root.join(&subdir))));
    assert_eq!(written_lines(&mut monitor), vec!["OK".to_owned()]);
}

#[test]
fn test_dir() {
    let mut monitor = new_monitor();

    handled(monitor.handle_event(MonitorEvent::Input("DIR\n".into())));

    assert_eq!(written_lines(&mut monitor), vec!["OK".to_owned()]);
}

#[test]
fn test_dir_with_dir() {
    let mut monitor = new_monitor();

    handled(monitor.handle_event(MonitorEvent::Input("DIR dir\n".into())));

    assert_eq!(written_lines(&mut monitor), vec!["OK".to_owned()]);
}

#[test]
fn test_follow_link() {
    let mut monitor = new_monitor();
    let id = "123";
    let root = PathBuf::from("/usr/bin");
    let file = PathBuf::from("env");

    handled(monitor.handle_event(MonitorEvent::Input(format!(
        "START {} {} {}\n",
        id,
        root.to_string_lossy(),
        file.to_string_lossy()
    ))));
    handled(monitor.handle_event(MonitorEvent::Input("LINK\n".into())));

    assert_eq!(
        written_lines(&mut monitor),
        vec!["OK".to_owned(), "OK".to_owned()]
    );
}

#[test]
fn test_changes() {
    let mut monitor = new_monitor();
    let id = "123";
    let root = "/tmp/sample";
    let filename = "filename";

    handled(monitor.handle_event(MonitorEvent::Input(format!("START {} {}\n", id, root))));
    handled(monitor.handle_event(MonitorEvent::FsEvent(create_event(
        PathBuf::from(root).join(filename),
    ))));
    handled(monitor.handle_event(MonitorEvent::Input(format!("WAIT {}\n", id))));
    handled(monitor.handle_event(MonitorEvent::Input(format!("CHANGES {}\n", id))));

    assert_eq!(
        written_lines(&mut monitor),
        vec![
            "OK".to_owned(),
            format!("CHANGES {}", id),
            format!("RECURSIVE {}", filename),
            "DONE".to_owned()
        ]
    );
}

#[test]
fn test_changes_after_wait() {
    let mut monitor = new_monitor();
    let id = "123";
    let root = "/tmp/sample";
    let filename = "filename";

    handled(monitor.handle_event(MonitorEvent::Input(format!("START {} {}\n", id, root))));
    handled(monitor.handle_event(MonitorEvent::Input(format!("WAIT {}\n", id))));
    handled(monitor.handle_event(MonitorEvent::FsEvent(create_event(
        PathBuf::from(root).join(filename),
    ))));
    handled(monitor.handle_event(MonitorEvent::Input(format!("CHANGES {}\n", id))));

    assert_eq!(
        written_lines(&mut monitor),
        vec![
            "OK".to_owned(),
            format!("CHANGES {}", id),
            format!("RECURSIVE {}", filename),
            "DONE".to_owned()
        ]
    );
}

#[test]
fn test_changes_with_subdir() {
    let mut monitor = new_monitor();
    let id = "123";
    let root = "/tmp/sample";
    let subdir = "subdir";
    let filename = "filename";

    handled(monitor.handle_event(MonitorEvent::Input(format!(
        "START {} {} {}\n",
        id, root, subdir
    ))));
    handled(monitor.handle_event(MonitorEvent::FsEvent(create_event(
        PathBuf::from(root).join(subdir).join(filename),
    ))));
    handled(monitor.handle_event(MonitorEvent::Input(format!("WAIT {}\n", id))));
    handled(monitor.handle_event(MonitorEvent::Input(format!("CHANGES {}\n", id))));

    assert_eq!(
        written_lines(&mut monitor),
        vec![
            "OK".to_owned(),
            format!("CHANGES {}", id),
            format!("RECURSIVE {}%2F{}", subdir, filename),
            "DONE".to_owned(),
        ]
    );
}

#[test]
fn test_changes_no_wait() {
    let mut monitor = new_monitor();
    let id = "123";
    let root = "/tmp/sample";
    let filename = "filename";

    handled(monitor.handle_event(MonitorEvent::Input(format!("START {} {}\n", id, root))));
    handled(monitor.handle_event(MonitorEvent::FsEvent(create_event(
        PathBuf::from(root).join(filename),
    ))));

    assert_eq!(written_lines(&mut monitor), vec!["OK".to_owned()]);
}

#[test]
fn version_is_required_and_must_be_one() {
    let mut monitor = new_monitor();

    let missing = monitor.input("VERSION\n");
    assert!(matches!(
        missing,
        Outcome::Failed(MonitorError::MissingVersion)
    ));
    match monitor.input("VERSION 2\n") {
        Outcome::Failed(MonitorError::UnexpectedVersion(version)) => assert_eq!(version, "2"),
        other => panic!("{:?}", other),
    }
    assert!(written_lines(&mut monitor).is_empty());
}

#[test]
fn replica_id_is_required() {
    let mut monitor = new_monitor();

    for (text, expected) in [
        ("START\n", Command::Start),
        ("WAIT\n", Command::Wait),
        ("CHANGES\n", Command::Changes),
        ("RESET\n", Command::Reset),
    ] {
        match monitor.input(text) {
            Outcome::Failed(MonitorError::MissingReplicaId(command)) => {
                assert_eq!(command, expected)
            }
            other => panic!("{:?}", other),
        }
    }
    assert!(matches!(
        monitor.input("START 123\n"),
        Outcome::Failed(MonitorError::MissingRoot)
    ));
    assert!(written_lines(&mut monitor).is_empty());
    assert_eq!(monitor.monitor.replica_count(), 0);
}

#[test]
fn unknown_commands_and_replicas_end_the_process() {
    let mut monitor = new_monitor();

    assert!(matches!(monitor.input("HELLO you\n"), Outcome::Exit));
    assert!(matches!(monitor.input("WAIT a%20b\n"), Outcome::Exit));
    assert!(matches!(monitor.input("\n"), Outcome::Exit));
    assert_eq!(
        written_lines(&mut monitor),
        vec![
            "ERROR Unrecognized%20cmd%3A%20HELLO".to_owned(),
            "ERROR Unknown%20replica%3A%20a%20b".to_owned(),
            "ERROR Unrecognized%20cmd%3A%20".to_owned(),
        ]
    );
}

#[test]
fn debug_and_done_are_not_answered() {
    let mut monitor = new_monitor();

    handled(monitor.input("DEBUG\n"));
    handled(monitor.input("DONE\n"));
    assert!(written_lines(&mut monitor).is_empty());
}

#[test]
fn other_commands_end_the_waiting() {
    let mut monitor = new_monitor();

    handled(monitor.input("START 1 /tmp/one\n"));
    handled(monitor.input("START 2 /tmp/two\n"));
    handled(monitor.input("WAIT 1\n"));
    handled(monitor.input("WAIT 2\n"));
    assert!(monitor.monitor.replica("1").unwrap().waited_on());
    assert!(monitor.monitor.replica("2").unwrap().waited_on());
    handled(monitor.create("/tmp/one/a"));
    handled(monitor.input("DIR\n"));
    assert!(!monitor.monitor.replica("1").unwrap().waited_on());
    assert!(!monitor.monitor.replica("2").unwrap().waited_on());
    handled(monitor.create("/tmp/two/b"));
    assert_eq!(
        written_lines(&mut monitor),
        vec!["OK", "OK", "CHANGES 1", "OK"]
    );
}

#[test]
fn changes_are_reported_once() {
    let mut monitor = new_monitor();

    handled(monitor.input("START 1 /tmp/one\n"));
    handled(monitor.create("/tmp/one/a b"));
    handled(monitor.create("/tmp/one//a b/"));
    handled(monitor.create("/tmp/one"));
    handled(monitor.create("/tmp/two"));
    handled(monitor.input("CHANGES 1\n"));
    handled(monitor.input("CHANGES 1\n"));
    handled(monitor.input("CHANGES 2\n"));
    assert_eq!(
        written_lines(&mut monitor),
        vec!["OK", "RECURSIVE a%20b", "RECURSIVE ", "DONE", "DONE", "DONE"]
    );
}

#[test]
fn one_change_can_concern_several_replicas() {
    let mut monitor = new_monitor();

    handled(monitor.input("START outer /tmp\n"));
    handled(monitor.input("START inner /tmp/one\n"));
    handled(monitor.input("WAIT outer\n"));
    handled(monitor.input("WAIT inner\n"));
    handled(monitor.create("/tmp/one/a"));
    handled(monitor.input("CHANGES outer\n"));
    handled(monitor.input("CHANGES inner\n"));
    assert_eq!(
        written_lines(&mut monitor),
        vec![
            "OK",
            "OK",
            "CHANGES outer",
            "CHANGES inner",
            "RECURSIVE one%2Fa",
            "DONE",
            "RECURSIVE a",
            "DONE"
        ]
    );
}

#[test]
fn bytes_that_are_not_utf8_are_replaced_in_reports() {
    let mut monitor = new_monitor();

    handled(monitor.input("START 1 /tmp/one\n"));
    handled(monitor.handle_event(MonitorEvent::FsEvent(FsEvent {
        paths: vec![FilePath::new(Syntax::Unix, b"/tmp/one/a\xffb".to_vec())],
    })));
    handled(monitor.input("CHANGES 1\n"));
    assert_eq!(
        written_lines(&mut monitor),
        vec!["OK", "RECURSIVE a%EF%BF%BDb", "DONE"]
    );
}

#[test]
fn a_path_that_is_watched_is_not_watched_again() {
    let mut monitor = new_monitor();

    handled(monitor.input("START 1 /tmp/one\n"));
    handled(monitor.input("START 1 /tmp/one sub\n"));
    handled(monitor.input("START 1 /tmp/one\n"));
    handled(monitor.input("START 2 /tmp/one\n"));
    assert_eq!(
        monitor.watched.iter().map(to_std).collect::<Vec<_>>(),
        vec![PathBuf::from("/tmp/one"), PathBuf::from("/tmp/one")]
    );
    assert_eq!(monitor.monitor.replica("1").unwrap().paths().len(), 2);
    assert_eq!(written_lines(&mut monitor), vec!["OK"; 4]);
}

#[test]
fn the_first_root_of_a_replica_stays() {
    let mut monitor = new_monitor();

    handled(monitor.input("START 1 /tmp/one\n"));
    handled(monitor.input("START 1 /tmp/two\n"));
    assert_eq!(
        to_std(monitor.monitor.replica("1").unwrap().root()),
        PathBuf::from("/tmp/one")
    );
    assert_eq!(monitor.watched.len(), 2);
}

#[test]
fn a_failing_watcher_leaves_no_replica() {
    let mut monitor = new_monitor();
    monitor.watcher_works = false;

    match monitor.input("START 1 /tmp/one\n") {
        Outcome::Failed(MonitorError::NotWatched(path)) => {
            assert_eq!(to_std(&path), PathBuf::from("/tmp/one"))
        }
        other => panic!("{:?}", other),
    }
    assert_eq!(monitor.monitor.replica_count(), 0);
    assert!(written_lines(&mut monitor).is_empty());
}

#[test]
fn reset_unwatches_what_nobody_else_needs() {
    let mut monitor = new_monitor();

    handled(monitor.input("START 1 /tmp/one\n"));
    handled(monitor.input("START 1 /tmp/two\n"));
    handled(monitor.input("START 1 /tmp/three\n"));
    handled(monitor.input("START 2 /tmp/two\n"));
    handled(monitor.input("RESET 1\n"));
    handled(monitor.input("RESET 1\n"));
    assert!(monitor.monitor.replica("1").is_none());
    assert!(monitor.monitor.replica("2").is_some());
    assert_eq!(
        monitor.unwatched.iter().map(to_std).collect::<Vec<_>>(),
        vec![PathBuf::from("/tmp/one"), PathBuf::from("/tmp/three")]
    );
    assert_eq!(written_lines(&mut monitor), vec!["OK"; 4]);
}

#[test]
fn reset_stops_at_the_first_failure() {
    let mut monitor = new_monitor();

    handled(monitor.input("START 1 /tmp/one\n"));
    handled(monitor.input("START 1 /tmp/two\n"));
    monitor.watcher_works = false;
    match monitor.input("RESET 1\n") {
        Outcome::Failed(MonitorError::NotUnwatched(path)) => {
            assert_eq!(to_std(&path), PathBuf::from("/tmp/one"))
        }
        other => panic!("{:?}", other),
    }
    assert_eq!(monitor.unwatched.len(), 1);
    assert_eq!(monitor.monitor.replica_count(), 0);
}

#[test]
fn a_link_to_nowhere_fails() {
    let mut monitor = new_monitor();

    match monitor.input("LINK /no/such/file\n") {
        Outcome::Failed(MonitorError::Unresolved(path)) => {
            assert_eq!(to_std(&path), PathBuf::from("/no/such/file"))
        }
        other => panic!("{:?}", other),
    }
    assert!(written_lines(&mut monitor).is_empty());
}

#[test]
fn changes_behind_a_link_are_reported_below_it() {
    let mut monitor = new_monitor();

    handled(monitor.input("START 1 /tmp/one\n"));
    let step = monitor
        .monitor
        .handle_event(MonitorEvent::Input("LINK here\n".into()));
    let task = match step.next {
        Next::Resolve(task) => task,
        other => panic!("{:?}", other),
    };
    assert_eq!(to_std(task.path()), PathBuf::from("/tmp/one/here"));
    let step = monitor
        .monitor
        .resolved(task, Some(FilePath::from_text(Syntax::Unix, "/srv/there")));
    let task = match step.next {
        Next::Watch(task) => task,
        other => panic!("{:?}", other),
    };
    assert_eq!(to_std(task.path()), PathBuf::from("/srv/there"));
    let step = monitor.monitor.watched(task, true);
    assert_eq!(step.lines, vec!["OK"]);

    handled(monitor.input("WAIT 1\n"));
    handled(monitor.create("/srv/there/a"));
    handled(monitor.create("/srv/elsewhere"));
    handled(monitor.input("CHANGES 1\n"));
    assert_eq!(
        written_lines(&mut monitor),
        vec!["OK", "CHANGES 1", "RECURSIVE here%2Fa", "DONE"]
    );
}

#[test]
fn events_have_names() {
    assert_eq!(MonitorEvent::Input("".into()).kind(), "input");
    assert_eq!(
        MonitorEvent::FsEvent(FsEvent { paths: vec![] }).kind(),
        "fs_event"
    );
}

#[test]
fn errors_in_words() {
    for (error, expected) in [
        (MonitorError::MissingVersion, "Missing protocol version"),
        (
            MonitorError::UnexpectedVersion("2".into()),
            "Unexpected version",
        ),
        (
            MonitorError::MissingReplicaId(Command::Start),
            "Missing replica id for START",
        ),
        (
            MonitorError::MissingReplicaId(Command::Wait),
            "Missing replica id for WAIT",
        ),
        (
            MonitorError::MissingReplicaId(Command::Changes),
            "Missing replica id for CHANGES",
        ),
        (
            MonitorError::MissingReplicaId(Command::Reset),
            "Missing replica id for RESET",
        ),
        (MonitorError::MissingRoot, "Missing root path for START"),
        (
            MonitorError::Unresolved(FilePath::from_text(Syntax::Unix, "/a")),
            "Unable to canonicalize path",
        ),
        (
            MonitorError::NotWatched(FilePath::from_text(Syntax::Unix, "/a")),
            "Unable to watch path",
        ),
        (
            MonitorError::NotUnwatched(FilePath::from_text(Syntax::Unix, "/a")),
            "Unable to unwatch path",
        ),
    ] {
        assert_eq!(error.summary(), expected);
    }
}

/// What is pending for a replica, in alphabetical order.
fn pending(monitor: &TestMonitor, id: &str) -> Vec<String> {
    let changes = monitor.monitor.replica(id).unwrap().pending_changes();
    let mut texts: Vec<String> = (0..changes.len())
        .map(|i| changes.get(i).to_text())
        .collect();
    texts.sort();
    texts
}

fn event_of(paths: &[&str]) -> MonitorEvent {
    MonitorEvent::FsEvent(FsEvent {
        paths: paths.iter().map(|path| FilePath::from_text(Syntax::Unix, path)).collect(),
    })
}

#[test]
fn the_order_of_changes_makes_no_difference() {
    let first = ["/tmp/one/a", "/tmp/one/b"];
    let second = ["/tmp/one//b/", "/tmp/one/c"];
    let both = ["/tmp/one/a", "/tmp/one/b", "/tmp/one//b/", "/tmp/one/c"];
    let runs: [&[&[&str]]; 4] = [
        &[&first, &second],
        &[&second, &first],
        &[&both],
        &[&first, &second, &second, &first],
    ];

    for run in runs {
        let mut monitor = new_monitor();
        handled(monitor.input("START 1 /tmp/one\n"));
        for paths in run {
            handled(monitor.handle_event(event_of(paths)));
        }
        assert_eq!(pending(&monitor, "1"), vec!["a", "b", "c"]);
    }
}

#[test]
fn nothing_of_a_replica_survives_its_reset() {
    let mut monitor = new_monitor();

    handled(monitor.input("START 1 /tmp/one\n"));
    handled(monitor.input("START 1 /tmp/one sub\n"));
    handled(monitor.create("/tmp/one/a"));
    handled(monitor.input("WAIT 1\n"));
    handled(monitor.input("RESET 1\n"));
    handled(monitor.input("START 1 /tmp/two\n"));

    let replica = monitor.monitor.replica("1").unwrap();
    assert_eq!(to_std(replica.root()), PathBuf::from("/tmp/two"));
    assert_eq!(replica.paths().len(), 1);
    assert_eq!(
        to_std(replica.paths().get(0)),
        PathBuf::from("/tmp/two")
    );
    assert_eq!(replica.pending_changes().len(), 0);
    assert!(!replica.waited_on());
    assert_eq!(
        monitor.watched.iter().map(to_std).collect::<Vec<_>>(),
        vec![PathBuf::from("/tmp/one"), PathBuf::from("/tmp/two")]
    );
}

#[test]
fn changes_elsewhere_concern_nobody() {
    let mut monitor = new_monitor();
    let inside = FsEvent {
        paths: vec![FilePath::from_text(Syntax::Unix, "/"), FilePath::from_text(Syntax::Unix, "/tmp/one/a")],
    };
    let outside = FsEvent {
        paths: vec![FilePath::from_text(Syntax::Unix, "/tmp/only")],
    };

    assert!(!monitor.monitor.is_concerned(&inside));
    handled(monitor.input("START 1 /tmp/on\n"));
    assert!(!monitor.monitor.is_concerned(&inside));
    handled(monitor.input("START 2 /tmp/one\n"));
    assert!(monitor.monitor.is_concerned(&inside));
    assert!(!monitor.monitor.is_concerned(&outside));
}

#[test]
fn lines_hold_letters_digits_percent_signs_and_spaces() {
    let mut monitor = new_monitor();

    handled(monitor.input("VERSION 1\n"));
    handled(monitor.input("START a%0Ab /tmp/one\n"));
    handled(monitor.create("/tmp/one/x\ny"));
    handled(monitor.input("WAIT a%0Ab\n"));
    handled(monitor.input("CHANGES a%0Ab\n"));
    let ended = monitor.input("WAIT c%0Ad\n");
    assert!(matches!(ended, Outcome::Exit));

    let lines = written_lines(&mut monitor);
    assert_eq!(
        lines,
        vec![
            "VERSION 1",
            "OK",
            "CHANGES a%0Ab",
            "RECURSIVE x%0Ay",
            "DONE",
            "ERROR Unknown%20replica%3A%20c%0Ad"
        ]
    );
}

#[test]
fn a_root_that_is_not_utf8_is_repaired_and_not_empty() {
    let mut monitor = new_monitor();

    handled(monitor.input("START 1 %FF\n"));
    assert_eq!(
        monitor.monitor.replica("1").unwrap().root().to_text(),
        "\u{FFFD}"
    );
}

#[test]
fn windows_paths_are_read_as_windows_reads_them() {
    let mut monitor = new_monitor();
    monitor.monitor = Monitor::new(Syntax::Windows);
    let path = |text: &str| FilePath::from_text(Syntax::Windows, text);
    let change = |texts: &[&str]| {
        MonitorEvent::FsEvent(FsEvent {
            paths: texts.iter().map(|text| path(text)).collect(),
        })
    };

    handled(monitor.input("START 1 C:/x\n"));
    handled(monitor.input("START 1 C:/x D:/other\n"));
    handled(monitor.input("START 1 c:%5Cx sub\n"));
    assert_eq!(
        monitor
            .watched
            .iter()
            .map(|path| path.to_text())
            .collect::<Vec<_>>(),
        vec!["C:/x", "D:/other"]
    );
    handled(monitor.handle_event(change(&["C:\\x\\a\\b", "C:\\xy", "\\x\\c", "D:\\x\\d"])));
    handled(monitor.handle_event(change(&["c:\\x\\a/b\\"])));
    handled(monitor.input("CHANGES 1\n"));
    assert_eq!(
        written_lines(&mut monitor),
        vec!["OK", "OK", "OK", "RECURSIVE a%5Cb", "DONE"]
    );
}
