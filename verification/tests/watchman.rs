use unison_fsmonitor::{FilePath, FsEvent, Syntax};
use unison_fsmonitor::watchman::{
    goes_on, react, watchman_event, Backend, ChangeBatch, Notice, Reaction, Subscriptions,
    WatchmanAction, WatchmanCommand,
};

fn path(text: &str) -> FilePath {
    FilePath::from_text(Syntax::Unix, text)
}

fn query_result(files: Vec<FilePath>) -> ChangeBatch {
    ChangeBatch {
        is_fresh_instance: false,
        files: Some(files),
    }
}

#[test]
fn backend_uses_watchman_when_available() {
    assert!(matches!(
        Backend::from_watchman_availability(true),
        Backend::Watchman
    ));
}

#[test]
fn backend_falls_back_to_notify_when_watchman_missing() {
    assert!(matches!(
        Backend::from_watchman_availability(false),
        Backend::Notify
    ));
}

#[test]
fn watchman_event_maps_changed_files_to_absolute_paths() {
    let watched_path = path("/tmp/project");
    let result = query_result(vec![path("src/main.rs"), path("README.md")]);

    assert_eq!(
        watchman_event(&watched_path, &result),
        Some(FsEvent {
            paths: vec![
                path("/tmp/project/src/main.rs"),
                path("/tmp/project/README.md"),
            ],
        })
    );
}

#[test]
fn watchman_event_ignores_empty_change_batches() {
    let watched_path = path("/tmp/project");

    assert_eq!(watchman_event(&watched_path, &query_result(vec![])), None);
}

#[test]
fn watchman_event_marks_fresh_instance_as_root_change() {
    let watched_path = path("/tmp/project");
    let mut result = query_result(vec![path("src/main.rs")]);
    result.is_fresh_instance = true;

    assert_eq!(
        watchman_event(&watched_path, &result),
        Some(FsEvent {
            paths: vec![path("/tmp/project")],
        })
    );
}

#[test]
fn watchman_event_ignores_a_batch_without_files() {
    let result = ChangeBatch {
        is_fresh_instance: false,
        files: None,
    };
    assert_eq!(watchman_event(&path("/tmp/project"), &result), None);
}

#[test]
fn reactions_to_messages() {
    let watched_path = path("/tmp/project");
    let changed = Notice::FilesChanged(query_result(vec![path("a")]));
    match react(&watched_path, &changed) {
        Reaction::Forward(event) => assert_eq!(
            event,
            FsEvent {
                paths: vec![path("/tmp/project/a")]
            }
        ),
        other => panic!("{:?}", other),
    }
    let empty = Notice::FilesChanged(query_result(vec![]));
    assert!(matches!(react(&watched_path, &empty), Reaction::Ignore));
    assert!(matches!(
        react(&watched_path, &Notice::StateEnter),
        Reaction::Ignore
    ));
    assert!(matches!(
        react(&watched_path, &Notice::StateLeave),
        Reaction::Ignore
    ));
    assert!(matches!(
        react(&watched_path, &Notice::Canceled),
        Reaction::ReportCanceled
    ));
    assert!(matches!(
        react(&watched_path, &Notice::Failed),
        Reaction::ReportFailure
    ));
}

#[test]
fn a_subscription_ends_when_it_has_to() {
    let event = FsEvent {
        paths: vec![path("/a")],
    };
    let forward = Reaction::Forward(event);
    assert!(goes_on(&forward, true));
    assert!(!goes_on(&forward, false));
    assert!(goes_on(&Reaction::Ignore, false));
    assert!(!goes_on(&Reaction::ReportCanceled, true));
    assert!(!goes_on(&Reaction::ReportFailure, true));
}

#[test]
fn subscriptions_are_kept_by_path() {
    let mut subscriptions: Subscriptions<u32> = Subscriptions::new();
    assert!(!subscriptions.contains(&path("/a")));
    assert_eq!(subscriptions.insert(path("/a"), 1), None);
    assert_eq!(subscriptions.insert(path("/b"), 2), None);
    assert_eq!(subscriptions.insert(path("/a/"), 3), Some(1));
    assert!(subscriptions.contains(&path("/a")));
    assert_eq!(subscriptions.insert(path("/c"), 4), None);
    assert_eq!(subscriptions.remove(&path("//b")), Some(2));
    assert_eq!(subscriptions.remove(&path("/b")), None);
    assert_eq!(subscriptions.into_handles(), vec![3, 4]);
}

#[test]
fn a_subscription_reports_its_end_once_and_last() {
    let watched_path = path("/tmp/project");
    let notices = vec![
        Notice::FilesChanged(query_result(vec![path("a")])),
        Notice::StateEnter,
        Notice::FilesChanged(query_result(vec![])),
        Notice::FilesChanged(query_result(vec![path("b")])),
        Notice::StateLeave,
        Notice::Failed,
        Notice::Canceled,
        Notice::FilesChanged(query_result(vec![path("c")])),
    ];

    let mut passed_on = vec![];
    for notice in &notices {
        let reaction = react(&watched_path, notice);
        let goes_on = goes_on(&reaction, true);
        passed_on.push(reaction);
        if !goes_on {
            break;
        }
    }
    passed_on.retain(|reaction| !matches!(reaction, Reaction::Ignore));

    assert_eq!(passed_on.len(), 3);
    for (reaction, file) in passed_on.iter().zip(["/tmp/project/a", "/tmp/project/b"]) {
        match reaction {
            Reaction::Forward(event) => assert_eq!(event.paths, vec![path(file)]),
            other => panic!("{:?}", other),
        }
    }
    assert!(matches!(passed_on[2], Reaction::ReportFailure));
}

#[test]
fn commands_are_decided_by_what_is_subscribed_to() {
    let mut subscriptions: Subscriptions<u32> = Subscriptions::new();
    let watch = WatchmanCommand::Watch(path("/a"));
    let unwatch = WatchmanCommand::Unwatch(path("/a/"));

    assert!(matches!(
        subscriptions.decide(&unwatch),
        WatchmanAction::Nothing
    ));
    assert!(matches!(
        subscriptions.decide(&watch),
        WatchmanAction::Subscribe
    ));
    assert_eq!(subscriptions.insert(path("/a"), 7), None);
    assert!(matches!(
        subscriptions.decide(&watch),
        WatchmanAction::Nothing
    ));
    assert!(matches!(
        subscriptions.decide(&unwatch),
        WatchmanAction::Cancel(7)
    ));
    assert!(matches!(
        subscriptions.decide(&watch),
        WatchmanAction::Subscribe
    ));
}
