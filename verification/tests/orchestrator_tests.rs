use logtail::orchestrator::process_event;
use logtail::EventKind;
use logtail::FsEvent;
use logtail::PathCandidate;
use logtail::Sink;
use logtail::WatchedFileSet;

fn file_event(kind: EventKind, paths: &[&str]) -> FsEvent {
    FsEvent {
        kind,
        paths: paths
            .iter()
            .map(|p| PathCandidate {
                path: p.to_string(),
                is_file: true,
            })
            .collect(),
    }
}

#[test]
fn create_event_spawns_a_task() {
    let mut set = WatchedFileSet::new();
    let spawned = process_event(&mut set, &file_event(EventKind::Create, &["/logs/a.log"]));
    assert_eq!(spawned, vec!["/logs/a.log".to_string()]);
}

#[test]
fn irrelevant_events_spawn_nothing() {
    // Events of kinds other than create/modify never cause a task to spawn.
    let mut set = WatchedFileSet::new();
    let spawned = process_event(&mut set, &file_event(EventKind::Other, &["/logs/a.log"]));
    assert!(spawned.is_empty());
    assert!(!set.contains(&"/logs/a.log".to_string()));
}

#[test]
fn non_files_spawn_nothing() {
    // A path that is a directory or vanished before the check never spawns.
    let mut set = WatchedFileSet::new();
    let event = FsEvent {
        kind: EventKind::Create,
        paths: vec![PathCandidate {
            path: "/logs/subdir".to_string(),
            is_file: false,
        }],
    };
    let spawned = process_event(&mut set, &event);
    assert!(spawned.is_empty());
    assert!(!set.contains(&"/logs/subdir".to_string()));
}

#[test]
fn duplicate_paths_in_one_event_spawn_once() {
    let mut set = WatchedFileSet::new();
    let spawned = process_event(
        &mut set,
        &file_event(EventKind::Create, &["/logs/a.log", "/logs/a.log"]),
    );
    assert_eq!(spawned, vec!["/logs/a.log".to_string()]);
}

#[test]
fn open_failure_for_one_file_does_not_block_another() {
    // File A is admitted but its reader fails to open; admission is not
    // reverted, and file B's events are still processed and spawn B's task.
    let mut set = WatchedFileSet::new();
    let spawned_a = process_event(&mut set, &file_event(EventKind::Create, &["/logs/a.log"]));
    assert_eq!(spawned_a, vec!["/logs/a.log".to_string()]);
    // A's open fails here in the running system; nothing changes in the set.
    let spawned_b = process_event(&mut set, &file_event(EventKind::Create, &["/logs/b.log"]));
    assert_eq!(spawned_b, vec!["/logs/b.log".to_string()]);
}

#[test]
fn single_file_is_tailed_once_and_in_order() {
    // Root `/logs` is watched; `/logs/a.log` is created and three lines are
    // appended with delays; the filesystem also reports a later modify event.
    let mut set = WatchedFileSet::new();
    let mut sink = Sink::new();

    let spawned = process_event(&mut set, &file_event(EventKind::Create, &["/logs/a.log"]));
    assert_eq!(spawned, vec!["/logs/a.log".to_string()]);

    sink.emit("a.log".to_string(), "l1".to_string());
    sink.emit("a.log".to_string(), "l2".to_string());
    sink.emit("a.log".to_string(), "l3".to_string());

    // The subsequent modify event must not spawn a duplicate task.
    let spawned_again =
        process_event(&mut set, &file_event(EventKind::Modify, &["/logs/a.log"]));
    assert!(spawned_again.is_empty());

    let lines = sink.lines_for_file(&"a.log".to_string());
    assert_eq!(
        lines,
        vec!["l1".to_string(), "l2".to_string(), "l3".to_string()]
    );
    assert_eq!(sink.len(), 3);
}

#[test]
fn two_files_interleave_but_keep_their_own_order() {
    // `/logs/a.log` and `/logs/b.log` appear near-simultaneously: both are
    // tailed; interleaving between them is unconstrained, but each file's
    // internal order is preserved.
    let mut set = WatchedFileSet::new();
    let mut sink = Sink::new();

    let spawned = process_event(
        &mut set,
        &file_event(EventKind::Create, &["/logs/a.log", "/logs/b.log"]),
    );
    assert_eq!(
        spawned,
        vec!["/logs/a.log".to_string(), "/logs/b.log".to_string()]
    );

    sink.emit("a.log".to_string(), "a1".to_string());
    sink.emit("b.log".to_string(), "b1".to_string());
    sink.emit("a.log".to_string(), "a2".to_string());
    sink.emit("b.log".to_string(), "b2".to_string());

    let a_lines = sink.lines_for_file(&"a.log".to_string());
    let b_lines = sink.lines_for_file(&"b.log".to_string());
    assert_eq!(a_lines, vec!["a1".to_string(), "a2".to_string()]);
    assert_eq!(b_lines, vec!["b1".to_string(), "b2".to_string()]);
}

#[test]
fn mixed_candidates_admit_only_new_regular_files() {
    let mut set = WatchedFileSet::new();
    assert!(set.try_admit("/logs/old.log".to_string()));
    let event = FsEvent {
        kind: EventKind::Modify,
        paths: vec![
            PathCandidate {
                path: "/logs/old.log".to_string(),
                is_file: true,
            },
            PathCandidate {
                path: "/logs/dir".to_string(),
                is_file: false,
            },
            PathCandidate {
                path: "/logs/new.log".to_string(),
                is_file: true,
            },
        ],
    };
    let spawned = process_event(&mut set, &event);
    assert_eq!(spawned, vec!["/logs/new.log".to_string()]);
    assert!(set.contains(&"/logs/new.log".to_string()));
    assert!(!set.contains(&"/logs/dir".to_string()));
}
