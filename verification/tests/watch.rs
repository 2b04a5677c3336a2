use std::path::{Component, Path};
use syncd::ignore::{IgnoreMatcher, RuleFile};
use syncd::path::{PartKind, PartName, PathPart, SyncPath};
use syncd::watch::{
    handle_removal, plan_change, ChangeAction, PathState, RemovalAction, WatchEvent, WatchState,
    WatchStep, DEBOUNCE_WINDOW_MS, TICK_INTERVAL_MS,
};

fn part(component: Component) -> PathPart {
    let kind = match component {
        Component::Prefix(_) => PartKind::Prefix,
        Component::RootDir => PartKind::Root,
        Component::CurDir => PartKind::CurDir,
        Component::ParentDir => PartKind::ParentDir,
        Component::Normal(_) => PartKind::Normal,
    };
    let written = component.as_os_str();
    let name = match written.to_str() {
        Some(text) => PartName::Text(text.to_string()),
        None => PartName::Bytes {
            raw: written.as_encoded_bytes().to_vec(),
            shown: written.to_string_lossy().into_owned(),
        },
    };
    PathPart { kind, name }
}

fn path(text: &str) -> SyncPath {
    SyncPath::from_parts(Path::new(text).components().map(part).collect())
}

fn applied(step: WatchStep) -> Vec<SyncPath> {
    match step {
        WatchStep::Apply(paths) => paths,
        WatchStep::Wait => Vec::new(),
        WatchStep::Stop => panic!("the watch stopped"),
    }
}

#[test]
fn removal_is_idempotent_for_missing_paths() {
    assert_eq!(handle_removal(PathState::Absent), RemovalAction::Nothing);
    assert_eq!(handle_removal(PathState::Absent), RemovalAction::Nothing);
}

#[test]
fn removes_file_correctly() {
    assert_eq!(handle_removal(PathState::File), RemovalAction::RemoveFile);
}

#[test]
fn removes_directory_correctly() {
    assert_eq!(handle_removal(PathState::Directory), RemovalAction::RemoveTree);
}

#[test]
fn windows_are_as_documented() {
    assert_eq!(DEBOUNCE_WINDOW_MS, 200);
    assert_eq!(TICK_INTERVAL_MS, 1000);
}

#[test]
fn starts_idle() {
    let mut state = WatchState::new();

    assert!(state.is_idle());
    assert_eq!(state.pending_len(), 0);
    assert!(state.on_tick(0).is_empty());
    assert!(state.on_tick(10_000).is_empty());
    assert!(state.is_idle());
}

#[test]
fn burst_for_one_path_is_applied_once() {
    let mut state = WatchState::new();
    let p = path("/src/notes.txt");

    for t in [1000u64, 1010, 1020, 1050, 1100] {
        state.on_notification(&vec![p.clone()], t);
        assert!(!state.is_idle());
        assert_eq!(state.pending_len(), 1);
    }
    assert!(state.on_tick(1100).is_empty());
    assert!(state.on_tick(1299).is_empty());
    assert_eq!(state.pending_len(), 1);

    assert_eq!(state.on_tick(1300), vec![path("/src/notes.txt")]);
    assert!(state.is_idle());
    assert!(state.on_tick(5000).is_empty());
}

#[test]
fn notification_restarts_the_timer() {
    let mut state = WatchState::new();

    state.on_notification(&vec![path("/src/a")], 0);
    assert!(state.on_tick(199).is_empty());
    state.on_notification(&vec![path("/src/b")], 199);
    assert!(state.on_tick(200).is_empty());
    assert!(state.on_tick(398).is_empty());

    assert_eq!(state.on_tick(399), vec![path("/src/a"), path("/src/b")]);
    assert!(state.is_idle());
}

#[test]
fn paths_are_pending_once_in_order_of_first_sight() {
    let mut state = WatchState::new();

    state.on_notification(&vec![path("/src/b"), path("/src/a"), path("/src/b")], 5);
    state.on_notification(&vec![path("/src/a"), path("/src/c")], 6);
    assert_eq!(state.pending_len(), 3);

    assert_eq!(state.on_tick(206), vec![path("/src/b"), path("/src/a"), path("/src/c")]);
}

#[test]
fn notification_without_paths_leaves_nothing_to_apply() {
    let mut state = WatchState::new();

    state.on_notification(&Vec::new(), 10);
    assert!(state.is_idle());
    assert!(state.on_tick(1000).is_empty());

    state.on_notification(&vec![path("/src/a")], 1001);
    assert!(state.on_tick(1200).is_empty());
    assert_eq!(state.on_tick(1201), vec![path("/src/a")]);
}

#[test]
fn clock_that_ran_backwards_drains_nothing() {
    let mut state = WatchState::new();

    state.on_notification(&vec![path("/src/a")], 1000);
    assert!(state.on_tick(500).is_empty());
    assert_eq!(state.pending_len(), 1);
}

#[test]
fn times_near_the_end_of_the_clock() {
    let mut state = WatchState::new();

    state.on_notification(&vec![path("/src/a")], u64::MAX - 100);
    assert!(state.on_tick(u64::MAX).is_empty());
    state.on_notification(&vec![path("/src/a")], u64::MAX - 200);
    assert_eq!(state.on_tick(u64::MAX).len(), 1);
}

#[test]
fn steps_follow_the_events() {
    let mut state = WatchState::new();

    assert!(matches!(state.step(&WatchEvent::Tick, 0), WatchStep::Wait));
    assert!(matches!(
        state.step(&WatchEvent::Changed(vec![path("/src/a"), path("/src/a")]), 100),
        WatchStep::Wait
    ));
    assert!(matches!(state.step(&WatchEvent::Tick, 250), WatchStep::Wait));
    assert_eq!(applied(state.step(&WatchEvent::Tick, 300)), vec![path("/src/a")]);
    assert!(state.is_idle());
    assert!(matches!(state.step(&WatchEvent::Tick, 1300), WatchStep::Wait));
}

#[test]
fn failure_stops_the_watch_and_keeps_the_state() {
    let mut state = WatchState::new();

    state.on_notification(&vec![path("/src/a")], 0);
    assert!(matches!(state.step(&WatchEvent::Failed, 1000), WatchStep::Stop));
    assert_eq!(state.pending_len(), 1);
}

#[test]
fn change_is_applied_by_the_present_state() {
    let src = path("/src");
    let dst = path("/dst");
    let ignore = IgnoreMatcher::new(&RuleFile::Missing).unwrap();
    let p = path("/src/a/notes.txt");

    assert_eq!(
        plan_change(&src, &dst, &ignore, &p, PathState::File),
        ChangeAction::CopyFile(path("/dst/a/notes.txt"))
    );
    assert_eq!(
        plan_change(&src, &dst, &ignore, &p, PathState::Directory),
        ChangeAction::EnsureDir(path("/dst/a/notes.txt"))
    );
    assert_eq!(
        plan_change(&src, &dst, &ignore, &p, PathState::Absent),
        ChangeAction::Remove(path("/dst/a/notes.txt"))
    );
}

#[test]
fn ignored_and_foreign_changes_are_skipped() {
    let src = path("/src");
    let dst = path("/dst");
    let ignore = IgnoreMatcher::new(&RuleFile::Text("dist\n".to_string())).unwrap();

    for state in [PathState::File, PathState::Directory, PathState::Absent] {
        assert_eq!(
            plan_change(&src, &dst, &ignore, &path("/src/.git/index.lock"), state),
            ChangeAction::Skip
        );
        assert_eq!(
            plan_change(&src, &dst, &ignore, &path("/src/dist/app.js"), state),
            ChangeAction::Skip
        );
        assert_eq!(
            plan_change(&src, &dst, &ignore, &path("/other/file.txt"), state),
            ChangeAction::Skip
        );
    }
}
