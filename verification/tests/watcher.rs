use quickfind::config::Config;
use quickfind::indexing::{look_at, visit, Entry, Visit};
use quickfind::watcher::ignore::{compile_patterns, is_ignored};
use quickfind::watcher::pending::{Event, EventKind, EventPath, PendingChanges, DEBOUNCE_WINDOW};
use quickfind::watcher::sync::{
    backend, flush_pending, should_stop, ChannelClosed, Received, StopSignal, SyncAction, Watch,
    WatchBackend,
};

fn list(items: &[&str]) -> Vec<String> {
    items.iter().map(|s| s.to_string()).collect()
}

fn event(kind: EventKind, path: &str, exists: bool, is_dir: bool) -> Event {
    Event { kind, paths: vec![EventPath { path: path.to_string(), exists, is_dir }] }
}

fn names(actions: &[SyncAction]) -> Vec<String> {
    actions
        .iter()
        .map(|a| match a {
            SyncAction::RemoveFile(p) => format!("remove {p}"),
            SyncAction::RemoveUnder(p) => format!("remove under {p}"),
            SyncAction::InsertIfFile(p) => format!("insert {p}"),
            SyncAction::Index(p) => format!("index {p}"),
            SyncAction::Prune => "prune".to_string(),
            SyncAction::Watch(p) => format!("watch {p}"),
        })
        .collect()
}

fn config(paths: &[&str], ignore: &[&str]) -> Config {
    Config {
        include_paths: list(paths),
        ignore: list(ignore),
        depth: 20,
        highlight_color: None,
        editor: None,
        watch_pending_ram_cap_mb: 200,
    }
}

fn start(paths: &[&str], ignore: &[&str]) -> (Watch, Vec<SyncAction>) {
    match Watch::start(&config(paths, ignore)) {
        Ok(started) => started,
        Err(e) => panic!("the patterns should compile: {}", e.msg),
    }
}

#[test]
fn every_kind_of_event_is_noted() {
    let mut pending = PendingChanges::new();
    pending.push(&event(EventKind::Create, "/r/dir", true, true), 1);
    pending.push(&event(EventKind::Modify, "/r/file", true, false), 2);
    pending.push(&event(EventKind::Access, "/r/other", true, true), 3);
    pending.push(&event(EventKind::Any, "/r/nothing", false, false), 4);
    pending.push(&event(EventKind::Other, "/r/more", true, false), 5);
    pending.push(&event(EventKind::Modify, "/r/gone", false, false), 6);
    pending.push(&event(EventKind::Remove, "/r/file", true, false), 7);
    let taken = pending.drain();
    assert_eq!(taken.changed_paths, list(&["/r/dir", "/r/other", "/r/more"]));
    assert_eq!(taken.removed_paths, list(&["/r/gone", "/r/file"]));
    assert_eq!(taken.roots_to_reindex, list(&["/r/dir"]));
    assert!(pending.is_empty());
    assert!(!pending.ready(u128::MAX));
}

#[test]
fn a_path_is_held_once_however_it_is_written() {
    let mut pending = PendingChanges::new();
    for path in ["/r/a", "/r//a", "/r/./a", "/r/a/"] {
        pending.push(&event(EventKind::Create, path, true, false), 0);
    }
    pending.push(&event(EventKind::Create, "/r/b", true, false), 0);
    pending.push(&event(EventKind::Remove, "/r/b/", false, false), 0);
    let taken = pending.drain();
    assert_eq!(taken.changed_paths, list(&["/r/a"]));
    assert_eq!(taken.removed_paths, list(&["/r/b/"]));
}

#[test]
fn changes_wait_for_the_first_of_them() {
    let mut pending = PendingChanges::new();
    assert!(!pending.ready(DEBOUNCE_WINDOW));
    pending.push(&event(EventKind::Create, "/r/a", true, false), 100);
    pending.push(&event(EventKind::Create, "/r/b", true, false), 100 + DEBOUNCE_WINDOW);
    assert!(!pending.ready(0));
    assert!(!pending.ready(99 + DEBOUNCE_WINDOW));
    assert!(pending.ready(100 + DEBOUNCE_WINDOW));
    assert_eq!(DEBOUNCE_WINDOW, 800_000_000);
}

#[test]
fn what_is_gone_is_written_before_what_is_there() {
    let mut pending = PendingChanges::new();
    pending.push(&event(EventKind::Remove, "/r/a", false, false), 0);
    pending.push(&event(EventKind::Create, "/r/a", true, false), 0);
    pending.push(&event(EventKind::Create, "/r/dir", true, true), 0);
    pending.push(&event(EventKind::Create, "/r/x.tmp", true, true), 0);
    let patterns = match compile_patterns(&list(&["**/*.tmp"])) {
        Ok(patterns) => patterns,
        Err(e) => panic!("the patterns should compile: {}", e.msg),
    };
    let actions = flush_pending(&list(&["/r"]), &patterns, &mut pending);
    assert_eq!(
        names(&actions),
        ["remove /r/a", "remove under /r/a", "insert /r/a", "insert /r/dir", "index /r/dir", "prune"]
    );
    assert!(pending.is_empty());
    assert_eq!(names(&flush_pending(&list(&["/r"]), &patterns, &mut pending)), ["prune"]);
}

#[test]
fn editor_leftovers_are_ignored() {
    let patterns = match compile_patterns(&list(&["**/*.swp", "**/*.tmp", "**/*~", "**/.*"])) {
        Ok(patterns) => patterns,
        Err(e) => panic!("the patterns should compile: {}", e.msg),
    };
    let roots = list(&["/tmp/root"]);
    for path in ["note.rs.swp", "draft.tmp", "scratch~", ".hidden.swp", ".git/config"] {
        assert!(is_ignored(&format!("/tmp/root/work/{path}"), &roots, &patterns));
    }
    assert!(!is_ignored("/tmp/root/work/keep.rs", &roots, &patterns));
    assert!(!is_ignored("/tmp/root/work/draft.rs", &roots, &patterns));
}

#[test]
fn patterns_also_hold_from_a_location_on() {
    let patterns = match compile_patterns(&list(&["build/*"])) {
        Ok(patterns) => patterns,
        Err(e) => panic!("the patterns should compile: {}", e.msg),
    };
    assert!(is_ignored("/home/me/build/x", &list(&["/other", "/home/me/"]), &patterns));
    assert!(!is_ignored("/home/me/build/x", &list(&["/home"]), &patterns));
    assert!(is_ignored("build/x", &[].to_vec(), &patterns));
}

#[test]
fn the_first_broken_pattern_is_reported() {
    match compile_patterns(&list(&["ok", "ab[c", "[x"])) {
        Ok(_) => panic!("a pattern is broken"),
        Err(e) => assert_eq!(e.pos, 2),
    }
    match Watch::start(&config(&["/r"], &["a**"])) {
        Ok(_) => panic!("a pattern is broken"),
        Err(e) => assert_eq!(e.msg, "recursive wildcards must form a single path component"),
    }
}

#[test]
fn a_watch_starts_by_indexing_every_location() {
    let (watch, actions) = start(&["/a", "/b"], &[]);
    assert_eq!(names(&actions), ["index /a", "index /b", "prune", "watch /a", "watch /b"]);
    assert_eq!(watch.include_roots, list(&["/a", "/b"]));
    let (_, fallback) = start(&[], &[]);
    assert_eq!(names(&fallback), ["index .", "prune", "watch ."]);
}

#[test]
fn a_watch_writes_when_the_window_is_over() {
    let (mut watch, _) = start(&["/r"], &[]);
    let first = Received::Event(event(EventKind::Create, "/r/a", true, false));
    match watch.step(first, 5, 6) {
        Ok(actions) => assert!(actions.is_empty()),
        Err(ChannelClosed) => panic!("the channel is open"),
    }
    match watch.step(Received::Error, 7, 7) {
        Ok(actions) => assert!(actions.is_empty()),
        Err(ChannelClosed) => panic!("the channel is open"),
    }
    match watch.step(Received::Timeout, 8, 5 + DEBOUNCE_WINDOW) {
        Ok(actions) => assert_eq!(names(&actions), ["insert /r/a", "prune"]),
        Err(ChannelClosed) => panic!("the channel is open"),
    }
    match watch.step(Received::Timeout, 9, u128::MAX) {
        Ok(actions) => assert!(actions.is_empty()),
        Err(ChannelClosed) => panic!("the channel is open"),
    }
    assert!(watch.step(Received::Disconnected, 10, 10).is_err());
}

#[test]
fn a_stop_writes_what_is_left() {
    let (mut watch, _) = start(&["/r"], &[]);
    assert!(watch.stop(StopSignal::Empty).is_none());
    assert!(watch.stop(StopSignal::NoChannel).is_none());
    match watch.stop(StopSignal::Received) {
        Some(actions) => assert!(actions.is_empty()),
        None => panic!("a stop was asked for"),
    }
    let event = Received::Event(event(EventKind::Remove, "/r/a", false, false));
    assert!(watch.step(event, 1, 1).is_ok());
    match watch.stop(StopSignal::Disconnected) {
        Some(actions) => assert_eq!(names(&actions), ["remove /r/a", "remove under /r/a", "prune"]),
        None => panic!("a stop was asked for"),
    }
    assert!(watch.pending.is_empty());
}

#[test]
fn a_stop_is_asked_for_by_a_signal_or_a_closed_channel() {
    assert!(should_stop(StopSignal::Received));
    assert!(should_stop(StopSignal::Disconnected));
    assert!(!should_stop(StopSignal::Empty));
    assert!(!should_stop(StopSignal::NoChannel));
}

#[test]
fn polling_is_asked_for() {
    assert_eq!(backend(true, 400), WatchBackend::Poll { interval_ms: 400 });
    assert_eq!(backend(false, 400), WatchBackend::Native);
}

#[test]
fn directories_are_looked_through_up_to_the_limit() {
    let patterns = match compile_patterns(&list(&["**/target/**", "**/.*"])) {
        Ok(patterns) => patterns,
        Err(e) => panic!("the patterns should compile: {}", e.msg),
    };
    let roots = list(&["/r"]);
    let entry = |path: &str, is_dir: bool, is_file: bool| Entry {
        path: path.to_string(),
        is_dir,
        is_file,
    };
    assert_eq!(visit(&entry("/r/a", true, false), 1, 2, &roots, &patterns), Visit::Descend);
    assert_eq!(visit(&entry("/r/a/b", true, false), 2, 2, &roots, &patterns), Visit::Skip);
    assert_eq!(visit(&entry("/r/a/x", false, true), 2, 2, &roots, &patterns), Visit::Insert);
    assert_eq!(visit(&entry("/r/a/b/x", false, true), 3, 2, &roots, &patterns), Visit::Skip);
    assert_eq!(visit(&entry("/r/pipe", false, false), 1, 2, &roots, &patterns), Visit::Skip);
    assert_eq!(visit(&entry("/r/target/x", false, true), 2, 2, &roots, &patterns), Visit::Ignore);
    assert_eq!(visit(&entry("/r/.git", true, false), 1, 2, &roots, &patterns), Visit::Ignore);
}

#[test]
fn a_burst_of_changes_leaves_what_is_there() {
    let present = list(&["/r/src", "/r/src/renamed.tsx", "/r/src/file_2.tsx", "/r/src/x.tmp"]);
    let (mut watch, _) = start(&["/r"], &["**/*.tmp"]);
    let burst = [
        event(EventKind::Create, "/r/src", true, true),
        event(EventKind::Create, "/r/src/file_0.tsx", false, false),
        event(EventKind::Create, "/r/src/file_2.tsx", true, false),
        event(EventKind::Modify, "/r/src/x.tmp", true, false),
        event(EventKind::Remove, "/r/src/renamed.tsx", true, false),
        event(EventKind::Modify, "/r/src/renamed.tsx", true, false),
        event(EventKind::Remove, "/r/src/removed_dir", false, false),
    ];
    for one in burst {
        assert!(watch.step(Received::Event(one), 0, 0).is_ok());
    }
    let Some(actions) = watch.stop(StopSignal::Received) else {
        panic!("a stop was asked for");
    };
    let mut index = list(&["/r/src/file_0.tsx", "/r/src/removed_dir/a", "/r/elsewhere"]);
    for action in actions {
        match action {
            SyncAction::RemoveFile(p) => index.retain(|q| *q != p),
            SyncAction::RemoveUnder(p) => index.retain(|q| !q.starts_with(&format!("{p}/"))),
            SyncAction::InsertIfFile(p) => {
                if p != "/r/src" && present.contains(&p) && !index.contains(&p) {
                    index.push(p);
                }
            }
            SyncAction::Index(p) => assert_eq!(p, "/r/src"),
            SyncAction::Prune => index.retain(|q| present.contains(q)),
            SyncAction::Watch(_) => panic!("nothing is watched any more"),
        }
    }
    assert_eq!(index, list(&["/r/src/file_2.tsx", "/r/src/renamed.tsx"]));
}

#[test]
fn the_entries_of_a_directory_are_sorted_out() {
    let patterns = match compile_patterns(&list(&["**/.*"])) {
        Ok(patterns) => patterns,
        Err(e) => panic!("the patterns should compile: {}", e.msg),
    };
    let entry = |path: &str, is_dir: bool| Entry { path: path.to_string(), is_dir, is_file: !is_dir };
    let entries = vec![
        entry("/r/b", true),
        entry("/r/x.rs", false),
        entry("/r/.git", true),
        entry("/r/a", true),
        entry("/r/.env", false),
        entry("/r/y.rs", false),
    ];
    let looked = look_at(&entries, 1, 5, &list(&["/r"]), &patterns);
    assert_eq!(looked.files, list(&["/r/x.rs", "/r/y.rs"]));
    assert_eq!(looked.directories, list(&["/r/b", "/r/a"]));
    assert_eq!(looked.ignored, list(&["/r/.git", "/r/.env"]));
    let deep = look_at(&entries, 5, 5, &list(&["/r"]), &patterns);
    assert_eq!(deep.files.len(), 2);
    assert!(deep.directories.is_empty());
}
