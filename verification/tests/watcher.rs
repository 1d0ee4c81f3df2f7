use std::path::Path;

use webadev::path::{path_extension_of, same_path_exec};
use webadev::watcher::{
    event_filter, event_kind_check, event_reloads, file_extension_check, paths_filter,
    reload_type_for, should_reload_for_path, ChangeKind, Changes, FsEvent, Received,
    DEBOUNCE_NANOS, IDLE_NANOS,
};
use webadev::ReloadType;

fn strings(items: &[&str]) -> Vec<String> {
    items.iter().map(|s| s.to_string()).collect()
}

fn event(kind: ChangeKind, paths: &[&str]) -> FsEvent {
    FsEvent { kind, paths: strings(paths) }
}

#[test]
fn reads_are_not_content_changes() {
    assert!(!event_kind_check(&ChangeKind::Access));
}

#[test]
fn writes_creates_and_removes_are_content_changes() {
    assert!(event_kind_check(&ChangeKind::Modify));
    assert!(event_kind_check(&ChangeKind::Create));
    assert!(event_kind_check(&ChangeKind::Remove));
    assert!(!event_kind_check(&ChangeKind::Any));
    assert!(!event_kind_check(&ChangeKind::Other));
}

#[test]
fn reload_worthy_extensions() {
    for ext in ["html", "css", "js", "jsx", "ts", "tsx"] {
        assert!(file_extension_check(&format!("a.{ext}")));
    }
    assert!(!file_extension_check("a.txt"));
    assert!(!file_extension_check("a.log"));
    assert!(!file_extension_check("index"));
    assert!(!file_extension_check(".hidden"));
}

#[test]
fn simple_watcher_uses_the_same_extensions() {
    for path in ["a.html", "x/y.tsx", "a.txt", ".css", "dir.css/", "a.css/..", "b.JS"] {
        assert_eq!(should_reload_for_path(&path.to_string()), file_extension_check(path));
    }
    assert!(should_reload_for_path(&"dir.css/".to_string()));
    assert!(!should_reload_for_path(&"a.css/..".to_string()));
}

#[test]
fn event_filter_trims_unworthy_paths() {
    let filtered = event_filter(event(ChangeKind::Create, &["a.js"])).unwrap();
    assert_eq!(filtered.paths, vec!["a.js".to_string()]);

    let filtered = event_filter(event(ChangeKind::Modify, &["a.js", "a.log"])).unwrap();
    assert_eq!(filtered.paths, vec!["a.js".to_string()]);
    assert_eq!(filtered.kind, ChangeKind::Modify);
}

#[test]
fn event_filter_rejects_non_content_and_empty() {
    assert!(event_filter(event(ChangeKind::Access, &["a.js"])).is_none());
    assert!(event_filter(event(ChangeKind::Modify, &["a.txt"])).is_none());
    assert!(event_filter(event(ChangeKind::Remove, &[])).is_none());
}

#[test]
fn event_filter_twice_is_filter_once() {
    let once = event_filter(event(ChangeKind::Modify, &["b.css", "c.md", "d/e.ts"])).unwrap();
    let twice = event_filter(FsEvent { kind: once.kind, paths: once.paths.clone() }).unwrap();
    assert_eq!(twice.paths, once.paths);
    assert_eq!(once.paths, strings(&["b.css", "d/e.ts"]));
}

#[test]
fn extensions_match_std_paths() {
    let cases = [
        "a.html", "a.", ".hidden", "a/..", "a/.", "x/.y", "..a", "a..", "/", "", "a//b.c/",
        "dir.d/file", "dir.d/file.tar.gz", ".", "./", "./x.js", "a/./", "..", "/.", "a.b/.c",
        "a/b.c//.//", "é.ß", "a. b",
    ];
    for case in cases {
        let expected = Path::new(case).extension().map(|e| e.to_str().unwrap().to_string());
        assert_eq!(path_extension_of(case), expected, "{case}");
    }
}

#[test]
fn paths_filter_keeps_only_new_paths() {
    let queued = strings(&["a.html", "b.css"]);
    let event_paths = strings(&["b.css", "c.js", "a.html", "d.ts"]);
    assert_eq!(paths_filter(&queued, &event_paths), strings(&["c.js", "d.ts"]));
    assert!(paths_filter(&queued, &strings(&["a.html"])).is_empty());
}

#[test]
fn burst_of_changes_emits_once() {
    let mut changes = Changes::default();
    changes.enqueue(&strings(&["a.html"]), 0);
    changes.enqueue(&strings(&["b.html"]), 50_000_000);
    changes.enqueue(&strings(&["c.html", "a.html"]), 100_000_000);
    assert!(changes.emit(150_000_000).is_none());
    assert!(changes.emit(299_999_999).is_none());
    assert_eq!(
        changes.emit(300_000_000),
        Some(strings(&["a.html", "b.html", "c.html"]))
    );
    assert!(changes.emit(900_000_000).is_none());
}

#[test]
fn waits_for_the_rest_of_the_quiet_period() {
    let mut changes = Changes::default();
    assert_eq!(changes.wait(5), IDLE_NANOS);
    changes.enqueue(&strings(&["a.css"]), 1_000);
    assert_eq!(changes.wait(1_000), DEBOUNCE_NANOS);
    assert_eq!(changes.wait(51_000), DEBOUNCE_NANOS - 50_000);
    assert_eq!(changes.wait(1_000 + DEBOUNCE_NANOS + 7), 0);
    let now = 61_000;
    let wake = now + changes.wait(now);
    assert_eq!(changes.emit(wake), Some(strings(&["a.css"])));
    assert_eq!(changes.wait(wake), IDLE_NANOS);
}

#[test]
fn known_paths_do_not_restart_the_quiet_period() {
    let mut changes = Changes::default();
    changes.enqueue(&strings(&["a.html"]), 0);
    changes.enqueue(&strings(&["a.html"]), 150_000_000);
    assert_eq!(changes.emit(DEBOUNCE_NANOS), Some(strings(&["a.html"])));
}

#[test]
fn clock_readings_before_the_change_count_as_no_time() {
    let mut changes = Changes::default();
    changes.enqueue(&strings(&["a.html"]), 500);
    assert_eq!(changes.wait(100), DEBOUNCE_NANOS);
    assert!(changes.emit(100).is_none());
}

#[test]
fn stylesheets_alone_are_hot_swapped() {
    assert_eq!(reload_type_for(&strings(&["a.css", "b/c.css"])), ReloadType::Css);
    assert_eq!(reload_type_for(&strings(&["a.css", "index.html"])), ReloadType::Page);
    assert_eq!(reload_type_for(&strings(&["app.js"])), ReloadType::Page);
    assert_eq!(reload_type_for(&[]), ReloadType::Page);
}

#[test]
fn paths_compare_by_components() {
    assert!(same_path_exec("a//b.js", "a/b.js"));
    assert!(same_path_exec("a/./b", "a/b"));
    assert!(same_path_exec("a/", "a"));
    assert!(!same_path_exec("./a", "a"));
    assert!(!same_path_exec("/a", "a"));
    assert!(!same_path_exec("a/../b", "b"));
    assert!(!same_path_exec("a/b", "a/c"));
}

#[test]
fn path_comparison_matches_std_paths() {
    let cases = [
        "", "a", "a/", "a//b.js", "a/b.js", "./a", "a/./b", "a/b", "/a", "//a", "/./a", "./",
        ".", "..", "a/..", "a/../b", "b", ".a", "a/.", "./a/./b/", "a/b/.", "a.b/c",
    ];
    for x in cases {
        for y in cases {
            assert_eq!(same_path_exec(x, y), Path::new(x) == Path::new(y), "{x:?} {y:?}");
        }
    }
}

#[test]
fn paths_filter_drops_the_same_path_written_otherwise() {
    let queued = strings(&["a//b.js", "./c.css"]);
    let event_paths = strings(&["a/b.js", "c.css", "./c.css", "d.ts", "d.ts"]);
    assert_eq!(paths_filter(&queued, &event_paths), strings(&["c.css", "d.ts", "d.ts"]));
    assert_eq!(paths_filter(&[], &event_paths), event_paths);
    assert!(paths_filter(&queued, &[]).is_empty());
}

#[test]
fn queue_holds_each_path_once() {
    let mut changes = Changes::default();
    changes.enqueue(&strings(&["a//b.js"]), 0);
    changes.enqueue(&strings(&["a/b.js", "a/./b.js"]), 10);
    assert_eq!(changes.emit(DEBOUNCE_NANOS), Some(strings(&["a//b.js"])));
}

#[test]
fn receive_queues_changes_and_stops_when_disconnected() {
    let mut changes = Changes::default();
    assert!(changes.receive(Received::Changed(strings(&["a.html"])), 0));
    assert!(changes.receive(Received::Timeout, 100));
    assert!(changes.receive(Received::WatcherError, 150));
    assert!(changes.emit(DEBOUNCE_NANOS - 1).is_none());
    assert!(!changes.receive(Received::Disconnected, DEBOUNCE_NANOS));
    assert_eq!(changes.emit(DEBOUNCE_NANOS), Some(strings(&["a.html"])));
    assert!(changes.receive(Received::Changed(strings(&["b.css"])), 1_000));
    assert!(changes.receive(Received::Changed(strings(&["c.css"])), 2_000));
    assert!(changes.emit(1_000 + DEBOUNCE_NANOS).is_none());
    assert_eq!(changes.emit(2_000 + DEBOUNCE_NANOS), Some(strings(&["b.css", "c.css"])));
}

#[test]
fn simple_watcher_reloads_on_content_change_of_a_page_file() {
    assert!(event_reloads(&event(ChangeKind::Modify, &["notes.txt", "site/app.ts"])));
    assert!(event_reloads(&event(ChangeKind::Create, &["index.html"])));
    assert!(event_reloads(&event(ChangeKind::Remove, &["style.css"])));
    assert!(!event_reloads(&event(ChangeKind::Access, &["index.html"])));
    assert!(!event_reloads(&event(ChangeKind::Modify, &["notes.txt", "image.png"])));
    assert!(!event_reloads(&event(ChangeKind::Modify, &[])));
    assert!(!event_reloads(&event(ChangeKind::Other, &["index.html"])));
}

#[test]
fn each_batch_goes_out_once_with_its_reload_type() {
    let mut changes = Changes::default();
    changes.enqueue(&strings(&["a.css", "b/c.css"]), 0);
    assert!(changes.emit_reload(DEBOUNCE_NANOS - 1).is_none());
    assert_eq!(
        changes.emit_reload(DEBOUNCE_NANOS),
        Some((ReloadType::Css, strings(&["a.css", "b/c.css"])))
    );
    assert!(changes.emit_reload(DEBOUNCE_NANOS * 3).is_none());
    changes.enqueue(&strings(&["a.css", "index.html"]), 10);
    assert_eq!(
        changes.emit_reload(10 + DEBOUNCE_NANOS),
        Some((ReloadType::Page, strings(&["a.css", "index.html"])))
    );
}

#[test]
fn a_wait_run_hands_out_the_collected_batch() {
    // each round: check for a batch, then take in what the wait brought
    let mut changes = Changes::default();
    let rounds = [
        (0, Received::Changed(strings(&["b.css", "a.html"])), 10),
        (20, Received::WatcherError, 30),
        (40, Received::Changed(strings(&["a.html", "./c.js", "b.css"])), 50),
        (60, Received::Timeout, 70),
    ];
    for (check_at, received, received_at) in rounds {
        assert!(changes.emit_reload(check_at).is_none());
        assert!(changes.receive(received, received_at));
    }
    assert!(changes.emit_reload(50 + DEBOUNCE_NANOS - 1).is_none());
    assert_eq!(
        changes.emit_reload(50 + DEBOUNCE_NANOS),
        Some((ReloadType::Page, strings(&["b.css", "a.html", "./c.js"])))
    );
    assert!(changes.receive(Received::Changed(strings(&["d.css"])), 1_000_000_000));
    assert!(!changes.receive(Received::Disconnected, 1_000_000_001));
    assert!(changes.emit_reload(1_000_000_001).is_none());
}
