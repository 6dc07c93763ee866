use strata_watch::guard::WriteGuard;
use strata_watch::watcher::{process_notification, FsChangeEvent, RawEventKind, WatchSession};

const QUALIFYING: &str = "---\ndoc-type: strata\n---\nbody\n";
const PLAIN: &str = "# just markdown\n";

fn modified(rel: &str) -> Option<FsChangeEvent> {
    Some(FsChangeEvent::Modified { rel_path: rel.to_string() })
}

#[test]
fn external_edit_is_reported() {
    let mut g = WriteGuard::new();
    let ev = process_notification(
        "/ws",
        "/ws/a.md",
        RawEventKind::Modify,
        Some(QUALIFYING),
        &mut g,
    );
    assert_eq!(ev, modified("a.md"));
}

#[test]
fn marked_write_is_suppressed_and_mark_is_spent() {
    let mut g = WriteGuard::new();
    g.mark("/ws/a.md");
    let first = process_notification(
        "/ws",
        "/ws/a.md",
        RawEventKind::Modify,
        Some(QUALIFYING),
        &mut g,
    );
    assert_eq!(first, None);
    assert!(!g.consume("/ws/a.md"));
    let second = process_notification(
        "/ws",
        "/ws/a.md",
        RawEventKind::Modify,
        Some(QUALIFYING),
        &mut g,
    );
    assert_eq!(second, modified("a.md"));
}

#[test]
fn new_file_without_marker_then_marked_edit() {
    let mut g = WriteGuard::new();
    let created = process_notification(
        "/ws",
        "/ws/a.md",
        RawEventKind::Create,
        Some(PLAIN),
        &mut g,
    );
    assert_eq!(created, None);
    let edited = process_notification(
        "/ws",
        "/ws/a.md",
        RawEventKind::Modify,
        Some(QUALIFYING),
        &mut g,
    );
    assert_eq!(edited, modified("a.md"));
}

#[test]
fn qualifying_creation_is_reported() {
    let mut g = WriteGuard::new();
    let ev = process_notification(
        "/ws",
        "/ws/new.md",
        RawEventKind::Create,
        Some(QUALIFYING),
        &mut g,
    );
    assert_eq!(ev, Some(FsChangeEvent::Created { rel_path: "new.md".to_string() }));
}

#[test]
fn removal_is_reported_without_content() {
    let mut g = WriteGuard::new();
    let ev = process_notification("/ws", "/ws/gone.md", RawEventKind::Remove, None, &mut g);
    assert_eq!(ev, Some(FsChangeEvent::Deleted { rel_path: "gone.md".to_string() }));
}

#[test]
fn unreadable_content_on_modify_yields_no_event() {
    let mut g = WriteGuard::new();
    let ev = process_notification("/ws", "/ws/a.md", RawEventKind::Modify, None, &mut g);
    assert_eq!(ev, None);
}

#[test]
fn other_kinds_yield_no_event() {
    let mut g = WriteGuard::new();
    let ev = process_notification(
        "/ws",
        "/ws/a.md",
        RawEventKind::Other,
        Some(QUALIFYING),
        &mut g,
    );
    assert_eq!(ev, None);
}

#[test]
fn hidden_or_foreign_files_are_filtered_before_the_guard() {
    let mut g = WriteGuard::new();
    g.mark("/ws/.a.md");
    assert_eq!(
        process_notification("/ws", "/ws/.a.md", RawEventKind::Modify, Some(QUALIFYING), &mut g),
        None
    );
    // the filter fired before the guard: the mark is still unspent
    assert!(g.consume("/ws/.a.md"));
    assert_eq!(
        process_notification("/ws", "/ws/b.txt", RawEventKind::Modify, Some(QUALIFYING), &mut g),
        None
    );
}

#[test]
fn paths_outside_the_root_are_dropped() {
    let mut g = WriteGuard::new();
    assert_eq!(
        process_notification("/ws", "/elsewhere/a.md", RawEventKind::Modify, Some(QUALIFYING), &mut g),
        None
    );
    assert_eq!(
        process_notification("/ws", "a.md", RawEventKind::Modify, Some(QUALIFYING), &mut g),
        None
    );
}

#[test]
fn skipped_segments_are_dropped() {
    let mut g = WriteGuard::new();
    assert_eq!(
        process_notification(
            "/ws",
            "/ws/node_modules/a.md",
            RawEventKind::Modify,
            Some(QUALIFYING),
            &mut g,
        ),
        None
    );
    assert_eq!(
        process_notification(
            "/ws",
            "/ws/.hidden/a.md",
            RawEventKind::Modify,
            Some(QUALIFYING),
            &mut g,
        ),
        None
    );
}

#[test]
fn file_named_like_a_deny_listed_directory_still_passes() {
    // the skip policy matches whole names: "node_modules.md" is a file name,
    // not the deny-listed directory
    let mut g = WriteGuard::new();
    let ev = process_notification(
        "/ws",
        "/ws/node_modules.md",
        RawEventKind::Modify,
        Some(QUALIFYING),
        &mut g,
    );
    assert_eq!(ev, modified("node_modules.md"));
}

#[test]
fn relative_paths_are_slash_normalized() {
    let mut g = WriteGuard::new();
    let ev = process_notification(
        "/ws",
        "/ws/dir\\sub\\a.md",
        RawEventKind::Modify,
        Some(QUALIFYING),
        &mut g,
    );
    assert_eq!(ev, modified("dir/sub/a.md"));
}

#[test]
fn second_start_replaces_the_first_session() {
    let mut s = WatchSession::new();
    assert!(!s.is_watching());
    s.start("/ws/rootA".to_string(), true);
    assert!(s.is_watching());
    s.start("/ws/rootB".to_string(), true);
    assert!(s.is_watching());
    assert_eq!(s.current_root().unwrap(), "/ws/rootB");
}

#[test]
fn failed_start_leaves_the_session_idle() {
    let mut s = WatchSession::new();
    s.start("/ws/rootA".to_string(), true);
    s.start("/does/not/exist".to_string(), false);
    assert!(!s.is_watching());
    assert_eq!(s.current_root(), None);
}

#[test]
fn stop_is_idempotent() {
    let mut s = WatchSession::new();
    s.start("/ws".to_string(), true);
    s.stop();
    assert!(!s.is_watching());
    s.stop();
    assert!(!s.is_watching());
}
