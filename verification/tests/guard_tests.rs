use strata_watch::guard::WriteGuard;

#[test]
fn consume_without_mark_reports_external() {
    let mut g = WriteGuard::new();
    assert!(!g.consume("/ws/a.md"));
}

#[test]
fn marked_path_suppresses_exactly_once() {
    let mut g = WriteGuard::new();
    g.mark("/ws/a.md");
    assert!(g.consume("/ws/a.md"));
    assert!(!g.consume("/ws/a.md"));
}

#[test]
fn marking_twice_is_idempotent() {
    let mut g = WriteGuard::new();
    g.mark("/ws/a.md");
    g.mark("/ws/a.md");
    assert!(g.consume("/ws/a.md"));
    assert!(!g.consume("/ws/a.md"));
}

#[test]
fn distinct_paths_are_tracked_separately() {
    let mut g = WriteGuard::new();
    g.mark("/ws/a.md");
    g.mark("/ws/b.md");
    assert!(!g.consume("/ws/c.md"));
    assert!(g.consume("/ws/b.md"));
    assert!(g.consume("/ws/a.md"));
    assert!(!g.consume("/ws/a.md"));
    assert!(!g.consume("/ws/b.md"));
}

#[test]
fn remarking_after_consume_suppresses_again() {
    let mut g = WriteGuard::new();
    g.mark("/ws/a.md");
    assert!(g.consume("/ws/a.md"));
    g.mark("/ws/a.md");
    assert!(g.consume("/ws/a.md"));
}
