use stele::session::{Watch, RESIZE_BURST_MAX_MS, RESIZE_DEBOUNCE_MS, WATCH_POLL_INTERVAL_MS};

#[test]
fn the_wait_shrinks_as_the_interval_is_used_up() {
    let watch = Watch::new(true, 0, 1_000);
    assert_eq!(watch.until_next_tick(1_000), WATCH_POLL_INTERVAL_MS);
    assert_eq!(watch.until_next_tick(1_100), 150);
    assert_eq!(watch.until_next_tick(1_250), 0);
    assert_eq!(watch.until_next_tick(9_000), 0);
    // A clock that reads earlier than the last tick has seen no time pass.
    assert_eq!(watch.until_next_tick(500), WATCH_POLL_INTERVAL_MS);
}

#[test]
fn a_tick_is_owed_on_the_clock_and_restarts_the_interval() {
    let mut watch = Watch::new(true, 0, 1_000);
    assert!(!watch.tick_due(1_249));
    assert!(watch.tick_due(1_250));
    assert!(!watch.tick_due(1_300));
    assert_eq!(watch.until_next_tick(1_300), 200);
    assert!(watch.tick_due(1_500));
}

#[test]
fn without_watch_no_tick_is_ever_owed() {
    let mut watch = Watch::new(false, 0, 0);
    assert!(!watch.enabled());
    assert!(!watch.tick_due(1_000_000));
}

#[test]
fn a_resize_drain_never_outlasts_the_debounce_the_burst_or_the_tick() {
    let watch = Watch::new(true, 0, 1_000);
    // Fresh interval, fresh burst: the debounce quantum.
    assert_eq!(watch.debounce_wait(1_000, 1_000 + RESIZE_BURST_MAX_MS), RESIZE_DEBOUNCE_MS);
    // The burst's ceiling is near.
    assert_eq!(watch.debounce_wait(1_000, 1_020), 20);
    // The tick is nearer still.
    assert_eq!(watch.debounce_wait(1_230, 1_400), 20);
    // A deadline has passed: stop collecting.
    assert_eq!(watch.debounce_wait(1_250, 1_400), 0);
    assert_eq!(watch.debounce_wait(1_100, 1_050), 0);
    // Without --watch only the debounce and the burst bound it.
    let idle = Watch::new(false, 0, 1_000);
    assert_eq!(idle.debounce_wait(1_240, 1_400), RESIZE_DEBOUNCE_MS);
}

#[test]
fn a_failure_that_persists_is_reported_once() {
    let mut watch = Watch::new(true, 5, 0);
    let shown = watch.reload_failed("could not read file: gone");
    assert_eq!(shown.as_deref(), Some("reload failed: could not read file: gone"));
    assert_eq!(watch.reload_failed("could not read file: gone"), None);
    // Another reason is news.
    assert_eq!(
        watch.reload_failed("file is not valid UTF-8").as_deref(),
        Some("reload failed: file is not valid UTF-8")
    );
    // A success clears it, so the same failure afterwards is news again.
    watch.reloaded(300);
    assert_eq!(watch.loaded_at(), 300);
    assert!(watch.reload_failed("file is not valid UTF-8").is_some());
}

#[test]
fn a_failed_reload_keeps_the_load_time() {
    let mut watch = Watch::new(true, 5, 0);
    watch.reload_failed("missing");
    assert_eq!(watch.loaded_at(), 5);
}
