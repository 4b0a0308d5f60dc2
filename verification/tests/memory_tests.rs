use egui_samplers::axis::TickInstant;
use egui_samplers::memory::TimeseriesPlotMemory;

#[test]
fn fresh_memory_is_uninitialized_and_tracking() {
    let m: TimeseriesPlotMemory<TickInstant> = TimeseriesPlotMemory::new("p1".to_string());
    assert_eq!(m.identity().as_str(), "p1");
    assert!(!m.has_origin());
    assert_eq!(m.current_origin(), None);
}

#[test]
fn first_normalize_establishes_the_origin_once() {
    let mut m: TimeseriesPlotMemory<TickInstant> = TimeseriesPlotMemory::new("p1".to_string());
    let r0 = m.normalize(TickInstant::new(2_000));
    assert_eq!(r0, 0);
    assert!(m.has_origin());
    assert_eq!(m.current_origin(), Some(TickInstant::new(2_000)));
    // A later, larger timestamp never replaces the origin.
    let r1 = m.normalize(TickInstant::new(2_750));
    assert_eq!(r1, 750);
    assert_eq!(m.current_origin(), Some(TickInstant::new(2_000)));
}

#[test]
fn tracking_window_follows_the_newest_coordinate() {
    let m: TimeseriesPlotMemory<TickInstant> = TimeseriesPlotMemory::new("p1".to_string());
    assert_eq!(m.view_window(10_000, 4_000), (6_000, 10_000));
    // The lower end clamps instead of underflowing.
    assert_eq!(m.view_window(i64::MIN + 5, 10), (i64::MIN, i64::MIN + 5));
}

#[test]
fn pinning_fixes_the_window_and_reset_releases_it() {
    let mut m: TimeseriesPlotMemory<TickInstant> = TimeseriesPlotMemory::new("p1".to_string());
    m.normalize(TickInstant::new(1));
    assert!(!m.pinned());
    m.pin(100, 900);
    assert!(m.pinned());
    // While pinned, the window ignores the newest data entirely.
    assert_eq!(m.view_window(1_000_000, 50), (100, 900));
    // Pinning leaves the origin alone.
    assert_eq!(m.current_origin(), Some(TickInstant::new(1)));
    m.reset();
    assert!(!m.pinned());
    assert_eq!(m.view_window(1_000_000, 50), (999_950, 1_000_000));
    assert_eq!(m.current_origin(), Some(TickInstant::new(1)));
}
