use egui_samplers::axis::RawScalar;
use egui_samplers::axis::TickInstant;
use egui_samplers::memory::TimeseriesPlotMemory;
use egui_samplers::plot::{TimeseriesLine, TimeseriesPlot};
use egui_samplers::sample::Sample;

fn ticks(t: u64) -> TickInstant {
    TickInstant::new(t)
}

#[test]
fn build_renders_every_line_with_its_metadata() {
    let mut mem: TimeseriesPlotMemory<TickInstant> = TimeseriesPlotMemory::new("plot".to_string());
    let r = TimeseriesPlot::new(8, 1_000)
        .line(
            TimeseriesLine::new("volts".to_string()).unit("V".to_string()),
            vec![(ticks(100), 10), (ticks(200), 20)],
        )
        .line(
            TimeseriesLine::new("amps".to_string()).unit("A".to_string()),
            vec![(ticks(150), 5)],
        )
        .build(&mut mem);
    assert_eq!(r.lines.len(), 2);
    assert_eq!(r.lines[0].name.as_str(), "volts");
    assert_eq!(r.lines[0].unit.as_str(), "V");
    assert_eq!(r.lines[1].name.as_str(), "amps");
    assert_eq!(r.lines[1].unit.as_str(), "A");
}

#[test]
fn lines_share_one_origin_and_one_window() {
    let mut mem: TimeseriesPlotMemory<TickInstant> = TimeseriesPlotMemory::new("plot".to_string());
    let r = TimeseriesPlot::new(8, 10_000)
        .line(
            TimeseriesLine::new("a".to_string()),
            vec![(ticks(1_000), 1), (ticks(1_500), 2)],
        )
        .line(
            TimeseriesLine::new("b".to_string()),
            vec![(ticks(1_200), 3), (ticks(2_000), 4)],
        )
        .build(&mut mem);
    // The first line's first timestamp became the plot-wide origin;
    // the second line did not silently create another one.
    assert_eq!(mem.current_origin(), Some(ticks(1_000)));
    assert_eq!(r.lines[0].reduced.points, vec![Sample::new(0, 1), Sample::new(500, 2)]);
    assert_eq!(r.lines[1].reduced.points, vec![Sample::new(200, 3), Sample::new(1_000, 4)]);
    // The tracking window ends at the newest coordinate of any line,
    // and both lines were reduced against that one window.
    assert_eq!(r.window_hi, 1_000);
    assert_eq!(r.window_lo, 1_000 - 10_000);
}

#[test]
fn same_identity_across_three_frames_reuses_the_memory() {
    let mut store: Vec<(String, TimeseriesPlotMemory<TickInstant>)> = Vec::new();
    let mut origins = Vec::new();
    let mut first_xs = Vec::new();
    for frame in 0..3u64 {
        // The host's identity-keyed store: created on first use of
        // "p1", then retrieved (not recreated) on every later frame.
        let id = "p1";
        if !store.iter().any(|(k, _)| k.as_str() == id) {
            store.push((id.to_string(), TimeseriesPlotMemory::new(id.to_string())));
        }
        let mem = &mut store.iter_mut().find(|(k, _)| k.as_str() == id).unwrap().1;
        // A growing sample set: each frame sees everything again plus
        // one more second of data.
        let mut series = Vec::new();
        for i in 0..=frame {
            series.push((ticks(5_000 + 1_000 * i), i as i64));
        }
        let r = TimeseriesPlot::new(16, 60_000)
            .line(TimeseriesLine::new("sensor".to_string()), series)
            .build(mem);
        origins.push(mem.current_origin());
        first_xs.push(r.lines[0].reduced.points[0].x);
    }
    // The origin was established on the first frame and never reset,
    // so every frame's first sample normalizes to the same zero point.
    assert_eq!(origins, vec![Some(ticks(5_000)); 3]);
    assert_eq!(first_xs, vec![0, 0, 0]);
}

#[test]
fn pinned_window_clips_lines_to_the_pinned_range() {
    let mut mem: TimeseriesPlotMemory<TickInstant> = TimeseriesPlotMemory::new("plot".to_string());
    // Establish the origin in a first frame.
    TimeseriesPlot::new(4, 100)
        .line(TimeseriesLine::new("a".to_string()), vec![(ticks(0), 0)])
        .build(&mut mem);
    mem.pin(10, 20);
    let r = TimeseriesPlot::new(4, 100)
        .line(
            TimeseriesLine::new("a".to_string()),
            vec![(ticks(0), 0), (ticks(15), 1), (ticks(30), 2)],
        )
        .build(&mut mem);
    assert_eq!((r.window_lo, r.window_hi), (10, 20));
    assert_eq!(r.lines[0].reduced.points, vec![Sample::new(15, 1)]);
    assert_eq!(r.lines[0].reduced.left_edge, Some(Sample::new(0, 0)));
    assert_eq!(r.lines[0].reduced.right_edge, Some(Sample::new(30, 2)));
}

#[test]
fn raw_numeric_axis_plots_identity_coordinates_without_an_origin() {
    let mut mem: TimeseriesPlotMemory<RawScalar> = TimeseriesPlotMemory::new("raw".to_string());
    let r = TimeseriesPlot::new(8, 100)
        .line(
            TimeseriesLine::new("raw".to_string()),
            vec![(RawScalar::new(-20), 1), (RawScalar::new(30), 2)],
        )
        .build(&mut mem);
    // Raw coordinates are plotted as they are; the origin slot is
    // never touched by a raw numeric axis.
    assert_eq!(mem.current_origin(), None);
    assert_eq!(r.lines[0].reduced.points, vec![Sample::new(-20, 1), Sample::new(30, 2)]);
    assert_eq!(r.window_hi, 30);
}

#[test]
fn empty_plot_builds_an_empty_description() {
    let mut mem: TimeseriesPlotMemory<TickInstant> = TimeseriesPlotMemory::new("plot".to_string());
    let r: egui_samplers::plot::RenderDescription =
        TimeseriesPlot::<TickInstant>::new(4, 100).build(&mut mem);
    assert!(r.lines.is_empty());
    assert_eq!(mem.current_origin(), None);
    assert_eq!((r.window_lo, r.window_hi), (-100, 0));
}
