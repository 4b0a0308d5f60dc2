use egui_samplers::axis::{normalize_series, RawScalar, TickInstant, TimeseriesXAxis};

#[test]
fn tick_first_call_establishes_origin_and_returns_zero() {
    let mut origin: Option<TickInstant> = None;
    let r = TickInstant::new(5_000).to_scalar(&mut origin);
    assert_eq!(r, 0);
    assert_eq!(origin, Some(TickInstant::new(5_000)));
}

#[test]
fn tick_set_origin_is_never_mutated() {
    let mut origin: Option<TickInstant> = Some(TickInstant::new(1_000));
    let r = TickInstant::new(3_500).to_scalar(&mut origin);
    assert_eq!(r, 2_500);
    assert_eq!(origin, Some(TickInstant::new(1_000)));
}

#[test]
fn tick_normalize_origin_value_is_zero() {
    let mut origin: Option<TickInstant> = Some(TickInstant::new(7_777));
    let r = TickInstant::new(7_777).to_scalar(&mut origin);
    assert_eq!(r, 0);
    assert_eq!(origin, Some(TickInstant::new(7_777)));
}

#[test]
fn raw_scalar_is_identity_and_leaves_origin_alone() {
    let mut origin: Option<RawScalar> = None;
    let r = RawScalar::new(-42).to_scalar(&mut origin);
    assert_eq!(r, -42);
    assert_eq!(origin, None);

    let mut origin2: Option<RawScalar> = Some(RawScalar::new(10));
    let r2 = RawScalar::new(13).to_scalar(&mut origin2);
    assert_eq!(r2, 13);
    assert_eq!(origin2, Some(RawScalar::new(10)));
}

#[test]
fn normalize_series_threads_one_origin_through_all_samples() {
    let series = vec![
        (TickInstant::new(100), 1),
        (TickInstant::new(150), 2),
        (TickInstant::new(260), 3),
    ];
    let mut origin: Option<TickInstant> = None;
    let out = normalize_series(&series, &mut origin);
    let xs: Vec<i64> = out.iter().map(|s| s.x).collect();
    let ys: Vec<i64> = out.iter().map(|s| s.y).collect();
    assert_eq!(xs, vec![0, 50, 160]);
    assert_eq!(ys, vec![1, 2, 3]);
    assert_eq!(origin, Some(TickInstant::new(100)));
}

#[test]
fn two_series_share_the_first_origin() {
    let first = vec![(TickInstant::new(400), 1), (TickInstant::new(500), 2)];
    let second = vec![(TickInstant::new(450), 7), (TickInstant::new(600), 8)];
    let mut origin: Option<TickInstant> = None;
    let out1 = normalize_series(&first, &mut origin);
    // The second series must not establish a new origin of its own:
    // its coordinates are distances from the first series' first value.
    let out2 = normalize_series(&second, &mut origin);
    assert_eq!(origin, Some(TickInstant::new(400)));
    assert_eq!(out1[0].x, 0);
    assert_eq!(out2[0].x, 50);
    assert_eq!(out2[1].x, 200);
}
