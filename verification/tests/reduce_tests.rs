use egui_samplers::reduce::{reduce, ReducedLine};
use egui_samplers::sample::Sample;

fn s(x: i64, y: i64) -> Sample {
    Sample::new(x, y)
}

fn ys(r: &ReducedLine) -> Vec<i64> {
    r.points.iter().map(|p| p.y).collect()
}

#[test]
fn small_input_passes_through_unchanged() {
    let samples = vec![s(0, 10), s(1, -5), s(2, 30), s(3, 7)];
    let r = reduce(&samples, 0, 3, 10);
    assert_eq!(r.points, samples);
    assert_eq!(r.left_edge, None);
    assert_eq!(r.right_edge, None);
}

#[test]
fn empty_input_emits_nothing() {
    let samples: Vec<Sample> = Vec::new();
    let r = reduce(&samples, 0, 100, 8);
    assert!(r.points.is_empty());
    assert_eq!(r.left_edge, None);
    assert_eq!(r.right_edge, None);
}

#[test]
fn output_never_exceeds_two_points_per_bucket() {
    let mut samples = Vec::new();
    for i in 0..10_000i64 {
        samples.push(s(i, (i * 37) % 1000 - 500));
    }
    let r = reduce(&samples, 0, 9_999, 16);
    assert!(r.points.len() <= 32);
}

#[test]
fn one_bucket_keeps_true_min_and_max() {
    // All four samples land in one bucket; the spike and the dropout
    // must both survive decimation.
    let samples = vec![s(0, 1_000), s(1, 9_000), s(2, -3_000), s(3, 2_000)];
    let r = reduce(&samples, 0, 3, 1);
    let out = ys(&r);
    assert!(out.contains(&9_000));
    assert!(out.contains(&-3_000));
    assert!(r.points.len() <= 2);
}

#[test]
fn single_sample_bucket_is_emitted_once_not_twice() {
    // Nine samples in the first bucket, one lone sample in the second.
    let mut samples = Vec::new();
    for i in 0..9i64 {
        samples.push(s(i, i * 100));
    }
    samples.push(s(19, 5_000));
    let r = reduce(&samples, 0, 19, 2);
    let lone: Vec<&Sample> = r.points.iter().filter(|p| p.x == 19).collect();
    assert_eq!(lone.len(), 1);
    assert_eq!(lone[0].y, 5_000);
}

#[test]
fn constant_bucket_is_emitted_once_even_with_many_samples() {
    // The first bucket holds five samples of one Y value: its minimum
    // equals its maximum, so it contributes one point, not that point
    // twice.  The second bucket varies and contributes exactly two.
    let mut samples = Vec::new();
    for i in 0..5i64 {
        samples.push(s(i, 777));
    }
    for i in 5..10i64 {
        samples.push(s(i, i * 10));
    }
    let r = reduce(&samples, 0, 9, 2);
    let first_bucket: Vec<&Sample> = r.points.iter().filter(|p| p.x < 5).collect();
    let second_bucket: Vec<&Sample> = r.points.iter().filter(|p| p.x >= 5).collect();
    assert_eq!(first_bucket.len(), 1);
    assert_eq!(first_bucket[0].y, 777);
    assert_eq!(second_bucket.len(), 2);
}

#[test]
fn zero_width_window_acts_as_a_single_bucket() {
    let samples = vec![s(5, 1), s(5, 9), s(5, -4), s(4, 100), s(6, 100)];
    let r = reduce(&samples, 5, 5, 3);
    let out = ys(&r);
    assert!(out.contains(&9));
    assert!(out.contains(&-4));
    assert_eq!(r.left_edge, Some(s(4, 100)));
    assert_eq!(r.right_edge, Some(s(6, 100)));
}

#[test]
fn nearest_out_of_window_neighbours_are_reported() {
    let samples = vec![
        s(-30, 1),
        s(-2, 2), // nearest left of the window
        s(0, 3),
        s(10, 4),
        s(12, 5), // nearest right of the window
        s(40, 6),
    ];
    let r = reduce(&samples, 0, 10, 4);
    assert_eq!(r.left_edge, Some(s(-2, 2)));
    assert_eq!(r.right_edge, Some(s(12, 5)));
    assert_eq!(r.points, vec![s(0, 3), s(10, 4)]);
}

#[test]
fn polyline_is_not_clipped_at_the_viewport_edge() {
    // A segment enters the window from just outside: the polyline must
    // start at the outside neighbour, not flat at the window edge.
    let samples = vec![s(-1, -500), s(1, 500), s(5, 600), s(9, 700)];
    let r = reduce(&samples, 0, 10, 8);
    let poly = r.polyline();
    assert_eq!(poly.first(), Some(&s(-1, -500)));
    assert_eq!(&poly[1..], &[s(1, 500), s(5, 600), s(9, 700)]);
}

#[test]
fn non_monotonic_x_is_tolerated() {
    let samples = vec![s(8, 1), s(2, 2), s(8, 3), s(2, 4), s(5, 5)];
    let r = reduce(&samples, 0, 9, 10);
    // Raw pass-through: order kept, nothing dropped, nothing reordered.
    assert_eq!(r.points, samples);
}

#[test]
fn boundary_sample_lands_in_the_last_bucket() {
    // x == hi belongs to the last bucket, never out of range.
    let mut samples = Vec::new();
    for i in 0..=10i64 {
        samples.push(s(i, i));
    }
    let r = reduce(&samples, 0, 10, 5);
    assert!(r.points.iter().any(|p| p.x == 10));
    assert_eq!(r.right_edge, None);
}

#[test]
fn decimated_output_keeps_left_to_right_bucket_order() {
    let mut samples = Vec::new();
    for i in 0..1_000i64 {
        samples.push(s(i, (i * 7919) % 2000 - 1000));
    }
    let r = reduce(&samples, 0, 999, 10);
    let xs: Vec<i64> = r.points.iter().map(|p| p.x).collect();
    // Points of later buckets come later; within a bucket order may
    // flip (min/max emission order), so compare bucket indices.
    let buckets: Vec<i64> = xs.iter().map(|x| x / 100).collect();
    let mut sorted = buckets.clone();
    sorted.sort();
    assert_eq!(buckets, sorted);
}

#[test]
fn first_bucket_emits_extremes_in_chronological_order() {
    // Max occurs before min in the first bucket: max must come first.
    let samples = vec![s(0, 900), s(1, -900), s(2, 0), s(3, 1), s(4, 2), s(5, 3), s(6, 4)];
    let r = reduce(&samples, 0, 6, 2);
    assert_eq!(r.points[0], s(0, 900));
    assert_eq!(r.points[1], s(1, -900));
}

#[test]
fn emission_order_follows_the_incoming_edge() {
    // First bucket exits at a low Y, so the second bucket must emit its
    // minimum first (nearer the incoming edge) and its maximum second.
    let samples = vec![
        s(0, 100),
        s(1, -800), // first bucket: 100 then -800, exit at -800
        s(5, 900),
        s(6, -700), // second bucket: nearer exit -800 is -700
        s(7, 0),
    ];
    let r = reduce(&samples, 0, 7, 2);
    assert_eq!(r.points[0], s(0, 100));
    assert_eq!(r.points[1], s(1, -800));
    assert_eq!(r.points[2], s(6, -700));
    assert_eq!(r.points[3], s(5, 900));
}

#[test]
fn equidistant_extremes_emit_the_minimum_first() {
    // The previous bucket exits at Y = 0 and the next bucket's extremes
    // are equally far from it: the tie falls to the minimum.
    let samples = vec![s(0, 0), s(4, 100), s(5, -100)];
    let r = reduce(&samples, 0, 7, 2);
    assert_eq!(r.points, vec![s(0, 0), s(5, -100), s(4, 100)]);
}

#[test]
fn sparse_dropouts_survive_heavy_decimation() {
    // 100_000 samples of a sinusoid around 1.4 with pseudo-noise, with
    // sparse all-zero dropouts injected, reduced 200:1 into 500
    // buckets: every bucket's minimum survives, so the zero dropouts
    // must still be visible in the output.
    let mut samples = Vec::new();
    let mut dropouts = 0usize;
    let mut state: u64 = 0x2545_F491_4F6C_DD1D;
    for i in 0..100_000i64 {
        // Small deterministic pseudo-noise in [-0.05, 0.05).
        state ^= state << 13;
        state ^= state >> 7;
        state ^= state << 17;
        let noise = ((state % 1000) as f64) / 10_000.0 - 0.05;
        let t = (i as f64) / 1_000.0;
        let y = 1.4 + (t * 0.02).sin() * (t * 0.5).sin() * (t * 0.3).sin() + noise;
        let y = if noise < -0.035 {
            dropouts += 1;
            0.0
        } else {
            y
        };
        samples.push(s(i, (y * 1000.0).round() as i64));
    }
    assert!(dropouts > 100);
    let r = reduce(&samples, 0, 99_999, 500);
    assert!(r.points.len() <= 1_000);
    assert!(r.points.iter().any(|p| p.y == 0));
}
