//! Min/max envelope decimation.
//!
//! Given one line's normalized samples, a visible window `[lo, hi]` and a
//! target bucket count `b`, the reducer partitions the window into `b`
//! equal-width buckets and keeps, for every bucket that received at least
//! one sample, the bucket's extreme values.  The output is therefore at
//! most `2 * b` points long however many samples came in, yet every
//! visually significant spike or dropout survives, because a bucket's
//! true minimum and true maximum always appear in the output.
//!
//! When the window holds no more samples than there are buckets, the
//! samples are passed through unchanged: decimation never increases the
//! point count.  Samples just outside the window are not discarded
//! entirely: the nearest neighbour on each side is reported separately,
//! so the rendered polyline can continue to the viewport edge instead of
//! being clipped flat.

use vstd::prelude::*;

use crate::sample::Sample;
use vstd::arithmetic::div_mod::lemma_div_is_ordered;
use vstd::arithmetic::div_mod::lemma_fundamental_div_mod;

verus! {

/// True when the sample lies inside the visible window `[lo, hi]`.
pub open spec fn in_window(s: Sample, lo: int, hi: int) -> bool {
    lo <= s.x <= hi
}

/// The subsequence of `s` that lies inside the window, in input order.
pub open spec fn window_of(s: Seq<Sample>, lo: int, hi: int) -> Seq<Sample>
    decreases s.len(),
{
    if s.len() == 0 {
        Seq::empty()
    } else {
        let rest = window_of(s.drop_last(), lo, hi);
        if in_window(s.last(), lo, hi) {
            rest.push(s.last())
        } else {
            rest
        }
    }
}

/// The bucket index an in-window coordinate falls into when `[lo, hi]`
/// is split into `b` equal-width buckets.  The window's upper end, and a
/// zero-width window altogether, count into the last bucket.
pub open spec fn bucket_of(x: int, lo: int, hi: int, b: int) -> int {
    if x >= hi {
        b - 1
    } else {
        ((x - lo) * b) / (hi - lo)
    }
}

/// The subsequence of the in-window samples `w` that falls into bucket
/// `k`, in input order.
pub open spec fn bucket_seq(w: Seq<Sample>, lo: int, hi: int, b: int, k: int) -> Seq<Sample>
    decreases w.len(),
{
    if w.len() == 0 {
        Seq::empty()
    } else {
        let rest = bucket_seq(w.drop_last(), lo, hi, b, k);
        if bucket_of(w.last().x as int, lo, hi, b) == k {
            rest.push(w.last())
        } else {
            rest
        }
    }
}

/// The least Y value of a non-empty sample sequence.
pub open spec fn min_y_of(s: Seq<Sample>) -> int
    recommends
        s.len() > 0,
    decreases s.len(),
{
    if s.len() <= 1 {
        s[0].y as int
    } else {
        let m = min_y_of(s.drop_last());
        if s.last().y < m {
            s.last().y as int
        } else {
            m
        }
    }
}

/// The greatest Y value of a non-empty sample sequence.
pub open spec fn max_y_of(s: Seq<Sample>) -> int
    recommends
        s.len() > 0,
    decreases s.len(),
{
    if s.len() <= 1 {
        s[0].y as int
    } else {
        let m = max_y_of(s.drop_last());
        if s.last().y > m {
            s.last().y as int
        } else {
            m
        }
    }
}

/// How many output points were assigned to bucket `k`.
pub open spec fn bucket_points_count(points: Seq<Sample>, lo: int, hi: int, b: int, k: int) -> int
    decreases points.len(),
{
    if points.len() == 0 {
        0
    } else {
        bucket_points_count(points.drop_last(), lo, hi, b, k) + if bucket_of(
            points.last().x as int,
            lo,
            hi,
            b,
        ) == k {
            1int
        } else {
            0int
        }
    }
}

/// How many points a non-empty bucket owes the decimated output: one
/// when a single Y value attains both extremes, two otherwise.
pub open spec fn owed_points(w: Seq<Sample>, lo: int, hi: int, b: int, k: int) -> int {
    let bs = bucket_seq(w, lo, hi, b, k);
    if bs.len() == 0 {
        0
    } else if min_y_of(bs) == max_y_of(bs) {
        1
    } else {
        2
    }
}

/// How appending one point changes every bucket's output count.
proof fn lemma_count_push(points: Seq<Sample>, lo: int, hi: int, b: int, v: Sample)
    ensures
        forall|k: int| #[trigger] bucket_points_count(points.push(v), lo, hi, b, k)
            == bucket_points_count(points, lo, hi, b, k) + if bucket_of(v.x as int, lo, hi, b)
            == k {
            1int
        } else {
            0int
        },
{
    assert(points.push(v).drop_last() =~= points);
    assert(points.push(v).last() == v);
}

/// The distance between two Y values.
pub open spec fn y_dist(a: int, c: int) -> int {
    if a >= c {
        a - c
    } else {
        c - a
    }
}

/// The index in `w`, at or after `t`, of the first sample assigned to
/// bucket `k` with Y value `yv`; `w.len()` when there is none.
pub open spec fn first_idx_from(
    w: Seq<Sample>,
    lo: int,
    hi: int,
    b: int,
    k: int,
    yv: int,
    t: int,
) -> int
    decreases w.len() - t,
{
    if t < 0 || t >= w.len() {
        w.len() as int
    } else if bucket_of(w[t].x as int, lo, hi, b) == k && w[t].y == yv {
        t
    } else {
        first_idx_from(w, lo, hi, b, k, yv, t + 1)
    }
}

/// What bucket `k` adds to the decimated output, and the Y value the
/// polyline exits that bucket with.
///
/// An empty bucket adds nothing.  A bucket whose extremes coincide adds
/// the first sample attaining them, once.  Any other bucket adds the
/// first sample attaining its minimum and the first attaining its
/// maximum; the one nearer the incoming edge `prev` (its own exit Y
/// becoming the next bucket's incoming edge) comes first, ties and the
/// very first bucket falling to whichever extreme occurred earlier.
pub open spec fn bucket_emission(
    w: Seq<Sample>,
    lo: int,
    hi: int,
    b: int,
    k: int,
    prev: Option<int>,
) -> (Seq<Sample>, Option<int>) {
    let bs = bucket_seq(w, lo, hi, b, k);
    if bs.len() == 0 {
        (Seq::empty(), prev)
    } else {
        let mn = min_y_of(bs);
        let mx = max_y_of(bs);
        let imn = first_idx_from(w, lo, hi, b, k, mn, 0);
        let imx = first_idx_from(w, lo, hi, b, k, mx, 0);
        if mn == mx {
            (seq![w[imn]], Some(mn))
        } else {
            let min_first = match prev {
                Option::None => imn <= imx,
                Option::Some(py) => y_dist(py, mn) <= y_dist(py, mx),
            };
            if min_first {
                (seq![w[imn], w[imx]], Some(mx))
            } else {
                (seq![w[imx], w[imn]], Some(mn))
            }
        }
    }
}

/// The decimated output from bucket `k` rightwards, entering with the
/// incoming edge `prev`.
pub open spec fn emitted_from(
    w: Seq<Sample>,
    lo: int,
    hi: int,
    b: int,
    k: int,
    prev: Option<int>,
) -> Seq<Sample>
    decreases b - k,
{
    if k < 0 || k >= b {
        Seq::empty()
    } else {
        let step = bucket_emission(w, lo, hi, b, k, prev);
        step.0 + emitted_from(w, lo, hi, b, k + 1, step.1)
    }
}

/// An index that matches bucket `k` and value `yv`, with no earlier
/// match, is what [`first_idx_from`] finds.
proof fn lemma_first_idx(w: Seq<Sample>, lo: int, hi: int, b: int, k: int, yv: int, m: int, s: int)
    requires
        0 <= s <= m < w.len(),
        bucket_of(w[m].x as int, lo, hi, b) == k,
        w[m].y == yv,
        forall|t: int|
            0 <= t < m ==> !(bucket_of((#[trigger] w[t]).x as int, lo, hi, b) == k && w[t].y == yv),
    ensures
        first_idx_from(w, lo, hi, b, k, yv, s) == m,
    decreases m - s,
{
    if s < m {
        lemma_first_idx(w, lo, hi, b, k, yv, m, s + 1);
    }
}

/// A concrete previous-exit value as a specification-level one.
spec fn opt_y(o: Option<i64>) -> Option<int> {
    match o {
        Option::Some(v) => Some(v as int),
        Option::None => None,
    }
}

/// What the reducer reports about the samples beyond each window edge:
/// the nearest neighbour outside the window on each side, if any exists.
/// These keep the rendered polyline continuous across the viewport edge.
pub open spec fn edges_ok(
    samples: Seq<Sample>,
    lo: int,
    hi: int,
    left: Option<Sample>,
    right: Option<Sample>,
) -> bool {
    &&& (left is Some <==> exists|j: int| 0 <= j < samples.len() && samples[j].x < lo)
    &&& (match left {
        Option::Some(p) => samples.contains(p) && p.x < lo && forall|j: int|
            0 <= j < samples.len() && samples[j].x < lo ==> samples[j].x <= p.x,
        Option::None => true,
    })
    &&& (right is Some <==> exists|j: int| 0 <= j < samples.len() && samples[j].x > hi)
    &&& (match right {
        Option::Some(p) => samples.contains(p) && p.x > hi && forall|j: int|
            0 <= j < samples.len() && samples[j].x > hi ==> samples[j].x >= p.x,
        Option::None => true,
    })
}

/// The reducer's whole contract over one line.
///
/// With `w` the in-window subsequence of the input:
/// * the edge neighbours are as [`edges_ok`] says;
/// * the output never exceeds `2 * b` points;
/// * when `w` is no longer than `b`, the output is `w` unchanged;
/// * every output point is an in-window input sample;
/// * in the decimated case output points come in bucket order, and each
///   bucket contributes exactly the points it is owed: none when it
///   received no sample, a single point when one Y value attains both
///   of its extremes (never that point twice), two points otherwise;
/// * the decimated output is, point for point, the left-to-right
///   emission that [`bucket_emission`] prescribes, so the result is
///   fully determined;
/// * every bucket that received a sample is represented in the output by
///   its true minimum and its true maximum Y value.
pub open spec fn valid_reduction(
    samples: Seq<Sample>,
    lo: int,
    hi: int,
    b: int,
    points: Seq<Sample>,
    left: Option<Sample>,
    right: Option<Sample>,
) -> bool {
    let w = window_of(samples, lo, hi);
    &&& edges_ok(samples, lo, hi, left, right)
    &&& points.len() <= 2 * b
    &&& (w.len() <= b ==> points == w)
    &&& (forall|i: int| 0 <= i < points.len() ==> w.contains(#[trigger] points[i]))
    &&& (w.len() > b ==> forall|i: int, j: int|
        0 <= i <= j < points.len() ==> bucket_of(points[i].x as int, lo, hi, b) <= bucket_of(
            points[j].x as int,
            lo,
            hi,
            b,
        ))
    &&& (w.len() > b ==> forall|k: int|
        0 <= k < b ==> #[trigger] bucket_points_count(points, lo, hi, b, k) == owed_points(
            w,
            lo,
            hi,
            b,
            k,
        ))
    &&& (w.len() > b ==> points == emitted_from(w, lo, hi, b, 0, Option::<int>::None))
    &&& (forall|k: int|
        0 <= k < b && #[trigger] bucket_seq(w, lo, hi, b, k).len() > 0 ==> exists|i: int|
            0 <= i < points.len() && bucket_of(#[trigger] points[i].x as int, lo, hi, b) == k
                && points[i].y == min_y_of(bucket_seq(w, lo, hi, b, k)))
    &&& (forall|k: int|
        0 <= k < b && #[trigger] bucket_seq(w, lo, hi, b, k).len() > 0 ==> exists|i: int|
            0 <= i < points.len() && bucket_of(#[trigger] points[i].x as int, lo, hi, b) == k
                && points[i].y == max_y_of(bucket_seq(w, lo, hi, b, k)))
}

/// An in-window coordinate always lands in a bucket index inside
/// `[0, b)`.
pub proof fn lemma_bucket_of_range(x: int, lo: int, hi: int, b: int)
    requires
        lo <= x <= hi,
        b >= 1,
    ensures
        0 <= bucket_of(x, lo, hi, b) < b,
{
    if x >= hi {
    } else {
        let num = (x - lo) * b;
        let den = hi - lo;
        assert(den >= 1);
        assert(num >= 0) by (nonlinear_arith)
            requires
                num == (x - lo) * b,
                x >= lo,
                b >= 1,
        ;
        assert(num <= (den - 1) * b) by (nonlinear_arith)
            requires
                num == (x - lo) * b,
                x - lo <= den - 1,
                b >= 1,
        ;
        lemma_fundamental_div_mod(num, den);
        let q = num / den;
        let r = num % den;
        assert(0 <= r < den);
        assert(q >= 0) by (nonlinear_arith)
            requires
                num >= 0,
                den >= 1,
                num == den * q + r,
                0 <= r < den,
        ;
        assert(q < b) by (nonlinear_arith)
            requires
                num <= (den - 1) * b,
                den >= 1,
                b >= 1,
                num == den * q + r,
                0 <= r < den,
        ;
    }
}

/// The buckets partition the window exactly: every in-window
/// coordinate falls into one of the `b` buckets (see
/// [`lemma_bucket_of_range`]), and the assignment is monotone in the
/// coordinate, so buckets neither overlap nor leave gaps.
pub proof fn lemma_bucket_of_monotonic(x1: int, x2: int, lo: int, hi: int, b: int)
    requires
        lo <= x1 <= x2 <= hi,
        b >= 1,
    ensures
        bucket_of(x1, lo, hi, b) <= bucket_of(x2, lo, hi, b),
{
    lemma_bucket_of_range(x1, lo, hi, b);
    lemma_bucket_of_range(x2, lo, hi, b);
    if x1 < hi && x2 < hi {
        assert((x1 - lo) * b <= (x2 - lo) * b) by (nonlinear_arith)
            requires
                x1 <= x2,
                b >= 1,
        ;
        lemma_div_is_ordered((x1 - lo) * b, (x2 - lo) * b, hi - lo);
    }
}

/// The minimum and maximum of a non-empty sample sequence are attained
/// by elements of it and bound every element.
pub proof fn lemma_min_max_attained(s: Seq<Sample>)
    requires
        s.len() > 0,
    ensures
        exists|i: int| 0 <= i < s.len() && s[i].y == min_y_of(s),
        exists|i: int| 0 <= i < s.len() && s[i].y == max_y_of(s),
        forall|i: int| 0 <= i < s.len() ==> min_y_of(s) <= #[trigger] s[i].y <= max_y_of(s),
    decreases s.len(),
{
    if s.len() == 1 {
        assert(s[0].y == min_y_of(s));
        assert(s[0].y == max_y_of(s));
    } else {
        let rest = s.drop_last();
        lemma_min_max_attained(rest);
        assert(forall|i: int| 0 <= i < rest.len() ==> rest[i] == s[i]);
        if s.last().y < min_y_of(rest) {
            assert(s[s.len() - 1].y == min_y_of(s));
        } else {
            let j = choose|j: int| 0 <= j < rest.len() && rest[j].y == min_y_of(rest);
            assert(s[j].y == min_y_of(s));
        }
        if s.last().y > max_y_of(rest) {
            assert(s[s.len() - 1].y == max_y_of(s));
        } else {
            let j = choose|j: int| 0 <= j < rest.len() && rest[j].y == max_y_of(rest);
            assert(s[j].y == max_y_of(s));
        }
    }
}

/// Every element of a bucket's subsequence is an in-window sample of `w`
/// assigned to that bucket.
pub proof fn lemma_bucket_members(w: Seq<Sample>, lo: int, hi: int, b: int, k: int)
    ensures
        forall|i: int|
            0 <= i < bucket_seq(w, lo, hi, b, k).len() ==> w.contains(
                #[trigger] bucket_seq(w, lo, hi, b, k)[i],
            ) && bucket_of(bucket_seq(w, lo, hi, b, k)[i].x as int, lo, hi, b) == k,
    decreases w.len(),
{
    if w.len() == 0 {
    } else {
        let rest = w.drop_last();
        lemma_bucket_members(rest, lo, hi, b, k);
        let bs = bucket_seq(w, lo, hi, b, k);
        let bsr = bucket_seq(rest, lo, hi, b, k);
        assert forall|i: int| 0 <= i < bs.len() implies w.contains(#[trigger] bs[i]) && bucket_of(
            bs[i].x as int,
            lo,
            hi,
            b,
        ) == k by {
            if i < bsr.len() {
                assert(bs[i] == bsr[i]);
                assert(rest.contains(bsr[i]));
                let j = choose|j: int| 0 <= j < rest.len() && rest[j] == bsr[i];
                assert(w[j] == bs[i]);
            } else {
                assert(bs[i] == w.last());
                assert(w[w.len() - 1] == bs[i]);
            }
        }
    }
}

/// How appending one sample changes a bucket's minimum and maximum.
pub proof fn lemma_min_max_push(s: Seq<Sample>, v: Sample)
    ensures
        s.len() == 0 ==> min_y_of(s.push(v)) == v.y && max_y_of(s.push(v)) == v.y,
        s.len() > 0 ==> min_y_of(s.push(v)) == (if v.y < min_y_of(s) {
            v.y as int
        } else {
            min_y_of(s)
        }),
        s.len() > 0 ==> max_y_of(s.push(v)) == (if v.y > max_y_of(s) {
            v.y as int
        } else {
            max_y_of(s)
        }),
{
    assert(s.push(v).drop_last() =~= s);
    assert(s.push(v).last() == v);
    if s.len() == 0 {
        assert(s.push(v)[0] == v);
    }
}

/// A sequence that lies entirely inside the window passes through
/// [`window_of`] unchanged.
pub proof fn lemma_window_all_in(s: Seq<Sample>, lo: int, hi: int)
    requires
        forall|i: int| 0 <= i < s.len() ==> in_window(#[trigger] s[i], lo, hi),
    ensures
        window_of(s, lo, hi) == s,
    decreases s.len(),
{
    if s.len() == 0 {
        assert(window_of(s, lo, hi) =~= s);
    } else {
        let rest = s.drop_last();
        assert(forall|i: int| 0 <= i < rest.len() ==> rest[i] == s[i]);
        lemma_window_all_in(rest, lo, hi);
        assert(in_window(s[s.len() - 1], lo, hi));
        assert(window_of(s, lo, hi) =~= s);
    }
}

/// No-op decimation law: when every sample lies inside the window and
/// there are no more of them than buckets, a valid reduction's output is
/// the input unchanged, and there are no edge neighbours.
pub proof fn lemma_noop_decimation(
    samples: Seq<Sample>,
    lo: int,
    hi: int,
    b: int,
    points: Seq<Sample>,
    left: Option<Sample>,
    right: Option<Sample>,
)
    requires
        valid_reduction(samples, lo, hi, b, points, left, right),
        forall|i: int| 0 <= i < samples.len() ==> in_window(#[trigger] samples[i], lo, hi),
        samples.len() <= b,
    ensures
        points == samples,
        left is None,
        right is None,
{
    lemma_window_all_in(samples, lo, hi);
}

/// One line's reduction result: the in-window points (raw or decimated)
/// together with the nearest out-of-window neighbour on each side.
#[derive(Clone, Debug, PartialEq, Eq)]
pub struct ReducedLine {
    /// Nearest input sample left of the window, if any sample lies there.
    pub left_edge: Option<Sample>,
    /// The reduced in-window points.
    pub points: Vec<Sample>,
    /// Nearest input sample right of the window, if any sample lies there.
    pub right_edge: Option<Sample>,
}

/// A sample option as a zero- or one-element sequence.
pub open spec fn opt_to_seq(o: Option<Sample>) -> Seq<Sample> {
    match o {
        Option::Some(p) => seq![p],
        Option::None => Seq::empty(),
    }
}

impl ReducedLine {
    /// The full polyline to paint: the nearest left neighbour, then the
    /// reduced in-window points, then the nearest right neighbour, so a
    /// segment crossing the viewport edge is not clipped flat.
    pub fn polyline(&self) -> (r: Vec<Sample>)
        ensures
            r@ == opt_to_seq(self.left_edge) + self.points@ + opt_to_seq(self.right_edge),
    {
        let mut r: Vec<Sample> = Vec::new();
        if let Option::Some(p) = self.left_edge {
            r.push(p);
        }
        let mut i: usize = 0;
        while i < self.points.len()
            invariant
                i <= self.points@.len(),
                r@ == opt_to_seq(self.left_edge) + self.points@.take(i as int),
            decreases self.points@.len() - i,
        {
            r.push(self.points[i]);
            proof {
                assert(self.points@.take(i as int).push(self.points@[i as int]) =~= self.points@.take(
                    i as int + 1,
                ));
                assert(r@ =~= opt_to_seq(self.left_edge) + self.points@.take(i as int + 1));
            }
            i = i + 1;
        }
        proof {
            assert(self.points@.take(self.points@.len() as int) =~= self.points@);
        }
        if let Option::Some(p) = self.right_edge {
            r.push(p);
        }
        proof {
            assert(r@ =~= opt_to_seq(self.left_edge) + self.points@ + opt_to_seq(self.right_edge));
        }
        r
    }
}

/// Splits the input into the in-window subsequence and the nearest
/// out-of-window neighbour on each side, in one pass and in order.
#[verifier::loop_isolation(false)]
fn split_window(samples: &Vec<Sample>, lo: i64, hi: i64) -> (r: (
    Vec<Sample>,
    Option<Sample>,
    Option<Sample>,
))
    requires
        lo <= hi,
    ensures
        r.0@ == window_of(samples@, lo as int, hi as int),
        edges_ok(samples@, lo as int, hi as int, r.1, r.2),
        forall|t: int| 0 <= t < r.0@.len() ==> in_window(#[trigger] r.0@[t], lo as int, hi as int),
{
    let ghost wlo = lo as int;
    let ghost whi = hi as int;
    let mut win: Vec<Sample> = Vec::new();
    let mut left: Option<Sample> = None;
    let mut right: Option<Sample> = None;
    let ghost mut li: int = 0;
    let ghost mut ri: int = 0;
    let mut i: usize = 0;
    proof {
        assert(samples@.take(0) =~= Seq::<Sample>::empty());
    }
    while i < samples.len()
        invariant
            i <= samples@.len(),
            win@ == window_of(samples@.take(i as int), wlo, whi),
            forall|t: int| 0 <= t < win@.len() ==> in_window(#[trigger] win@[t], wlo, whi),
            left is Some <==> exists|j: int| 0 <= j < i && (#[trigger] samples@[j]).x < wlo,
            left matches Some(p) ==> 0 <= li < i && samples@[li] == p && p.x < wlo,
            left matches Some(p) ==> forall|j: int|
                0 <= j < i && (#[trigger] samples@[j]).x < wlo ==> samples@[j].x <= p.x,
            right is Some <==> exists|j: int| 0 <= j < i && (#[trigger] samples@[j]).x > whi,
            right matches Some(p) ==> 0 <= ri < i && samples@[ri] == p && p.x > whi,
            right matches Some(p) ==> forall|j: int|
                0 <= j < i && (#[trigger] samples@[j]).x > whi ==> samples@[j].x >= p.x,
        decreases samples@.len() - i,
    {
        let s_i = samples[i];
        proof {
            assert(samples@.take(i as int + 1).drop_last() =~= samples@.take(i as int));
            assert(samples@.take(i as int + 1).last() == samples@[i as int]);
            if in_window(s_i, wlo, whi) {
                assert(window_of(samples@.take(i as int + 1), wlo, whi) == window_of(
                    samples@.take(i as int),
                    wlo,
                    whi,
                ).push(s_i));
            } else {
                assert(window_of(samples@.take(i as int + 1), wlo, whi) == window_of(
                    samples@.take(i as int),
                    wlo,
                    whi,
                ));
            }
        }
        if s_i.x < lo {
            match left {
                Option::Some(p) => {
                    if s_i.x >= p.x {
                        left = Some(s_i);
                        proof {
                            li = i as int;
                        }
                    }
                },
                Option::None => {
                    left = Some(s_i);
                    proof {
                        li = i as int;
                    }
                },
            }
        } else if s_i.x > hi {
            match right {
                Option::Some(p) => {
                    if s_i.x <= p.x {
                        right = Some(s_i);
                        proof {
                            ri = i as int;
                        }
                    }
                },
                Option::None => {
                    right = Some(s_i);
                    proof {
                        ri = i as int;
                    }
                },
            }
        } else {
            win.push(s_i);
        }
        i = i + 1;
    }
    proof {
        assert(samples@.take(samples@.len() as int) =~= samples@);
        if left is Some {
            let p = left->Some_0;
            assert(samples@.contains(p)) by {
                assert(samples@[li] == p);
            }
        }
        if right is Some {
            let p = right->Some_0;
            assert(samples@.contains(p)) by {
                assert(samples@[ri] == p);
            }
        }
    }
    (win, left, right)
}

/// What one accumulator entry must say about its bucket: present exactly
/// when the bucket received a sample, and then carrying the indices in
/// `w` of samples attaining the bucket's minimum and maximum Y.
spec fn bucket_entry_ok(
    w: Seq<Sample>,
    lo: int,
    hi: int,
    b: int,
    k: int,
    entry: Option<(usize, usize)>,
) -> bool {
    &&& (entry is Some <==> bucket_seq(w, lo, hi, b, k).len() > 0)
    &&& (match entry {
        Option::Some(pr) => {
            &&& pr.0 < w.len()
            &&& pr.1 < w.len()
            &&& bucket_of(w[pr.0 as int].x as int, lo, hi, b) == k
            &&& bucket_of(w[pr.1 as int].x as int, lo, hi, b) == k
            &&& w[pr.0 as int].y == min_y_of(bucket_seq(w, lo, hi, b, k))
            &&& w[pr.1 as int].y == max_y_of(bucket_seq(w, lo, hi, b, k))
            &&& (w[pr.0 as int].y == w[pr.1 as int].y ==> pr.0 == pr.1)
            &&& (forall|t: int|
                0 <= t < pr.0 ==> !(bucket_of((#[trigger] w[t]).x as int, lo, hi, b) == k && w[t].y
                    == w[pr.0 as int].y))
            &&& (forall|t: int|
                0 <= t < pr.1 ==> !(bucket_of((#[trigger] w[t]).x as int, lo, hi, b) == k && w[t].y
                    == w[pr.1 as int].y))
        },
        Option::None => true,
    })
}

/// A sample of `w` assigned to bucket `k` makes that bucket's
/// subsequence non-empty and lies between the bucket's extremes.
proof fn lemma_bucket_member_bounds(w: Seq<Sample>, lo: int, hi: int, b: int, k: int, t: int)
    requires
        0 <= t < w.len(),
        bucket_of(w[t].x as int, lo, hi, b) == k,
    ensures
        bucket_seq(w, lo, hi, b, k).len() > 0,
        min_y_of(bucket_seq(w, lo, hi, b, k)) <= w[t].y <= max_y_of(bucket_seq(w, lo, hi, b, k)),
    decreases w.len(),
{
    let rest = bucket_seq(w.drop_last(), lo, hi, b, k);
    if t == w.len() - 1 {
        lemma_min_max_push(rest, w.last());
        if rest.len() > 0 {
            lemma_min_max_attained(rest);
        }
    } else {
        lemma_bucket_member_bounds(w.drop_last(), lo, hi, b, k, t);
        assert(w.drop_last()[t] == w[t]);
        if bucket_of(w.last().x as int, lo, hi, b) == k {
            lemma_min_max_push(rest, w.last());
        }
    }
}

/// Streams the in-window samples once, accumulating for every bucket the
/// indices of the samples attaining its minimum and maximum Y value.
#[verifier::loop_isolation(false)]
fn fill_buckets(win: &Vec<Sample>, lo: i64, hi: i64, b: usize) -> (buckets: Vec<
    Option<(usize, usize)>,
>)
    requires
        lo <= hi,
        1 <= b <= 0xFFFF_FFFFusize,
        forall|t: int| 0 <= t < win@.len() ==> in_window(#[trigger] win@[t], lo as int, hi as int),
    ensures
        buckets@.len() == b,
        forall|k: int|
            0 <= k < b ==> bucket_entry_ok(
                win@,
                lo as int,
                hi as int,
                b as int,
                k,
                #[trigger] buckets@[k],
            ),
{
    let ghost wlo = lo as int;
    let ghost whi = hi as int;
    let ghost bb = b as int;
    let mut buckets: Vec<Option<(usize, usize)>> = Vec::new();
    while buckets.len() < b
        invariant
            buckets@.len() <= b,
            forall|k: int| 0 <= k < buckets@.len() ==> (#[trigger] buckets@[k]) is None,
        decreases b - buckets.len(),
    {
        buckets.push(None);
    }
    let mut j: usize = 0;
    proof {
        assert(win@.take(0) =~= Seq::<Sample>::empty());
    }
    while j < win.len()
        invariant
            j <= win@.len(),
            buckets@.len() == b,
            forall|k: int|
                0 <= k < bb ==> bucket_entry_ok(
                    win@.take(j as int),
                    wlo,
                    whi,
                    bb,
                    k,
                    #[trigger] buckets@[k],
                ),
            forall|k: int|
                0 <= k < bb ==> ((#[trigger] buckets@[k]) matches Some(pr) ==> pr.0 < j && pr.1
                    < j),
        decreases win@.len() - j,
    {
        let s_j = win[j];
        let k = bucket_index(s_j.x, lo, hi, b);
        proof {
            assert(win@.take(j as int + 1).drop_last() =~= win@.take(j as int));
            assert(win@.take(j as int + 1).last() == win@[j as int]);
            assert forall|kk: int| 0 <= kk < bb && kk != k as int implies bucket_seq(
                win@.take(j as int + 1),
                wlo,
                whi,
                bb,
                kk,
            ) == bucket_seq(win@.take(j as int), wlo, whi, bb, kk) by {}
            assert(bucket_seq(win@.take(j as int + 1), wlo, whi, bb, k as int) == bucket_seq(
                win@.take(j as int),
                wlo,
                whi,
                bb,
                k as int,
            ).push(s_j));
            lemma_min_max_push(bucket_seq(win@.take(j as int), wlo, whi, bb, k as int), s_j);
            assert(forall|t: int| 0 <= t < j ==> win@.take(j as int + 1)[t] == win@[t]);
        }
        let cur = buckets[k];
        proof {
            match cur {
                Option::None => {
                    assert forall|t: int| 0 <= t < j implies !(bucket_of(
                        (#[trigger] win@[t]).x as int,
                        wlo,
                        whi,
                        bb,
                    ) == k as int && win@[t].y == s_j.y) by {
                        if bucket_of(win@[t].x as int, wlo, whi, bb) == k as int {
                            assert(win@.take(j as int)[t] == win@[t]);
                            lemma_bucket_member_bounds(
                                win@.take(j as int),
                                wlo,
                                whi,
                                bb,
                                k as int,
                                t,
                            );
                        }
                    }
                },
                Option::Some(pr) => {
                    if s_j.y < win@[pr.0 as int].y || s_j.y > win@[pr.1 as int].y {
                        assert forall|t: int| 0 <= t < j implies !(bucket_of(
                            (#[trigger] win@[t]).x as int,
                            wlo,
                            whi,
                            bb,
                        ) == k as int && win@[t].y == s_j.y) by {
                            if bucket_of(win@[t].x as int, wlo, whi, bb) == k as int {
                                assert(win@.take(j as int)[t] == win@[t]);
                                lemma_bucket_member_bounds(
                                    win@.take(j as int),
                                    wlo,
                                    whi,
                                    bb,
                                    k as int,
                                    t,
                                );
                            }
                        }
                    }
                },
            }
        }
        let nv: (usize, usize) = match cur {
            Option::None => (j, j),
            Option::Some(pr) => {
                let mi = if s_j.y < win[pr.0].y {
                    j
                } else {
                    pr.0
                };
                let ma = if s_j.y > win[pr.1].y {
                    j
                } else {
                    pr.1
                };
                (mi, ma)
            },
        };
        buckets[k] = Some(nv);
        j = j + 1;
    }
    proof {
        assert(win@.take(win@.len() as int) =~= win@);
    }
    buckets
}

/// Walks the buckets left to right and emits each non-empty bucket's
/// extremes: one point when a single sample attains both, otherwise the
/// two extreme points, ordered so that the first emitted one is the one
/// nearer to the previously emitted Y value (the incoming polyline
/// edge); the first bucket emits its extremes in chronological order.
#[verifier::loop_isolation(false)]
fn emit_buckets(win: &Vec<Sample>, buckets: &Vec<Option<(usize, usize)>>, lo: i64, hi: i64) -> (
    points: Vec<Sample>)
    requires
        1 <= buckets@.len() <= 0xFFFF_FFFFusize,
        forall|k: int|
            0 <= k < buckets@.len() ==> bucket_entry_ok(
                win@,
                lo as int,
                hi as int,
                buckets@.len() as int,
                k,
                #[trigger] buckets@[k],
            ),
    ensures
        points@.len() <= 2 * buckets@.len(),
        forall|i: int| 0 <= i < points@.len() ==> win@.contains(#[trigger] points@[i]),
        forall|i: int, j: int|
            0 <= i <= j < points@.len() ==> bucket_of(
                points@[i].x as int,
                lo as int,
                hi as int,
                buckets@.len() as int,
            ) <= bucket_of(points@[j].x as int, lo as int, hi as int, buckets@.len() as int),
        forall|k: int|
            0 <= k < buckets@.len() && #[trigger] bucket_seq(
                win@,
                lo as int,
                hi as int,
                buckets@.len() as int,
                k,
            ).len() > 0 ==> exists|i: int|
                0 <= i < points@.len() && bucket_of(
                    #[trigger] points@[i].x as int,
                    lo as int,
                    hi as int,
                    buckets@.len() as int,
                ) == k && points@[i].y == min_y_of(
                    bucket_seq(win@, lo as int, hi as int, buckets@.len() as int, k),
                ),
        forall|k: int|
            0 <= k < buckets@.len() && #[trigger] bucket_seq(
                win@,
                lo as int,
                hi as int,
                buckets@.len() as int,
                k,
            ).len() > 0 ==> exists|i: int|
                0 <= i < points@.len() && bucket_of(
                    #[trigger] points@[i].x as int,
                    lo as int,
                    hi as int,
                    buckets@.len() as int,
                ) == k && points@[i].y == max_y_of(
                    bucket_seq(win@, lo as int, hi as int, buckets@.len() as int, k),
                ),
        forall|k: int|
            0 <= k < buckets@.len() ==> #[trigger] bucket_points_count(
                points@,
                lo as int,
                hi as int,
                buckets@.len() as int,
                k,
            ) == owed_points(win@, lo as int, hi as int, buckets@.len() as int, k),
        points@ == emitted_from(
            win@,
            lo as int,
            hi as int,
            buckets@.len() as int,
            0,
            Option::<int>::None,
        ),
{
    let b = buckets.len();
    let ghost wlo = lo as int;
    let ghost whi = hi as int;
    let ghost bb = b as int;
    let mut points: Vec<Sample> = Vec::new();
    let mut prev_y: Option<i64> = None;
    let mut k: usize = 0;
    while k < b
        invariant
            k <= b,
            points@.len() <= 2 * k,
            forall|i: int| 0 <= i < points@.len() ==> win@.contains(#[trigger] points@[i]),
            forall|i: int|
                0 <= i < points@.len() ==> 0 <= bucket_of(
                    (#[trigger] points@[i]).x as int,
                    wlo,
                    whi,
                    bb,
                ) < k,
            forall|i: int, j: int|
                0 <= i <= j < points@.len() ==> bucket_of(points@[i].x as int, wlo, whi, bb)
                    <= bucket_of(points@[j].x as int, wlo, whi, bb),
            forall|kk: int|
                0 <= kk < k && #[trigger] bucket_seq(win@, wlo, whi, bb, kk).len() > 0 ==> exists|
                    i: int,
                |
                    0 <= i < points@.len() && bucket_of(#[trigger] points@[i].x as int, wlo, whi, bb)
                        == kk && points@[i].y == min_y_of(bucket_seq(win@, wlo, whi, bb, kk)),
            forall|kk: int|
                0 <= kk < k && #[trigger] bucket_seq(win@, wlo, whi, bb, kk).len() > 0 ==> exists|
                    i: int,
                |
                    0 <= i < points@.len() && bucket_of(#[trigger] points@[i].x as int, wlo, whi, bb)
                        == kk && points@[i].y == max_y_of(bucket_seq(win@, wlo, whi, bb, kk)),
            forall|kk: int|
                0 <= kk < k ==> #[trigger] bucket_points_count(points@, wlo, whi, bb, kk)
                    == owed_points(win@, wlo, whi, bb, kk),
            forall|kk: int|
                k <= kk < bb ==> #[trigger] bucket_points_count(points@, wlo, whi, bb, kk) == 0,
            emitted_from(win@, wlo, whi, bb, 0, Option::<int>::None) == points@ + emitted_from(
                win@,
                wlo,
                whi,
                bb,
                k as int,
                opt_y(prev_y),
            ),
        decreases b - k,
    {
        let cur = buckets[k];
        let ghost old_points = points@;
        let ghost prev0 = prev_y;
        match cur {
            Option::None => {},
            Option::Some(pr) => {
                let pmin = win[pr.0];
                let pmax = win[pr.1];
                let ghost mut gmin: int = 0;
                let ghost mut gmax: int = 0;
                proof {
                    let bs = bucket_seq(win@, wlo, whi, bb, k as int);
                    lemma_first_idx(win@, wlo, whi, bb, k as int, min_y_of(bs), pr.0 as int, 0);
                    lemma_first_idx(win@, wlo, whi, bb, k as int, max_y_of(bs), pr.1 as int, 0);
                }
                if pr.0 == pr.1 {
                    points.push(pmin);
                    prev_y = Some(pmin.y);
                    proof {
                        gmin = points@.len() - 1;
                        gmax = gmin;
                        lemma_count_push(old_points, wlo, whi, bb, pmin);
                    }
                } else {
                    let min_first: bool = match prev_y {
                        Option::None => pr.0 <= pr.1,
                        Option::Some(py) => {
                            let d1: i128 = py as i128 - pmin.y as i128;
                            let a1: i128 = if d1 < 0 {
                                -d1
                            } else {
                                d1
                            };
                            let d2: i128 = py as i128 - pmax.y as i128;
                            let a2: i128 = if d2 < 0 {
                                -d2
                            } else {
                                d2
                            };
                            a1 <= a2
                        },
                    };
                    proof {
                        let bs = bucket_seq(win@, wlo, whi, bb, k as int);
                        assert(min_first == (match opt_y(prev0) {
                            Option::None => first_idx_from(
                                win@,
                                wlo,
                                whi,
                                bb,
                                k as int,
                                min_y_of(bs),
                                0,
                            ) <= first_idx_from(win@, wlo, whi, bb, k as int, max_y_of(bs), 0),
                            Option::Some(py) => y_dist(py, min_y_of(bs)) <= y_dist(
                                py,
                                max_y_of(bs),
                            ),
                        }));
                    }
                    if min_first {
                        points.push(pmin);
                        points.push(pmax);
                        prev_y = Some(pmax.y);
                        proof {
                            gmin = points@.len() - 2;
                            gmax = points@.len() - 1;
                            lemma_count_push(old_points, wlo, whi, bb, pmin);
                            lemma_count_push(old_points.push(pmin), wlo, whi, bb, pmax);
                        }
                    } else {
                        points.push(pmax);
                        points.push(pmin);
                        prev_y = Some(pmin.y);
                        proof {
                            gmax = points@.len() - 2;
                            gmin = points@.len() - 1;
                            lemma_count_push(old_points, wlo, whi, bb, pmax);
                            lemma_count_push(old_points.push(pmax), wlo, whi, bb, pmin);
                        }
                    }
                }
                proof {
                    assert(win@.contains(pmin)) by {
                        assert(win@[pr.0 as int] == pmin);
                    }
                    assert(win@.contains(pmax)) by {
                        assert(win@[pr.1 as int] == pmax);
                    }
                    assert(forall|i: int|
                        0 <= i < old_points.len() ==> points@[i] == old_points[i]);
                    assert(points@[gmin] == pmin);
                    assert(points@[gmax] == pmax);
                    assert(points@[gmin].y == min_y_of(bucket_seq(win@, wlo, whi, bb, k as int)));
                    assert(points@[gmax].y == max_y_of(bucket_seq(win@, wlo, whi, bb, k as int)));
                    assert(bucket_of(points@[gmin].x as int, wlo, whi, bb) == k as int);
                    assert(bucket_of(points@[gmax].x as int, wlo, whi, bb) == k as int);
                    let step = bucket_emission(win@, wlo, whi, bb, k as int, opt_y(prev0));
                    assert(points@ =~= old_points + step.0);
                    assert(opt_y(prev_y) == step.1);
                }
            },
        }
        proof {
            let step = bucket_emission(win@, wlo, whi, bb, k as int, opt_y(prev0));
            assert(emitted_from(win@, wlo, whi, bb, k as int, opt_y(prev0)) == step.0
                + emitted_from(win@, wlo, whi, bb, k as int + 1, step.1));
            assert(points@ =~= old_points + step.0);
            assert(opt_y(prev_y) == step.1);
            assert(old_points + emitted_from(win@, wlo, whi, bb, k as int, opt_y(prev0))
                =~= points@ + emitted_from(win@, wlo, whi, bb, k as int + 1, opt_y(prev_y)));
            assert forall|kk: int|
                0 <= kk < k + 1 && #[trigger] bucket_seq(win@, wlo, whi, bb, kk).len()
                    > 0 implies exists|i: int|
                0 <= i < points@.len() && bucket_of(#[trigger] points@[i].x as int, wlo, whi, bb)
                    == kk && points@[i].y == min_y_of(bucket_seq(win@, wlo, whi, bb, kk)) by {
                if kk < k {
                    let i = choose|i: int|
                        0 <= i < old_points.len() && bucket_of(old_points[i].x as int, wlo, whi, bb)
                            == kk && old_points[i].y == min_y_of(
                            bucket_seq(win@, wlo, whi, bb, kk),
                        );
                    assert(points@[i] == old_points[i]);
                } else {
                    assert(buckets@[kk] is Some);
                }
            }
            assert forall|kk: int|
                0 <= kk < k + 1 && #[trigger] bucket_seq(win@, wlo, whi, bb, kk).len()
                    > 0 implies exists|i: int|
                0 <= i < points@.len() && bucket_of(#[trigger] points@[i].x as int, wlo, whi, bb)
                    == kk && points@[i].y == max_y_of(bucket_seq(win@, wlo, whi, bb, kk)) by {
                if kk < k {
                    let i = choose|i: int|
                        0 <= i < old_points.len() && bucket_of(old_points[i].x as int, wlo, whi, bb)
                            == kk && old_points[i].y == max_y_of(
                            bucket_seq(win@, wlo, whi, bb, kk),
                        );
                    assert(points@[i] == old_points[i]);
                } else {
                    assert(buckets@[kk] is Some);
                }
            }
        }
        k = k + 1;
    }
    proof {
        assert(emitted_from(win@, wlo, whi, bb, bb, opt_y(prev_y)) =~= Seq::<Sample>::empty());
        assert(points@ =~= emitted_from(win@, wlo, whi, bb, 0, Option::<int>::None));
    }
    points
}

/// Reduces one line's normalized samples against the visible window
/// `[lo, hi]` and the target bucket count.
///
/// The whole behaviour is captured by [`valid_reduction`]: the in-window
/// samples pass through unchanged whenever they number no more than
/// `bucket_count` (decimation never increases the point count), and are
/// otherwise decimated to at most two points per bucket while every
/// bucket's true minimum and maximum Y survive.  The nearest neighbour
/// beyond each window edge is reported so the polyline is not clipped at
/// the viewport edge.  A zero-width window (`lo == hi`) acts as a single
/// bucket holding every sample with that exact coordinate.
pub fn reduce(samples: &Vec<Sample>, lo: i64, hi: i64, bucket_count: usize) -> (r: ReducedLine)
    requires
        lo <= hi,
        1 <= bucket_count <= 0xFFFF_FFFFusize,
    ensures
        valid_reduction(
            samples@,
            lo as int,
            hi as int,
            bucket_count as int,
            r.points@,
            r.left_edge,
            r.right_edge,
        ),
{
    let ghost wlo = lo as int;
    let ghost whi = hi as int;
    let ghost bb = bucket_count as int;
    let ghost w = window_of(samples@, wlo, whi);
    let (win, left, right) = split_window(samples, lo, hi);
    if win.len() <= bucket_count {
        proof {
            assert forall|k: int|
                0 <= k < bb && #[trigger] bucket_seq(w, wlo, whi, bb, k).len() > 0 implies exists|
                i: int,
            |
                0 <= i < win@.len() && bucket_of(#[trigger] win@[i].x as int, wlo, whi, bb) == k
                    && win@[i].y == min_y_of(bucket_seq(w, wlo, whi, bb, k)) by {
                let bs = bucket_seq(w, wlo, whi, bb, k);
                lemma_bucket_members(w, wlo, whi, bb, k);
                lemma_min_max_attained(bs);
                let jj = choose|jj: int| 0 <= jj < bs.len() && bs[jj].y == min_y_of(bs);
                assert(w.contains(bs[jj]));
                let t = choose|t: int| 0 <= t < w.len() && w[t] == bs[jj];
                assert(win@[t] == bs[jj]);
            }
            assert forall|k: int|
                0 <= k < bb && #[trigger] bucket_seq(w, wlo, whi, bb, k).len() > 0 implies exists|
                i: int,
            |
                0 <= i < win@.len() && bucket_of(#[trigger] win@[i].x as int, wlo, whi, bb) == k
                    && win@[i].y == max_y_of(bucket_seq(w, wlo, whi, bb, k)) by {
                let bs = bucket_seq(w, wlo, whi, bb, k);
                lemma_bucket_members(w, wlo, whi, bb, k);
                lemma_min_max_attained(bs);
                let jj = choose|jj: int| 0 <= jj < bs.len() && bs[jj].y == max_y_of(bs);
                assert(w.contains(bs[jj]));
                let t = choose|t: int| 0 <= t < w.len() && w[t] == bs[jj];
                assert(win@[t] == bs[jj]);
            }
        }
        ReducedLine { left_edge: left, points: win, right_edge: right }
    } else {
        let buckets = fill_buckets(&win, lo, hi, bucket_count);
        let points = emit_buckets(&win, &buckets, lo, hi);
        ReducedLine { left_edge: left, points, right_edge: right }
    }
}

/// Computes the bucket an in-window coordinate falls into.
fn bucket_index(x: i64, lo: i64, hi: i64, b: usize) -> (k: usize)
    requires
        lo <= x <= hi,
        1 <= b <= 0xFFFF_FFFFusize,
    ensures
        k as int == bucket_of(x as int, lo as int, hi as int, b as int),
        k < b,
{
    proof {
        lemma_bucket_of_range(x as int, lo as int, hi as int, b as int);
    }
    if x >= hi {
        b - 1
    } else {
        let dx: u128 = ((x as i128) - (lo as i128)) as u128;
        let den: u128 = ((hi as i128) - (lo as i128)) as u128;
        proof {
            assert(dx < 0x1_0000_0000_0000_0000u128);
            assert(dx * (b as u128) < 0x1_0000_0000_0000_0000_0000_0000u128) by (nonlinear_arith)
                requires
                    dx < 0x1_0000_0000_0000_0000u128,
                    b as u128 <= 0xFFFF_FFFFu128,
            ;
        }
        let num: u128 = dx * (b as u128);
        let q: u128 = num / den;
        proof {
            assert(num as int == (x as int - lo as int) * (b as int));
            assert(q as int == bucket_of(x as int, lo as int, hi as int, b as int));
            assert(q < b as u128);
        }
        q as usize
    }
}

} // verus!
