//! X-axis normalization.
//!
//! A plot accepts heterogeneous X value types: monotonic timestamps and
//! raw numeric coordinates.  Each such type converts itself into a common
//! scalar plot coordinate relative to a lazily established origin: the
//! first timestamp a plot ever sees becomes the zero point, and every
//! later value is plotted as its distance from that origin.  Raw numeric
//! axes are plotted as they are and neither need nor touch the origin.
//!
//! The origin lives in an `Option` slot owned by the plot's persistent
//! memory; once the slot is filled it is never replaced, so every line
//! sharing that memory shares one time base.

use vstd::prelude::*;

use crate::sample::Sample;

verus! {

/// A domain X-axis value that can be normalized to a scalar plot
/// coordinate relative to a lazily established origin.
///
/// The contract of [`TimeseriesXAxis::to_scalar`] is stated through three
/// spec functions each implementor provides: the scalar produced for a
/// given origin state, the origin state left behind, and the inputs for
/// which the scalar is representable.  Every implementor must also prove
/// that an origin already set is never replaced.
pub trait TimeseriesXAxis: Sized + Clone + Copy + PartialEq {
    /// The scalar plot coordinate this value maps to, given the state of
    /// the origin slot before the call.
    spec fn scalar_at(self, origin: Option<Self>) -> int;

    /// The state of the origin slot after this value is normalized.
    spec fn origin_after(self, origin: Option<Self>) -> Option<Self>;

    /// True when the scalar for this value is representable as `i64` and
    /// the normalization cannot fail.
    spec fn scalar_in_range(self, origin: Option<Self>) -> bool;

    /// An origin that is already set is never replaced, whatever value is
    /// normalized next.
    proof fn origin_is_kept(self, o: Self)
        ensures
            self.origin_after(Some(o)) == Some(o),
    ;

    /// Normalizes this value against the origin slot, establishing the
    /// origin if the implementor needs one and none is set yet.
    fn to_scalar(self, origin: &mut Option<Self>) -> (r: i64)
        requires
            self.scalar_in_range(*old(origin)),
        ensures
            r == self.scalar_at(*old(origin)),
            *final(origin) == self.origin_after(*old(origin)),
    ;
}

/// A monotonic timestamp measured in integral ticks (for example
/// microseconds since some arbitrary epoch).
///
/// The first instant normalized against an empty origin slot becomes the
/// origin and maps to `0`; every later instant maps to its distance from
/// that origin in ticks.
#[derive(Clone, Copy, PartialEq, Eq, Structural, Debug)]
pub struct TickInstant {
    /// Ticks since an arbitrary epoch of the instant source.
    pub ticks: u64,
}

impl TickInstant {
    /// Builds an instant from its tick count.
    pub fn new(ticks: u64) -> (t: TickInstant)
        ensures
            t.ticks == ticks,
    {
        TickInstant { ticks }
    }
}

impl TimeseriesXAxis for TickInstant {
    open spec fn scalar_at(self, origin: Option<Self>) -> int {
        match origin {
            Option::None => 0,
            Option::Some(o) => self.ticks - o.ticks,
        }
    }

    open spec fn origin_after(self, origin: Option<Self>) -> Option<Self> {
        match origin {
            Option::None => Some(self),
            Option::Some(o) => Some(o),
        }
    }

    open spec fn scalar_in_range(self, origin: Option<Self>) -> bool {
        match origin {
            Option::None => true,
            Option::Some(o) => o.ticks <= self.ticks && self.ticks - o.ticks <= i64::MAX,
        }
    }

    proof fn origin_is_kept(self, o: Self) {
    }

    fn to_scalar(self, origin: &mut Option<Self>) -> (r: i64) {
        match *origin {
            Option::Some(o) => (self.ticks - o.ticks) as i64,
            Option::None => {
                *origin = Some(self);
                0
            },
        }
    }
}

/// A raw numeric X coordinate: plotted as it is, with no origin effect
/// and no mutation of the origin slot.
#[derive(Clone, Copy, PartialEq, Eq, Structural, Debug)]
pub struct RawScalar {
    /// The coordinate itself.
    pub value: i64,
}

impl RawScalar {
    /// Builds a raw coordinate.
    pub fn new(value: i64) -> (t: RawScalar)
        ensures
            t.value == value,
    {
        RawScalar { value }
    }
}

impl TimeseriesXAxis for RawScalar {
    open spec fn scalar_at(self, origin: Option<Self>) -> int {
        self.value as int
    }

    open spec fn origin_after(self, origin: Option<Self>) -> Option<Self> {
        origin
    }

    open spec fn scalar_in_range(self, origin: Option<Self>) -> bool {
        true
    }

    proof fn origin_is_kept(self, o: Self) {
    }

    fn to_scalar(self, origin: &mut Option<Self>) -> (r: i64) {
        self.value
    }
}

/// Normalizing a value equal to the established origin yields exactly
/// zero, and leaves the origin as it is.
pub proof fn lemma_normalize_at_origin(o: TickInstant)
    ensures
        o.scalar_at(Some(o)) == 0,
        o.origin_after(Some(o)) == Some(o),
{
}

/// The samples produced by normalizing `s` left to right, threading the
/// origin slot from `origin` through every element.
pub open spec fn normalized_seq<X: TimeseriesXAxis>(s: Seq<(X, i64)>, origin: Option<X>) -> Seq<
    Sample,
>
    decreases s.len(),
{
    if s.len() == 0 {
        Seq::empty()
    } else {
        seq![Sample { x: s[0].0.scalar_at(origin) as i64, y: s[0].1 }] + normalized_seq(
            s.subrange(1, s.len() as int),
            s[0].0.origin_after(origin),
        )
    }
}

/// The state of the origin slot after normalizing every element of `s`.
pub open spec fn origin_after_seq<X: TimeseriesXAxis>(s: Seq<(X, i64)>, origin: Option<X>) -> Option<
    X,
>
    decreases s.len(),
{
    if s.len() == 0 {
        origin
    } else {
        origin_after_seq(s.subrange(1, s.len() as int), s[0].0.origin_after(origin))
    }
}

/// True when every element of `s` is normalizable in turn starting from
/// `origin`: each scalar along the chain is representable.
pub open spec fn chain_in_range<X: TimeseriesXAxis>(s: Seq<(X, i64)>, origin: Option<X>) -> bool
    decreases s.len(),
{
    s.len() == 0 || (s[0].0.scalar_in_range(origin) && chain_in_range(
        s.subrange(1, s.len() as int),
        s[0].0.origin_after(origin),
    ))
}

/// Unfolds the three chain spec functions one step at position `i`.
proof fn lemma_chain_step<X: TimeseriesXAxis>(s: Seq<(X, i64)>, i: int, o: Option<X>)
    requires
        0 <= i < s.len(),
    ensures
        normalized_seq(s.skip(i), o) == seq![
            Sample { x: s[i].0.scalar_at(o) as i64, y: s[i].1 },
        ] + normalized_seq(s.skip(i + 1), s[i].0.origin_after(o)),
        origin_after_seq(s.skip(i), o) == origin_after_seq(s.skip(i + 1), s[i].0.origin_after(o)),
        chain_in_range(s.skip(i), o) ==> s[i].0.scalar_in_range(o) && chain_in_range(
            s.skip(i + 1),
            s[i].0.origin_after(o),
        ),
{
    assert(s.skip(i).len() == s.len() - i);
    assert(s.skip(i)[0] == s[i]);
    assert(s.skip(i).subrange(1, s.skip(i).len() as int) =~= s.skip(i + 1));
}

/// Normalizes one line's series of `(x, y)` pairs in order, threading the
/// shared origin slot through every element.
pub fn normalize_series<X: TimeseriesXAxis>(series: &Vec<(X, i64)>, origin: &mut Option<X>) -> (out:
    Vec<Sample>)
    requires
        chain_in_range(series@, *old(origin)),
    ensures
        out@ == normalized_seq(series@, *old(origin)),
        *final(origin) == origin_after_seq(series@, *old(origin)),
{
    let mut out: Vec<Sample> = Vec::new();
    let mut i: usize = 0;
    proof {
        assert(series@.skip(0) =~= series@);
    }
    while i < series.len()
        invariant
            i <= series.len(),
            chain_in_range(series@.skip(i as int), *origin),
            normalized_seq(series@, *old(origin)) =~= out@ + normalized_seq(
                series@.skip(i as int),
                *origin,
            ),
            origin_after_seq(series@, *old(origin)) == origin_after_seq(
                series@.skip(i as int),
                *origin,
            ),
        decreases series.len() - i,
    {
        proof {
            lemma_chain_step(series@, i as int, *origin);
        }
        let (xv, yv) = series[i];
        let sx = xv.to_scalar(origin);
        out.push(Sample { x: sx, y: yv });
        i = i + 1;
    }
    proof {
        assert(series@.skip(series@.len() as int) =~= Seq::<(X, i64)>::empty());
        assert(out@ =~= normalized_seq(series@, *old(origin)));
    }
    out
}

/// Origin-sharing law: once a plot's origin is established, normalizing
/// any further series leaves it untouched, and every sample of that
/// series is normalized against that identical origin.
pub proof fn lemma_origin_stable<X: TimeseriesXAxis>(s: Seq<(X, i64)>, o: X)
    ensures
        origin_after_seq(s, Some(o)) == Some(o),
        normalized_seq(s, Some(o)).len() == s.len(),
        forall|i: int|
            0 <= i < s.len() ==> normalized_seq(s, Some(o))[i] == (Sample {
                x: s[i].0.scalar_at(Some(o)) as i64,
                y: s[i].1,
            }),
    decreases s.len(),
{
    if s.len() == 0 {
    } else {
        s[0].0.origin_is_kept(o);
        let rest = s.subrange(1, s.len() as int);
        lemma_origin_stable(rest, o);
        assert forall|i: int| 0 <= i < s.len() implies normalized_seq(s, Some(o))[i] == (Sample {
            x: s[i].0.scalar_at(Some(o)) as i64,
            y: s[i].1,
        }) by {
            if i > 0 {
                assert(normalized_seq(s, Some(o))[i] == normalized_seq(rest, Some(o))[i - 1]);
                assert(rest[i - 1] == s[i]);
            }
        }
    }
}

} // verus!
