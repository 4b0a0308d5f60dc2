//! The per-frame plot builder.
//!
//! A [`TimeseriesPlot`] is transient: it is constructed each frame over
//! the widget's persistent [`TimeseriesPlotMemory`], binds zero or more
//! named lines (each a display name, a unit label and that frame's
//! series of `(x, y)` pairs), and yields a [`RenderDescription`] for the
//! host GUI to paint.  Every line is normalized against the memory's
//! single origin and decimated against the one shared view window, so
//! lines with very different sample counts stay spatially aligned.

use vstd::prelude::*;

use crate::axis::TimeseriesXAxis;
use crate::axis::chain_in_range;
use crate::axis::normalize_series;
use crate::axis::normalized_seq;
use crate::axis::origin_after_seq;
use crate::memory::TimeseriesPlotMemory;
use crate::reduce::ReducedLine;
use crate::reduce::reduce;
use crate::reduce::valid_reduction;
use crate::sample::Sample;

verus! {

/// True when every line's series can be normalized in turn, threading
/// the origin slot through the lines in attachment order.
pub open spec fn lines_chain_ok<X: TimeseriesXAxis>(
    ls: Seq<Seq<(X, i64)>>,
    origin: Option<X>,
) -> bool
    decreases ls.len(),
{
    ls.len() == 0 || (chain_in_range(ls[0], origin) && lines_chain_ok(
        ls.subrange(1, ls.len() as int),
        origin_after_seq(ls[0], origin),
    ))
}

/// The origin slot's state after normalizing every line in order.
pub open spec fn origin_after_lines<X: TimeseriesXAxis>(
    ls: Seq<Seq<(X, i64)>>,
    origin: Option<X>,
) -> Option<X>
    decreases ls.len(),
{
    if ls.len() == 0 {
        origin
    } else {
        origin_after_lines(ls.subrange(1, ls.len() as int), origin_after_seq(ls[0], origin))
    }
}

/// Every line's normalized samples, the origin threaded through the
/// lines in attachment order.
pub open spec fn normalized_lines<X: TimeseriesXAxis>(
    ls: Seq<Seq<(X, i64)>>,
    origin: Option<X>,
) -> Seq<Seq<Sample>>
    decreases ls.len(),
{
    if ls.len() == 0 {
        Seq::empty()
    } else {
        seq![normalized_seq(ls[0], origin)] + normalized_lines(
            ls.subrange(1, ls.len() as int),
            origin_after_seq(ls[0], origin),
        )
    }
}

/// There are as many normalized lines as input lines.
pub proof fn lemma_normalized_lines_len<X: TimeseriesXAxis>(
    ls: Seq<Seq<(X, i64)>>,
    origin: Option<X>,
)
    ensures
        normalized_lines(ls, origin).len() == ls.len(),
    decreases ls.len(),
{
    if ls.len() > 0 {
        lemma_normalized_lines_len(ls.subrange(1, ls.len() as int), origin_after_seq(ls[0], origin));
    }
}

/// Unfolds the three line-level spec functions one step at position `i`.
proof fn lemma_lines_step<X: TimeseriesXAxis>(ls: Seq<Seq<(X, i64)>>, i: int, o: Option<X>)
    requires
        0 <= i < ls.len(),
    ensures
        normalized_lines(ls.skip(i), o) == seq![normalized_seq(ls[i], o)] + normalized_lines(
            ls.skip(i + 1),
            origin_after_seq(ls[i], o),
        ),
        origin_after_lines(ls.skip(i), o) == origin_after_lines(
            ls.skip(i + 1),
            origin_after_seq(ls[i], o),
        ),
        lines_chain_ok(ls.skip(i), o) ==> chain_in_range(ls[i], o) && lines_chain_ok(
            ls.skip(i + 1),
            origin_after_seq(ls[i], o),
        ),
{
    assert(ls.skip(i)[0] == ls[i]);
    assert(ls.skip(i).subrange(1, ls.skip(i).len() as int) =~= ls.skip(i + 1));
}

/// The greatest X coordinate of `s`, or `d` when `s` is empty or holds
/// nothing greater.
pub open spec fn max_x_or(s: Seq<Sample>, d: int) -> int
    decreases s.len(),
{
    if s.len() == 0 {
        d
    } else {
        let m = max_x_or(s.drop_last(), d);
        if s.last().x > m {
            s.last().x as int
        } else {
            m
        }
    }
}

/// The newest (greatest) normalized X coordinate over all lines, or `d`
/// when no line holds anything greater.
pub open spec fn latest_of(ls: Seq<Seq<Sample>>, d: int) -> int
    decreases ls.len(),
{
    if ls.len() == 0 {
        d
    } else {
        max_x_or(ls.last(), latest_of(ls.drop_last(), d))
    }
}

/// Folds [`max_x_or`] over one line.
#[verifier::loop_isolation(false)]
fn max_x_exec(v: &Vec<Sample>, d: i64) -> (r: i64)
    ensures
        r as int == max_x_or(v@, d as int),
{
    let mut acc = d;
    let mut t: usize = 0;
    proof {
        assert(v@.take(0) =~= Seq::<Sample>::empty());
    }
    while t < v.len()
        invariant
            t <= v@.len(),
            acc as int == max_x_or(v@.take(t as int), d as int),
        decreases v@.len() - t,
    {
        proof {
            assert(v@.take(t as int + 1).drop_last() =~= v@.take(t as int));
            assert(v@.take(t as int + 1).last() == v@[t as int]);
        }
        if v[t].x > acc {
            acc = v[t].x;
        }
        t = t + 1;
    }
    proof {
        assert(v@.take(v@.len() as int) =~= v@);
    }
    acc
}

/// A named line bound to a plot for one frame: a display name and a
/// unit-of-measurement label, both free-form caller-supplied metadata.
pub struct TimeseriesLine {
    name: String,
    unit: String,
}

impl TimeseriesLine {
    /// The display name.
    pub closed spec fn spec_name(self) -> Seq<char> {
        self.name@
    }

    /// The unit label.
    pub closed spec fn spec_unit(self) -> Seq<char> {
        self.unit@
    }

    /// A line with the given display name and an empty unit label.
    pub fn new(name: String) -> (l: Self)
        ensures
            l.spec_name() == name@,
            l.spec_unit().len() == 0,
    {
        TimeseriesLine { name, unit: String::new() }
    }

    /// Replaces the unit-of-measurement label.
    pub fn unit(self, label: String) -> (l: Self)
        ensures
            l.spec_name() == self.spec_name(),
            l.spec_unit() == label@,
    {
        TimeseriesLine { name: self.name, unit: label }
    }
}

/// One rendered line: its metadata and its reduced polyline.
#[derive(Debug)]
pub struct RenderLine {
    /// The line's display name.
    pub name: String,
    /// The line's unit-of-measurement label.
    pub unit: String,
    /// The line's reduction against the shared view window.
    pub reduced: ReducedLine,
}

/// What the host GUI paints for one frame: the resolved view window and
/// one reduced polyline per attached line, in attachment order.
#[derive(Debug)]
pub struct RenderDescription {
    /// Lower end of the view window every line was reduced against.
    pub window_lo: i64,
    /// Upper end of that window.
    pub window_hi: i64,
    /// The reduced lines, in attachment order.
    pub lines: Vec<RenderLine>,
}

/// The transient per-frame plot builder.
pub struct TimeseriesPlot<X> {
    lines: Vec<(TimeseriesLine, Vec<(X, i64)>)>,
    bucket_count: usize,
    view_width: i64,
}

impl<X: TimeseriesXAxis> TimeseriesPlot<X> {
    /// Every attached line's series, in attachment order.
    pub closed spec fn spec_series(self) -> Seq<Seq<(X, i64)>> {
        self.lines@.map_values(|p: (TimeseriesLine, Vec<(X, i64)>)| p.1@)
    }

    /// Every attached line's display name, in attachment order.
    pub closed spec fn spec_names(self) -> Seq<Seq<char>> {
        self.lines@.map_values(|p: (TimeseriesLine, Vec<(X, i64)>)| p.0.spec_name())
    }

    /// Every attached line's unit label, in attachment order.
    pub closed spec fn spec_units(self) -> Seq<Seq<char>> {
        self.lines@.map_values(|p: (TimeseriesLine, Vec<(X, i64)>)| p.0.spec_unit())
    }

    /// The target bucket count lines are decimated to.
    pub closed spec fn spec_bucket_count(self) -> int {
        self.bucket_count as int
    }

    /// The tracking view window's width.
    pub closed spec fn spec_view_width(self) -> int {
        self.view_width as int
    }

    /// The builder's configuration is usable.
    pub closed spec fn wf(self) -> bool {
        &&& 1 <= self.bucket_count <= 0xFFFF_FFFFusize
        &&& self.view_width >= 0
    }

    /// A builder with no lines yet.  `bucket_count` is the target output
    /// cardinality per line, typically one bucket per one or two pixels
    /// of available width; `view_width` is how far back (in normalized
    /// ticks) the tracking view reaches from the newest sample.
    pub fn new(bucket_count: usize, view_width: i64) -> (p: Self)
        requires
            1 <= bucket_count <= 0xFFFF_FFFFusize,
            view_width >= 0,
        ensures
            p.wf(),
            p.spec_series().len() == 0,
            p.spec_names().len() == 0,
            p.spec_units().len() == 0,
            p.spec_bucket_count() == bucket_count as int,
            p.spec_view_width() == view_width as int,
    {
        TimeseriesPlot { lines: Vec::new(), bucket_count, view_width }
    }

    /// Attaches one named line and the series it plots this frame.
    pub fn line(self, l: TimeseriesLine, series: Vec<(X, i64)>) -> (p: Self)
        ensures
            p.spec_series() == self.spec_series().push(series@),
            p.spec_names() == self.spec_names().push(l.spec_name()),
            p.spec_units() == self.spec_units().push(l.spec_unit()),
            p.spec_bucket_count() == self.spec_bucket_count(),
            p.spec_view_width() == self.spec_view_width(),
            p.wf() == self.wf(),
    {
        let ghost entry = (l, series);
        let mut lines = self.lines;
        lines.push((l, series));
        proof {
            assert(lines@.map_values(|p: (TimeseriesLine, Vec<(X, i64)>)| p.1@)
                =~= self.spec_series().push(entry.1@));
            assert(lines@.map_values(|p: (TimeseriesLine, Vec<(X, i64)>)| p.0.spec_name())
                =~= self.spec_names().push(entry.0.spec_name()));
            assert(lines@.map_values(|p: (TimeseriesLine, Vec<(X, i64)>)| p.0.spec_unit())
                =~= self.spec_units().push(entry.0.spec_unit()));
        }
        TimeseriesPlot { lines, bucket_count: self.bucket_count, view_width: self.view_width }
    }

    /// Builds one frame: normalizes every line against the memory's
    /// shared origin (establishing it if needed), resolves the view
    /// window once from the memory's state and the newest normalized
    /// coordinate, reduces every line against that same shared window,
    /// and hands back the render description.  The memory keeps its
    /// identity, mode and pinned bounds; only its origin slot advances.
    #[verifier::loop_isolation(false)]
    pub fn build(self, memory: &mut TimeseriesPlotMemory<X>) -> (r: RenderDescription)
        requires
            self.wf(),
            old(memory).wf(),
            lines_chain_ok(self.spec_series(), old(memory).spec_origin()),
        ensures
            final(memory).spec_origin() == origin_after_lines(
                self.spec_series(),
                old(memory).spec_origin(),
            ),
            final(memory).spec_identity() == old(memory).spec_identity(),
            final(memory).is_pinned() == old(memory).is_pinned(),
            final(memory).spec_view_lo() == old(memory).spec_view_lo(),
            final(memory).spec_view_hi() == old(memory).spec_view_hi(),
            final(memory).wf(),
            r.window_lo <= r.window_hi,
            old(memory).is_pinned() ==> r.window_lo == old(memory).spec_view_lo()
                && r.window_hi == old(memory).spec_view_hi(),
            !old(memory).is_pinned() ==> r.window_hi as int == latest_of(
                normalized_lines(self.spec_series(), old(memory).spec_origin()),
                0,
            ) && r.window_lo as int == (if r.window_hi - self.spec_view_width() >= i64::MIN {
                r.window_hi - self.spec_view_width()
            } else {
                i64::MIN as int
            }),
            r.lines@.len() == self.spec_series().len(),
            forall|i: int|
                0 <= i < r.lines@.len() ==> (#[trigger] r.lines@[i]).name@ == self.spec_names()[i]
                    && r.lines@[i].unit@ == self.spec_units()[i],
            forall|i: int|
                0 <= i < r.lines@.len() ==> valid_reduction(
                    normalized_lines(self.spec_series(), old(memory).spec_origin())[i],
                    r.window_lo as int,
                    r.window_hi as int,
                    self.spec_bucket_count(),
                    (#[trigger] r.lines@[i]).reduced.points@,
                    r.lines@[i].reduced.left_edge,
                    r.lines@[i].reduced.right_edge,
                ),
    {
        let ghost lv = self.spec_series();
        let ghost names = self.spec_names();
        let ghost units = self.spec_units();
        let ghost o0 = old(memory).spec_origin();
        let ghost nlv = normalized_lines(lv, o0);
        proof {
            lemma_normalized_lines_len(lv, o0);
        }
        let mut org: Option<X> = memory.current_origin();
        let mut rest = self.lines;
        let n = rest.len();
        let mut metas: Vec<(String, String)> = Vec::new();
        let mut norms: Vec<Vec<Sample>> = Vec::new();
        let mut i: usize = 0;
        proof {
            assert(lv.skip(0) =~= lv);
            assert(nlv.skip(0) =~= nlv);
            assert(rest@.map_values(|p: (TimeseriesLine, Vec<(X, i64)>)| p.1@) =~= lv.skip(0));
        }
        while i < n
            invariant
                i <= n == lv.len() == self.lines@.len() == nlv.len(),
                rest@ =~= self.lines@.skip(i as int),
                metas@.len() == i,
                norms@.len() == i,
                lines_chain_ok(lv.skip(i as int), org),
                origin_after_lines(lv, o0) == origin_after_lines(lv.skip(i as int), org),
                normalized_lines(lv.skip(i as int), org) =~= nlv.skip(i as int),
                forall|t: int|
                    0 <= t < i ==> (#[trigger] norms@[t])@ == nlv[t] && metas@[t].0@ == names[t]
                        && metas@[t].1@ == units[t],
            decreases n - i,
        {
            proof {
                assert(self.lines@.skip(i as int)[0] == self.lines@[i as int]);
                assert(lv[i as int] == self.lines@[i as int].1@);
                assert(names[i as int] == self.lines@[i as int].0.spec_name());
                assert(units[i as int] == self.lines@[i as int].0.spec_unit());
                lemma_lines_step(lv, i as int, org);
                assert(chain_in_range(lv[i as int], org));
            }
            let (tl, series) = rest.remove(0);
            let ghost org_before = org;
            proof {
                assert(self.lines@.skip(i as int).remove(0) =~= self.lines@.skip(i as int + 1));
                assert(series@ == lv[i as int]);
            }
            let norm = normalize_series(&series, &mut org);
            proof {
                let s0 = normalized_seq(lv[i as int], org_before);
                assert(norm@ == s0);
                assert(org == origin_after_seq(lv[i as int], org_before));
                assert(nlv.skip(i as int) == seq![s0] + normalized_lines(
                    lv.skip(i as int + 1),
                    org,
                ));
                let tail = normalized_lines(lv.skip(i as int + 1), org);
                assert(tail.len() == nlv.skip(i as int + 1).len());
                assert forall|j2: int| 0 <= j2 < tail.len() implies tail[j2] == nlv.skip(
                    i as int + 1,
                )[j2] by {
                    assert(tail[j2] == (seq![s0] + tail)[j2 + 1]);
                    assert(nlv.skip(i as int)[j2 + 1] == nlv[i as int + 1 + j2]);
                    assert(nlv.skip(i as int + 1)[j2] == nlv[i as int + 1 + j2]);
                }
                assert(normalized_lines(lv.skip(i as int + 1), org) =~= nlv.skip(i as int + 1));
                assert(nlv.skip(i as int)[0] == nlv[i as int]);
                assert(norm@ == nlv[i as int]);
            }
            metas.push((tl.name, tl.unit));
            norms.push(norm);
            i = i + 1;
        }
        proof {
            assert(lv.skip(n as int) =~= Seq::<Seq<(X, i64)>>::empty());
            assert(origin_after_lines(lv, o0) == org);
        }
        memory.set_origin(org);
        let mut latest: i64 = 0;
        let mut t: usize = 0;
        proof {
            assert(nlv.take(0) =~= Seq::<Seq<Sample>>::empty());
        }
        while t < n
            invariant
                t <= n,
                norms@.len() == n,
                latest as int == latest_of(nlv.take(t as int), 0),
                forall|q: int| 0 <= q < n ==> (#[trigger] norms@[q])@ == nlv[q],
            decreases n - t,
        {
            proof {
                assert(nlv.take(t as int + 1).drop_last() =~= nlv.take(t as int));
                assert(nlv.take(t as int + 1).last() == nlv[t as int]);
            }
            latest = max_x_exec(&norms[t], latest);
            t = t + 1;
        }
        proof {
            assert(nlv.take(n as int) =~= nlv);
        }
        let win = memory.view_window(latest, self.view_width);
        let window_lo = win.0;
        let window_hi = win.1;
        let mut out: Vec<RenderLine> = Vec::new();
        let mut q: usize = 0;
        proof {
            assert(metas@.skip(0) =~= metas@);
        }
        let ghost metas0 = metas@;
        proof {
            assert forall|s: int| 0 <= s < n implies (#[trigger] metas0[s]).0@ == names[s]
                && metas0[s].1@ == units[s] by {
                assert(norms@[s]@ == nlv[s]);
            }
        }
        let mut mrest = metas;
        while q < n
            invariant
                q <= n,
                norms@.len() == n,
                mrest@ =~= metas0.skip(q as int),
                metas0.len() == n,
                out@.len() == q,
                forall|s: int| 0 <= s < n ==> (#[trigger] norms@[s])@ == nlv[s],
                forall|s: int|
                    0 <= s < n ==> (#[trigger] metas0[s]).0@ == names[s] && metas0[s].1@
                        == units[s],
                forall|s: int|
                    0 <= s < q ==> (#[trigger] out@[s]).name@ == names[s] && out@[s].unit@
                        == units[s],
                forall|s: int|
                    0 <= s < q ==> valid_reduction(
                        nlv[s],
                        window_lo as int,
                        window_hi as int,
                        self.spec_bucket_count(),
                        (#[trigger] out@[s]).reduced.points@,
                        out@[s].reduced.left_edge,
                        out@[s].reduced.right_edge,
                    ),
            decreases n - q,
        {
            proof {
                assert(metas0.skip(q as int)[0] == metas0[q as int]);
                assert(metas0.skip(q as int).remove(0) =~= metas0.skip(q as int + 1));
            }
            let (nm, un) = mrest.remove(0);
            let rl = reduce(&norms[q], window_lo, window_hi, self.bucket_count);
            out.push(RenderLine { name: nm, unit: un, reduced: rl });
            q = q + 1;
        }
        RenderDescription { window_lo, window_hi, lines: out }
    }
}

} // verus!
