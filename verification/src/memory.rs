//! Per-widget persistent plot state.
//!
//! A [`TimeseriesPlotMemory`] is created once per widget identity and
//! survives across frames in the host's identity-keyed store; the engine
//! itself never owns a global instance.  It carries the lazily
//! established axis origin (so that every line of the plot, over the
//! whole life of the widget, is normalized against the same time base)
//! and the view state: either following the newest data (tracking) or
//! fixed by a user interaction (pinned).

use vstd::prelude::*;

use crate::axis::TimeseriesXAxis;

verus! {

/// Whether the view window follows the newest data or is fixed.
#[derive(Clone, Copy, PartialEq, Eq, Structural, Debug)]
pub enum ViewMode {
    /// The view follows the newest data each frame.
    Tracking,
    /// A user interaction fixed the view window; it no longer follows.
    Pinned,
}

/// Persistent state of one plot widget, keyed by a stable identity.
///
/// Freshly created memory is uninitialized: no origin, tracking view.
/// The first normalized timestamp establishes the origin for good; a
/// pan/zoom event pins the view; an explicit reset returns it to
/// tracking.  The memory itself never reaches a terminal state — it
/// lives until the host evicts it.
#[derive(Clone, Debug)]
pub struct TimeseriesPlotMemory<X> {
    identity: String,
    origin: Option<X>,
    mode: ViewMode,
    view_lo: i64,
    view_hi: i64,
}

impl<X: TimeseriesXAxis> TimeseriesPlotMemory<X> {
    /// The identity key this memory is stored under.
    pub closed spec fn spec_identity(self) -> Seq<char> {
        self.identity@
    }

    /// The established origin, if any value was normalized yet.
    pub closed spec fn spec_origin(self) -> Option<X> {
        self.origin
    }

    /// True when a user interaction fixed the view window.
    pub closed spec fn is_pinned(self) -> bool {
        self.mode is Pinned
    }

    /// Lower end of the pinned view window.
    pub closed spec fn spec_view_lo(self) -> int {
        self.view_lo as int
    }

    /// Upper end of the pinned view window.
    pub closed spec fn spec_view_hi(self) -> int {
        self.view_hi as int
    }

    /// Internal invariant: a pinned window is never inverted.
    pub closed spec fn wf(self) -> bool {
        self.is_pinned() ==> self.view_lo <= self.view_hi
    }

    /// Creates uninitialized memory for the given widget identity: no
    /// origin yet, tracking view.
    pub fn new(identity: String) -> (m: Self)
        ensures
            m.spec_identity() == identity@,
            m.spec_origin() is None,
            !m.is_pinned(),
            m.wf(),
    {
        TimeseriesPlotMemory {
            identity,
            origin: None,
            mode: ViewMode::Tracking,
            view_lo: 0,
            view_hi: 0,
        }
    }

    /// The identity key this memory is stored under.
    pub fn identity(&self) -> (r: &String)
        ensures
            r@ == self.spec_identity(),
    {
        &self.identity
    }

    /// The established origin, if any.
    pub fn current_origin(&self) -> (r: Option<X>)
        ensures
            r == self.spec_origin(),
    {
        self.origin
    }

    /// Replaces the origin slot wholesale; the plot builder threads the
    /// slot through a whole frame with this.
    pub(crate) fn set_origin(&mut self, o: Option<X>)
        ensures
            final(self).spec_origin() == o,
            final(self).spec_identity() == old(self).spec_identity(),
            final(self).is_pinned() == old(self).is_pinned(),
            final(self).spec_view_lo() == old(self).spec_view_lo(),
            final(self).spec_view_hi() == old(self).spec_view_hi(),
            final(self).wf() == old(self).wf(),
    {
        self.origin = o;
    }

    /// Whether a user interaction has pinned the view window.
    pub fn pinned(&self) -> (r: bool)
        ensures
            r == self.is_pinned(),
    {
        match self.mode {
            ViewMode::Pinned => true,
            ViewMode::Tracking => false,
        }
    }

    /// Whether the origin has been established yet.
    pub fn has_origin(&self) -> (r: bool)
        ensures
            r == self.spec_origin() is Some,
    {
        self.origin.is_some()
    }

    /// Normalizes one X value against this memory's origin slot,
    /// establishing the origin if the axis type needs one and none is
    /// set yet.  Everything but the origin slot is left untouched.
    pub fn normalize(&mut self, x: X) -> (r: i64)
        requires
            x.scalar_in_range(old(self).spec_origin()),
        ensures
            r == x.scalar_at(old(self).spec_origin()),
            final(self).spec_origin() == x.origin_after(old(self).spec_origin()),
            final(self).spec_identity() == old(self).spec_identity(),
            final(self).is_pinned() == old(self).is_pinned(),
            final(self).spec_view_lo() == old(self).spec_view_lo(),
            final(self).spec_view_hi() == old(self).spec_view_hi(),
            final(self).wf() == old(self).wf(),
    {
        let mut org = self.origin;
        let r = x.to_scalar(&mut org);
        self.origin = org;
        r
    }

    /// Consumes a user pan/zoom interaction: fixes the view window and
    /// stops following new data.
    pub fn pin(&mut self, lo: i64, hi: i64)
        requires
            lo <= hi,
        ensures
            final(self).is_pinned(),
            final(self).spec_view_lo() == lo as int,
            final(self).spec_view_hi() == hi as int,
            final(self).spec_origin() == old(self).spec_origin(),
            final(self).spec_identity() == old(self).spec_identity(),
            final(self).wf(),
    {
        self.mode = ViewMode::Pinned;
        self.view_lo = lo;
        self.view_hi = hi;
    }

    /// Consumes an explicit reset action: the view follows the newest
    /// data again.  The origin is untouched.
    pub fn reset(&mut self)
        ensures
            !final(self).is_pinned(),
            final(self).spec_origin() == old(self).spec_origin(),
            final(self).spec_identity() == old(self).spec_identity(),
            final(self).wf(),
    {
        self.mode = ViewMode::Tracking;
    }

    /// Resolves the view window for this frame: the pinned window when
    /// pinned, else the window of the given width ending at the newest
    /// normalized coordinate (clamped at the representable minimum).
    pub fn view_window(&self, latest: i64, width: i64) -> (r: (i64, i64))
        requires
            width >= 0,
            self.wf(),
        ensures
            r.0 <= r.1,
            self.is_pinned() ==> r.0 == self.spec_view_lo() && r.1 == self.spec_view_hi(),
            !self.is_pinned() ==> r.1 == latest && r.0 as int == (if latest - width >= i64::MIN {
                latest - width
            } else {
                i64::MIN as int
            }),
    {
        match self.mode {
            ViewMode::Pinned => (self.view_lo, self.view_hi),
            ViewMode::Tracking => {
                let lo = if latest >= i64::MIN + width {
                    latest - width
                } else {
                    i64::MIN
                };
                (lo, latest)
            },
        }
    }
}

} // verus!
