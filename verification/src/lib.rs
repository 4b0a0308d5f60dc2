//! A sample-reduction and axis-normalization engine for real-time
//! time-series plots.
//!
//! Each frame, a potentially huge append-only stream of timestamped samples
//! must be turned into a bounded number of plottable points without losing
//! visually significant features (spikes, dropouts).  The engine consists of:
//!
//! * [`axis`]: conversion of domain X values (monotonic timestamps, raw
//!   scalars) into a common plot coordinate relative to a lazily
//!   established origin;
//! * [`sample`]: the plottable sample type in normalized coordinates;
//! * [`reduce`]: min/max envelope decimation, bounding output size while
//!   preserving each bucket's extrema;
//! * [`memory`]: per-widget state surviving across frames (origin, view
//!   bounds, tracking/pinned mode);
//! * [`plot`]: the per-frame builder that binds lines to a memory and
//!   yields a renderable description.

pub mod axis;
pub mod memory;
pub mod plot;
pub mod reduce;
pub mod sample;
