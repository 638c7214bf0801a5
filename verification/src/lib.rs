//! Renders sets of numeric intervals as fixed-width text "timeline bars".
//!
//! Intervals are mapped onto a character grid of a configurable total
//! length; gaps are drawn as blank space, interval regions as labeled
//! segments, and overlapping intervals are separated into parallel
//! non-overlapping tracks, each rendered as its own (possibly
//! multi-line) bar.
//!
//! Coordinates are exact `i64` values; callers that start from
//! fractional data pick a fixed sub-unit resolution and scale into it.

use vstd::prelude::*;

pub mod blocks;
pub mod builder;
pub mod interval;
pub mod rendering;

pub use builder::Renderer;
pub use rendering::RenderBlock;

verus! {

/// A pair (start, end) of coordinates. `TBLInterval::new` reorders a
/// reversed pair, so stored bounds always satisfy start <= end.
pub type Bound = (i64, i64);

/// Blocks are built from one non-overlapping group of intervals, then
/// rendered by a block renderer.
pub enum Block<L> {
    /// A gap (no data), with a width in characters.
    Space(usize),
    /// A segment representing data, with a width in characters and an
    /// optional label.
    Segment(usize, Option<L>),
}

/// Errors of the block builder. The first error from any group aborts
/// the whole render; no partial output is returned.
#[derive(Debug, PartialEq)]
pub enum TBLError<L> {
    /// No numeric span could be determined for a group.
    NoBoundaries,
    /// Two intervals inside a supposedly non-overlapping set still
    /// overlap; carries both offending labels.
    Intersection(Option<L>, Option<L>),
}

} // verus!
