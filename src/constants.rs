use vstd::prelude::*;

verus! {

/// Fill color that stands for black (or white when tracing light on dark).
pub const COLOR_AUTO: &'static str = "auto";

/// Background value meaning "no background rectangle".
pub const COLOR_TRANSPARENT: &'static str = "transparent";

/// Largest accepted image side, in pixels: a machine bound, which keeps the length of any
/// contour (at most `2 * (side + 1)^2` points) within 2^31 and the pixel count within 2^30.
pub const MAX_SIDE: usize = 32767;

/// How an ambiguous turn of the contour walker is resolved.
#[derive(PartialEq, Eq, Structural, Clone, Copy, Debug)]
pub enum SupportedTurnpolicyValues {
    Black,
    White,
    Left,
    Right,
    Minority,
    Majority,
}

/// How the posterizer picks the fill level of each luminance range.
#[derive(PartialEq, Eq, Structural, Clone, Copy, Debug)]
pub enum FillStrategies {
    Spread,
    Dominant,
    Median,
    Mean,
}

/// How the posterizer spreads its thresholds.
#[derive(PartialEq, Eq, Structural, Clone, Copy, Debug)]
pub enum RangeDistribution {
    Auto,
    Equal,
}

/// Errors reported by the library.
#[derive(PartialEq, Eq, Structural, Clone, Copy, Debug)]
pub enum TraceError {
    /// A range with its lower end above its upper end, a bad size or buffer.
    InvalidParameters,
    /// The image source could not be decoded.
    ImageNotLoaded,
    /// A contour walk that does not close inside the grid.
    DegenerateContour,
}

} // verus!
