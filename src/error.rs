//! Why a conversion run stops.
use vstd::prelude::*;

verus! {

/// A fatal condition: the whole run stops when one of these comes up.
#[derive(Clone, Copy, Debug, PartialEq, Eq, Structural)]
pub enum ConvertError {
    /// An image needs more distinct colors than its bit-depth allows.
    PaletteOverflow,
    /// The shared palette has no free slot left for a new color.
    PaletteFull,
    /// The raster is neither 8-bit RGB nor 8-bit RGBA.
    UnsupportedPixelFormat,
    /// A visible pixel's color has no slot in the shared palette.
    MissingPaletteEntry,
}

} // verus!
