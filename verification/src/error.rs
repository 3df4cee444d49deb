//! The errors of the library.

use vstd::prelude::*;

verus! {

/// Why an operation of this library gave no result.
#[derive(Clone, Copy, Debug, PartialEq, Eq, Structural)]
pub enum PixelError {
    /// A palette line or a hex colour is malformed.
    FormatError,
    /// A file could not be used: its extension is unknown or unsupported.
    IOError,
    /// An argument is outside what the operation accepts: a colour count of
    /// zero, an empty population, an empty palette, an empty raster.
    InvalidArgument,
}

} // verus!
