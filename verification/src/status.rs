//! Exit codes of a command-line front end, one for each sort of failure.

use crate::error::{AnalyzeError, DecodeError, DrawError};
use vstd::prelude::*;

verus! {

/// The exit code after success.
pub const EXIT_OK: i32 = 0;

/// The exit code for bad arguments and for invalid dimensions.
pub const EXIT_USAGE: i32 = 2;

/// The exit code for a file that cannot be read or written.
pub const EXIT_IO: i32 = 3;

/// The exit code for invalid image data.
pub const EXIT_DATA: i32 = 4;

/// The exit code for an image that exceeds a decoder's limits.
pub const EXIT_LIMITS: i32 = 5;

/// The exit code for any other failure.
pub const EXIT_OTHER: i32 = 10;

/// The exit code for an image without a quadtree: its dimensions are
/// invalid.
pub fn analyze_exit_code(e: AnalyzeError) -> (code: i32)
    ensures
        code == 2,
{
    match e {
        AnalyzeError::NonSquare => EXIT_USAGE,
        AnalyzeError::NonPowerOfTwo => EXIT_USAGE,
    }
}

/// The exit code for bytes that hold no tree: the data is invalid, or its
/// palette exceeds the decoder's limits.
pub fn decode_exit_code(e: DecodeError) -> (code: i32)
    ensures
        code == match e {
            DecodeError::PaletteTooLarge => 5i32,
            _ => 4i32,
        },
{
    match e {
        DecodeError::InsufficientData => EXIT_DATA,
        DecodeError::MissingHeader => EXIT_DATA,
        DecodeError::PaletteTooLarge => EXIT_LIMITS,
    }
}

/// The exit code for a tree that cannot be drawn: the output dimensions
/// are invalid, or the tree's data is.
pub fn draw_exit_code(e: DrawError) -> (code: i32)
    ensures
        code == match e {
            DrawError::ColorOutOfRange => 4i32,
            _ => 2i32,
        },
{
    match e {
        DrawError::NonSquare => EXIT_USAGE,
        DrawError::NonPowerOfTwo => EXIT_USAGE,
        DrawError::ColorOutOfRange => EXIT_DATA,
    }
}

} // verus!
