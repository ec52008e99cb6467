//! Failure kinds of the quadtree pipeline.

use vstd::prelude::*;

verus! {

/// Reason why an image could not be turned into a quadtree.
#[derive(Debug, Clone, Copy, PartialEq, Eq, Structural)]
pub enum AnalyzeError {
    /// The image's width and height differ.
    NonSquare,
    /// The image's side is not a power of two.
    NonPowerOfTwo,
}

/// Reason why a quadtree could not be encoded.
#[derive(Debug, Clone, Copy, PartialEq, Eq, Structural)]
pub enum EncodeError {
    /// A colour index in the tree lies outside the palette.
    ColorOutOfRange,
}

/// Reason why a byte stream could not be decoded.
#[derive(Debug, Clone, Copy, PartialEq, Eq, Structural)]
pub enum DecodeError {
    /// The stream ended before a complete node was read.
    InsufficientData,
    /// The stream does not start with a valid header.
    MissingHeader,
    /// The stored palette is longer than the receiving palette can hold.
    PaletteTooLarge,
}

/// Reason why a buffer of palette indices could not be made into a quadtree.
#[derive(Debug, Clone, Copy, PartialEq, Eq, Structural)]
pub enum MountError {
    /// The buffer's length is not a power of four.
    InvalidSize,
    /// An index lies outside the palette.
    ColorOutOfRange,
}

/// Reason why a quadtree could not be drawn into an image buffer.
#[derive(Debug, Clone, Copy, PartialEq, Eq, Structural)]
pub enum DrawError {
    /// The buffer's width and height differ.
    NonSquare,
    /// The buffer's side is not a power of two.
    NonPowerOfTwo,
    /// A colour index in the tree lies outside the palette.
    ColorOutOfRange,
}

impl AnalyzeError {
    /// The text shown to a user for this failure.
    pub fn message(&self) -> (s: String)
        ensures
            s@ == match *self {
                AnalyzeError::NonSquare =>
                    "the image buffer's dimensions are not equal; the image is not a square."@,
                AnalyzeError::NonPowerOfTwo =>
                    "the image buffer's dimensions are not powers of two."@,
            },
    {
        match self {
            AnalyzeError::NonSquare =>
                "the image buffer's dimensions are not equal; the image is not a square.".to_owned(),
            AnalyzeError::NonPowerOfTwo =>
                "the image buffer's dimensions are not powers of two.".to_owned(),
        }
    }
}

impl EncodeError {
    /// The text shown to a user for this failure.
    pub fn message(&self) -> (s: String)
        ensures
            s@ == "a color specified in the quadtree is outside the range of the palette."@,
    {
        match self {
            EncodeError::ColorOutOfRange =>
                "a color specified in the quadtree is outside the range of the palette.".to_owned(),
        }
    }
}

impl DecodeError {
    /// The text shown to a user for this failure.
    pub fn message(&self) -> (s: String)
        ensures
            s@ == match *self {
                DecodeError::InsufficientData => "a node number was expected but not found."@,
                DecodeError::MissingHeader => "there was no valid QIM file header."@,
                DecodeError::PaletteTooLarge =>
                    "the stored palette exceeds the capacity of the receiving palette."@,
            },
    {
        match self {
            DecodeError::InsufficientData => "a node number was expected but not found.".to_owned(),
            DecodeError::MissingHeader => "there was no valid QIM file header.".to_owned(),
            DecodeError::PaletteTooLarge =>
                "the stored palette exceeds the capacity of the receiving palette.".to_owned(),
        }
    }
}

impl MountError {
    /// The text shown to a user for this failure.
    pub fn message(&self) -> (s: String)
        ensures
            s@ == match *self {
                MountError::InvalidSize => "the size of the index buffer is not a power of 4."@,
                MountError::ColorOutOfRange =>
                    "a pixel has a color outside the extent of the palette."@,
            },
    {
        match self {
            MountError::InvalidSize => "the size of the index buffer is not a power of 4.".to_owned(),
            MountError::ColorOutOfRange =>
                "a pixel has a color outside the extent of the palette.".to_owned(),
        }
    }
}

impl DrawError {
    /// The text shown to a user for this failure.
    pub fn message(&self) -> (s: String)
        ensures
            s@ == match *self {
                DrawError::NonSquare =>
                    "the image buffer's dimensions are not equal; the image is not a square."@,
                DrawError::NonPowerOfTwo =>
                    "the image buffer's dimensions are not powers of two."@,
                DrawError::ColorOutOfRange =>
                    "a color specified in the quadtree is outside the range of the palette."@,
            },
    {
        match self {
            DrawError::NonSquare =>
                "the image buffer's dimensions are not equal; the image is not a square.".to_owned(),
            DrawError::NonPowerOfTwo =>
                "the image buffer's dimensions are not powers of two.".to_owned(),
            DrawError::ColorOutOfRange =>
                "a color specified in the quadtree is outside the range of the palette.".to_owned(),
        }
    }
}

} // verus!
