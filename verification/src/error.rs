//! The ways in which a conversion can fail.

use vstd::prelude::*;

verus! {

/// Why a conversion was given up. No output is produced with any of these.
#[derive(Clone, Copy, Debug, PartialEq, Eq, Structural)]
pub enum ConvertError {
    /// A run-length record declares a run of zero pixels.
    ZeroRunLength,
    /// The stream ends before the header or a record is complete, or before
    /// the declared number of pixels has been described.
    TruncatedStream,
    /// The data describe more pixels than width and height declare, or do
    /// not fit them in some other way.
    PixelCountMismatch,
    /// The image does not fit into the address space of this machine.
    ImageTooLarge,
    /// An image with indexed colors came without a palette.
    MissingPalette,
    /// The color type cannot be combined with the bit depth.
    UnsupportedFormat,
    /// A pixel of an image with indexed colors names a color that the palette lacks.
    PaletteIndexOutOfRange,
    /// The PNG decoder did not accept its input.
    PngDecoding,
    /// The PNG encoder did not accept the image.
    PngEncoding,
}

impl ConvertError {
    /// The words in which the error is told to a user.
    pub open spec fn text(self) -> Seq<char> {
        match self {
            ConvertError::ZeroRunLength => "Unexpected RLE count value of 0"@,
            ConvertError::TruncatedStream => "Unexpected end of the DATA stream"@,
            ConvertError::PixelCountMismatch => "Image data do not match the image dimensions"@,
            ConvertError::ImageTooLarge => "Image is too large"@,
            ConvertError::MissingPalette => "Image with indexed color type is missing a palette"@,
            ConvertError::UnsupportedFormat => "Unsupported combination of color type and bit depth"@,
            ConvertError::PaletteIndexOutOfRange => "Image refers to a color that its palette lacks"@,
            ConvertError::PngDecoding => "Failed to decode the PNG image"@,
            ConvertError::PngEncoding => "Failed to encode the PNG image"@,
        }
    }

    /// The words in which the error is told to a user.
    pub fn message(&self) -> (message: &'static str)
        ensures
            message@ == self.text(),
    {
        match self {
            ConvertError::ZeroRunLength => "Unexpected RLE count value of 0",
            ConvertError::TruncatedStream => "Unexpected end of the DATA stream",
            ConvertError::PixelCountMismatch => "Image data do not match the image dimensions",
            ConvertError::ImageTooLarge => "Image is too large",
            ConvertError::MissingPalette => "Image with indexed color type is missing a palette",
            ConvertError::UnsupportedFormat => "Unsupported combination of color type and bit depth",
            ConvertError::PaletteIndexOutOfRange => "Image refers to a color that its palette lacks",
            ConvertError::PngDecoding => "Failed to decode the PNG image",
            ConvertError::PngEncoding => "Failed to encode the PNG image",
        }
    }
}

} // verus!
