//! The sample layouts that a PNG image can come in.

use vstd::prelude::*;

verus! {

/// The number of bits that one sample takes in the packed data.
#[derive(Clone, Copy, Debug, PartialEq, Eq, Structural)]
pub enum BitDepth {
    One,
    Two,
    Four,
    Eight,
    Sixteen,
}

/// What the samples of one pixel stand for.
#[derive(Clone, Copy, Debug, PartialEq, Eq, Structural)]
pub enum ColorType {
    Grayscale,
    Rgb,
    Indexed,
    GrayscaleAlpha,
    Rgba,
}

impl BitDepth {
    /// The depth as a number of bits.
    pub open spec fn spec_bits(self) -> usize {
        match self {
            BitDepth::One => 1,
            BitDepth::Two => 2,
            BitDepth::Four => 4,
            BitDepth::Eight => 8,
            BitDepth::Sixteen => 16,
        }
    }

    /// The depth as a number of bits.
    #[verifier::when_used_as_spec(spec_bits)]
    pub fn bits(self) -> (bits: usize)
        ensures
            bits == self.spec_bits(),
    {
        match self {
            BitDepth::One => 1,
            BitDepth::Two => 2,
            BitDepth::Four => 4,
            BitDepth::Eight => 8,
            BitDepth::Sixteen => 16,
        }
    }
}

impl ColorType {
    /// The number of samples that make up one pixel.
    pub open spec fn spec_samples(self) -> usize {
        match self {
            ColorType::Grayscale => 1,
            ColorType::Indexed => 1,
            ColorType::GrayscaleAlpha => 2,
            ColorType::Rgb => 3,
            ColorType::Rgba => 4,
        }
    }

    /// The number of samples that make up one pixel.
    #[verifier::when_used_as_spec(spec_samples)]
    pub fn samples(self) -> (samples: usize)
        ensures
            samples == self.spec_samples(),
    {
        match self {
            ColorType::Grayscale => 1,
            ColorType::Indexed => 1,
            ColorType::GrayscaleAlpha => 2,
            ColorType::Rgb => 3,
            ColorType::Rgba => 4,
        }
    }
}

} // verus!
