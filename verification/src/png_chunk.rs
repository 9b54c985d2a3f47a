//! The chunk view: conversion of a chunk's packed samples into normalized
//! RGB or RGBA samples of eight bits.

use vstd::prelude::*;
use crate::error::ConvertError;
use crate::format::BitDepth;
use crate::format::ColorType;
use crate::png::PngChunk;
use crate::rle::result_view;
use crate::unpack::max_sample;
use crate::unpack::unpack;
use crate::unpack::unpacked;

verus! {

/// The factor that spreads a grayscale sample of the given depth over the
/// range of a byte.
pub open spec fn gray_scale(depth: BitDepth) -> u8 {
    match depth {
        BitDepth::One => 255,
        BitDepth::Two => 85,
        BitDepth::Four => 17,
        _ => 1,
    }
}

/// Channel `c` of pixel `p` in RGBA order (red, green, blue, alpha), made of
/// the unpacked samples of an image of the given format.
pub open spec fn channel(
    samples: Seq<u8>,
    color_type: ColorType,
    depth: BitDepth,
    palette: Seq<u8>,
    p: int,
    c: int,
) -> u8 {
    match color_type {
        ColorType::Indexed => if c < 3 {
            palette[samples[p] * 3 + c]
        } else {
            255
        },
        ColorType::Grayscale => if c < 3 {
            (samples[p] * gray_scale(depth)) as u8
        } else {
            255
        },
        ColorType::GrayscaleAlpha => if c < 3 {
            (samples[2 * p] * gray_scale(depth)) as u8
        } else {
            (samples[2 * p + 1] * gray_scale(depth)) as u8
        },
        ColorType::Rgb => if c < 3 {
            samples[3 * p + c]
        } else {
            255
        },
        ColorType::Rgba => samples[4 * p + c],
    }
}

/// The first `channels` channels of each of `len` pixels, pixel after pixel.
pub open spec fn normalized(
    samples: Seq<u8>,
    color_type: ColorType,
    depth: BitDepth,
    palette: Seq<u8>,
    len: nat,
    channels: int,
) -> Seq<u8> {
    Seq::new(
        (len * channels) as nat,
        |k: int| channel(samples, color_type, depth, palette, k / channels, k % channels),
    )
}

/// A scaled grayscale sample fills the range of a byte and no more.
pub proof fn lemma_gray_scale(sample: u8, depth: BitDepth)
    requires
        sample <= max_sample(depth),
    ensures
        sample * gray_scale(depth) <= 255,
{
    let scale = gray_scale(depth);
    let most = max_sample(depth);
    assert(sample * scale <= 255) by (nonlinear_arith)
        requires
            0 <= sample <= most,
            (most == 1 && scale == 255) || (most == 3 && scale == 85) || (most == 15 && scale
                == 17) || (most == 255 && scale == 1),
    ;
}

/// The unpacked samples of `len` pixels that are packed in `data`.
pub open spec fn chunk_samples(
    data: Seq<u8>,
    len: nat,
    span: int,
    color_type: ColorType,
    depth: BitDepth,
) -> Seq<u8> {
    unpacked(data, (len * color_type.spec_samples()) as nat, span, depth)
}

/// Whether the palette holds a color for each of the first `len` indices.
pub open spec fn indices_in_palette(samples: Seq<u8>, len: nat, palette: Seq<u8>) -> bool {
    forall|p: int| 0 <= p < len ==> (#[trigger] samples[p]) * 3 + 3 <= palette.len()
}

/// The `len` pixels that are packed in `data`, with `channels` channels
/// each, or the reason for which they cannot be had.
pub open spec fn converted(
    data: Seq<u8>,
    len: nat,
    span: int,
    color_type: ColorType,
    depth: BitDepth,
    palette: Seq<u8>,
    channels: int,
) -> Result<Seq<u8>, ConvertError> {
    let samples = chunk_samples(data, len, span, color_type, depth);
    if color_type == ColorType::Indexed && !indices_in_palette(samples, len, palette) {
        Err(ConvertError::PaletteIndexOutOfRange)
    } else {
        Ok(normalized(samples, color_type, depth, palette, len, channels))
    }
}

impl<'a> PngChunk<'a> {
    /// The chunk's samples, unpacked.
    pub open spec fn samples(&self) -> Seq<u8> {
        chunk_samples(
            self.data@,
            self.len as nat,
            self.span as int,
            self.png.color_type,
            self.png.bit_depth,
        )
    }

    /// The owner's palette, empty where it has none.
    pub open spec fn palette(&self) -> Seq<u8> {
        self.png@.colors()
    }

    /// The chunk's pixels with `channels` channels each, or the reason for
    /// which they cannot be had.
    pub open spec fn converted(&self, channels: int) -> Result<Seq<u8>, ConvertError> {
        converted(
            self.data@,
            self.len as nat,
            self.span as int,
            self.png.color_type,
            self.png.bit_depth,
            self.palette(),
            channels,
        )
    }

    /// The factor by which the owner's grayscale samples are scaled.
    fn grayscale_multiplier(&self) -> (multiplier: u8)
        ensures
            multiplier == gray_scale(self.png.bit_depth),
    {
        match self.png.bit_depth {
            BitDepth::One => 255,
            BitDepth::Two => 85,
            BitDepth::Four => 17,
            _ => 1,
        }
    }

    /// Unpacks the samples of the chunk's pixels.
    fn unpack(&self) -> (samples: Vec<u8>)
        requires
            self.wf(),
        ensures
            samples@ == self.samples(),
            samples@.len() == self.len * self.png.color_type.spec_samples(),
            forall|j: int|
                0 <= j < samples@.len() ==> #[trigger] samples@[j] <= max_sample(
                    self.png.bit_depth,
                ),
    {
        let samples: usize = self.png.color_type.samples();
        assert(self.len * samples <= self.len * 4) by (nonlinear_arith)
            requires
                samples <= 4,
                0 <= self.len,
        ;
        unpack(self.data, self.len * samples, self.span, self.png.bit_depth)
    }

    /// Gray pixels as RGB: the scaled sample three times.
    fn grayscale_to_rgb(&self) -> (output: Vec<u8>)
        requires
            self.wf(),
            self.png.color_type == ColorType::Grayscale,
        ensures
            Ok::<Seq<u8>, ConvertError>(output@) == self.converted(3),
    {
        let input = self.unpack();
        assert(input@.len() == self.len * self.png.color_type.spec_samples());
        let mut output: Vec<u8> = Vec::with_capacity(self.len * 3);

        let multiplier = self.grayscale_multiplier();
        let mut pixel: usize = 0;
        while pixel < self.len
            invariant
                pixel <= self.len,
                input@ == self.samples(),
                input@.len() == self.len,
                self.png.color_type == ColorType::Grayscale,
                multiplier == gray_scale(self.png.bit_depth),
                forall|j: int|
                    0 <= j < input@.len() ==> #[trigger] input@[j] <= max_sample(
                        self.png.bit_depth,
                    ),
                output@ == normalized(
                    input@,
                    self.png.color_type,
                    self.png.bit_depth,
                    self.palette(),
                    pixel as nat,
                    3,
                ),
            decreases self.len - pixel,
        {
            proof {
                lemma_gray_scale(input@[pixel as int], self.png.bit_depth);
            }
            let grey: u8 = input[pixel] * multiplier;

            output.push(grey);
            output.push(grey);
            output.push(grey);
            pixel += 1;
            assert(output@ =~= normalized(
                input@,
                self.png.color_type,
                self.png.bit_depth,
                self.palette(),
                pixel as nat,
                3,
            ));
        }
        output
    }

    /// Gray pixels as RGBA: the scaled sample three times, fully opaque.
    fn grayscale_to_rgba(&self) -> (output: Vec<u8>)
        requires
            self.wf(),
            self.png.color_type == ColorType::Grayscale,
        ensures
            Ok::<Seq<u8>, ConvertError>(output@) == self.converted(4),
    {
        let input = self.unpack();
        assert(input@.len() == self.len * self.png.color_type.spec_samples());
        let mut output: Vec<u8> = Vec::with_capacity(self.len * 4);

        let multiplier = self.grayscale_multiplier();
        let mut pixel: usize = 0;
        while pixel < self.len
            invariant
                pixel <= self.len,
                input@ == self.samples(),
                input@.len() == self.len * 1,
                self.len * 4 <= usize::MAX,
                self.png.color_type == ColorType::Grayscale,
                multiplier == gray_scale(self.png.bit_depth),
                forall|j: int|
                    0 <= j < input@.len() ==> #[trigger] input@[j] <= max_sample(
                        self.png.bit_depth,
                    ),
                output@ == normalized(
                    input@,
                    self.png.color_type,
                    self.png.bit_depth,
                    self.palette(),
                    pixel as nat,
                    4,
                ),
            decreases self.len - pixel,
        {
            proof {
                lemma_gray_scale(input@[pixel as int], self.png.bit_depth);
            }
            let grey: u8 = input[pixel] * multiplier;

            output.push(grey);
            output.push(grey);
            output.push(grey);
            output.push(255);
            pixel += 1;
            assert(output@ =~= normalized(
                input@,
                self.png.color_type,
                self.png.bit_depth,
                self.palette(),
                pixel as nat,
                4,
            ));
        }
        output
    }

    /// Gray pixels with alpha as RGB: the scaled gray sample three times.
    fn grayscale_alpha_to_rgb(&self) -> (output: Vec<u8>)
        requires
            self.wf(),
            self.png.color_type == ColorType::GrayscaleAlpha,
        ensures
            Ok::<Seq<u8>, ConvertError>(output@) == self.converted(3),
    {
        let input = self.unpack();
        assert(input@.len() == self.len * self.png.color_type.spec_samples());
        let mut output: Vec<u8> = Vec::with_capacity(self.len * 3);

        let multiplier = self.grayscale_multiplier();
        let mut pixel: usize = 0;
        while pixel < self.len
            invariant
                pixel <= self.len,
                input@ == self.samples(),
                input@.len() == self.len * 2,
                self.len * 4 <= usize::MAX,
                self.png.color_type == ColorType::GrayscaleAlpha,
                multiplier == gray_scale(self.png.bit_depth),
                forall|j: int|
                    0 <= j < input@.len() ==> #[trigger] input@[j] <= max_sample(
                        self.png.bit_depth,
                    ),
                output@ == normalized(
                    input@,
                    self.png.color_type,
                    self.png.bit_depth,
                    self.palette(),
                    pixel as nat,
                    3,
                ),
            decreases self.len - pixel,
        {
            let input_offset: usize = pixel * 2;
            proof {
                lemma_gray_scale(input@[input_offset as int], self.png.bit_depth);
            }
            let grey: u8 = input[input_offset] * multiplier;

            output.push(grey);
            output.push(grey);
            output.push(grey);
            pixel += 1;
            assert(output@ =~= normalized(
                input@,
                self.png.color_type,
                self.png.bit_depth,
                self.palette(),
                pixel as nat,
                3,
            ));
        }
        output
    }

    /// Gray pixels with alpha as RGBA: the scaled gray sample three times,
    /// then the scaled alpha sample.
    fn grayscale_alpha_to_rgba(&self) -> (output: Vec<u8>)
        requires
            self.wf(),
            self.png.color_type == ColorType::GrayscaleAlpha,
        ensures
            Ok::<Seq<u8>, ConvertError>(output@) == self.converted(4),
    {
        let input = self.unpack();
        assert(input@.len() == self.len * self.png.color_type.spec_samples());
        let mut output: Vec<u8> = Vec::with_capacity(self.len * 4);

        let multiplier = self.grayscale_multiplier();
        let mut pixel: usize = 0;
        while pixel < self.len
            invariant
                pixel <= self.len,
                input@ == self.samples(),
                input@.len() == self.len * 2,
                self.len * 4 <= usize::MAX,
                self.png.color_type == ColorType::GrayscaleAlpha,
                multiplier == gray_scale(self.png.bit_depth),
                forall|j: int|
                    0 <= j < input@.len() ==> #[trigger] input@[j] <= max_sample(
                        self.png.bit_depth,
                    ),
                output@ == normalized(
                    input@,
                    self.png.color_type,
                    self.png.bit_depth,
                    self.palette(),
                    pixel as nat,
                    4,
                ),
            decreases self.len - pixel,
        {
            let input_offset: usize = pixel * 2;
            proof {
                lemma_gray_scale(input@[input_offset as int], self.png.bit_depth);
            }
            let grey: u8 = input[input_offset] * multiplier;
            proof {
                lemma_gray_scale(input@[input_offset + 1], self.png.bit_depth);
            }
            let alpha: u8 = input[input_offset + 1] * multiplier;

            output.push(grey);
            output.push(grey);
            output.push(grey);
            output.push(alpha);
            pixel += 1;
            assert(output@ =~= normalized(
                input@,
                self.png.color_type,
                self.png.bit_depth,
                self.palette(),
                pixel as nat,
                4,
            ));
        }
        output
    }

    /// RGB pixels as they are.
    fn rgb_to_rgb(&self) -> (output: Vec<u8>)
        requires
            self.wf(),
            self.png.color_type == ColorType::Rgb,
        ensures
            Ok::<Seq<u8>, ConvertError>(output@) == self.converted(3),
    {
        let output = self.unpack();
        assert(output@ =~= normalized(
            output@,
            self.png.color_type,
            self.png.bit_depth,
            self.palette(),
            self.len as nat,
            3,
        ));
        output
    }

    /// RGB pixels as RGBA, fully opaque.
    fn rgb_to_rgba(&self) -> (output: Vec<u8>)
        requires
            self.wf(),
            self.png.color_type == ColorType::Rgb,
        ensures
            Ok::<Seq<u8>, ConvertError>(output@) == self.converted(4),
    {
        let input = self.unpack();
        assert(input@.len() == self.len * self.png.color_type.spec_samples());
        let mut output: Vec<u8> = Vec::with_capacity(self.len * 4);

        let mut pixel: usize = 0;
        while pixel < self.len
            invariant
                pixel <= self.len,
                input@ == self.samples(),
                input@.len() == self.len * 3,
                self.len * 4 <= usize::MAX,
                self.png.color_type == ColorType::Rgb,
                output@ == normalized(
                    input@,
                    self.png.color_type,
                    self.png.bit_depth,
                    self.palette(),
                    pixel as nat,
                    4,
                ),
            decreases self.len - pixel,
        {
            let input_offset: usize = pixel * 3;
            let r: u8 = input[input_offset];
            let g: u8 = input[input_offset + 1];
            let b: u8 = input[input_offset + 2];

            output.push(r);
            output.push(g);
            output.push(b);
            output.push(255);
            pixel += 1;
            assert(output@ =~= normalized(
                input@,
                self.png.color_type,
                self.png.bit_depth,
                self.palette(),
                pixel as nat,
                4,
            ));
        }
        output
    }

    /// RGBA pixels as RGB, the alpha sample dropped.
    fn rgba_to_rgb(&self) -> (output: Vec<u8>)
        requires
            self.wf(),
            self.png.color_type == ColorType::Rgba,
        ensures
            Ok::<Seq<u8>, ConvertError>(output@) == self.converted(3),
    {
        let input = self.unpack();
        assert(input@.len() == self.len * self.png.color_type.spec_samples());
        let mut output: Vec<u8> = Vec::with_capacity(self.len * 3);

        let mut pixel: usize = 0;
        while pixel < self.len
            invariant
                pixel <= self.len,
                input@ == self.samples(),
                input@.len() == self.len * 4,
                self.len * 4 <= usize::MAX,
                self.png.color_type == ColorType::Rgba,
                output@ == normalized(
                    input@,
                    self.png.color_type,
                    self.png.bit_depth,
                    self.palette(),
                    pixel as nat,
                    3,
                ),
            decreases self.len - pixel,
        {
            let input_offset: usize = pixel * 4;
            let r: u8 = input[input_offset];
            let g: u8 = input[input_offset + 1];
            let b: u8 = input[input_offset + 2];

            output.push(r);
            output.push(g);
            output.push(b);
            pixel += 1;
            assert(output@ =~= normalized(
                input@,
                self.png.color_type,
                self.png.bit_depth,
                self.palette(),
                pixel as nat,
                3,
            ));
        }
        output
    }

    /// RGBA pixels as they are.
    fn rgba_to_rgba(&self) -> (output: Vec<u8>)
        requires
            self.wf(),
            self.png.color_type == ColorType::Rgba,
        ensures
            Ok::<Seq<u8>, ConvertError>(output@) == self.converted(4),
    {
        let output = self.unpack();
        assert(output@ =~= normalized(
            output@,
            self.png.color_type,
            self.png.bit_depth,
            self.palette(),
            self.len as nat,
            4,
        ));
        output
    }

    /// Indexed pixels as RGB: the three bytes that the palette holds for
    /// the index.
    fn indexed_to_rgb(&self) -> (result: Result<Vec<u8>, ConvertError>)
        requires
            self.wf(),
            self.png.color_type == ColorType::Indexed,
        ensures
            result_view(result) == self.converted(3),
    {
        let input = self.unpack();
        assert(input@.len() == self.len * self.png.color_type.spec_samples());
        let mut output: Vec<u8> = Vec::with_capacity(self.len * 3);
        let palette: &Vec<u8> = match &self.png.palette {
            Some(p) => p,
            None => {
                return Err(ConvertError::MissingPalette);
            },
        };

        let mut pixel: usize = 0;
        while pixel < self.len
            invariant
                pixel <= self.len,
                input@ == self.samples(),
                input@.len() == self.len * 1,
                self.len * 4 <= usize::MAX,
                self.png.color_type == ColorType::Indexed,
                self.png.palette == Some(*palette),
                forall|p: int|
                    0 <= p < pixel ==> (#[trigger] input@[p]) * 3 + 3 <= palette@.len(),
                output@ == normalized(
                    input@,
                    self.png.color_type,
                    self.png.bit_depth,
                    self.palette(),
                    pixel as nat,
                    3,
                ),
            decreases self.len - pixel,
        {
            let palette_index: usize = input[pixel] as usize;
            let palette_offset: usize = palette_index * 3;
            if palette.len() < palette_offset + 3 {
                return Err(ConvertError::PaletteIndexOutOfRange);
            }
            output.push(palette[palette_offset]);
            output.push(palette[palette_offset + 1]);
            output.push(palette[palette_offset + 2]);
            pixel += 1;
            assert(output@ =~= normalized(
                input@,
                self.png.color_type,
                self.png.bit_depth,
                self.palette(),
                pixel as nat,
                3,
            ));
        }
        Ok(output)
    }

    /// Indexed pixels as RGBA: the three bytes that the palette holds for
    /// the index, fully opaque.
    fn indexed_to_rgba(&self) -> (result: Result<Vec<u8>, ConvertError>)
        requires
            self.wf(),
            self.png.color_type == ColorType::Indexed,
        ensures
            result_view(result) == self.converted(4),
    {
        let input = self.unpack();
        assert(input@.len() == self.len * self.png.color_type.spec_samples());
        let mut output: Vec<u8> = Vec::with_capacity(self.len * 4);
        let palette: &Vec<u8> = match &self.png.palette {
            Some(p) => p,
            None => {
                return Err(ConvertError::MissingPalette);
            },
        };

        let mut pixel: usize = 0;
        while pixel < self.len
            invariant
                pixel <= self.len,
                input@ == self.samples(),
                input@.len() == self.len * 1,
                self.len * 4 <= usize::MAX,
                self.png.color_type == ColorType::Indexed,
                self.png.palette == Some(*palette),
                forall|p: int|
                    0 <= p < pixel ==> (#[trigger] input@[p]) * 3 + 3 <= palette@.len(),
                output@ == normalized(
                    input@,
                    self.png.color_type,
                    self.png.bit_depth,
                    self.palette(),
                    pixel as nat,
                    4,
                ),
            decreases self.len - pixel,
        {
            let palette_index: usize = input[pixel] as usize;
            let palette_offset: usize = palette_index * 3;
            if palette.len() < palette_offset + 3 {
                return Err(ConvertError::PaletteIndexOutOfRange);
            }
            output.push(palette[palette_offset]);
            output.push(palette[palette_offset + 1]);
            output.push(palette[palette_offset + 2]);
            output.push(255);
            pixel += 1;
            assert(output@ =~= normalized(
                input@,
                self.png.color_type,
                self.png.bit_depth,
                self.palette(),
                pixel as nat,
                4,
            ));
        }
        Ok(output)
    }

    /// Convert the chunk into RGB 8-bit format (3 bytes per pixel).
    pub fn rgb(&self) -> (result: Result<Vec<u8>, ConvertError>)
        requires
            self.wf(),
        ensures
            result_view(result) == self.converted(3),
    {
        match self.png.color_type {
            ColorType::Indexed => self.indexed_to_rgb(),
            ColorType::Grayscale => Ok(self.grayscale_to_rgb()),
            ColorType::GrayscaleAlpha => Ok(self.grayscale_alpha_to_rgb()),
            ColorType::Rgb => Ok(self.rgb_to_rgb()),
            ColorType::Rgba => Ok(self.rgba_to_rgb()),
        }
    }

    /// Convert the chunk into RGBA 8-bit format (4 bytes per pixel).
    pub fn rgba(&self) -> (result: Result<Vec<u8>, ConvertError>)
        requires
            self.wf(),
        ensures
            result_view(result) == self.converted(4),
    {
        match self.png.color_type {
            ColorType::Indexed => self.indexed_to_rgba(),
            ColorType::Grayscale => Ok(self.grayscale_to_rgba()),
            ColorType::GrayscaleAlpha => Ok(self.grayscale_alpha_to_rgba()),
            ColorType::Rgb => Ok(self.rgb_to_rgba()),
            ColorType::Rgba => Ok(self.rgba_to_rgba()),
        }
    }
}

} // verus!
