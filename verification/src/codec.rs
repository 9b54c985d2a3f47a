//! The PNG container: what the `png` crate does for this library, and the
//! checked steps between its values and the library's own.

use vstd::prelude::*;
use crate::error::ConvertError;
use crate::format::BitDepth;
use crate::format::ColorType;
use crate::png::Png;
use crate::png::PngView;
use crate::png::construction_error;
use crate::png::container;

verus! {

/// The error of `png`'s decoder. Nothing is known of what it holds.
#[verifier::external_type_specification]
#[verifier::external_body]
pub struct ExDecodingError(png::DecodingError);

/// The first frame of a PNG file as the decoder hands it over: color type
/// and bit depth by their numbers in the PNG header, the samples packed.
pub struct RawImage {
    pub width: u32,
    pub height: u32,
    pub color_type: u8,
    pub bit_depth: u8,
    pub data: Vec<u8>,
    pub palette: Option<Vec<u8>>,
}

/// What a `RawImage` holds.
pub struct RawImageView {
    pub width: u32,
    pub height: u32,
    pub color_type: u8,
    pub bit_depth: u8,
    pub data: Seq<u8>,
    pub palette: Option<Seq<u8>>,
}

impl View for RawImage {
    type V = RawImageView;

    open spec fn view(&self) -> RawImageView {
        RawImageView {
            width: self.width,
            height: self.height,
            color_type: self.color_type,
            bit_depth: self.bit_depth,
            data: self.data@,
            palette: match self.palette {
                Some(p) => Some(p@),
                None => None,
            },
        }
    }
}

/// The PNG file that `png`'s encoder writes for an image, color type and
/// bit depth given by their numbers in the PNG header; `None` where it
/// refuses the image.
pub uninterp spec fn png_encoding(width: u32, height: u32, color_type: u8, bit_depth: u8, samples: Seq<u8>) -> Option<Seq<u8>>;

/// The first frame that `png`'s decoder reads from a PNG file; `None` where
/// it refuses the file.
pub uninterp spec fn png_decoding(input: Seq<u8>) -> Option<RawImageView>;

/// Calls `png::Encoder` with the color type and bit depth that
/// `ColorType::from_u8` and `BitDepth::from_u8` make of the two numbers, then
/// `write_header`, `write_image_data` and `finish` of its writer. The
/// contract gives the bytes written a name, and says that nothing comes back
/// where there are none. It claims nothing of what the bytes are. The encoder
/// multiplies the length of a row, of up to eight bytes a pixel, by the
/// height: images for which that product leaves the range of `usize` are
/// left out.
#[verifier::external_body]
pub(crate) fn encode_png(
    width: u32,
    height: u32,
    color_type: u8,
    bit_depth: u8,
    samples: &[u8],
) -> (result: Option<Vec<u8>>)
    requires
        width * height * 8 <= usize::MAX,
    ensures
        match result {
            Some(bytes) => png_encoding(width, height, color_type, bit_depth, samples@) == Some(
                bytes@,
            ),
            None => png_encoding(width, height, color_type, bit_depth, samples@).is_none(),
        },
{
    let mut output = Vec::new();
    let mut encoder = png::Encoder::new(&mut output, width, height);
    encoder.set_color(png::ColorType::from_u8(color_type)?);
    encoder.set_depth(png::BitDepth::from_u8(bit_depth)?);
    let mut writer = encoder.write_header().ok()?;
    writer.write_image_data(samples).ok()?;
    writer.finish().ok()?;
    Some(output)
}

/// Calls `png::Decoder` on the bytes: `read_info`, then `next_frame` into a
/// buffer of `output_buffer_size` bytes, which is cut to the frame's
/// `buffer_size`. The contract gives the frame a name, and says that an error
/// comes where there is none. It claims nothing of what the frame holds.
#[verifier::external_body]
pub(crate) fn decode_png(input: &[u8]) -> (result: Result<RawImage, png::DecodingError>)
    ensures
        match result {
            Ok(raw) => png_decoding(input@) == Some(raw@),
            Err(_) => png_decoding(input@).is_none(),
        },
{
    let mut reader = png::Decoder::new(input).read_info()?;
    let mut data = vec![0; reader.output_buffer_size()];
    let frame = reader.next_frame(&mut data)?;
    data.truncate(frame.buffer_size());
    let palette = reader.info().palette.as_ref().map(|p| p.to_vec());
    let color_type = frame.color_type as u8;
    let bit_depth = frame.bit_depth as u8;
    Ok(RawImage { width: frame.width, height: frame.height, color_type, bit_depth, data, palette })
}

/// The color type that a number in a PNG header stands for.
pub open spec fn color_type_of(code: u8) -> Option<ColorType> {
    if code == 0 {
        Some(ColorType::Grayscale)
    } else if code == 2 {
        Some(ColorType::Rgb)
    } else if code == 3 {
        Some(ColorType::Indexed)
    } else if code == 4 {
        Some(ColorType::GrayscaleAlpha)
    } else if code == 6 {
        Some(ColorType::Rgba)
    } else {
        None
    }
}

/// The bit depth that a number in a PNG header stands for.
pub open spec fn bit_depth_of(code: u8) -> Option<BitDepth> {
    if code == 1 {
        Some(BitDepth::One)
    } else if code == 2 {
        Some(BitDepth::Two)
    } else if code == 4 {
        Some(BitDepth::Four)
    } else if code == 8 {
        Some(BitDepth::Eight)
    } else if code == 16 {
        Some(BitDepth::Sixteen)
    } else {
        None
    }
}

/// The image that is made of a decoded frame, or the reason for which none is.
pub open spec fn raw_container(raw: RawImageView) -> Result<PngView, ConvertError> {
    match (color_type_of(raw.color_type), bit_depth_of(raw.bit_depth)) {
        (Some(color_type), Some(bit_depth)) => match construction_error(
            raw.width as int,
            raw.height as int,
            color_type,
            bit_depth,
            raw.data.len() as int,
            raw.palette.is_some(),
        ) {
            Some(e) => Err(e),
            None => Ok(
                container(
                    raw.width as int,
                    raw.height as int,
                    color_type,
                    bit_depth,
                    raw.data,
                    raw.palette,
                ),
            ),
        },
        _ => Err(ConvertError::UnsupportedFormat),
    }
}

/// The view of an executable result that holds an image.
pub open spec fn container_view(r: Result<Png, ConvertError>) -> Result<PngView, ConvertError> {
    match r {
        Ok(png) => Ok(png@),
        Err(e) => Err(e),
    }
}

impl ColorType {
    /// The number that stands for the color type in a PNG header.
    pub open spec fn spec_code(self) -> u8 {
        match self {
            ColorType::Grayscale => 0,
            ColorType::Rgb => 2,
            ColorType::Indexed => 3,
            ColorType::GrayscaleAlpha => 4,
            ColorType::Rgba => 6,
        }
    }

    /// The number that stands for the color type in a PNG header.
    #[verifier::when_used_as_spec(spec_code)]
    pub fn code(self) -> (code: u8)
        ensures
            code == self.spec_code(),
            color_type_of(code) == Some(self),
    {
        match self {
            ColorType::Grayscale => 0,
            ColorType::Rgb => 2,
            ColorType::Indexed => 3,
            ColorType::GrayscaleAlpha => 4,
            ColorType::Rgba => 6,
        }
    }

    /// The color type that a number in a PNG header stands for.
    pub fn from_code(code: u8) -> (color_type: Option<ColorType>)
        ensures
            color_type == color_type_of(code),
    {
        if code == 0 {
            Some(ColorType::Grayscale)
        } else if code == 2 {
            Some(ColorType::Rgb)
        } else if code == 3 {
            Some(ColorType::Indexed)
        } else if code == 4 {
            Some(ColorType::GrayscaleAlpha)
        } else if code == 6 {
            Some(ColorType::Rgba)
        } else {
            None
        }
    }
}

impl BitDepth {
    /// The bit depth that a number in a PNG header stands for.
    pub fn from_code(code: u8) -> (bit_depth: Option<BitDepth>)
        ensures
            bit_depth == bit_depth_of(code),
    {
        if code == 1 {
            Some(BitDepth::One)
        } else if code == 2 {
            Some(BitDepth::Two)
        } else if code == 4 {
            Some(BitDepth::Four)
        } else if code == 8 {
            Some(BitDepth::Eight)
        } else if code == 16 {
            Some(BitDepth::Sixteen)
        } else {
            None
        }
    }
}

impl Png {
    /// Takes over a frame that the decoder has read. A color type or bit
    /// depth that PNG does not know is refused, and so is what `new` refuses.
    pub fn from_raw(raw: RawImage) -> (result: Result<Png, ConvertError>)
        ensures
            container_view(result) == raw_container(raw@),
            result.is_ok() ==> result.unwrap().wf(),
    {
        let color_type = match ColorType::from_code(raw.color_type) {
            Some(color_type) => color_type,
            None => {
                return Err(ConvertError::UnsupportedFormat);
            },
        };
        let bit_depth = match BitDepth::from_code(raw.bit_depth) {
            Some(bit_depth) => bit_depth,
            None => {
                return Err(ConvertError::UnsupportedFormat);
            },
        };
        Png::new(
            raw.width as usize,
            raw.height as usize,
            color_type,
            bit_depth,
            raw.data,
            raw.palette,
        )
    }

    /// Decodes the first frame of a PNG file.
    pub fn load(input: &[u8]) -> (result: Result<Png, ConvertError>)
        ensures
            container_view(result) == match png_decoding(input@) {
                Some(raw) => raw_container(raw),
                None => Err(ConvertError::PngDecoding),
            },
            result.is_ok() ==> result.unwrap().wf(),
    {
        match decode_png(input) {
            Ok(raw) => Png::from_raw(raw),
            Err(_) => Err(ConvertError::PngDecoding),
        }
    }
}

} // verus!
