//! Conversion between DATA streams and the pixels of PNG images.

use vstd::prelude::*;
use vstd::slice::slice_subrange;
use crate::codec::RawImageView;
use crate::codec::encode_png;
use crate::codec::png_decoding;
use crate::codec::png_encoding;
use crate::codec::raw_container;
use crate::error::ConvertError;
use crate::format::BitDepth;
use crate::format::ColorType;
use crate::png::Png;
use crate::png::PngChunk;
use crate::png::PngView;
use crate::png::chunk_count;
use crate::png::chunk_len;
use crate::png::least;
use crate::png_chunk::converted;
use crate::rle::after;
use crate::rle::alpha_record;
use crate::rle::data_to_png_chunk_rgb;
use crate::rle::data_to_png_rgba;
use crate::rle::decode_alpha;
use crate::rle::decode_opaque;
use crate::rle::encode_alpha;
use crate::rle::encode_alpha_from;
use crate::rle::encode_opaque;
use crate::rle::encode_opaque_from;
use crate::rle::joined;
use crate::rle::lemma_after_nothing;
use crate::rle::lemma_decode_opaque_split;
use crate::rle::pixel_at;
use crate::rle::result_view;
use crate::rle::run_length;
use crate::rle::run_tail;

verus! {

/// The number of pixels that a chunk of an image is meant to have.
pub const TARGET_CHUNK_SIZE: usize = 0x10000;

/// An image of eight bits a sample: RGB samples, or RGBA samples where it
/// has an alpha channel, row after row.
pub struct Image {
    pub width: u32,
    pub height: u32,
    pub has_alpha: bool,
    pub samples: Vec<u8>,
}

/// What an `Image` holds.
pub struct ImageView {
    pub width: u32,
    pub height: u32,
    pub has_alpha: bool,
    pub samples: Seq<u8>,
}

impl View for Image {
    type V = ImageView;

    open spec fn view(&self) -> ImageView {
        ImageView {
            width: self.width,
            height: self.height,
            has_alpha: self.has_alpha,
            samples: self.samples@,
        }
    }
}

impl ImageView {
    /// The number of samples of one pixel.
    pub open spec fn channels(self) -> int {
        if self.has_alpha {
            4
        } else {
            3
        }
    }

    /// Whether there are as many samples as the pixels need.
    pub open spec fn wf(self) -> bool {
        self.samples.len() == self.width * self.height * self.channels()
    }
}

/// The view of an executable result that holds an image.
pub open spec fn image_view(r: Result<Image, ConvertError>) -> Result<ImageView, ConvertError> {
    match r {
        Ok(image) => Ok(image@),
        Err(e) => Err(e),
    }
}

/// The number that four bytes spell, the least significant byte first.
pub open spec fn le_u32(bytes: Seq<u8>) -> int
    recommends
        bytes.len() >= 4,
{
    bytes[0] + 256 * bytes[1] + 65536 * bytes[2] + 16777216 * bytes[3]
}

/// The four bytes that spell a number, the least significant byte first.
pub open spec fn u32_le_bytes(value: u32) -> Seq<u8> {
    seq![
        (value % 256) as u8,
        (value / 256 % 256) as u8,
        (value / 65536 % 256) as u8,
        (value / 16777216) as u8,
    ]
}

/// The byte that stands for a flag.
pub open spec fn bool_byte(value: bool) -> u8 {
    if value {
        1
    } else {
        0
    }
}

/// The nine bytes in front of the records of a DATA file.
pub open spec fn header(width: u32, height: u32, has_alpha: bool) -> Seq<u8> {
    u32_le_bytes(width) + u32_le_bytes(height) + seq![bool_byte(has_alpha)]
}

/// Takes the byte at `position` and moves on by one. At the end of the
/// input nothing is taken and nothing moves.
pub fn read_u8(input: &[u8], position: &mut usize) -> (result: Result<u8, ConvertError>)
    ensures
        match result {
            Ok(value) => *old(position) < input@.len() && value == input@[*old(position) as int]
                && *final(position) == *old(position) + 1,
            Err(e) => e == ConvertError::TruncatedStream && *old(position) >= input@.len()
                && *final(position) == *old(position),
        },
{
    if *position >= input.len() {
        return Err(ConvertError::TruncatedStream);
    }
    let value: u8 = input[*position];
    *position = *position + 1;
    Ok(value)
}

/// Takes the flag at `position`: any byte but zero stands for `true`.
pub fn read_bool(input: &[u8], position: &mut usize) -> (result: Result<bool, ConvertError>)
    ensures
        match result {
            Ok(value) => *old(position) < input@.len() && value == (input@[*old(position) as int]
                != 0) && *final(position) == *old(position) + 1,
            Err(e) => e == ConvertError::TruncatedStream && *old(position) >= input@.len()
                && *final(position) == *old(position),
        },
{
    match read_u8(input, position) {
        Ok(value) => Ok(value != 0),
        Err(e) => Err(e),
    }
}

/// Takes the four bytes at `position` as a number, the least significant
/// byte first, and moves on by four. Where fewer than four bytes are left
/// nothing is taken and nothing moves.
pub fn read_u32(input: &[u8], position: &mut usize) -> (result: Result<u32, ConvertError>)
    ensures
        match result {
            Ok(value) => *old(position) + 4 <= input@.len() && value == le_u32(
                input@.subrange(*old(position) as int, *old(position) + 4),
            ) && *final(position) == *old(position) + 4,
            Err(e) => e == ConvertError::TruncatedStream && *old(position) + 4 > input@.len()
                && *final(position) == *old(position),
        },
{
    let start: usize = *position;
    if start > input.len() || input.len() - start < 4 {
        return Err(ConvertError::TruncatedStream);
    }
    let value: u32 = input[start] as u32 + 256 * (input[start + 1] as u32) + 65536 * (input[start
        + 2] as u32) + 16777216 * (input[start + 3] as u32);
    *position = start + 4;
    Ok(value)
}

/// Appends a byte.
pub fn write_u8(output: &mut Vec<u8>, value: u8)
    ensures
        final(output)@ == old(output)@.push(value),
{
    output.push(value);
}

/// Appends a flag as one byte: 1 for `true`, 0 for `false`.
pub fn write_bool(output: &mut Vec<u8>, value: bool)
    ensures
        final(output)@ == old(output)@.push(bool_byte(value)),
{
    let byte: u8 = if value {
        1
    } else {
        0
    };
    output.push(byte);
}

/// Appends a number as four bytes, the least significant byte first.
pub fn write_u32(output: &mut Vec<u8>, value: u32)
    ensures
        final(output)@ == old(output)@ + u32_le_bytes(value),
{
    output.push((value % 256) as u8);
    output.push((value / 256 % 256) as u8);
    output.push((value / 65536 % 256) as u8);
    output.push((value / 16777216) as u8);
    assert(output@ =~= old(output)@ + u32_le_bytes(value));
}

/// A number that was written is read back.
pub proof fn lemma_u32_round_trip(value: u32)
    ensures
        u32_le_bytes(value).len() == 4,
        le_u32(u32_le_bytes(value)) == value,
{
    let v = value as int;
    let first = v % 256;
    let second = v / 256 % 256;
    let third = v / 65536 % 256;
    let fourth = v / 16777216;
    assert(v == 256 * (v / 256) + first);
    assert(v / 256 == 256 * (v / 65536) + second);
    assert(v / 65536 == 256 * (v / 16777216) + third);
    assert(0 <= fourth < 256);
    assert(v == first + 256 * second + 65536 * third + 16777216 * fourth);
    let bytes = u32_le_bytes(value);
    assert(bytes[0] == first && bytes[1] == second && bytes[2] == third && bytes[3] == fourth);
}

/// Samples of an opaque image of `pixels` pixels, where there are as many
/// as these need.
pub open spec fn fitted(samples: Seq<u8>, pixels: int) -> Result<Seq<u8>, ConvertError> {
    if samples.len() < 3 * pixels {
        Err(ConvertError::TruncatedStream)
    } else if samples.len() > 3 * pixels {
        Err(ConvertError::PixelCountMismatch)
    } else {
        Ok(samples)
    }
}

/// The opaque image of the given width and height that is made of decoded
/// samples, or the reason for which none is.
pub open spec fn opaque_image(width: u32, height: u32, samples: Seq<u8>) -> Result<
    ImageView,
    ConvertError,
> {
    if width * height * 4 > usize::MAX {
        Err(ConvertError::ImageTooLarge)
    } else {
        match fitted(samples, width * height) {
            Ok(s) => Ok(ImageView { width, height, has_alpha: false, samples: s }),
            Err(e) => Err(e),
        }
    }
}

/// The image that a DATA file describes: width and height as numbers of
/// four bytes, a flag for the alpha channel, and the records.
pub open spec fn decode_data(input: Seq<u8>) -> Result<ImageView, ConvertError> {
    if input.len() < 9 {
        Err(ConvertError::TruncatedStream)
    } else {
        let width = le_u32(input.subrange(0, 4)) as u32;
        let height = le_u32(input.subrange(4, 8)) as u32;
        let has_alpha = input[8] != 0;
        let body = input.skip(9);
        if width * height * 4 > usize::MAX {
            Err(ConvertError::ImageTooLarge)
        } else if has_alpha {
            match decode_alpha(body, (width * height) as nat) {
                Ok(samples) => Ok(ImageView { width, height, has_alpha, samples }),
                Err(e) => Err(e),
            }
        } else {
            match decode_opaque(body) {
                Ok(samples) => opaque_image(width, height, samples),
                Err(e) => Err(e),
            }
        }
    }
}

/// The number of pixels of an image, where this machine can address four
/// samples for each of them.
pub fn pixel_count(width: u32, height: u32) -> (result: Result<usize, ConvertError>)
    ensures
        match result {
            Ok(pixels) => pixels == width * height && width * height * 4 <= usize::MAX,
            Err(e) => e == ConvertError::ImageTooLarge && width * height * 4 > usize::MAX,
        },
{
    assert(width * height <= 0xffff_ffff * 0xffff_ffff) by (nonlinear_arith)
        requires
            0 <= width <= 0xffff_ffff,
            0 <= height <= 0xffff_ffff,
    ;
    let pixels: u64 = width as u64 * height as u64;
    if pixels > (usize::MAX / 4) as u64 {
        return Err(ConvertError::ImageTooLarge);
    }
    Ok(pixels as usize)
}

impl Image {
    /// Makes an opaque image of decoded samples. Too few of them are taken
    /// for a stream that ended early, too many for data that do not fit.
    pub fn opaque(width: u32, height: u32, samples: Vec<u8>) -> (result: Result<
        Image,
        ConvertError,
    >)
        ensures
            image_view(result) == opaque_image(width, height, samples@),
    {
        let pixels: usize = match pixel_count(width, height) {
            Ok(pixels) => pixels,
            Err(e) => {
                return Err(e);
            },
        };
        if samples.len() < 3 * pixels {
            return Err(ConvertError::TruncatedStream);
        }
        if samples.len() > 3 * pixels {
            return Err(ConvertError::PixelCountMismatch);
        }
        Ok(Image { width, height, has_alpha: false, samples })
    }
}

/// Expands an opaque stream piece by piece, `chunk_len` bytes at a time.
/// The size of the pieces has no part in the result.
#[verifier::rlimit(40)]
pub fn data_to_png_rgb(input: &[u8], chunk_len: usize) -> (result: Result<Vec<u8>, ConvertError>)
    requires
        chunk_len > 0,
        chunk_len % 4 == 0,
    ensures
        result_view(result) == decode_opaque(input@),
{
    let mut output: Vec<u8> = Vec::new();
    let len: usize = input.len();
    let mut offset: usize = 0;
    proof {
        assert(input@.skip(0) =~= input@);
        lemma_after_nothing(decode_opaque(input@));
    }
    while offset < len
        invariant
            chunk_len > 0,
            chunk_len % 4 == 0,
            len == input@.len(),
            offset <= len,
            offset % 4 == 0 || offset == len,
            decode_opaque(input@) == after(output@, decode_opaque(input@.skip(offset as int))),
        decreases len - offset,
    {
        let end: usize = if len - offset < chunk_len {
            len
        } else {
            offset + chunk_len
        };
        let chunk: &[u8] = slice_subrange(input, offset, end);
        let ghost rest = input@.skip(offset as int);
        proof {
            if end < len {
                lemma_decode_opaque_split(rest, end - offset);
            } else {
                lemma_decode_opaque_split(rest, 0);
                assert(rest.skip(end - offset) =~= Seq::<u8>::empty());
                assert(decode_opaque(rest.skip(end - offset)) == Ok::<Seq<u8>, ConvertError>(
                    Seq::empty(),
                ));
            }
            assert(rest.take(end - offset) =~= chunk@);
            assert(rest.skip(end - offset) =~= input@.skip(end as int));
        }
        let ghost before = output@;
        match data_to_png_chunk_rgb(chunk) {
            Ok(pixels) => {
                output.extend_from_slice(pixels.as_slice());
                proof {
                    let tail = decode_opaque(input@.skip(end as int));
                    if end < len {
                        assert(decode_opaque(rest) == after(pixels@, tail));
                    } else {
                        assert(rest =~= chunk@);
                        assert(pixels@ + Seq::<u8>::empty() =~= pixels@);
                    }
                    if let Ok(t) = tail {
                        assert(before + (pixels@ + t) =~= output@ + t);
                    }
                }
            },
            Err(e) => {
                return Err(e);
            },
        }
        offset = end;
    }
    assert(output@ + Seq::<u8>::empty() =~= output@);
    Ok(output)
}

/// Reads a DATA file into an image.
pub fn data_to_image(input: &[u8]) -> (result: Result<Image, ConvertError>)
    ensures
        image_view(result) == decode_data(input@),
{
    let mut position: usize = 0;
    let width: u32 = match read_u32(input, &mut position) {
        Ok(value) => value,
        Err(e) => {
            return Err(e);
        },
    };
    let height: u32 = match read_u32(input, &mut position) {
        Ok(value) => value,
        Err(e) => {
            return Err(e);
        },
    };
    let has_alpha: bool = match read_bool(input, &mut position) {
        Ok(value) => value,
        Err(e) => {
            return Err(e);
        },
    };
    let pixels: usize = match pixel_count(width, height) {
        Ok(pixels) => pixels,
        Err(e) => {
            return Err(e);
        },
    };
    let body: &[u8] = slice_subrange(input, 9, input.len());
    assert(body@ =~= input@.skip(9));

    if has_alpha {
        // Records with alpha are of two or five bytes: they are read in one pass.
        match data_to_png_rgba(body, pixels) {
            Ok(samples) => Ok(Image { width, height, has_alpha, samples }),
            Err(e) => Err(e),
        }
    } else {
        // Records without alpha are of four bytes: they are read in pieces.
        match data_to_png_rgb(body, TARGET_CHUNK_SIZE * 4) {
            Ok(samples) => Image::opaque(width, height, samples),
            Err(e) => Err(e),
        }
    }
}

/// Whether images of the color type have an alpha channel.
pub open spec fn with_alpha(color_type: ColorType) -> bool {
    color_type == ColorType::Rgba || color_type == ColorType::GrayscaleAlpha
}

/// The number of channels that images of the color type are converted to.
pub open spec fn channels_of(color_type: ColorType) -> int {
    if with_alpha(color_type) {
        4
    } else {
        3
    }
}

/// The stream for samples that are there, the error for samples that are not.
pub open spec fn encoded(samples: Result<Seq<u8>, ConvertError>, has_alpha: bool) -> Result<
    Seq<u8>,
    ConvertError,
> {
    match samples {
        Ok(s) => Ok(
            if has_alpha {
                encode_alpha(s)
            } else {
                encode_opaque(s)
            },
        ),
        Err(e) => Err(e),
    }
}

/// The pixels of chunk `i` of the chunks that an image makes for `target_len`.
#[verifier::opaque]
pub open spec fn chunk_converted(png: PngView, target_len: int, i: int) -> Result<
    Seq<u8>,
    ConvertError,
> {
    let bytes = png.chunk_bytes(target_len);
    let len = chunk_len(png.pixels(), png.chunk_step(target_len), i);
    converted(
        png.data.subrange(i * bytes, least((i + 1) * bytes, png.data.len() as int)),
        len as nat,
        if png.cut_by_rows() {
            png.divisor
        } else {
            len
        },
        png.color_type,
        png.bit_depth,
        png.colors(),
        channels_of(png.color_type),
    )
}

/// The records for the first `count` chunks of an image, each chunk encoded
/// for itself. The first chunk that cannot be converted spoils the whole.
pub open spec fn encoded_chunks(png: PngView, target_len: int, count: int) -> Result<
    Seq<u8>,
    ConvertError,
>
    decreases count,
{
    if count <= 0 {
        Ok(Seq::empty())
    } else {
        joined(
            encoded_chunks(png, target_len, count - 1),
            encoded(chunk_converted(png, target_len, count - 1), with_alpha(png.color_type)),
        )
    }
}

/// The DATA file for an image that is cut into chunks for `target_len`.
pub open spec fn encode_data(png: PngView, target_len: int) -> Result<Seq<u8>, ConvertError> {
    if png.width > u32::MAX || png.height > u32::MAX {
        Err(ConvertError::ImageTooLarge)
    } else {
        after(
            header(png.width as u32, png.height as u32, with_alpha(png.color_type)),
            encoded_chunks(
                png,
                target_len,
                chunk_count(png.pixels(), png.chunk_step(target_len)),
            ),
        )
    }
}

/// Whether pixels `a` and `b` have the same samples.
fn same_pixel(samples: &Vec<u8>, channels: usize, a: usize, b: usize) -> (same: bool)
    requires
        channels == 3 || channels == 4,
        (a + 1) * channels <= samples@.len(),
        (b + 1) * channels <= samples@.len(),
    ensures
        same == (pixel_at(samples@, channels as int, a as int) == pixel_at(
            samples@,
            channels as int,
            b as int,
        )),
{
    assert(a * channels + channels == (a + 1) * channels && b * channels + channels == (b + 1)
        * channels && 0 <= a * channels && 0 <= b * channels) by (nonlinear_arith)
        requires
            0 <= a,
            0 <= b,
            0 <= channels,
    ;
    let size: usize = samples.len();
    assert(a * channels + channels <= size && b * channels + channels <= size);
    let first: usize = a * channels;
    let second: usize = b * channels;
    let ghost left = pixel_at(samples@, channels as int, a as int);
    let ghost right = pixel_at(samples@, channels as int, b as int);
    let mut c: usize = 0;
    while c < channels
        invariant
            c <= channels,
            size == samples@.len(),
            first + channels <= size,
            second + channels <= size,
            left == samples@.subrange(first as int, first + channels),
            right == samples@.subrange(second as int, second + channels),
            left == pixel_at(samples@, channels as int, a as int),
            right == pixel_at(samples@, channels as int, b as int),
            forall|i: int| 0 <= i < c ==> left[i] == right[i],
        decreases channels - c,
    {
        if samples[first + c] != samples[second + c] {
            assert(left[c as int] == samples@[first + c]);
            assert(right[c as int] == samples@[second + c]);
            assert(left != right);
            return false;
        }
        c += 1;
    }
    assert(left =~= right);
    true
}

/// Encodes the pixels of a chunk as the records of an opaque stream.
#[verifier::rlimit(40)]
pub fn png_to_data_chunk_rgb(input: &PngChunk) -> (result: Result<Vec<u8>, ConvertError>)
    requires
        input.wf(),
    ensures
        result_view(result) == encoded(input.converted(3), false),
{
    let rgb = match input.rgb() {
        Ok(samples) => samples,
        Err(e) => {
            return Err(e);
        },
    };
    let mut output: Vec<u8> = Vec::new();
    let len: usize = input.len;
    let size: usize = rgb.len();

    let mut pixel: usize = 0;
    assert(Seq::<u8>::empty() + encode_opaque(rgb@) =~= encode_opaque(rgb@));
    while pixel < len
        invariant
            rgb@.len() == len * 3,
            size == len * 3,
            pixel <= len,
            encode_opaque(rgb@) == output@ + encode_opaque_from(rgb@, pixel as int),
        decreases len - pixel,
    {
        let offset: usize = pixel * 3;

        // Calculate the RLE count by looking ahead at the next pixels.
        let mut rle_count: usize = 1;
        while rle_count < 0xFF && pixel + rle_count < len && same_pixel(
            &rgb,
            3,
            pixel,
            pixel + rle_count,
        )
            invariant
                rgb@.len() == len * 3,
                pixel < len,
                1 <= rle_count <= 0xFF,
                pixel + rle_count <= len,
                run_length(rgb@, 3, pixel as int) == rle_count + run_tail(
                    rgb@,
                    3,
                    pixel as int,
                    rle_count as int,
                ),
            decreases 0xFF - rle_count,
        {
            rle_count += 1;
        }

        // Extract the individual channel values.
        let r: u8 = rgb[offset];
        let g: u8 = rgb[offset + 1];
        let b: u8 = rgb[offset + 2];

        // Write the RLE count and the RGB channel values.
        let ghost before = output@;
        output.push(rle_count as u8);
        output.push(b);
        output.push(g);
        output.push(r);
        proof {
            let record = seq![rle_count as u8, b, g, r];
            let rest = encode_opaque_from(rgb@, pixel + rle_count);
            assert(encode_opaque_from(rgb@, pixel as int) == record + rest);
            assert(output@ =~= before + record);
            assert(before + (record + rest) =~= (before + record) + rest);
        }
        pixel += rle_count;
    }
    assert(output@ + Seq::<u8>::empty() =~= output@);
    Ok(output)
}

/// Encodes the pixels of a chunk as the records of a stream with alpha.
#[verifier::rlimit(40)]
pub fn png_to_data_chunk_rgba(input: &PngChunk) -> (result: Result<Vec<u8>, ConvertError>)
    requires
        input.wf(),
    ensures
        result_view(result) == encoded(input.converted(4), true),
{
    let rgba = match input.rgba() {
        Ok(samples) => samples,
        Err(e) => {
            return Err(e);
        },
    };
    let mut output: Vec<u8> = Vec::new();
    let len: usize = input.len;
    let size: usize = rgba.len();

    let mut pixel: usize = 0;
    assert(Seq::<u8>::empty() + encode_alpha(rgba@) =~= encode_alpha(rgba@));
    while pixel < len
        invariant
            rgba@.len() == len * 4,
            size == len * 4,
            pixel <= len,
            encode_alpha(rgba@) == output@ + encode_alpha_from(rgba@, pixel as int),
        decreases len - pixel,
    {
        let offset: usize = pixel * 4;

        // Calculate the RLE count by looking ahead at the next pixels.
        let mut rle_count: usize = 1;
        while rle_count < 0xFF && pixel + rle_count < len && same_pixel(
            &rgba,
            4,
            pixel,
            pixel + rle_count,
        )
            invariant
                rgba@.len() == len * 4,
                pixel < len,
                1 <= rle_count <= 0xFF,
                pixel + rle_count <= len,
                run_length(rgba@, 4, pixel as int) == rle_count + run_tail(
                    rgba@,
                    4,
                    pixel as int,
                    rle_count as int,
                ),
            decreases 0xFF - rle_count,
        {
            rle_count += 1;
        }

        // Extract the individual channel values.
        let r: u8 = rgba[offset];
        let g: u8 = rgba[offset + 1];
        let b: u8 = rgba[offset + 2];
        let a: u8 = rgba[offset + 3];

        // Write the RLE count and the RGBA channel values.
        let ghost before = output@;
        output.push(rle_count as u8);
        output.push(a);
        if a != 0 {
            output.push(b);
            output.push(g);
            output.push(r);
        }
        proof {
            let record = alpha_record(rgba@, pixel as int, rle_count as nat);
            let rest = encode_alpha_from(rgba@, pixel + rle_count);
            assert(encode_alpha_from(rgba@, pixel as int) == record + rest);
            assert(output@ =~= before + record);
            assert(before + (record + rest) =~= (before + record) + rest);
        }
        pixel += rle_count;
    }
    assert(output@ + Seq::<u8>::empty() =~= output@);
    Ok(output)
}

/// Once a chunk has spoilt the records, more chunks do not mend them.
proof fn lemma_encoded_chunks_stay_spoilt(
    png: PngView,
    target_len: int,
    count: int,
    more: int,
)
    requires
        count <= more,
        encoded_chunks(png, target_len, count).is_err(),
    ensures
        encoded_chunks(png, target_len, more) == encoded_chunks(png, target_len, count),
    decreases more - count,
{
    if count < more {
        lemma_encoded_chunks_stay_spoilt(png, target_len, count, more - 1);
    }
}

/// A chunk that an image has handed out converts to what the image's data say.
proof fn lemma_chunk_converted(png: Png, chunk: PngChunk, target_len: int, i: int)
    requires
        png.is_chunk(chunk, target_len, i),
    ensures
        chunk.converted(channels_of(png.color_type)) == chunk_converted(png@, target_len, i),
{
    reveal(chunk_converted);
}

/// The records of one more chunk come behind those of the chunks before it.
proof fn lemma_encoded_chunks_step(
    png: PngView,
    target_len: int,
    i: int,
    head: Seq<u8>,
    before: Seq<u8>,
    bytes: Seq<u8>,
)
    requires
        0 <= i,
        Ok::<Seq<u8>, ConvertError>(before) == after(head, encoded_chunks(png, target_len, i)),
        encoded(chunk_converted(png, target_len, i), with_alpha(png.color_type)) == Ok::<
            Seq<u8>,
            ConvertError,
        >(bytes),
    ensures
        Ok::<Seq<u8>, ConvertError>(before + bytes) == after(
            head,
            encoded_chunks(png, target_len, i + 1),
        ),
{
    let so_far = encoded_chunks(png, target_len, i);
    assert(encoded_chunks(png, target_len, i + 1) == joined(
        so_far,
        encoded(chunk_converted(png, target_len, i), with_alpha(png.color_type)),
    ));
    assert(before + bytes =~= head + (so_far.unwrap() + bytes));
}

/// Writes an image as a DATA file: the header, then the records of its
/// chunks in their order, each chunk encoded for itself.
#[verifier::rlimit(40)]
pub fn pixels_to_data(png: &Png, target_len: usize) -> (result: Result<Vec<u8>, ConvertError>)
    requires
        png.wf(),
        target_len > 0,
    ensures
        result_view(result) == encode_data(png@, target_len as int),
{
    if png.width > u32::MAX as usize || png.height > u32::MAX as usize {
        return Err(ConvertError::ImageTooLarge);
    }
    let has_alpha: bool = png.color_type == ColorType::Rgba || png.color_type
        == ColorType::GrayscaleAlpha;

    // Write the image headers: width, height and the alpha channel flag.
    let mut output: Vec<u8> = Vec::new();
    write_u32(&mut output, png.width as u32);
    write_u32(&mut output, png.height as u32);
    write_bool(&mut output, has_alpha);
    let ghost head = header(png.width as u32, png.height as u32, has_alpha);
    assert(output@ =~= head);

    let chunks = png.chunks(target_len);
    let count: usize = chunks.len();
    let mut i: usize = 0;
    assert(head + Seq::<u8>::empty() =~= head);
    while i < count
        invariant
            i <= count,
            count == chunks@.len(),
            count == chunk_count(png.pixels(), png.chunk_step(target_len as int)),
            has_alpha == with_alpha(png.color_type),
            png.width <= u32::MAX,
            png.height <= u32::MAX,
            head == header(png.width as u32, png.height as u32, has_alpha),
            forall|k: int|
                0 <= k < chunks@.len() ==> png.is_chunk(#[trigger] chunks@[k], target_len as int, k)
                    && chunks@[k].wf(),
            Ok::<Seq<u8>, ConvertError>(output@) == after(
                head,
                encoded_chunks(png@, target_len as int, i as int),
            ),
        decreases count - i,
    {
        let chunk: &PngChunk = &chunks[i];
        proof {
            assert(png.is_chunk(*chunk, target_len as int, i as int));
            lemma_chunk_converted(*png, *chunk, target_len as int, i as int);
        }
        let records = if has_alpha {
            png_to_data_chunk_rgba(chunk)
        } else {
            png_to_data_chunk_rgb(chunk)
        };
        let ghost before = output@;
        match records {
            Ok(bytes) => {
                output.extend_from_slice(bytes.as_slice());
                proof {
                    assert(output@ =~= before + bytes@);
                    lemma_encoded_chunks_step(
                        png@,
                        target_len as int,
                        i as int,
                        head,
                        before,
                        bytes@,
                    );
                }
            },
            Err(e) => {
                proof {
                    let so_far = encoded_chunks(png@, target_len as int, i as int);
                    assert(so_far.is_ok());
                    assert(encoded_chunks(png@, target_len as int, i + 1) == joined(
                        so_far,
                        encoded(
                            chunk_converted(png@, target_len as int, i as int),
                            with_alpha(png.color_type),
                        ),
                    ));
                    lemma_encoded_chunks_stay_spoilt(
                        png@,
                        target_len as int,
                        i + 1,
                        count as int,
                    );
                }
                return Err(e);
            },
        }
        i += 1;
    }
    Ok(output)
}

/// The PNG file for an image of eight bits a sample, where the encoder
/// accepts it: RGBA where the image has an alpha channel, RGB where not.
pub open spec fn image_png(image: ImageView) -> Result<Seq<u8>, ConvertError> {
    if image.width * image.height * 8 > usize::MAX {
        Err(ConvertError::ImageTooLarge)
    } else {
        match png_encoding(
            image.width,
            image.height,
            if image.has_alpha {
                ColorType::Rgba.spec_code()
            } else {
                ColorType::Rgb.spec_code()
            },
            8,
            image.samples,
        ) {
            Some(bytes) => Ok(bytes),
            None => Err(ConvertError::PngEncoding),
        }
    }
}

/// The DATA file for a decoded PNG frame, where an image can be made of it.
pub open spec fn frame_data(decoded: Option<RawImageView>) -> Result<Seq<u8>, ConvertError> {
    match decoded {
        Some(raw) => match raw_container(raw) {
            Ok(png) => encode_data(png, TARGET_CHUNK_SIZE as int),
            Err(e) => Err(e),
        },
        None => Err(ConvertError::PngDecoding),
    }
}

/// Writes an image as a PNG file of eight bits a sample.
pub fn image_to_png(image: &Image) -> (result: Result<Vec<u8>, ConvertError>)
    ensures
        result_view(result) == image_png(image@),
{
    assert(image.width * image.height <= 0xffff_ffff * 0xffff_ffff) by (nonlinear_arith)
        requires
            0 <= image.width <= 0xffff_ffff,
            0 <= image.height <= 0xffff_ffff,
    ;
    let pixels: u64 = image.width as u64 * image.height as u64;
    if pixels > (usize::MAX / 8) as u64 {
        return Err(ConvertError::ImageTooLarge);
    }
    let color_type = if image.has_alpha {
        ColorType::Rgba
    } else {
        ColorType::Rgb
    };
    match encode_png(
        image.width,
        image.height,
        color_type.code(),
        BitDepth::Eight.bits() as u8,
        image.samples.as_slice(),
    ) {
        Some(bytes) => Ok(bytes),
        None => Err(ConvertError::PngEncoding),
    }
}

/// Converts DATA to PNG. Output is limited to 24-bit RGB or 32-bit RGBA.
pub fn data_to_png(input: &[u8]) -> (result: Result<Vec<u8>, ConvertError>)
    ensures
        result_view(result) == match decode_data(input@) {
            Ok(image) => image_png(image),
            Err(e) => Err(e),
        },
{
    match data_to_image(input) {
        Ok(image) => image_to_png(&image),
        Err(e) => Err(e),
    }
}

/// Converts PNG into DATA.
pub fn png_to_data(input: &[u8]) -> (result: Result<Vec<u8>, ConvertError>)
    ensures
        result_view(result) == frame_data(png_decoding(input@)),
{
    match Png::load(input) {
        Ok(png) => pixels_to_data(&png, TARGET_CHUNK_SIZE),
        Err(e) => Err(e),
    }
}

} // verus!
