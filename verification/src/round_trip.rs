//! What comes back when pixels are encoded and the stream is decoded again.

use vstd::prelude::*;
use vstd::arithmetic::div_mod::lemma_fundamental_div_mod;
use vstd::arithmetic::div_mod::lemma_fundamental_div_mod_converse;
use crate::chunking::converted_chunks;
use crate::chunking::image_pixels;
use crate::chunking::lemma_chunks_make_the_image;
use crate::chunking::lemma_converted_chunks_are_prefix;
use crate::codec::RawImageView;
use crate::codec::png_decoding;
use crate::convert::ImageView;
use crate::convert::TARGET_CHUNK_SIZE;
use crate::convert::bool_byte;
use crate::convert::channels_of;
use crate::convert::chunk_converted;
use crate::convert::decode_data;
use crate::convert::encode_data;
use crate::convert::encoded;
use crate::convert::encoded_chunks;
use crate::convert::frame_data;
use crate::convert::header;
use crate::convert::image_png;
use crate::convert::le_u32;
use crate::convert::lemma_u32_round_trip;
use crate::convert::u32_le_bytes;
use crate::convert::with_alpha;
use crate::error::ConvertError;
use crate::format::BitDepth;
use crate::format::ColorType;
use crate::png::PngView;
use crate::png::chunk_count;
use crate::png::container;
use crate::png::least;
use crate::png::lemma_layout;
use crate::rle::after;
use crate::rle::alpha_record;
use crate::rle::alpha_record_len;
use crate::rle::alpha_record_pixel;
use crate::rle::decode_alpha;
use crate::rle::decode_opaque;
use crate::rle::encode_alpha;
use crate::rle::encode_alpha_from;
use crate::rle::encode_opaque;
use crate::rle::encode_opaque_from;
use crate::rle::lemma_after_nothing;
use crate::rle::lemma_run_length;
use crate::rle::pixel_at;
use crate::rle::repeat_pixel;
use crate::rle::run_length;

verus! {

/// RGBA samples in which every fully transparent pixel is black.
pub open spec fn blackened(samples: Seq<u8>) -> Seq<u8> {
    Seq::new(
        samples.len(),
        |k: int|
            if samples[4 * (k / 4) + 3] == 0 {
                0u8
            } else {
                samples[k]
            },
    )
}

/// A repeated pixel has the samples of the pixel at every pixel's place.
proof fn lemma_repeat_pixel_index(pixel: Seq<u8>, count: nat, k: int)
    requires
        pixel.len() > 0,
        0 <= k < count * pixel.len(),
    ensures
        repeat_pixel(pixel, count).len() == count * pixel.len(),
        repeat_pixel(pixel, count)[k] == pixel[k % (pixel.len() as int)],
    decreases count,
{
    let size = pixel.len() as int;
    lemma_repeat_pixel_len(pixel, count);
    if count > 0 {
        let less = (count - 1) as nat;
        lemma_repeat_pixel_len(pixel, less);
        assert(less * size == count * size - size) by (nonlinear_arith)
            requires
                less == count - 1,
        ;
        if k < less * size {
            lemma_repeat_pixel_index(pixel, less, k);
        } else {
            let within = k - less * size;
            assert(0 <= less * size) by (nonlinear_arith)
                requires
                    0 <= less,
                    0 < size,
            ;
            lemma_fundamental_div_mod_converse(k, size, less as int, within);
        }
    }
}

/// A pixel repeated `count` times has `count` times its samples.
proof fn lemma_repeat_pixel_len(pixel: Seq<u8>, count: nat)
    ensures
        repeat_pixel(pixel, count).len() == count * pixel.len(),
    decreases count,
{
    if count > 0 {
        lemma_repeat_pixel_len(pixel, (count - 1) as nat);
        assert((count - 1) * pixel.len() + pixel.len() == count * pixel.len())
            by (nonlinear_arith);
    } else {
        assert(0 * pixel.len() == 0) by (nonlinear_arith);
    }
}

/// Pixels that all equal the first of them are that pixel repeated.
#[verifier::rlimit(40)]
proof fn lemma_run_is_repeat(samples: Seq<u8>, channels: int, start: int, count: nat)
    requires
        channels > 0,
        start >= 0,
        (start + count) * channels <= samples.len(),
        forall|i: int|
            0 <= i < count ==> #[trigger] pixel_at(samples, channels, start + i) == pixel_at(
                samples,
                channels,
                start,
            ),
    ensures
        repeat_pixel(pixel_at(samples, channels, start), count) == samples.subrange(
            start * channels,
            (start + count) * channels,
        ),
{
    let base = start * channels;
    let size = count * channels;
    assert((start + count) * channels == base + size) by (nonlinear_arith)
        requires
            base == start * channels,
            size == count * channels,
    ;
    assert(0 <= base && 0 <= size) by (nonlinear_arith)
        requires
            base == start * channels,
            size == count * channels,
            0 <= start,
            0 <= count,
            0 < channels,
    ;
    let there = samples.subrange(base, base + size);
    if count == 0 {
        assert(repeat_pixel(pixel_at(samples, channels, start), count) =~= there);
    } else {
        assert(base + channels <= base + size) by (nonlinear_arith)
            requires
                size == count * channels,
                count >= 1,
                0 < channels,
        ;
        let pixel = pixel_at(samples, channels, start);
        assert(pixel.len() == channels);
        lemma_repeat_pixel_len(pixel, count);
        let repeated = repeat_pixel(pixel, count);
        assert forall|k: int| 0 <= k < size implies repeated[k] == there[k] by {
            lemma_repeat_pixel_index(pixel, count, k);
            let i = k / channels;
            let c = k % channels;
            lemma_fundamental_div_mod(k, channels);
            assert(0 <= c < channels && 0 <= i < count) by (nonlinear_arith)
                requires
                    0 <= k < count * channels,
                    0 < channels,
                    k == channels * i + c,
                    c == k % channels,
            ;
            let other = pixel_at(samples, channels, start + i);
            assert(other == pixel);
            assert((start + i) * channels == base + channels * i) by (nonlinear_arith)
                requires
                    base == start * channels,
            ;
            assert((start + i) * channels + channels <= base + size) by (nonlinear_arith)
                requires
                    (start + i) * channels == base + channels * i,
                    i + 1 <= count,
                    size == count * channels,
                    0 < channels,
            ;
            assert(other[c] == samples[(start + i) * channels + c]);
        }
        assert(repeated =~= there);
    }
}

/// The opaque records for the pixels from `start` on, with any bytes behind
/// them, decode to those pixels and what the bytes behind them decode to.
#[verifier::rlimit(40)]
proof fn lemma_opaque_from_round_trip(samples: Seq<u8>, start: int, tail: Seq<u8>)
    requires
        samples.len() % 3 == 0,
        0 <= start,
        3 * start <= samples.len(),
    ensures
        decode_opaque(encode_opaque_from(samples, start) + tail) == after(
            samples.skip(3 * start),
            decode_opaque(tail),
        ),
    decreases samples.len() - 3 * start,
{
    if (start + 1) * 3 > samples.len() {
        assert(samples.skip(3 * start) =~= Seq::<u8>::empty());
        assert(encode_opaque_from(samples, start) + tail =~= tail);
        lemma_after_nothing(decode_opaque(tail));
    } else {
        lemma_run_length(samples, 3, start);
        let run = run_length(samples, 3, start);
        let record = seq![
            run as u8,
            samples[3 * start + 2],
            samples[3 * start + 1],
            samples[3 * start],
        ];
        let rest = encode_opaque_from(samples, start + run);
        let stream = (record + rest) + tail;
        assert(encode_opaque_from(samples, start) == record + rest);
        lemma_opaque_from_round_trip(samples, start + run, tail);
        lemma_run_is_repeat(samples, 3, start, run);
        assert(stream.skip(4) =~= rest + tail);
        assert(stream[0] == run as u8 && stream[1] == samples[3 * start + 2] && stream[2]
            == samples[3 * start + 1] && stream[3] == samples[3 * start]);
        assert(seq![stream[3], stream[2], stream[1]] =~= pixel_at(samples, 3, start));
        let here = samples.subrange(start * 3, (start + run) * 3);
        let behind = samples.skip(3 * (start + run));
        assert(here + behind =~= samples.skip(3 * start));
        if let Ok(t) = decode_opaque(tail) {
            assert(here + (behind + t) =~= (here + behind) + t);
        }
    }
}

/// Opaque round trip: the stream written for RGB pixels decodes to the same pixels.
pub proof fn lemma_opaque_round_trip(samples: Seq<u8>)
    requires
        samples.len() % 3 == 0,
    ensures
        decode_opaque(encode_opaque(samples)) == Ok::<Seq<u8>, ConvertError>(samples),
{
    lemma_opaque_from_round_trip(samples, 0, Seq::empty());
    assert(samples.skip(0) =~= samples);
    assert(encode_opaque(samples) + Seq::<u8>::empty() =~= encode_opaque(samples));
    assert(samples + Seq::<u8>::empty() =~= samples);
}

/// The records with alpha for the pixels from `start` on, with any bytes
/// behind them, decode to those pixels, the fully transparent ones black,
/// and what the bytes behind them decode to.
#[verifier::rlimit(40)]
proof fn lemma_alpha_from_round_trip(samples: Seq<u8>, start: int, tail: Seq<u8>, more: nat)
    requires
        samples.len() % 4 == 0,
        0 <= start,
        4 * start <= samples.len(),
    ensures
        decode_alpha(
            encode_alpha_from(samples, start) + tail,
            (samples.len() / 4 - start + more) as nat,
        ) == after(blackened(samples).skip(4 * start), decode_alpha(tail, more)),
    decreases samples.len() - 4 * start,
{
    let pixels = samples.len() as int / 4;
    if (start + 1) * 4 > samples.len() {
        assert(blackened(samples).skip(4 * start) =~= Seq::<u8>::empty());
        assert(encode_alpha_from(samples, start) + tail =~= tail);
        lemma_after_nothing(decode_alpha(tail, more));
    } else {
        lemma_run_length(samples, 4, start);
        let run = run_length(samples, 4, start);
        let record = alpha_record(samples, start, run);
        let rest = encode_alpha_from(samples, start + run);
        let stream = (record + rest) + tail;
        let alpha = samples[4 * start + 3];
        let pixel = pixel_at(samples, 4, start);
        assert(encode_alpha_from(samples, start) == record + rest);
        lemma_alpha_from_round_trip(samples, start + run, tail, more);
        lemma_run_is_repeat(samples, 4, start, run);
        assert(stream[0] == run as u8 && stream[1] == alpha);
        assert(stream.skip(alpha_record_len(stream)) =~= rest + tail);
        let decoded = alpha_record_pixel(stream);
        let there = samples.subrange(start * 4, (start + run) * 4);
        let black = blackened(samples).subrange(start * 4, (start + run) * 4);
        assert(pixel[3] == alpha);
        if alpha == 0 {
            lemma_zeroes_are_repeat(run);
            assert(black =~= repeat_pixel(decoded, run)) by {
                assert forall|k: int| 0 <= k < 4 * run implies black[k] == 0 by {
                    let i = k / 4;
                    assert(pixel_at(samples, 4, start + i) == pixel);
                    assert(pixel_at(samples, 4, start + i)[3] == samples[4 * (start + i) + 3]);
                }
            }
        } else {
            assert(decoded =~= pixel);
            assert(black =~= there) by {
                assert forall|k: int| 0 <= k < 4 * run implies black[k] == there[k] by {
                    let i = k / 4;
                    assert(pixel_at(samples, 4, start + i) == pixel);
                    assert(pixel_at(samples, 4, start + i)[3] == samples[4 * (start + i) + 3]);
                }
            }
        }
        let behind = blackened(samples).skip(4 * (start + run));
        assert(black + behind =~= blackened(samples).skip(4 * start));
        if let Ok(t) = decode_alpha(tail, more) {
            assert(black + (behind + t) =~= (black + behind) + t);
        }
    }
}

/// A run of fully transparent black pixels is nothing but zeroes.
proof fn lemma_zeroes_are_repeat(count: nat)
    ensures
        repeat_pixel(seq![0u8, 0u8, 0u8, 0u8], count) == Seq::new(4 * count, |k: int| 0u8),
    decreases count,
{
    if count == 0 {
        assert(repeat_pixel(seq![0u8, 0u8, 0u8, 0u8], count) =~= Seq::new(4 * count, |k: int| 0u8));
    } else {
        lemma_zeroes_are_repeat((count - 1) as nat);
        assert(repeat_pixel(seq![0u8, 0u8, 0u8, 0u8], count) =~= Seq::new(4 * count, |k: int| 0u8));
    }
}

/// Round trip with alpha: the stream written for RGBA pixels decodes to the
/// same pixels, but that every fully transparent pixel comes back black.
pub proof fn lemma_alpha_round_trip(samples: Seq<u8>)
    requires
        samples.len() % 4 == 0,
    ensures
        decode_alpha(encode_alpha(samples), samples.len() / 4) == Ok::<Seq<u8>, ConvertError>(
            blackened(samples),
        ),
{
    lemma_alpha_from_round_trip(samples, 0, Seq::empty(), 0);
    assert(blackened(samples).skip(0) =~= blackened(samples));
    assert(encode_alpha(samples) + Seq::<u8>::empty() =~= encode_alpha(samples));
    assert(blackened(samples) + Seq::<u8>::empty() =~= blackened(samples));
}

/// What a decoder gives back of pixels: in an image with alpha, every
/// fully transparent pixel black.
pub open spec fn as_decoded(pixels: Seq<u8>, has_alpha: bool) -> Seq<u8> {
    if has_alpha {
        blackened(pixels)
    } else {
        pixels
    }
}

/// Pixels are blackened each for itself.
proof fn lemma_blackened_concat(first: Seq<u8>, second: Seq<u8>)
    requires
        first.len() % 4 == 0,
        second.len() % 4 == 0,
    ensures
        blackened(first + second) == blackened(first) + blackened(second),
{
    let both = first + second;
    assert(blackened(both) =~= blackened(first) + blackened(second)) by {
        assert forall|k: int| 0 <= k < both.len() implies blackened(both)[k] == (blackened(first)
            + blackened(second))[k] by {
            if k < first.len() {
                assert(4 * (k / 4) + 3 < first.len());
                assert(both[4 * (k / 4) + 3] == first[4 * (k / 4) + 3]);
            } else {
                let local = k - first.len();
                assert(4 * (local / 4) + 3 == 4 * (k / 4) + 3 - first.len());
                assert(both[4 * (k / 4) + 3] == second[4 * (local / 4) + 3]);
            }
        }
    }
}

/// The records of the chunks are there where the pixels of the chunks are,
/// and fail as these do.
proof fn lemma_encoded_follows_converted(png: PngView, target_len: int, count: int)
    ensures
        match converted_chunks(png, target_len, count) {
            Ok(_) => encoded_chunks(png, target_len, count).is_ok(),
            Err(e) => encoded_chunks(png, target_len, count) == Err::<Seq<u8>, ConvertError>(e),
        },
    decreases count,
{
    if count > 0 {
        lemma_encoded_follows_converted(png, target_len, count - 1);
    }
}

/// The number of samples that the pixels of the first chunks have.
proof fn lemma_converted_chunks_len(png: PngView, target_len: int, count: int)
    requires
        png.wf(),
        target_len > 0,
        0 <= count <= chunk_count(png.pixels(), png.chunk_step(target_len)),
        converted_chunks(png, target_len, count).is_ok(),
    ensures
        0 <= least(count * png.chunk_step(target_len), png.pixels()),
        converted_chunks(png, target_len, count).unwrap().len() == least(
            count * png.chunk_step(target_len),
            png.pixels(),
        ) * channels_of(png.color_type),
{
    lemma_converted_chunks_are_prefix(png, target_len, count);
    lemma_layout(png.width, png.height, png.color_type, png.bit_depth);
    let step = png.chunk_step(target_len);
    crate::math::lemma_round_up(target_len, png.divisor);
    assert(0 <= count * step) by (nonlinear_arith)
        requires
            0 <= count,
            0 <= step,
    ;
}

/// The records of the first chunks, with any bytes behind them, decode to
/// the pixels of these chunks and what the bytes behind them decode to.
#[verifier::rlimit(40)]
proof fn lemma_decode_encoded_chunks(
    png: PngView,
    target_len: int,
    count: int,
    tail: Seq<u8>,
    more: nat,
)
    requires
        png.wf(),
        target_len > 0,
        0 <= count <= chunk_count(png.pixels(), png.chunk_step(target_len)),
        converted_chunks(png, target_len, count).is_ok(),
    ensures
        encoded_chunks(png, target_len, count).is_ok(),
        !with_alpha(png.color_type) ==> decode_opaque(
            encoded_chunks(png, target_len, count).unwrap() + tail,
        ) == after(converted_chunks(png, target_len, count).unwrap(), decode_opaque(tail)),
        with_alpha(png.color_type) ==> decode_alpha(
            encoded_chunks(png, target_len, count).unwrap() + tail,
            (converted_chunks(png, target_len, count).unwrap().len() / 4 + more) as nat,
        ) == after(
            blackened(converted_chunks(png, target_len, count).unwrap()),
            decode_alpha(tail, more),
        ),
    decreases count,
{
    lemma_encoded_follows_converted(png, target_len, count);
    let alpha = with_alpha(png.color_type);
    if count == 0 {
        let nothing = Seq::<u8>::empty();
        assert(nothing + tail =~= tail);
        assert(blackened(nothing) =~= nothing);
        lemma_after_nothing(decode_opaque(tail));
        lemma_after_nothing(decode_alpha(tail, more));
    } else {
        let i = count - 1;
        let front = converted_chunks(png, target_len, i).unwrap();
        let pixels = chunk_converted(png, target_len, i).unwrap();
        let records = encoded(chunk_converted(png, target_len, i), alpha).unwrap();
        let before = encoded_chunks(png, target_len, i).unwrap();
        lemma_encoded_follows_converted(png, target_len, i);
        lemma_converted_chunks_len(png, target_len, i);
        lemma_converted_chunks_len(png, target_len, count);
        assert(converted_chunks(png, target_len, count).unwrap() == front + pixels);
        assert(encoded_chunks(png, target_len, count).unwrap() == before + records);
        assert((before + records) + tail =~= before + (records + tail));
        let channels = channels_of(png.color_type);
        let n_front = least(i * png.chunk_step(target_len), png.pixels());
        let n_both = least(count * png.chunk_step(target_len), png.pixels());
        assert(pixels.len() == (n_both - n_front) * channels && n_front <= n_both) by {
            assert((front + pixels).len() == front.len() + pixels.len());
            assert(n_both * channels - n_front * channels == (n_both - n_front) * channels)
                by (nonlinear_arith);
            assert(n_front <= n_both) by (nonlinear_arith)
                requires
                    n_front * channels + pixels.len() == n_both * channels,
                    pixels.len() >= 0,
                    3 <= channels <= 4,
            ;
        }
        if alpha {
            let here = (n_both - n_front) as nat;
            assert(pixels.len() == 4 * here && front.len() == 4 * n_front);
            lemma_alpha_from_round_trip(pixels, 0, tail, more);
            assert(blackened(pixels).skip(0) =~= blackened(pixels));
            lemma_decode_encoded_chunks(png, target_len, i, records + tail, here + more);
            lemma_blackened_concat(front, pixels);
            if let Ok(t) = decode_alpha(tail, more) {
                assert(blackened(front) + (blackened(pixels) + t) =~= (blackened(front)
                    + blackened(pixels)) + t);
            }
        } else {
            assert(pixels.len() % 3 == 0) by (nonlinear_arith)
                requires
                    pixels.len() == (n_both - n_front) * 3,
            ;
            lemma_opaque_from_round_trip(pixels, 0, tail);
            assert(pixels.skip(0) =~= pixels);
            lemma_decode_encoded_chunks(png, target_len, i, records + tail, more);
            if let Ok(t) = decode_opaque(tail) {
                assert(front + (pixels + t) =~= (front + pixels) + t);
            }
        }
    }
}

/// A header that was written is read back, and what stands behind it is
/// taken for the records.
#[verifier::rlimit(40)]
pub proof fn lemma_header_round_trip(width: u32, height: u32, has_alpha: bool, body: Seq<u8>)
    ensures
        ({
            let file = header(width, height, has_alpha) + body;
            &&& file.len() == 9 + body.len()
            &&& le_u32(file.subrange(0, 4)) == width
            &&& le_u32(file.subrange(4, 8)) == height
            &&& (file[8] != 0) == has_alpha
            &&& file.skip(9) == body
        }),
{
    let head = header(width, height, has_alpha);
    let file = head + body;
    lemma_u32_round_trip(width);
    lemma_u32_round_trip(height);
    assert(head.len() == 9);
    assert(file.subrange(0, 4) =~= u32_le_bytes(width));
    assert(file.subrange(4, 8) =~= u32_le_bytes(height));
    assert(file[8] == bool_byte(has_alpha));
    assert(file.skip(9) =~= body);
}

/// The image that comes back when a DATA file is written for an image and
/// read again: its width and height, the flag for its alpha channel, and its
/// pixels as a decoder gives them back.
pub open spec fn read_back(png: PngView) -> Result<ImageView, ConvertError> {
    match image_pixels(png) {
        Ok(pixels) => Ok(
            ImageView {
                width: png.width as u32,
                height: png.height as u32,
                has_alpha: with_alpha(png.color_type),
                samples: as_decoded(pixels, with_alpha(png.color_type)),
            },
        ),
        Err(e) => Err(e),
    }
}

/// What reading makes of what writing has made.
pub open spec fn decode_encoded(png: PngView, target_len: int) -> Result<ImageView, ConvertError> {
    match encode_data(png, target_len) {
        Ok(file) => decode_data(file),
        Err(e) => Err(e),
    }
}

/// Round trip of a file: the DATA file written for an image, whatever the
/// target length of its chunks, is read back as the image's width, height
/// and pixels, every fully transparent pixel black; and where the image
/// cannot be written because of its palette indices, that is the error.
#[verifier::rlimit(40)]
pub proof fn lemma_file_round_trip(png: PngView, target_len: int)
    requires
        png.wf(),
        target_len > 0,
        png.width <= u32::MAX,
        png.height <= u32::MAX,
    ensures
        decode_encoded(png, target_len) == read_back(png),
{
    let count = chunk_count(png.pixels(), png.chunk_step(target_len));
    let alpha = with_alpha(png.color_type);
    lemma_chunks_make_the_image(png, target_len);
    lemma_encoded_follows_converted(png, target_len, count);
    lemma_layout(png.width, png.height, png.color_type, png.bit_depth);
    if let Ok(pixels) = image_pixels(png) {
        let step = png.chunk_step(target_len);
        crate::math::lemma_round_up(target_len, png.divisor);
        lemma_fundamental_div_mod(png.pixels() + step - 1, step);
        let rest = (png.pixels() + step - 1) % step;
        assert(0 <= rest < step) by (nonlinear_arith)
            requires
                1 <= step,
                rest == (png.pixels() + step - 1) % step,
        ;
        assert(count >= 0 && count * step >= png.pixels()) by (nonlinear_arith)
            requires
                png.pixels() + step - 1 == step * count + rest,
                0 <= rest < step,
                1 <= step,
                0 <= png.pixels(),
        ;
        lemma_converted_chunks_len(png, target_len, count);
        lemma_decode_encoded_chunks(png, target_len, count, Seq::empty(), 0);
        let body = encoded_chunks(png, target_len, count).unwrap();
        let file = header(png.width as u32, png.height as u32, alpha) + body;
        assert(encode_data(png, target_len) == Ok::<Seq<u8>, ConvertError>(file));
        lemma_header_round_trip(png.width as u32, png.height as u32, alpha, body);
        assert(body + Seq::<u8>::empty() =~= body);
        assert(pixels.len() == png.pixels() * channels_of(png.color_type));
        if alpha {
            assert(pixels.len() / 4 == png.pixels());
            assert(blackened(pixels) + Seq::<u8>::empty() =~= blackened(pixels));
        } else {
            assert(pixels + Seq::<u8>::empty() =~= pixels);
        }
    }
}

/// Chunk invariance of a file: DATA files written for one image with
/// chunks of two target lengths are read back as the same image, and where
/// one of them cannot be written, neither can the other, for the same reason.
pub proof fn lemma_file_chunk_invariance(png: PngView, one: int, other: int)
    requires
        png.wf(),
        one > 0,
        other > 0,
        png.width <= u32::MAX,
        png.height <= u32::MAX,
    ensures
        decode_encoded(png, one) == decode_encoded(png, other),
{
    lemma_file_round_trip(png, one);
    lemma_file_round_trip(png, other);
}

/// The container in which an image of eight bits a sample is handed on.
pub open spec fn image_container(image: ImageView) -> PngView {
    container(
        image.width as int,
        image.height as int,
        if image.has_alpha {
            ColorType::Rgba
        } else {
            ColorType::Rgb
        },
        BitDepth::Eight,
        image.samples,
        None,
    )
}

/// An image of eight bits a sample makes a container, and the pixels of the
/// container are the samples of the image.
#[verifier::rlimit(40)]
pub proof fn lemma_image_container(image: ImageView)
    requires
        image.wf(),
        image.width * image.height * 4 <= usize::MAX,
    ensures
        image_container(image).wf(),
        image_pixels(image_container(image)) == Ok::<Seq<u8>, ConvertError>(image.samples),
{
    let png = image_container(image);
    let pixels = image.width * image.height;
    let channels = image.channels();
    assert(0 <= pixels) by (nonlinear_arith)
        requires
            pixels == image.width * image.height,
            0 <= image.width,
            0 <= image.height,
    ;
    lemma_layout(png.width, png.height, png.color_type, png.bit_depth);
    assert(png.bpp == 8 * channels) by (nonlinear_arith)
        requires
            png.bpp == 8 * channels || png.bpp == channels * 8,
    ;
    assert(png.divisor == 1);
    assert(1 * png.bpp == png.bpp);
    assert(pixels / 1 == pixels);
    assert(image.samples.len() == pixels * channels);
    assert(png.wf());
    let samples = crate::chunking::image_samples(png, pixels);
    assert(samples.len() == pixels * channels);
    let made = crate::png_chunk::normalized(
        samples,
        png.color_type,
        png.bit_depth,
        png.colors(),
        pixels as nat,
        channels,
    );
    assert(made =~= image.samples) by {
        assert forall|k: int| 0 <= k < pixels * channels implies made[k] == image.samples[k] by {
            let p = k / channels;
            let c = k % channels;
            assert(k == channels * p + c);
            assert(samples[k] == image.samples[k]);
        }
    }
}

/// What the decoder of streams with alpha gives is of four samples a pixel,
/// and every fully transparent pixel in it is black.
pub proof fn lemma_decoded_is_blackened(stream: Seq<u8>, pixels: nat)
    requires
        decode_alpha(stream, pixels).is_ok(),
    ensures
        decode_alpha(stream, pixels).unwrap().len() == 4 * pixels,
        blackened(decode_alpha(stream, pixels).unwrap()) == decode_alpha(stream, pixels).unwrap(),
    decreases pixels,
{
    let samples = decode_alpha(stream, pixels).unwrap();
    if pixels == 0 {
        assert(blackened(samples) =~= samples);
    } else {
        let count = stream[0] as nat;
        let pixel = alpha_record_pixel(stream);
        let run = repeat_pixel(pixel, count);
        let behind = stream.skip(alpha_record_len(stream));
        let left = (pixels - count) as nat;
        lemma_decoded_is_blackened(behind, left);
        let rest = decode_alpha(behind, left).unwrap();
        assert(samples == run + rest);
        lemma_repeat_pixel_len(pixel, count);
        assert(pixel.len() == 4);
        assert(count * pixel.len() == 4 * count) by (nonlinear_arith)
            requires
                pixel.len() == 4,
        ;
        assert(run.len() == 4 * count);
        assert(blackened(run) =~= run) by {
            assert forall|k: int| 0 <= k < 4 * count implies blackened(run)[k] == run[k] by {
                let last = 4 * (k / 4) + 3;
                lemma_repeat_pixel_index(pixel, count, k);
                lemma_repeat_pixel_index(pixel, count, last);
                assert(last % 4 == 3);
            }
        }
        lemma_blackened_concat(run, rest);
    }
}

/// Round trip of an image that was read: written again and read again, at
/// any target length for the chunks, it is the same image.
#[verifier::rlimit(40)]
pub proof fn lemma_data_round_trip(file: Seq<u8>, target_len: int)
    requires
        decode_data(file).is_ok(),
        target_len > 0,
    ensures
        image_container(decode_data(file).unwrap()).wf(),
        decode_encoded(image_container(decode_data(file).unwrap()), target_len) == decode_data(
            file,
        ),
{
    let image = decode_data(file).unwrap();
    let width = le_u32(file.subrange(0, 4));
    let height = le_u32(file.subrange(4, 8));
    let body = file.skip(9);
    assert(image.width == width && image.height == height);
    if image.has_alpha {
        lemma_decoded_is_blackened(body, (width * height) as nat);
    }
    assert(image.wf()) by (nonlinear_arith)
        requires
            image.samples.len() == if image.has_alpha {
                4 * (image.width * image.height)
            } else {
                3 * (image.width * image.height)
            },
            image.channels() == if image.has_alpha {
                4int
            } else {
                3int
            },
            image.wf() == (image.samples.len() == image.width * image.height * image.channels()),
    ;
    lemma_image_container(image);
    lemma_file_round_trip(image_container(image), target_len);
}

/// Round trip of a file that was written: the DATA file written for an
/// image of eight bits a sample whose fully transparent pixels are black is
/// read back as that image, so that writing what was read gives the same
/// file, byte for byte.
pub proof fn lemma_written_file_round_trip(image: ImageView, target_len: int)
    requires
        image.wf(),
        image.width * image.height * 4 <= usize::MAX,
        as_decoded(image.samples, image.has_alpha) == image.samples,
        target_len > 0,
    ensures
        encode_data(image_container(image), target_len).is_ok(),
        decode_data(encode_data(image_container(image), target_len).unwrap()) == Ok::<
            ImageView,
            ConvertError,
        >(image),
        encode_data(
            image_container(
                decode_data(encode_data(image_container(image), target_len).unwrap()).unwrap(),
            ),
            target_len,
        ) == encode_data(image_container(image), target_len),
{
    lemma_image_container(image);
    lemma_file_round_trip(image_container(image), target_len);
    lemma_chunks_make_the_image(image_container(image), target_len);
    lemma_encoded_follows_converted(
        image_container(image),
        target_len,
        chunk_count(
            image_container(image).pixels(),
            image_container(image).chunk_step(target_len),
        ),
    );
}

/// The frame in which an image of eight bits a sample is handed over:
/// RGBA or RGB by its number in the PNG header, no palette.
pub open spec fn image_frame(image: ImageView) -> RawImageView {
    RawImageView {
        width: image.width,
        height: image.height,
        color_type: if image.has_alpha {
            ColorType::Rgba.spec_code()
        } else {
            ColorType::Rgb.spec_code()
        },
        bit_depth: 8,
        data: image.samples,
        palette: None,
    }
}

/// Round trip through PNG: where the PNG decoder reads the file that the
/// encoder wrote for an image as the frame of that image, a DATA file that
/// is converted to PNG and back describes the same image as before.
pub proof fn lemma_round_trip_through_png(file: Seq<u8>, png_file: Seq<u8>)
    requires
        decode_data(file).is_ok(),
        image_png(decode_data(file).unwrap()) == Ok::<Seq<u8>, ConvertError>(png_file),
        png_decoding(png_file) == Some(image_frame(decode_data(file).unwrap())),
    ensures
        frame_data(png_decoding(png_file)).is_ok(),
        decode_data(frame_data(png_decoding(png_file)).unwrap()) == decode_data(file),
{
    let image = decode_data(file).unwrap();
    lemma_data_round_trip(file, TARGET_CHUNK_SIZE as int);
    let png = image_container(image);
    assert(crate::codec::raw_container(image_frame(image)) == Ok::<PngView, ConvertError>(png));
    assert(png.width <= u32::MAX && png.height <= u32::MAX);
}

/// The records of the chunks depend on the target length by nothing but
/// the length of a chunk that is made of it.
proof fn lemma_encoded_chunks_by_step(png: PngView, one: int, other: int, count: int)
    requires
        png.chunk_step(one) == png.chunk_step(other),
    ensures
        encoded_chunks(png, one, count) == encoded_chunks(png, other, count),
    decreases count,
{
    reveal(chunk_converted);
    if count > 0 {
        lemma_encoded_chunks_by_step(png, one, other, count - 1);
    }
}

/// Chunk invariance of the bytes: two target lengths that are rounded up
/// to the same number of pixels give the same DATA file, byte for byte.
pub proof fn lemma_same_step_same_file(png: PngView, one: int, other: int)
    requires
        png.chunk_step(one) == png.chunk_step(other),
    ensures
        encode_data(png, one) == encode_data(png, other),
{
    lemma_encoded_chunks_by_step(
        png,
        one,
        other,
        chunk_count(png.pixels(), png.chunk_step(one)),
    );
}

} // verus!
