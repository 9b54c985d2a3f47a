//! Cutting an image into chunks changes nothing about its pixels: whatever
//! the target length, the chunks' pixels, one after the other, are the
//! pixels of the image.

use vstd::prelude::*;
use vstd::arithmetic::div_mod::lemma_fundamental_div_mod;
use vstd::arithmetic::div_mod::lemma_fundamental_div_mod_converse;
use vstd::arithmetic::div_mod::lemma_mod_multiples_basic;
use crate::convert::channels_of;
use crate::convert::chunk_converted;
use crate::error::ConvertError;
use crate::format::BitDepth;
use crate::format::ColorType;
use crate::math::lemma_round_up;
use crate::png::PngView;
use crate::png::chunk_count;
use crate::png::chunk_len;
use crate::png::least;
use crate::png::lemma_cut;
use crate::png::lemma_layout;
use crate::png::unit_bytes;
use crate::png_chunk::channel;
use crate::png_chunk::chunk_samples;
use crate::png_chunk::converted;
use crate::png_chunk::indices_in_palette;
use crate::png_chunk::normalized;
use crate::rle::joined;
use crate::unpack::home_byte;
use crate::unpack::input_span;
use crate::unpack::is_packed;
use crate::unpack::lemma_home_byte;
use crate::unpack::lemma_input_span;
use crate::unpack::output_offset;
use crate::unpack::samples_per_byte;
use crate::unpack::unpacked_sample;

verus! {

/// The span by which the image as a whole is unpacked: a row where the
/// rows end within a byte, all its pixels where they do not.
pub open spec fn natural_span(png: PngView) -> int {
    if png.cut_by_rows() {
        png.divisor
    } else {
        png.pixels()
    }
}

/// The bytes of chunk `i` of the chunks made for `target_len`.
pub open spec fn chunk_data(png: PngView, target_len: int, i: int) -> Seq<u8> {
    let bytes = png.chunk_bytes(target_len);
    png.data.subrange(i * bytes, least((i + 1) * bytes, png.data.len() as int))
}

/// The number of pixels of chunk `i`.
pub open spec fn chunk_pixels(png: PngView, target_len: int, i: int) -> int {
    chunk_len(png.pixels(), png.chunk_step(target_len), i)
}

/// The span by which chunk `i` is unpacked.
pub open spec fn chunk_span(png: PngView, target_len: int, i: int) -> int {
    if png.cut_by_rows() {
        png.divisor
    } else {
        chunk_pixels(png, target_len, i)
    }
}

/// Where the span is a whole number of bytes, the samples lie one after the
/// other without a gap.
#[verifier::rlimit(40)]
proof fn lemma_flat_span(j: int, span: int, depth: BitDepth)
    requires
        0 <= j,
        0 < span,
        is_packed(depth),
        span % samples_per_byte(depth) == 0,
    ensures
        home_byte(j, span, depth) == j / samples_per_byte(depth),
        j - output_offset(home_byte(j, span, depth), span, depth) == j % samples_per_byte(depth),
{
    let p = samples_per_byte(depth);
    let width = input_span(span, depth);
    lemma_input_span(span, depth);
    lemma_home_byte(j, span, depth);
    let row = j / span;
    let col = j % span;
    lemma_fundamental_div_mod(j, span);
    assert(0 <= col < span && 0 <= row) by (nonlinear_arith)
        requires
            0 <= j,
            0 < span,
            row == j / span,
            col == j % span,
    ;
    assert(span == width * p);
    let a = col / p;
    let b = col % p;
    assert(j == (row * width + a) * p + b) by (nonlinear_arith)
        requires
            j == span * row + col,
            span == width * p,
            col == a * p + b,
    ;
    assert(0 <= row * width) by (nonlinear_arith)
        requires
            0 <= row,
            0 <= width,
    ;
    lemma_fundamental_div_mod_converse(j, p, row * width + a, b);
}

/// The arithmetic of an image's layout, in whole alignment units.
#[verifier::rlimit(40)]
proof fn lemma_units(png: PngView, target_len: int, i: int)
    requires
        png.wf(),
        target_len > 0,
        0 <= i < chunk_count(png.pixels(), png.chunk_step(target_len)),
    ensures
        ({
            let unit = unit_bytes(png.divisor, png.bpp);
            let units = png.pixels() / png.divisor;
            let per_chunk = png.chunk_step(target_len) / png.divisor;
            let here = least(per_chunk, units - i * per_chunk);
            &&& png.divisor >= 1
            &&& unit >= 1
            &&& units >= 1
            &&& per_chunk >= 1
            &&& 1 <= here <= per_chunk
            &&& i * per_chunk + here <= units
            &&& 0 <= i * per_chunk < units
            &&& png.pixels() == units * png.divisor
            &&& png.chunk_step(target_len) == per_chunk * png.divisor
            &&& png.chunk_bytes(target_len) == per_chunk * unit
            &&& png.data.len() == units * unit
            &&& chunk_pixels(png, target_len, i) == here * png.divisor
            &&& chunk_data(png, target_len, i) == png.data.subrange(
                i * per_chunk * unit,
                (i * per_chunk + here) * unit,
            )
            &&& 0 <= i * per_chunk * unit
            &&& (i * per_chunk + here) * unit <= png.data.len()
        }),
{
    let divisor = png.divisor;
    let unit = unit_bytes(png.divisor, png.bpp);
    let pixels = png.pixels();
    let step = png.chunk_step(target_len);
    let units = pixels / divisor;
    let per_chunk = step / divisor;
    lemma_layout(png.width, png.height, png.color_type, png.bit_depth);
    lemma_round_up(target_len, divisor);
    lemma_fundamental_div_mod(pixels, divisor);
    lemma_fundamental_div_mod(step, divisor);
    assert(pixels == units * divisor && step == per_chunk * divisor) by (nonlinear_arith)
        requires
            pixels == divisor * (pixels / divisor) + pixels % divisor,
            pixels % divisor == 0,
            units == pixels / divisor,
            step == divisor * (step / divisor) + step % divisor,
            step % divisor == 0,
            per_chunk == step / divisor,
    ;
    assert(per_chunk >= 1 && units >= 0) by (nonlinear_arith)
        requires
            step == per_chunk * divisor,
            pixels == units * divisor,
            step >= 1,
            pixels >= 0,
            divisor >= 1,
    ;
    let count = chunk_count(pixels, step);
    lemma_fundamental_div_mod(pixels + step - 1, step);
    let rest = (pixels + step - 1) % step;
    assert(0 <= rest < step) by (nonlinear_arith)
        requires
            1 <= step,
            rest == (pixels + step - 1) % step,
    ;
    assert(i * step < pixels) by (nonlinear_arith)
        requires
            0 <= i < count,
            pixels + step - 1 == step * count + rest,
            0 <= rest,
            1 <= step,
    ;
    assert(i * per_chunk < units) by (nonlinear_arith)
        requires
            i * step < pixels,
            step == per_chunk * divisor,
            pixels == units * divisor,
            divisor >= 1,
    ;
    lemma_cut(units, per_chunk, divisor, unit, i);
    let here = least(per_chunk, units - i * per_chunk);
    assert(0 <= i * per_chunk) by (nonlinear_arith)
        requires
            0 <= i,
            1 <= per_chunk,
    ;
    assert(i * (per_chunk * unit) == i * per_chunk * unit && i * per_chunk * unit + here * unit
        == (i * per_chunk + here) * unit && 0 <= i * per_chunk * unit && (i * per_chunk + here)
        * unit <= units * unit) by (nonlinear_arith)
        requires
            0 <= i * per_chunk,
            i * per_chunk + here <= units,
            1 <= unit,
    ;
}

/// What the layout of an image with samples narrower than a byte is like.
proof fn lemma_packed_layout(png: PngView)
    requires
        png.wf(),
        is_packed(png.bit_depth),
    ensures
        png.color_type.spec_samples() == 1,
        png.bpp == png.bit_depth.spec_bits(),
        png.bpp * samples_per_byte(png.bit_depth) == 8,
        8int / png.bpp == samples_per_byte(png.bit_depth),
        unit_bytes(png.divisor, png.bpp) == input_span(png.divisor, png.bit_depth),
        png.cut_by_rows() ==> png.divisor == png.width && png.width > 0,
        !png.cut_by_rows() ==> png.divisor == samples_per_byte(png.bit_depth) && unit_bytes(
            png.divisor,
            png.bpp,
        ) == 1,
{
    lemma_layout(png.width, png.height, png.color_type, png.bit_depth);
    let bpp = png.bpp;
    let width = png.width;
    match png.bit_depth {
        BitDepth::One => {
            assert(8int / 1 == 8);
            assert(width * 1 == width) by (nonlinear_arith);
            assert(8 * 1 == 8);
        },
        BitDepth::Two => {
            assert(8int / 2 == 4);
            assert(width * 2 == 2 * width) by (nonlinear_arith);
            assert(4 * 2 == 8);
        },
        _ => {
            assert(8int / 4 == 2);
            assert(width * 4 == 4 * width) by (nonlinear_arith);
            assert(2 * 4 == 8);
        },
    }
}

/// Rows that end within a byte: a sample of some rows taken by themselves
/// is the sample of all the rows at their place.
#[verifier::rlimit(40)]
proof fn lemma_part_of_rows(
    data: Seq<u8>,
    first: int,
    here: int,
    units: int,
    divisor: int,
    depth: BitDepth,
    j: int,
)
    requires
        is_packed(depth),
        divisor > 0,
        0 <= first,
        1 <= here,
        first + here <= units,
        data.len() == units * input_span(divisor, depth),
        0 <= j < here * divisor,
    ensures
        0 <= first * input_span(divisor, depth) <= (first + here) * input_span(divisor, depth)
            <= data.len(),
        unpacked_sample(
            data.subrange(
                first * input_span(divisor, depth),
                (first + here) * input_span(divisor, depth),
            ),
            divisor,
            depth,
            j,
        ) == unpacked_sample(data, divisor, depth, first * divisor + j),
{
    let unit = input_span(divisor, depth);
    let p = samples_per_byte(depth);
    let place = first * divisor + j;
    lemma_input_span(divisor, depth);
    assert(0 <= first * unit <= (first + here) * unit <= units * unit && (first + here) * unit
        - first * unit == here * unit && 0 <= first * divisor) by (nonlinear_arith)
        requires
            0 <= first,
            1 <= here,
            first + here <= units,
            1 <= unit,
            0 < divisor,
    ;
    let part = data.subrange(first * unit, (first + here) * unit);
    assert(part.len() == here * unit);
    let row = j / divisor;
    let col = j % divisor;
    lemma_home_byte(j, divisor, depth);
    lemma_home_byte(place, divisor, depth);
    lemma_fundamental_div_mod(j, divisor);
    assert(0 <= col < divisor && 0 <= row < here) by (nonlinear_arith)
        requires
            0 <= j < here * divisor,
            0 < divisor,
            j == divisor * row + col,
            col == j % divisor,
    ;
    assert(place == (first + row) * divisor + col) by (nonlinear_arith)
        requires
            place == first * divisor + j,
            j == divisor * row + col,
    ;
    lemma_fundamental_div_mod_converse(place, divisor, first + row, col);
    let home = home_byte(j, divisor, depth);
    let within = col / p;
    assert(0 <= within < unit);
    assert(home == row * unit + within);
    assert(home_byte(place, divisor, depth) == first * unit + home) by (nonlinear_arith)
        requires
            home_byte(place, divisor, depth) == (first + row) * unit + within,
            home == row * unit + within,
    ;
    assert(0 <= home < here * unit && first * unit + home < units * unit) by (nonlinear_arith)
        requires
            home == row * unit + within,
            0 <= row < here,
            0 <= within < unit,
            first + here <= units,
            0 <= first,
    ;
    assert(part[home] == data[first * unit + home]);
}

/// Rows that end with a byte: a sample of some bytes taken by themselves is
/// the sample of all the bytes at their place.
#[verifier::rlimit(40)]
proof fn lemma_part_of_bytes(
    data: Seq<u8>,
    first: int,
    here: int,
    depth: BitDepth,
    j: int,
)
    requires
        is_packed(depth),
        0 <= first,
        1 <= here,
        first + here <= data.len(),
        0 <= j < here * samples_per_byte(depth),
    ensures
        unpacked_sample(
            data.subrange(first, first + here),
            here * samples_per_byte(depth),
            depth,
            j,
        ) == unpacked_sample(
            data,
            data.len() * samples_per_byte(depth),
            depth,
            first * samples_per_byte(depth) + j,
        ),
{
    let p = samples_per_byte(depth);
    let units = data.len() as int;
    let place = first * p + j;
    let part = data.subrange(first, first + here);
    assert(here * p > 0 && units * p > 0 && 0 <= first * p) by (nonlinear_arith)
        requires
            here >= 1,
            units >= 1,
            p >= 2,
            0 <= first,
    ;
    lemma_mod_multiples_basic(here, p);
    lemma_mod_multiples_basic(units, p);
    lemma_flat_span(j, here * p, depth);
    lemma_flat_span(place, units * p, depth);
    let home = j / p;
    lemma_fundamental_div_mod(j, p);
    assert(place == p * (first + home) + j % p) by (nonlinear_arith)
        requires
            place == first * p + j,
            j == p * home + j % p,
    ;
    assert(0 <= j % p < p);
    lemma_fundamental_div_mod_converse(place, p, first + home, j % p);
    assert(0 <= home < here);
    assert(part[home] == data[first + home]);
}

/// Samples of a byte or two: a sample of some pixels taken by themselves is
/// the sample of all the pixels at their place.
proof fn lemma_part_of_wide(
    data: Seq<u8>,
    first: int,
    here: int,
    unit: int,
    depth: BitDepth,
    span: int,
    whole_span: int,
    j: int,
)
    requires
        !is_packed(depth),
        0 <= first,
        1 <= here,
        1 <= unit,
        (first + here) * unit <= data.len(),
        depth == BitDepth::Eight ==> 0 <= j < here * unit,
        depth == BitDepth::Sixteen ==> 0 <= 2 * j < here * unit && unit % 2 == 0,
    ensures
        0 <= first * unit <= (first + here) * unit,
        depth == BitDepth::Eight ==> unpacked_sample(
            data.subrange(first * unit, (first + here) * unit),
            span,
            depth,
            j,
        ) == unpacked_sample(data, whole_span, depth, first * unit + j),
        depth == BitDepth::Sixteen ==> unpacked_sample(
            data.subrange(first * unit, (first + here) * unit),
            span,
            depth,
            j,
        ) == unpacked_sample(data, whole_span, depth, first * (unit / 2) + j),
{
    assert(0 <= first * unit <= (first + here) * unit && (first + here) * unit - first * unit
        == here * unit) by (nonlinear_arith)
        requires
            0 <= first,
            1 <= here,
            1 <= unit,
    ;
    let part = data.subrange(first * unit, (first + here) * unit);
    assert(part.len() == here * unit);
    if depth == BitDepth::Eight {
        assert(part[j] == data[first * unit + j]);
    } else {
        let half = unit / 2;
        assert(unit == 2 * half);
        assert(2 * (first * half + j) == first * unit + 2 * j && here * unit == 2 * (here
            * half)) by (nonlinear_arith)
            requires
                unit == 2 * half,
        ;
        assert(2 * j + 1 < here * unit);
        assert(part[2 * j] == data[first * unit + 2 * j]);
        assert(part[2 * j + 1] == data[first * unit + 2 * j + 1]);
    }
}

/// A sample of a chunk is the sample of the image at the chunk's place.
#[verifier::rlimit(40)]
proof fn lemma_chunk_sample(png: PngView, target_len: int, i: int, j: int)
    requires
        png.wf(),
        target_len > 0,
        0 <= i < chunk_count(png.pixels(), png.chunk_step(target_len)),
        0 <= j < chunk_pixels(png, target_len, i) * png.color_type.spec_samples(),
    ensures
        unpacked_sample(
            chunk_data(png, target_len, i),
            chunk_span(png, target_len, i),
            png.bit_depth,
            j,
        ) == unpacked_sample(
            png.data,
            natural_span(png),
            png.bit_depth,
            i * png.chunk_step(target_len) * png.color_type.spec_samples() + j,
        ),
{
    lemma_units(png, target_len, i);
    lemma_layout(png.width, png.height, png.color_type, png.bit_depth);
    let depth = png.bit_depth;
    let divisor = png.divisor;
    let unit = unit_bytes(png.divisor, png.bpp);
    let units = png.pixels() / png.divisor;
    let per_chunk = png.chunk_step(target_len) / png.divisor;
    let here = least(per_chunk, units - i * per_chunk);
    let first = i * per_chunk;
    let spp = png.color_type.spec_samples() as int;
    let step = png.chunk_step(target_len);
    let part = chunk_data(png, target_len, i);
    let place = i * step * spp + j;
    assert(i * step == first * divisor) by (nonlinear_arith)
        requires
            step == per_chunk * divisor,
            first == i * per_chunk,
    ;
    assert(part == png.data.subrange(first * unit, (first + here) * unit));
    if is_packed(depth) {
        lemma_packed_layout(png);
        let p = samples_per_byte(depth);
        assert(place == first * divisor + j && here * divisor * spp == here * divisor)
            by (nonlinear_arith)
            requires
                place == i * step * spp + j,
                i * step == first * divisor,
                spp == 1,
        ;
        if png.cut_by_rows() {
            lemma_part_of_rows(png.data, first, here, units, divisor, depth, j);
        } else {
            assert(first * 1 == first && (first + here) * 1 == first + here && units * 1
                == units);
            lemma_part_of_bytes(png.data, first, here, depth, j);
        }
    } else {
        assert(spp == 1 || spp == 2 || spp == 3 || spp == 4);
        assert(divisor == 1 && here * 1 == here && first * 1 == first);
        if depth == BitDepth::Eight {
            assert(png.bpp == 8 * spp) by (nonlinear_arith)
                requires
                    png.bpp == 8 * spp || png.bpp == spp * 8,
            ;
            assert(unit == spp);
            assert(place == first * unit + j) by (nonlinear_arith)
                requires
                    place == i * step * spp + j,
                    i * step == first,
                    unit == spp,
            ;
        } else {
            assert(depth == BitDepth::Sixteen);
            assert(png.bpp == 16 * spp) by (nonlinear_arith)
                requires
                    png.bpp == 16 * spp || png.bpp == spp * 16,
            ;
            assert(unit == 2 * spp && unit / 2 == spp);
            assert(place == first * (unit / 2) + j && here * unit == 2 * (here * spp))
                by (nonlinear_arith)
                requires
                    place == i * step * spp + j,
                    i * step == first,
                    unit / 2 == spp,
                    unit == 2 * spp,
            ;
        }
        lemma_part_of_wide(
            png.data,
            first,
            here,
            unit,
            depth,
            chunk_span(png, target_len, i),
            natural_span(png),
            j,
        );
    }
}

/// The unpacked samples of the first `pixels` pixels of the image.
pub open spec fn image_samples(png: PngView, pixels: int) -> Seq<u8> {
    chunk_samples(png.data, pixels as nat, natural_span(png), png.color_type, png.bit_depth)
}

/// The unpacked samples of chunk `i`.
pub open spec fn part_samples(png: PngView, target_len: int, i: int) -> Seq<u8> {
    chunk_samples(
        chunk_data(png, target_len, i),
        chunk_pixels(png, target_len, i) as nat,
        chunk_span(png, target_len, i),
        png.color_type,
        png.bit_depth,
    )
}

/// The first `pixels` pixels of the image, converted as a whole.
pub open spec fn image_prefix(png: PngView, pixels: int) -> Result<Seq<u8>, ConvertError> {
    converted(
        png.data,
        pixels as nat,
        natural_span(png),
        png.color_type,
        png.bit_depth,
        png.colors(),
        channels_of(png.color_type),
    )
}

/// The pixels of the image, converted as a whole.
pub open spec fn image_pixels(png: PngView) -> Result<Seq<u8>, ConvertError> {
    image_prefix(png, png.pixels())
}

/// The pixels of the first `count` chunks, one chunk after the other. The
/// first chunk that cannot be converted spoils the whole.
pub open spec fn converted_chunks(png: PngView, target_len: int, count: int) -> Result<
    Seq<u8>,
    ConvertError,
>
    decreases count,
{
    if count <= 0 {
        Ok(Seq::empty())
    } else {
        joined(
            converted_chunks(png, target_len, count - 1),
            chunk_converted(png, target_len, count - 1),
        )
    }
}

/// A sample of a chunk, taken out of the chunk's samples, is the sample of
/// the image at the chunk's place, taken out of the image's samples.
proof fn lemma_sample_of_chunk(png: PngView, target_len: int, i: int, j: int, pixels: int)
    requires
        png.wf(),
        target_len > 0,
        0 <= i < chunk_count(png.pixels(), png.chunk_step(target_len)),
        0 <= j < chunk_pixels(png, target_len, i) * png.color_type.spec_samples(),
        i * png.chunk_step(target_len) + chunk_pixels(png, target_len, i) <= pixels,
    ensures
        0 <= i * png.chunk_step(target_len) * png.color_type.spec_samples() + j < pixels
            * png.color_type.spec_samples(),
        part_samples(png, target_len, i)[j] == image_samples(png, pixels)[i * png.chunk_step(
            target_len,
        ) * png.color_type.spec_samples() + j],
{
    lemma_chunk_sample(png, target_len, i, j);
    lemma_units(png, target_len, i);
    let spp = png.color_type.spec_samples() as int;
    let before = i * png.chunk_step(target_len);
    let len = chunk_pixels(png, target_len, i);
    assert(0 <= before) by (nonlinear_arith)
        requires
            before == i * png.chunk_step(target_len),
            0 <= i,
            png.chunk_step(target_len) >= 0,
    ;
    assert(0 <= before * spp && before * spp + len * spp <= pixels * spp && 0 <= len * spp)
        by (nonlinear_arith)
        requires
            0 <= before,
            0 <= len,
            before + len <= pixels,
            1 <= spp,
    ;
}

/// A channel of a pixel of a chunk is that channel of the pixel of the
/// image at the chunk's place.
proof fn lemma_channel_of_chunk(
    png: PngView,
    target_len: int,
    i: int,
    p: int,
    c: int,
    pixels: int,
)
    requires
        png.wf(),
        target_len > 0,
        0 <= i < chunk_count(png.pixels(), png.chunk_step(target_len)),
        0 <= p < chunk_pixels(png, target_len, i),
        0 <= c < 4,
        i * png.chunk_step(target_len) + chunk_pixels(png, target_len, i) <= pixels,
    ensures
        channel(
            part_samples(png, target_len, i),
            png.color_type,
            png.bit_depth,
            png.colors(),
            p,
            c,
        ) == channel(
            image_samples(png, pixels),
            png.color_type,
            png.bit_depth,
            png.colors(),
            i * png.chunk_step(target_len) + p,
            c,
        ),
{
    let spp = png.color_type.spec_samples() as int;
    let before = i * png.chunk_step(target_len);
    let len = chunk_pixels(png, target_len, i);
    assert(p * spp + spp <= len * spp && 0 <= p * spp && (before + p) * spp == before * spp + p
        * spp) by (nonlinear_arith)
        requires
            0 <= p < len,
            1 <= spp,
    ;
    lemma_sample_of_chunk(png, target_len, i, p * spp, pixels);
    if spp >= 2 {
        lemma_sample_of_chunk(png, target_len, i, p * spp + 1, pixels);
    }
    if spp >= 3 {
        lemma_sample_of_chunk(png, target_len, i, p * spp + 2, pixels);
    }
    if spp >= 4 {
        lemma_sample_of_chunk(png, target_len, i, p * spp + 3, pixels);
    }
}

/// The pixels in front of a chunk and the chunk's pixels are the pixels up
/// to the chunk's end.
#[verifier::rlimit(40)]
proof fn lemma_chunk_extends_prefix(png: PngView, target_len: int, i: int)
    requires
        png.wf(),
        target_len > 0,
        0 <= i < chunk_count(png.pixels(), png.chunk_step(target_len)),
    ensures
        0 <= i * png.chunk_step(target_len),
        0 <= chunk_pixels(png, target_len, i),
        joined(
            image_prefix(png, i * png.chunk_step(target_len)),
            chunk_converted(png, target_len, i),
        ) == image_prefix(
            png,
            i * png.chunk_step(target_len) + chunk_pixels(png, target_len, i),
        ),
{
    reveal(chunk_converted);
    lemma_units(png, target_len, i);
    let before = i * png.chunk_step(target_len);
    let len = chunk_pixels(png, target_len, i);
    let after_it = before + len;
    let channels = channels_of(png.color_type);
    let spp = png.color_type.spec_samples() as int;
    let palette = png.colors();
    let head = image_samples(png, before);
    let part = part_samples(png, target_len, i);
    let whole = image_samples(png, after_it);
    assert(0 <= before && 0 <= len) by (nonlinear_arith)
        requires
            before == i * png.chunk_step(target_len),
            0 <= i,
            png.chunk_step(target_len) >= 0,
            len == least(
                png.chunk_step(target_len) / png.divisor,
                png.pixels() / png.divisor - i * (png.chunk_step(target_len) / png.divisor),
            ) * png.divisor,
            least(
                png.chunk_step(target_len) / png.divisor,
                png.pixels() / png.divisor - i * (png.chunk_step(target_len) / png.divisor),
            ) >= 1,
            png.divisor >= 1,
    ;
    assert(chunk_converted(png, target_len, i) == converted(
        chunk_data(png, target_len, i),
        len as nat,
        chunk_span(png, target_len, i),
        png.color_type,
        png.bit_depth,
        palette,
        channels,
    ));
    assert(before * spp <= after_it * spp && 0 <= before * spp) by (nonlinear_arith)
        requires
            0 <= before <= after_it,
            1 <= spp,
    ;
    assert forall|j: int| 0 <= j < before * spp implies head[j] == whole[j] by {}
    if png.color_type == ColorType::Indexed {
        assert(spp == 1);
        assert(before * 1 == before && after_it * 1 == after_it && len * 1 == len);
        if !indices_in_palette(head, before as nat, palette) {
            let bad = choose|p: int| 0 <= p < before && !((#[trigger] head[p]) * 3 + 3 <= palette.len());
            assert(whole[bad] == head[bad]);
        } else if !indices_in_palette(part, len as nat, palette) {
            let bad = choose|p: int| 0 <= p < len && !((#[trigger] part[p]) * 3 + 3 <= palette.len());
            lemma_sample_of_chunk(png, target_len, i, bad, after_it);
            assert(whole[before + bad] == part[bad]);
        } else {
            assert forall|p: int| 0 <= p < after_it implies (#[trigger] whole[p]) * 3 + 3
                <= palette.len() by {
                if p < before {
                    assert(whole[p] == head[p]);
                } else {
                    lemma_sample_of_chunk(png, target_len, i, p - before, after_it);
                    assert(whole[p] == part[p - before]);
                }
            }
        }
    }
    let first = normalized(head, png.color_type, png.bit_depth, palette, before as nat, channels);
    let second = normalized(part, png.color_type, png.bit_depth, palette, len as nat, channels);
    let both = normalized(
        whole,
        png.color_type,
        png.bit_depth,
        palette,
        after_it as nat,
        channels,
    );
    assert(before * channels + len * channels == after_it * channels && 0 <= before * channels
        && 0 <= len * channels) by (nonlinear_arith)
        requires
            after_it == before + len,
            0 <= before,
            0 <= len,
            3 <= channels <= 4,
    ;
    assert(first + second =~= both) by {
        assert forall|k: int| 0 <= k < after_it * channels implies (first + second)[k]
            == both[k] by {
            let p = k / channels;
            let c = k % channels;
            if k < before * channels {
                assert(0 <= p < before) by (nonlinear_arith)
                    requires
                        0 <= k < before * channels,
                        p == k / channels,
                        3 <= channels <= 4,
                ;
                lemma_channel_of_prefix(png, before, after_it, p, c);
            } else {
                let local = k - before * channels;
                assert(local / channels == p - before && local % channels == c && 0 <= p
                    - before < len) by {
                    lemma_fundamental_div_mod(k, channels);
                    assert(local == channels * (p - before) + c) by (nonlinear_arith)
                        requires
                            local == k - before * channels,
                            k == channels * p + c,
                    ;
                    assert(0 <= c < channels);
                    assert(0 <= p - before < len) by (nonlinear_arith)
                        requires
                            local == channels * (p - before) + c,
                            0 <= local < len * channels,
                            0 <= c < channels,
                            3 <= channels <= 4,
                    ;
                    lemma_fundamental_div_mod_converse(local, channels, p - before, c);
                }
                lemma_channel_of_chunk(png, target_len, i, p - before, c, after_it);
            }
        }
    }
}

/// A channel of a pixel does not depend on how many pixels are unpacked
/// behind it.
proof fn lemma_channel_of_prefix(png: PngView, fewer: int, more: int, p: int, c: int)
    requires
        0 <= p < fewer <= more,
        0 <= c < 4,
    ensures
        channel(
            image_samples(png, fewer),
            png.color_type,
            png.bit_depth,
            png.colors(),
            p,
            c,
        ) == channel(image_samples(png, more), png.color_type, png.bit_depth, png.colors(), p, c),
{
    let spp = png.color_type.spec_samples() as int;
    assert(p * spp + spp <= fewer * spp && fewer * spp <= more * spp && 0 <= p * spp)
        by (nonlinear_arith)
        requires
            0 <= p < fewer <= more,
            1 <= spp,
    ;
    let a = image_samples(png, fewer);
    let b = image_samples(png, more);
    assert(a[p * spp] == b[p * spp]);
    if spp >= 2 {
        assert(a[p * spp + 1] == b[p * spp + 1]);
    }
    if spp >= 3 {
        assert(a[p * spp + 2] == b[p * spp + 2]);
    }
    if spp >= 4 {
        assert(a[p * spp + 3] == b[p * spp + 3]);
    }
}

/// The pixels of the first `count` chunks are the first pixels of the image.
pub(crate) proof fn lemma_converted_chunks_are_prefix(png: PngView, target_len: int, count: int)
    requires
        png.wf(),
        target_len > 0,
        0 <= count <= chunk_count(png.pixels(), png.chunk_step(target_len)),
    ensures
        converted_chunks(png, target_len, count) == image_prefix(
            png,
            least(count * png.chunk_step(target_len), png.pixels()),
        ),
    decreases count,
{
    let step = png.chunk_step(target_len);
    if count == 0 {
        assert(0 * step == 0);
        lemma_layout(png.width, png.height, png.color_type, png.bit_depth);
        let nothing = image_samples(png, 0);
        assert(0 * png.color_type.spec_samples() == 0);
        assert(nothing.len() == 0);
        assert(indices_in_palette(nothing, 0, png.colors()));
        assert(0 * channels_of(png.color_type) == 0);
        assert(normalized(
            nothing,
            png.color_type,
            png.bit_depth,
            png.colors(),
            0,
            channels_of(png.color_type),
        ) =~= Seq::<u8>::empty());
    } else {
        let i = count - 1;
        lemma_converted_chunks_are_prefix(png, target_len, i);
        lemma_units(png, target_len, i);
        lemma_chunk_extends_prefix(png, target_len, i);
        assert((i + 1) * step == i * step + step) by (nonlinear_arith);
        let units = png.pixels() / png.divisor;
        let per_chunk = step / png.divisor;
        assert(i * step < png.pixels()) by (nonlinear_arith)
            requires
                i * per_chunk < units,
                step == per_chunk * png.divisor,
                png.pixels() == units * png.divisor,
                png.divisor >= 1,
        ;
    }
}

/// Chunk invariance of the pixels: whatever the target length, the pixels
/// of the chunks, one chunk after the other, are the pixels of the image
/// converted as a whole; and where a chunk cannot be converted because of its
/// palette indices, neither can the image.
pub proof fn lemma_chunks_make_the_image(png: PngView, target_len: int)
    requires
        png.wf(),
        target_len > 0,
    ensures
        converted_chunks(
            png,
            target_len,
            chunk_count(png.pixels(), png.chunk_step(target_len)),
        ) == image_pixels(png),
{
    let step = png.chunk_step(target_len);
    let pixels = png.pixels();
    let count = chunk_count(pixels, step);
    lemma_layout(png.width, png.height, png.color_type, png.bit_depth);
    lemma_round_up(target_len, png.divisor);
    lemma_fundamental_div_mod(pixels + step - 1, step);
    let rest = (pixels + step - 1) % step;
    assert(0 <= rest < step) by (nonlinear_arith)
        requires
            1 <= step,
            rest == (pixels + step - 1) % step,
    ;
    assert(count >= 0 && count * step >= pixels) by (nonlinear_arith)
        requires
            pixels + step - 1 == step * count + rest,
            0 <= rest < step,
            1 <= step,
            0 <= pixels,
    ;
    lemma_converted_chunks_are_prefix(png, target_len, count);
}

/// Chunk invariance: two target lengths give the same pixels.
pub proof fn lemma_chunk_invariance(png: PngView, one: int, other: int)
    requires
        png.wf(),
        one > 0,
        other > 0,
    ensures
        converted_chunks(png, one, chunk_count(png.pixels(), png.chunk_step(one)))
            == converted_chunks(png, other, chunk_count(png.pixels(), png.chunk_step(other))),
{
    lemma_chunks_make_the_image(png, one);
    lemma_chunks_make_the_image(png, other);
}

} // verus!
