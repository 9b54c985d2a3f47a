//! The pixel container: a decoded but still packed PNG payload with its
//! metadata, and the rules by which it is cut into chunks.

use vstd::prelude::*;
use vstd::arithmetic::div_mod::lemma_fundamental_div_mod;
use vstd::arithmetic::div_mod::lemma_mod_multiples_basic;
use vstd::slice::slice_subrange;
use crate::error::ConvertError;
use crate::format::BitDepth;
use crate::format::ColorType;
use crate::math::lemma_round_up;
use crate::math::lemma_round_up_is_least;
use crate::math::make_divisible_by;
use crate::math::round_up;
use crate::unpack::is_packed;

verus! {

/// Whether PNG knows the combination of color type and bit depth. Samples
/// narrower than a byte occur only where a pixel is a single sample.
pub open spec fn is_supported(color_type: ColorType, bit_depth: BitDepth) -> bool {
    match color_type {
        ColorType::Grayscale => true,
        ColorType::Indexed => bit_depth != BitDepth::Sixteen,
        _ => !is_packed(bit_depth),
    }
}

/// The number of bits that one pixel takes.
pub open spec fn bits_per_pixel(color_type: ColorType, bit_depth: BitDepth) -> int {
    bit_depth.spec_bits() * color_type.spec_samples()
}

/// The smallest number of pixels at which packed data may be cut. Pixels of a
/// byte or more can be cut anywhere. Narrower ones can be cut between bytes,
/// unless a row does not end with a byte: then only between rows.
pub open spec fn alignment_unit(width: int, bpp: int) -> int {
    if bpp < 8 {
        if (width * bpp) % 8 > 0 {
            width
        } else {
            8int / bpp
        }
    } else {
        1
    }
}

/// The number of bytes that one alignment unit takes.
pub open spec fn unit_bytes(divisor: int, bpp: int) -> int {
    round_up(divisor * bpp, 8) / 8
}

/// The number of bytes that `pixels` pixels take, for a whole number of units.
pub open spec fn packed_len(pixels: int, divisor: int, bpp: int) -> int {
    (pixels / divisor) * unit_bytes(divisor, bpp)
}

/// The reason for which an image cannot be held, if there is one.
pub open spec fn construction_error(
    width: int,
    height: int,
    color_type: ColorType,
    bit_depth: BitDepth,
    data_len: int,
    has_palette: bool,
) -> Option<ConvertError> {
    let bpp = bits_per_pixel(color_type, bit_depth);
    if color_type == ColorType::Indexed && !has_palette {
        Some(ConvertError::MissingPalette)
    } else if !is_supported(color_type, bit_depth) {
        Some(ConvertError::UnsupportedFormat)
    } else if width * height * 4 > usize::MAX {
        Some(ConvertError::ImageTooLarge)
    } else if data_len != packed_len(width * height, alignment_unit(width, bpp), bpp) {
        Some(ConvertError::PixelCountMismatch)
    } else {
        None
    }
}

/// A PNG image as its decoder hands it over: the samples still packed.
pub struct Png {
    pub width: usize,
    pub height: usize,
    pub color_type: ColorType,
    pub bit_depth: BitDepth,
    pub data: Vec<u8>,
    pub palette: Option<Vec<u8>>,
    pub bpp: usize,
    pub divisor: usize,
}

/// A part of an image's pixels, cut where the packing allows it.
pub struct PngChunk<'a> {
    pub data: &'a [u8],
    pub len: usize,
    pub span: usize,
    pub png: &'a Png,
}

/// What a `Png` holds, as plain values.
pub struct PngView {
    pub width: int,
    pub height: int,
    pub color_type: ColorType,
    pub bit_depth: BitDepth,
    pub data: Seq<u8>,
    pub palette: Option<Seq<u8>>,
    pub bpp: int,
    pub divisor: int,
}

/// The image that `new` makes of its arguments.
pub open spec fn container(
    width: int,
    height: int,
    color_type: ColorType,
    bit_depth: BitDepth,
    data: Seq<u8>,
    palette: Option<Seq<u8>>,
) -> PngView {
    PngView {
        width,
        height,
        color_type,
        bit_depth,
        data,
        palette,
        bpp: bits_per_pixel(color_type, bit_depth),
        divisor: alignment_unit(width, bits_per_pixel(color_type, bit_depth)),
    }
}

impl View for Png {
    type V = PngView;

    open spec fn view(&self) -> PngView {
        PngView {
            width: self.width as int,
            height: self.height as int,
            color_type: self.color_type,
            bit_depth: self.bit_depth,
            data: self.data@,
            palette: match self.palette {
                Some(p) => Some(p@),
                None => None,
            },
            bpp: self.bpp as int,
            divisor: self.divisor as int,
        }
    }
}

impl PngView {
    /// The number of pixels.
    pub open spec fn pixels(self) -> int {
        self.width * self.height
    }

    /// What holds of every image that `new` has made.
    pub open spec fn wf(self) -> bool {
        &&& 0 <= self.width <= usize::MAX
        &&& 0 <= self.height <= usize::MAX
        &&& construction_error(
            self.width,
            self.height,
            self.color_type,
            self.bit_depth,
            self.data.len() as int,
            self.palette.is_some(),
        ).is_none()
        &&& self.bpp == bits_per_pixel(self.color_type, self.bit_depth)
        &&& self.divisor == alignment_unit(self.width, self.bpp)
    }

    /// The number of pixels of a chunk made for a target of `target_len`:
    /// the target rounded up to whole alignment units.
    pub open spec fn chunk_step(self, target_len: int) -> int {
        round_up(target_len, self.divisor)
    }

    /// The number of bytes that a full chunk takes.
    pub open spec fn chunk_bytes(self, target_len: int) -> int {
        packed_len(self.chunk_step(target_len), self.divisor, self.bpp)
    }

    /// Whether the alignment unit is a row: the pixels are narrower than a
    /// byte and the rows do not end with one.
    pub open spec fn cut_by_rows(self) -> bool {
        self.bpp < 8 && self.divisor != 8int / self.bpp
    }

    /// The palette as a sequence, empty where there is none.
    pub open spec fn colors(self) -> Seq<u8> {
        match self.palette {
            Some(p) => p,
            None => Seq::empty(),
        }
    }
}

impl Png {
    /// The number of pixels.
    pub open spec fn pixels(&self) -> int {
        self@.pixels()
    }

    /// What holds of every image that `new` has made.
    pub open spec fn wf(&self) -> bool {
        self@.wf()
    }
}

/// The alignment unit of an image of the given width and format.
pub open spec fn layout_unit(width: int, color_type: ColorType, bit_depth: BitDepth) -> int {
    alignment_unit(width, bits_per_pixel(color_type, bit_depth))
}

/// The number of bytes that one alignment unit of such an image takes.
pub open spec fn layout_unit_bytes(width: int, color_type: ColorType, bit_depth: BitDepth) -> int {
    unit_bytes(layout_unit(width, color_type, bit_depth), bits_per_pixel(color_type, bit_depth))
}

/// The number of bytes that the packed data of such an image take.
pub open spec fn layout_len(
    width: int,
    height: int,
    color_type: ColorType,
    bit_depth: BitDepth,
) -> int {
    packed_len(
        width * height,
        layout_unit(width, color_type, bit_depth),
        bits_per_pixel(color_type, bit_depth),
    )
}

/// A multiple of `p` times anything is a multiple of `p`.
proof fn lemma_multiple_times(a: int, b: int, p: int)
    requires
        p > 0,
        a % p == 0,
    ensures
        (a * b) % p == 0,
{
    lemma_fundamental_div_mod(a, p);
    let k = a / p;
    assert(a * b == (k * b) * p) by (nonlinear_arith)
        requires
            a == p * k,
    ;
    lemma_mod_multiples_basic(k * b, p);
}

/// The shapes that the layout of a supported image can take.
#[verifier::rlimit(40)]
pub(crate) proof fn lemma_layout(width: int, height: int, color_type: ColorType, bit_depth: BitDepth)
    requires
        0 <= width,
        0 <= height,
        is_supported(color_type, bit_depth),
    ensures
        is_packed(bit_depth) ==> bits_per_pixel(color_type, bit_depth) == bit_depth.spec_bits()
            && bits_per_pixel(color_type, bit_depth) < 8 && color_type.spec_samples() == 1,
        !is_packed(bit_depth) ==> bits_per_pixel(color_type, bit_depth) % 8 == 0 && 8
            <= bits_per_pixel(color_type, bit_depth) <= 64 && layout_unit(
            width,
            color_type,
            bit_depth,
        ) == 1 && layout_unit_bytes(width, color_type, bit_depth) == bits_per_pixel(
            color_type,
            bit_depth,
        ) / 8,
        layout_unit(width, color_type, bit_depth) >= 1,
        1 <= layout_unit_bytes(width, color_type, bit_depth) <= 8 * layout_unit(
            width,
            color_type,
            bit_depth,
        ),
        is_packed(bit_depth) ==> layout_unit_bytes(width, color_type, bit_depth) <= layout_unit(
            width,
            color_type,
            bit_depth,
        ),
        (width * height) % layout_unit(width, color_type, bit_depth) == 0,
        0 <= width * height,
        0 <= layout_len(width, height, color_type, bit_depth) <= 8 * (width * height),
{
    let bpp = bits_per_pixel(color_type, bit_depth);
    let divisor = alignment_unit(width, bpp);
    let pixels = width * height;
    assert(0 <= pixels) by (nonlinear_arith)
        requires
            0 <= width,
            0 <= height,
            pixels == width * height,
    ;
    if is_packed(bit_depth) {
        assert(bpp == 1 || bpp == 2 || bpp == 4);
        if (width * bpp) % 8 > 0 {
            assert(width > 0) by (nonlinear_arith)
                requires
                    0 <= width,
                    (width * bpp) % 8 > 0,
            ;
            assert(pixels % width == 0 && pixels / width == height) by (nonlinear_arith)
                requires
                    width > 0,
                    pixels == width * height,
            ;
            assert(width * bpp == if bpp == 1 {
                width
            } else if bpp == 2 {
                2 * width
            } else {
                4 * width
            }) by (nonlinear_arith)
                requires
                    bpp == 1 || bpp == 2 || bpp == 4,
            ;
            let unit = unit_bytes(divisor, bpp);
            assert(1 <= unit <= width);
            assert(0 <= height * unit <= width * height) by (nonlinear_arith)
                requires
                    0 <= height,
                    1 <= unit <= width,
            ;
            assert(0 <= packed_len(pixels, divisor, bpp) <= 8 * pixels);
        } else {
            let per_byte = 8int / bpp;
            if bpp == 1 {
                assert(8int / 1 == 8);
                assert(width * 1 == width) by (nonlinear_arith);
                assert(8 * 1 == 8);
            } else if bpp == 2 {
                assert(8int / 2 == 4);
                assert(width * 2 == 2 * width) by (nonlinear_arith);
                assert(4 * 2 == 8);
            } else {
                assert(8int / 4 == 2);
                assert(width * 4 == 4 * width) by (nonlinear_arith);
                assert(2 * 4 == 8);
            }
            assert(per_byte == 8 || per_byte == 4 || per_byte == 2);
            assert(per_byte * bpp == 8) by (nonlinear_arith)
                requires
                    (per_byte == 8 && bpp == 1) || (per_byte == 4 && bpp == 2) || (per_byte == 2
                        && bpp == 4),
            ;
            assert(width % per_byte == 0);
            lemma_multiple_times(width, height, per_byte);
            assert(unit_bytes(divisor, bpp) == 1);
            assert(0 <= pixels / per_byte <= pixels);
            assert((pixels / per_byte) * 1 == pixels / per_byte);
            assert(0 <= packed_len(pixels, divisor, bpp) <= 8 * pixels);
        }
    } else {
        assert(bit_depth.spec_bits() == 8 || bit_depth.spec_bits() == 16);
        assert(1 <= color_type.spec_samples() <= 4);
        assert(bpp == 8 || bpp == 16 || bpp == 24 || bpp == 32 || bpp == 48 || bpp == 64)
            by (nonlinear_arith)
            requires
                bpp == bit_depth.spec_bits() * color_type.spec_samples(),
                bit_depth.spec_bits() == 8 || bit_depth.spec_bits() == 16,
                1 <= color_type.spec_samples() <= 4,
        ;
        assert(1 * bpp == bpp);
        assert(pixels / 1 == pixels);
        let unit = bpp / 8;
        assert(0 <= pixels * unit <= 8 * pixels) by (nonlinear_arith)
            requires
                0 <= pixels,
                1 <= unit <= 8,
        ;
        assert(unit_bytes(divisor, bpp) == unit);
        assert(0 <= packed_len(pixels, divisor, bpp) <= 8 * pixels);
    }
}

impl Png {
    /// Takes over a decoded image. The image is refused where it is indexed
    /// without a palette, where PNG does not know the combination of color
    /// type and bit depth, where it is too large for this machine, or where
    /// the data are not as long as its `width * height` pixels make them.
    pub fn new(
        width: usize,
        height: usize,
        color_type: ColorType,
        bit_depth: BitDepth,
        data: Vec<u8>,
        palette: Option<Vec<u8>>,
    ) -> (result: Result<Png, ConvertError>)
        ensures
            match result {
                Ok(png) => {
                    &&& construction_error(
                        width as int,
                        height as int,
                        color_type,
                        bit_depth,
                        data@.len() as int,
                        palette.is_some(),
                    ).is_none()
                    &&& png.wf()
                    &&& png.width == width
                    &&& png.height == height
                    &&& png.color_type == color_type
                    &&& png.bit_depth == bit_depth
                    &&& png.data == data
                    &&& png.palette == palette
                    &&& png@ == container(
                        width as int,
                        height as int,
                        color_type,
                        bit_depth,
                        data@,
                        match palette {
                            Some(p) => Some(p@),
                            None => None,
                        },
                    )
                },
                Err(e) => construction_error(
                    width as int,
                    height as int,
                    color_type,
                    bit_depth,
                    data@.len() as int,
                    palette.is_some(),
                ) == Some(e),
            },
    {
        if color_type == ColorType::Indexed && palette.is_none() {
            return Err(ConvertError::MissingPalette);
        }
        let packed: bool = match bit_depth {
            BitDepth::One => true,
            BitDepth::Two => true,
            BitDepth::Four => true,
            _ => false,
        };
        let supported: bool = match color_type {
            ColorType::Grayscale => true,
            ColorType::Indexed => bit_depth != BitDepth::Sixteen,
            _ => !packed,
        };
        if !supported {
            return Err(ConvertError::UnsupportedFormat);
        }
        proof {
            lemma_layout(width as int, height as int, color_type, bit_depth);
            assert(width * height <= 0xffff_ffff_ffff_ffff * 0xffff_ffff_ffff_ffff
                && width * 64 <= 0xffff_ffff_ffff_ffff * 64) by (nonlinear_arith)
                requires
                    0 <= width <= 0xffff_ffff_ffff_ffff,
                    0 <= height <= 0xffff_ffff_ffff_ffff,
            ;
        }
        // The divisor must account for the bits per pixel and the picture's width.
        let bpp: usize = bit_depth.bits() * color_type.samples();
        let divisor: usize = if bpp < 8 {
            // Rows that end within a byte cannot be cut; others between whole bytes.
            assert(width * bpp <= width * 64) by (nonlinear_arith)
                requires
                    bpp <= 64,
                    0 <= width,
            ;
            let usable_line_bits: u128 = width as u128 * bpp as u128;
            if usable_line_bits % 8 > 0 {
                width
            } else {
                8 / bpp
            }
        } else {
            // Data of whole bytes may be cut anywhere.
            1
        };
        let pixels: u128 = width as u128 * height as u128;
        if pixels > (usize::MAX / 4) as u128 {
            return Err(ConvertError::ImageTooLarge);
        }
        let unit: u128 = (divisor as u128 * bpp as u128 + 7) / 8;
        assert(unit == unit_bytes(divisor as int, bpp as int));
        let expected: u128 = pixels / divisor as u128 * unit;
        if data.len() as u128 != expected {
            return Err(ConvertError::PixelCountMismatch);
        }
        Ok(Png { width, height, color_type, bit_depth, data, palette, bpp, divisor })
    }
}

/// The number of chunks that `total` pixels make at `step` pixels a chunk.
pub open spec fn chunk_count(total: int, step: int) -> int {
    (total + step - 1) / step
}

/// The number of pixels in chunk `i`: a full step, or what is left for the last.
pub open spec fn chunk_len(total: int, step: int, i: int) -> int {
    if (i + 1) * step <= total {
        step
    } else {
        total - i * step
    }
}

/// The smaller of two numbers.
pub open spec fn least(a: int, b: int) -> int {
    if a <= b {
        a
    } else {
        b
    }
}

impl Png {
    /// The number of pixels of a chunk made for a target of `target_len`:
    /// the target rounded up to whole alignment units.
    pub open spec fn chunk_step(&self, target_len: int) -> int {
        self@.chunk_step(target_len)
    }

    /// The number of bytes that a full chunk takes.
    pub open spec fn chunk_bytes(&self, target_len: int) -> int {
        self@.chunk_bytes(target_len)
    }

    /// Whether the alignment unit is a row: the pixels are narrower than a
    /// byte and the rows do not end with one.
    pub open spec fn cut_by_rows(&self) -> bool {
        self@.cut_by_rows()
    }

    /// What chunk `i` of the chunks made for `target_len` is.
    pub open spec fn is_chunk(&self, chunk: PngChunk, target_len: int, i: int) -> bool {
        let step = self.chunk_step(target_len);
        let bytes = self.chunk_bytes(target_len);
        &&& *chunk.png == *self
        &&& chunk.len == chunk_len(self.pixels(), step, i)
        &&& chunk.data@ == self.data@.subrange(
            i * bytes,
            least((i + 1) * bytes, self.data@.len() as int),
        )
        &&& chunk.span == if self.cut_by_rows() {
            self.divisor as int
        } else {
            chunk.len as int
        }
    }
}

impl<'a> PngChunk<'a> {
    /// A view of `len` pixels of `png` that are packed in `data` in spans of
    /// `span` pixels.
    pub fn new(data: &'a [u8], len: usize, span: usize, png: &'a Png) -> (chunk: PngChunk<'a>)
        ensures
            chunk.data@ == data@,
            chunk.len == len,
            chunk.span == span,
            *chunk.png == *png,
    {
        PngChunk { data, len, span, png }
    }

    /// What holds of every chunk that an image has handed out.
    pub open spec fn wf(&self) -> bool {
        &&& self.png.wf()
        &&& self.len * 4 <= usize::MAX
        &&& is_packed(self.png.bit_depth) && self.len > 0 ==> self.span > 0
    }
}

/// The arithmetic of cutting `total = units * divisor` pixels, which take
/// `units * unit` bytes, into chunks of `per_chunk * divisor` pixels.
#[verifier::rlimit(40)]
pub(crate) proof fn lemma_cut(units: int, per_chunk: int, divisor: int, unit: int, i: int)
    requires
        0 <= units,
        1 <= per_chunk,
        1 <= divisor,
        1 <= unit,
        0 <= i,
        i * per_chunk < units,
    ensures
        ({
            let total = units * divisor;
            let step = per_chunk * divisor;
            let bytes = per_chunk * unit;
            let here = least(per_chunk, units - i * per_chunk);
            &&& 0 <= i * step < total
            &&& chunk_len(total, step, i) == here * divisor
            &&& 0 <= i * bytes
            &&& i * bytes + here * unit == least((i + 1) * bytes, units * unit)
            &&& i < chunk_count(total, step)
            &&& (i + 1) * per_chunk >= units ==> i + 1 == chunk_count(total, step)
        }),
{
    let total = units * divisor;
    let step = per_chunk * divisor;
    let bytes = per_chunk * unit;
    let start = i * per_chunk;
    let here = least(per_chunk, units - start);
    assert(0 <= start) by (nonlinear_arith)
        requires
            0 <= i,
            1 <= per_chunk,
            start == i * per_chunk,
    ;
    assert(i * step == start * divisor && i * bytes == start * unit && (i + 1) * step == (start
        + per_chunk) * divisor && (i + 1) * bytes == (start + per_chunk) * unit)
        by (nonlinear_arith)
        requires
            start == i * per_chunk,
            step == per_chunk * divisor,
            bytes == per_chunk * unit,
    ;
    assert(0 <= start * divisor < units * divisor && 0 <= start * unit) by (nonlinear_arith)
        requires
            0 <= start < units,
            1 <= divisor,
            1 <= unit,
    ;
    if start + per_chunk <= units {
        assert((start + per_chunk) * divisor <= units * divisor && (start + per_chunk) * unit
            <= units * unit) by (nonlinear_arith)
            requires
                start + per_chunk <= units,
                1 <= divisor,
                1 <= unit,
        ;
        assert(start * unit + per_chunk * unit == (start + per_chunk) * unit)
            by (nonlinear_arith);
    } else {
        assert((start + per_chunk) * divisor > units * divisor && (start + per_chunk) * unit
            > units * unit) by (nonlinear_arith)
            requires
                start + per_chunk > units,
                1 <= divisor,
                1 <= unit,
        ;
        assert(units * divisor - start * divisor == (units - start) * divisor && start * unit
            + (units - start) * unit == units * unit) by (nonlinear_arith);
    }
    let count = chunk_count(total, step);
    assert(1 <= step) by (nonlinear_arith)
        requires
            1 <= per_chunk,
            1 <= divisor,
            step == per_chunk * divisor,
    ;
    lemma_fundamental_div_mod(total + step - 1, step);
    let rest = (total + step - 1) % step;
    assert(0 <= rest < step) by (nonlinear_arith)
        requires
            1 <= step,
            rest == (total + step - 1) % step,
    ;
    assert(total + step - 1 == step * count + rest);
    assert(i < count) by (nonlinear_arith)
        requires
            i * step < total,
            total + step - 1 == step * count + rest,
            rest < step,
            1 <= step,
            0 <= i,
    ;
    if (i + 1) * per_chunk >= units {
        assert((i + 1) * step >= total) by (nonlinear_arith)
            requires
                (i + 1) * per_chunk >= units,
                step == per_chunk * divisor,
                total == units * divisor,
                1 <= divisor,
        ;
        assert(count <= i + 1) by (nonlinear_arith)
            requires
                (i + 1) * step >= total,
                total + step - 1 == step * count + rest,
                0 <= rest,
                1 <= step,
        ;
    }
}

impl Png {
    /// Convert into a single chunk for further processing.
    pub fn as_chunk(&self) -> (chunk: PngChunk<'_>)
        requires
            self.wf(),
        ensures
            chunk.wf(),
            *chunk.png == *self,
            chunk.data@ == self.data@,
            chunk.len == self.pixels(),
            chunk.span == chunk.len,
    {
        proof {
            lemma_layout(self.width as int, self.height as int, self.color_type, self.bit_depth);
        }
        let len: usize = self.width * self.height;
        PngChunk { data: self.data.as_slice(), len, span: len, png: self }
    }

    /// Split into multiple chunks, useful for further parallel processing.
    /// All chunks but the last have `target_len` pixels, rounded up to whole
    /// alignment units; the last has what is left. No pixels make no chunks.
    #[verifier::rlimit(40)]
    pub fn chunks(&self, target_len: usize) -> (chunks: Vec<PngChunk<'_>>)
        requires
            self.wf(),
            target_len > 0,
        ensures
            chunks@.len() == chunk_count(self.pixels(), self.chunk_step(target_len as int)),
            forall|i: int|
                0 <= i < chunks@.len() ==> self.is_chunk(#[trigger] chunks@[i], target_len as int, i)
                    && chunks@[i].wf(),
    {
        let mut chunks: Vec<PngChunk<'_>> = Vec::new();
        let ghost step = self.chunk_step(target_len as int);
        let ghost pixels = self.pixels();
        let ghost divisor = self.divisor as int;
        proof {
            lemma_layout(self.width as int, self.height as int, self.color_type, self.bit_depth);
            lemma_round_up(target_len as int, divisor);
            lemma_fundamental_div_mod(pixels, divisor);
            lemma_fundamental_div_mod(step, divisor);
        }
        let total: usize = self.width * self.height;
        if total == 0 {
            assert(chunk_count(0, step) == 0) by (nonlinear_arith)
                requires
                    step >= 1,
            ;
            return chunks;
        }
        // Adjust the target chunk length to be divisible by the divisor.
        let capped: usize = if target_len < total {
            target_len
        } else {
            total
        };
        proof {
            lemma_round_up_is_least(capped as int, divisor, total as int);
            lemma_round_up(capped as int, divisor);
            lemma_fundamental_div_mod(round_up(capped as int, divisor), divisor);
        }
        let len: usize = make_divisible_by(capped, self.divisor);
        let per_chunk: usize = len / self.divisor;
        let units: usize = total / self.divisor;
        let ghost big = step / divisor;
        // Calculate the corresponding chunk length in bytes.
        assert(divisor * self.bpp <= divisor * 64) by (nonlinear_arith)
            requires
                self.bpp <= 64,
                0 <= divisor,
        ;
        let unit: usize = ((self.divisor as u128 * self.bpp as u128 + 7) / 8) as usize;
        assert(unit == unit_bytes(divisor, self.bpp as int));
        // Calculate the span, which is needed later for unpacking.
        let by_rows: bool = self.bpp < 8 && self.divisor != 8 / self.bpp;
        let bytes: &[u8] = self.data.as_slice();
        proof {
            assert(pixels == units * divisor && step == big * divisor && len == per_chunk
                * divisor) by (nonlinear_arith)
                requires
                    pixels == divisor * (pixels / divisor) + pixels % divisor,
                    pixels % divisor == 0,
                    units == pixels / divisor,
                    step == divisor * (step / divisor) + step % divisor,
                    step % divisor == 0,
                    big == step / divisor,
                    len as int == divisor * (len as int / divisor) + len as int % divisor,
                    len as int % divisor == 0,
                    per_chunk == len as int / divisor,
            ;
            assert(1 <= per_chunk <= units && 1 <= big && (target_len <= total ==> big
                == per_chunk) && (target_len > total ==> per_chunk == units && big > units))
                by (nonlinear_arith)
                requires
                    pixels == units * divisor,
                    step == big * divisor,
                    len == per_chunk * divisor,
                    1 <= divisor,
                    1 <= len <= pixels,
                    target_len <= step,
                    target_len > 0,
                    target_len <= total ==> len as int == step,
                    target_len > total ==> len as int == pixels,
                    total as int == pixels,
            ;
        }
        let size: usize = bytes.len();
        assert(0 * per_chunk == 0 && 0 * big == 0 && units <= pixels) by (nonlinear_arith)
            requires
                pixels == units * divisor,
                1 <= divisor,
                0 <= units,
        ;
        let mut first: usize = 0;
        while first < units
            invariant
                self.wf(),
                bytes@ == self.data@,
                size == units * unit,
                units <= pixels,
                pixels == self.pixels(),
                pixels == units * divisor,
                pixels * 4 <= usize::MAX,
                self.data@.len() == units * unit,
                divisor == self.divisor,
                divisor >= 1,
                unit >= 1,
                unit == unit_bytes(divisor, self.bpp as int),
                step == self.chunk_step(target_len as int),
                step == big * divisor,
                1 <= per_chunk <= units,
                big == per_chunk || (per_chunk == units && big > units),
                by_rows == self.cut_by_rows(),
                first == chunks@.len() * per_chunk,
                first < units ==> chunks@.len() * big < units,
                first >= units ==> chunks@.len() == chunk_count(pixels, step),
                forall|i: int|
                    0 <= i < chunks@.len() ==> self.is_chunk(
                        #[trigger] chunks@[i],
                        target_len as int,
                        i,
                    ) && chunks@[i].wf(),
            decreases units + per_chunk - first,
        {
            let ghost i = chunks@.len() as int;
            let here: usize = if per_chunk < units - first {
                per_chunk
            } else {
                units - first
            };
            proof {
                lemma_cut(units as int, big, divisor, unit as int, i);
                assert(i == 0 || big == per_chunk) by (nonlinear_arith)
                    requires
                        first == i * per_chunk,
                        big == per_chunk || (per_chunk == units && big > units),
                        first < units,
                        0 <= i,
                ;
                assert(i * big == first) by (nonlinear_arith)
                    requires
                        first == i * per_chunk,
                        i == 0 || big == per_chunk,
                ;
                assert(here == least(big, units - i * big));
                assert(here * divisor <= units * divisor && here * unit <= units * unit
                    && first * unit + here * unit <= units * unit && 0 <= first * unit)
                    by (nonlinear_arith)
                    requires
                        0 <= first,
                        first + here <= units,
                        0 <= here,
                        1 <= divisor,
                        1 <= unit,
                ;
                assert(i * (big * unit) == first * unit) by (nonlinear_arith)
                    requires
                        i * big == first,
                ;
                assert(step / divisor == big) by (nonlinear_arith)
                    requires
                        step == big * divisor,
                        divisor >= 1,
                ;
                assert(self.chunk_bytes(target_len as int) == big * unit);
            }
            let chunk_len: usize = here * self.divisor;
            let start: usize = first * unit;
            let end: usize = start + here * unit;
            let data: &[u8] = slice_subrange(bytes, start, end);
            let span: usize = if by_rows {
                self.divisor
            } else {
                chunk_len
            };
            let chunk = PngChunk { data, len: chunk_len, span, png: self };
            assert(self.is_chunk(chunk, target_len as int, i));
            assert(chunk.wf());
            chunks.push(chunk);
            proof {
                assert((i + 1) * per_chunk == first + per_chunk) by (nonlinear_arith)
                    requires
                        first == i * per_chunk,
                ;
                if big == per_chunk {
                    assert((i + 1) * big == first + per_chunk);
                } else {
                    assert((i + 1) * big >= units && (i + 1) * per_chunk >= units)
                        by (nonlinear_arith)
                        requires
                            big > units,
                            per_chunk == units,
                            0 <= i,
                            0 <= units,
                    ;
                }
            }
            first = first + per_chunk;
        }
        chunks
    }
}

} // verus!
