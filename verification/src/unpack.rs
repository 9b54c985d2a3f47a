//! Unpacking of bit-packed samples into one byte per sample.
//!
//! Packed data is laid out in spans: a span holds `span` samples and starts on
//! a byte boundary, so that its last byte may carry bits that belong to no
//! sample. Within a byte the first sample sits in the most significant bits.

use vstd::prelude::*;
use vstd::arithmetic::div_mod::lemma_div_is_ordered;
use vstd::arithmetic::div_mod::lemma_fundamental_div_mod;
use vstd::arithmetic::div_mod::lemma_fundamental_div_mod_converse;
use crate::format::BitDepth;
use crate::math::round_up;

verus! {

/// Whether a sample is narrower than a byte.
pub open spec fn is_packed(depth: BitDepth) -> bool {
    depth == BitDepth::One || depth == BitDepth::Two || depth == BitDepth::Four
}

/// The number of samples that share one byte.
pub open spec fn samples_per_byte(depth: BitDepth) -> int {
    match depth {
        BitDepth::One => 8,
        BitDepth::Two => 4,
        BitDepth::Four => 2,
        _ => 1,
    }
}

/// The number of bytes that one span of `span` samples takes.
pub open spec fn input_span(span: int, depth: BitDepth) -> int {
    round_up(span * depth.spec_bits(), 8) / 8
}

/// The place in the output at which the samples of input byte `i` begin.
pub open spec fn output_offset(i: int, span: int, depth: BitDepth) -> int {
    (i / input_span(span, depth)) * span + (i % input_span(span, depth)) * samples_per_byte(depth)
}

/// The input byte in which output sample `j` is stored.
pub open spec fn home_byte(j: int, span: int, depth: BitDepth) -> int {
    (j / span) * input_span(span, depth) + (j % span) / samples_per_byte(depth)
}

/// The sample at position `pos` of a byte, counted from its most significant bits.
pub open spec fn field(byte: u8, depth: BitDepth, pos: int) -> u8 {
    match depth {
        BitDepth::One => (byte >> ((7 - pos) as u8)) & 1,
        BitDepth::Two => (byte >> ((6 - 2 * pos) as u8)) & 3,
        BitDepth::Four => (byte >> ((4 - 4 * pos) as u8)) & 15,
        _ => byte,
    }
}

/// A sample of sixteen bits, most significant byte first, brought down to the
/// range of a byte in proportion.
pub open spec fn project_sixteen(high: u8, low: u8) -> u8 {
    ((high as int * 256 + low as int) / 257) as u8
}

/// Output sample `j` of packed data. A byte's samples are placed from its
/// `output_offset` on, and a later byte's samples come to lie over those of an
/// earlier one, so the sample is taken from its home byte, or from the last
/// byte there is where the data end before that. What no byte reaches is zero.
pub open spec fn unpacked_sample(packed: Seq<u8>, span: int, depth: BitDepth, j: int) -> u8 {
    match depth {
        BitDepth::Eight => if j < packed.len() {
            packed[j]
        } else {
            0
        },
        BitDepth::Sixteen => if 2 * j + 1 < packed.len() {
            project_sixteen(packed[2 * j], packed[2 * j + 1])
        } else {
            0
        },
        _ => {
            let home = home_byte(j, span, depth);
            let i = if home < packed.len() {
                home
            } else {
                packed.len() - 1
            };
            let pos = j - output_offset(i, span, depth);
            if packed.len() > 0 && 0 <= pos < samples_per_byte(depth) {
                field(packed[i], depth, pos)
            } else {
                0
            }
        },
    }
}

/// The first `len` samples of packed data, one byte each.
pub open spec fn unpacked(packed: Seq<u8>, len: nat, span: int, depth: BitDepth) -> Seq<u8> {
    Seq::new(len, |j: int| unpacked_sample(packed, span, depth, j))
}

/// A span takes as many bytes as its samples fill, the last of them perhaps in part.
pub(crate) proof fn lemma_input_span(span: int, depth: BitDepth)
    requires
        span >= 0,
        is_packed(depth),
    ensures
        input_span(span, depth) == span / samples_per_byte(depth) + if span % samples_per_byte(
            depth,
        ) > 0 {
            1int
        } else {
            0int
        },
        (input_span(span, depth) - 1) * samples_per_byte(depth) < span <= input_span(span, depth)
            * samples_per_byte(depth),
        input_span(span, depth) <= span,
        span > 0 ==> input_span(span, depth) >= 1,
{
    let bits = depth.spec_bits() as int;
    assert(span * bits == if depth == BitDepth::One {
        span
    } else if depth == BitDepth::Two {
        2 * span
    } else {
        4 * span
    }) by (nonlinear_arith)
        requires
            bits == if depth == BitDepth::One {
                1int
            } else if depth == BitDepth::Two {
                2int
            } else {
                4int
            },
    ;
}

/// A sample's home byte is placed at or just before the sample.
#[verifier::rlimit(40)]
pub(crate) proof fn lemma_home_byte(j: int, span: int, depth: BitDepth)
    requires
        0 <= j,
        0 < span,
        is_packed(depth),
    ensures
        0 <= home_byte(j, span, depth) <= j,
        home_byte(j, span, depth) / input_span(span, depth) == j / span,
        home_byte(j, span, depth) % input_span(span, depth) == (j % span) / samples_per_byte(
            depth,
        ),
        j - output_offset(home_byte(j, span, depth), span, depth) == (j % span) % samples_per_byte(
            depth,
        ),
        0 <= j - output_offset(home_byte(j, span, depth), span, depth) < samples_per_byte(depth),
{
    let p = samples_per_byte(depth);
    let width = input_span(span, depth);
    let row = j / span;
    let col = j % span;
    let c = col / p;
    lemma_input_span(span, depth);
    lemma_fundamental_div_mod(j, span);
    assert(0 <= col < span && 0 <= row) by (nonlinear_arith)
        requires
            0 <= j,
            0 < span,
            row == j / span,
            col == j % span,
    ;
    assert(0 <= c < width);
    assert(col == c * p + col % p);
    lemma_fundamental_div_mod_converse(row * width + c, width, row, c);
    assert(row * width <= row * span) by (nonlinear_arith)
        requires
            0 <= row,
            0 <= width <= span,
    ;
    assert(span * row == row * span) by (nonlinear_arith);
}

/// Later bytes are placed later.
#[verifier::rlimit(40)]
pub(crate) proof fn lemma_output_offset_ordered(i1: int, i2: int, span: int, depth: BitDepth)
    requires
        0 <= i1 <= i2,
        0 < span,
        is_packed(depth),
    ensures
        0 <= output_offset(i1, span, depth) <= output_offset(i2, span, depth),
{
    let p = samples_per_byte(depth);
    let width = input_span(span, depth);
    lemma_input_span(span, depth);
    let r1 = i1 / width;
    let c1 = i1 % width;
    let r2 = i2 / width;
    let c2 = i2 % width;
    lemma_fundamental_div_mod(i1, width);
    lemma_fundamental_div_mod(i2, width);
    lemma_div_is_ordered(i1, i2, width);
    assert(0 <= c1 < width && 0 <= c2 < width && 0 <= r1) by (nonlinear_arith)
        requires
            0 <= i1,
            0 <= i2,
            0 < width,
            c1 == i1 % width,
            c2 == i2 % width,
            r1 == i1 / width,
    ;
    assert(0 <= r1 * span) by (nonlinear_arith)
        requires
            0 <= r1,
            0 < span,
    ;
    if r1 == r2 {
        assert(c1 <= c2) by (nonlinear_arith)
            requires
                i1 <= i2,
                i1 == width * r1 + c1,
                i2 == width * r1 + c2,
        ;
    } else {
        assert(r1 * span + span <= r2 * span) by (nonlinear_arith)
            requires
                r1 + 1 <= r2,
                0 < span,
        ;
    }
}

/// The largest value that a sample of the given depth unpacks to.
pub open spec fn max_sample(depth: BitDepth) -> u8 {
    match depth {
        BitDepth::One => 1,
        BitDepth::Two => 3,
        BitDepth::Four => 15,
        _ => 255,
    }
}

/// A field of a byte stays within the range of its depth.
proof fn lemma_field_range(byte: u8, depth: BitDepth, pos: int)
    ensures
        field(byte, depth, pos) <= max_sample(depth),
{
    let one = (7 - pos) as u8;
    let two = (6 - 2 * pos) as u8;
    let four = (4 - 4 * pos) as u8;
    assert((byte >> one) & 1 <= 1) by (bit_vector);
    assert((byte >> two) & 3 <= 3) by (bit_vector);
    assert((byte >> four) & 15 <= 15) by (bit_vector);
}

/// Every unpacked sample stays within the range of its depth.
pub proof fn lemma_unpacked_range(packed: Seq<u8>, len: nat, span: int, depth: BitDepth, j: int)
    requires
        0 <= j < len,
    ensures
        unpacked(packed, len, span, depth)[j] <= max_sample(depth),
{
    if is_packed(depth) {
        let home = home_byte(j, span, depth);
        let i = if home < packed.len() {
            home
        } else {
            packed.len() - 1
        };
        lemma_field_range(packed[i], depth, j - output_offset(i, span, depth));
    }
}

/// Takes the sample at position `pos` out of a byte.
fn take_field(byte: u8, depth: BitDepth, pos: usize) -> (sample: u8)
    requires
        is_packed(depth),
        pos < samples_per_byte(depth),
    ensures
        sample == field(byte, depth, pos as int),
{
    match depth {
        BitDepth::One => (byte >> (7 - pos as u8)) & 1,
        BitDepth::Two => (byte >> (6 - 2 * (pos as u8))) & 3,
        _ => (byte >> (4 - 4 * (pos as u8))) & 15,
    }
}

/// Unpacks samples of one, two or four bits.
#[verifier::rlimit(40)]
fn unpack_packed(data: &[u8], len: usize, span: usize, bit_depth: BitDepth) -> (output: Vec<u8>)
    requires
        is_packed(bit_depth),
        len > 0 ==> span > 0,
    ensures
        output@ == unpacked(data@, len as nat, span as int, bit_depth),
{
    let count: usize = data.len();
    let per_byte: usize = match bit_depth {
        BitDepth::One => 8,
        BitDepth::Two => 4,
        _ => 2,
    };
    let mut output: Vec<u8> = Vec::with_capacity(len);
    if len == 0 {
        assert(output@ =~= unpacked(data@, 0, span as int, bit_depth));
        return output;
    }
    let width: usize = span / per_byte + if span % per_byte > 0 {
        1
    } else {
        0
    };
    proof {
        lemma_input_span(span as int, bit_depth);
    }
    let mut j: usize = 0;
    while j < len
        invariant
            is_packed(bit_depth),
            span > 0,
            j <= len,
            count == data@.len(),
            per_byte == samples_per_byte(bit_depth),
            width == input_span(span as int, bit_depth),
            output@ == unpacked(data@, j as nat, span as int, bit_depth),
        decreases len - j,
    {
        let row: usize = j / span;
        let col: usize = j % span;
        proof {
            lemma_home_byte(j as int, span as int, bit_depth);
            lemma_input_span(span as int, bit_depth);
            let within = col as int / per_byte as int;
            assert(0 <= row * width <= j) by (nonlinear_arith)
                requires
                    0 <= row,
                    0 <= width,
                    row * width + within <= j,
                    0 <= within,
            ;
        }
        let home: usize = row * width + col / per_byte;
        let sample: u8 = if home < count {
            take_field(data[home], bit_depth, col % per_byte)
        } else if count == 0 {
            0
        } else {
            let last: usize = count - 1;
            proof {
                lemma_output_offset_ordered(last as int, home as int, span as int, bit_depth);
                let r = last as int / width as int;
                let c = last as int % width as int;
                assert(0 <= r * span && 0 <= c * per_byte && r * span + c * per_byte <= j)
                    by (nonlinear_arith)
                    requires
                        0 <= last,
                        0 < width,
                        0 < span,
                        0 < per_byte,
                        r == last as int / width as int,
                        c == last as int % width as int,
                        r * span + c * per_byte <= j,
                ;
            }
            let offset: usize = (last / width) * span + (last % width) * per_byte;
            if j - offset < per_byte {
                take_field(data[last], bit_depth, j - offset)
            } else {
                0
            }
        };
        output.push(sample);
        j += 1;
        assert(output@ =~= unpacked(data@, j as nat, span as int, bit_depth));
    }
    output
}

/// Copies samples of eight bits.
fn unpack_eight_bit(data: &[u8], len: usize) -> (output: Vec<u8>)
    ensures
        forall|span: int| output@ == unpacked(data@, len as nat, span, BitDepth::Eight),
{
    let count: usize = data.len();
    let mut output: Vec<u8> = Vec::with_capacity(len);
    let mut j: usize = 0;
    while j < len
        invariant
            j <= len,
            count == data@.len(),
            output@ == unpacked(data@, j as nat, 0, BitDepth::Eight),
        decreases len - j,
    {
        let sample: u8 = if j < count {
            data[j]
        } else {
            0
        };
        output.push(sample);
        j += 1;
        assert(output@ =~= unpacked(data@, j as nat, 0, BitDepth::Eight));
    }
    assert forall|span: int| output@ == unpacked(data@, len as nat, span, BitDepth::Eight) by {
        assert(output@ =~= unpacked(data@, len as nat, span, BitDepth::Eight));
    }
    output
}

/// Brings samples of sixteen bits down to eight.
fn unpack_sixteen_bit(data: &[u8], len: usize) -> (output: Vec<u8>)
    ensures
        forall|span: int| output@ == unpacked(data@, len as nat, span, BitDepth::Sixteen),
{
    let count: usize = data.len();
    let mut output: Vec<u8> = Vec::with_capacity(len);
    let mut j: usize = 0;
    while j < len
        invariant
            j <= len,
            count == data@.len(),
            output@ == unpacked(data@, j as nat, 0, BitDepth::Sixteen),
        decreases len - j,
    {
        let sample: u8 = if j < count / 2 {
            let offset: usize = j * 2;
            let wide: u16 = data[offset] as u16 * 256 + data[offset + 1] as u16;
            (wide / 257) as u8
        } else {
            0
        };
        output.push(sample);
        j += 1;
        assert(output@ =~= unpacked(data@, j as nat, 0, BitDepth::Sixteen));
    }
    assert forall|span: int| output@ == unpacked(data@, len as nat, span, BitDepth::Sixteen) by {
        assert(output@ =~= unpacked(data@, len as nat, span, BitDepth::Sixteen));
    }
    output
}

/// Unpacks the first `len` samples of `data` into one byte each. Samples of
/// one, two or four bits are laid out in spans of `span` samples; for the
/// wider ones `span` plays no part.
pub fn unpack(data: &[u8], len: usize, span: usize, bit_depth: BitDepth) -> (output: Vec<u8>)
    requires
        is_packed(bit_depth) && len > 0 ==> span > 0,
    ensures
        output@ == unpacked(data@, len as nat, span as int, bit_depth),
        output@.len() == len,
        forall|j: int| 0 <= j < len ==> #[trigger] output@[j] <= max_sample(bit_depth),
{
    let output = match bit_depth {
        BitDepth::One => unpack_packed(data, len, span, bit_depth),
        BitDepth::Two => unpack_packed(data, len, span, bit_depth),
        BitDepth::Four => unpack_packed(data, len, span, bit_depth),
        BitDepth::Eight => unpack_eight_bit(data, len),
        BitDepth::Sixteen => unpack_sixteen_bit(data, len),
    };
    proof {
        assert forall|j: int| 0 <= j < len implies #[trigger] output@[j] <= max_sample(
            bit_depth,
        ) by {
            lemma_unpacked_range(data@, len as nat, span as int, bit_depth, j);
        }
    }
    output
}

} // verus!
