//! The run-length layer of the DATA format, as functions on sequences of bytes.
//!
//! A record describes a run of up to 255 equal pixels. In an opaque stream it
//! is `count, blue, green, red`. In a stream with alpha it is `count, alpha`,
//! followed by `blue, green, red` unless `alpha` is zero.

use vstd::prelude::*;
use crate::error::ConvertError;

verus! {

/// `count` copies of `pixel`, one after the other.
pub open spec fn repeat_pixel(pixel: Seq<u8>, count: nat) -> Seq<u8>
    decreases count,
{
    if count == 0 {
        Seq::empty()
    } else {
        repeat_pixel(pixel, (count - 1) as nat) + pixel
    }
}

/// Puts `head` in front of what a decoder made of the rest of a stream.
pub open spec fn after(head: Seq<u8>, rest: Result<Seq<u8>, ConvertError>) -> Result<
    Seq<u8>,
    ConvertError,
> {
    match rest {
        Ok(tail) => Ok(head + tail),
        Err(e) => Err(e),
    }
}

/// The RGB samples that an opaque stream describes: every complete record is
/// expanded, and a run of zero pixels anywhere spoils the whole stream.
pub open spec fn decode_opaque(stream: Seq<u8>) -> Result<Seq<u8>, ConvertError>
    decreases stream.len(),
{
    if stream.len() < 4 {
        Ok(Seq::empty())
    } else if stream[0] == 0 {
        Err(ConvertError::ZeroRunLength)
    } else {
        after(
            repeat_pixel(seq![stream[3], stream[2], stream[1]], stream[0] as nat),
            decode_opaque(stream.skip(4)),
        )
    }
}

/// The number of bytes that the record at the head of a stream with alpha takes.
pub open spec fn alpha_record_len(stream: Seq<u8>) -> int
    recommends
        stream.len() >= 2,
{
    if stream[1] == 0 {
        2
    } else {
        5
    }
}

/// The RGBA pixel that the record at the head of a stream with alpha describes.
pub open spec fn alpha_record_pixel(stream: Seq<u8>) -> Seq<u8>
    recommends
        stream.len() >= alpha_record_len(stream),
{
    if stream[1] == 0 {
        seq![0u8, 0u8, 0u8, 0u8]
    } else {
        seq![stream[4], stream[3], stream[2], stream[1]]
    }
}

/// The RGBA samples of the first `pixels` pixels that a stream with alpha
/// describes. Bytes behind the record that completes the image are not looked at.
pub open spec fn decode_alpha(stream: Seq<u8>, pixels: nat) -> Result<Seq<u8>, ConvertError>
    decreases pixels,
{
    if pixels == 0 {
        Ok(Seq::empty())
    } else if stream.len() < 1 {
        Err(ConvertError::TruncatedStream)
    } else if stream[0] == 0 {
        Err(ConvertError::ZeroRunLength)
    } else if stream.len() < 2 || stream.len() < alpha_record_len(stream) {
        Err(ConvertError::TruncatedStream)
    } else if stream[0] > pixels {
        Err(ConvertError::PixelCountMismatch)
    } else {
        after(
            repeat_pixel(alpha_record_pixel(stream), stream[0] as nat),
            decode_alpha(stream.skip(alpha_record_len(stream)), (pixels - stream[0]) as nat),
        )
    }
}

/// Pixel `i` of samples with `channels` channels a pixel.
pub open spec fn pixel_at(samples: Seq<u8>, channels: int, i: int) -> Seq<u8> {
    samples.subrange(i * channels, i * channels + channels)
}

/// The number of pixels by which a run of `k` pixels from pixel `start` on can
/// be extended: the pixels that follow and equal pixel `start`, as long as
/// the run stays within 255 pixels.
pub open spec fn run_tail(samples: Seq<u8>, channels: int, start: int, k: int) -> nat
    decreases 255 - k,
{
    if k < 255 && (start + k + 1) * channels <= samples.len() && pixel_at(
        samples,
        channels,
        start + k,
    ) == pixel_at(samples, channels, start) {
        1 + run_tail(samples, channels, start, k + 1)
    } else {
        0
    }
}

/// The length of the run that begins with pixel `start`: the pixels from
/// there on that equal it, 255 at most.
pub open spec fn run_length(samples: Seq<u8>, channels: int, start: int) -> nat {
    1 + run_tail(samples, channels, start, 1)
}

/// The opaque records for the RGB pixels from pixel `start` on: one record
/// for each run, `count, blue, green, red`.
pub open spec fn encode_opaque_from(samples: Seq<u8>, start: int) -> Seq<u8>
    decreases
            if 3 * start <= samples.len() {
                samples.len() - 3 * start
            } else {
                0
            },
{
    if start < 0 || (start + 1) * 3 > samples.len() {
        Seq::empty()
    } else {
        seq![
            run_length(samples, 3, start) as u8,
            samples[3 * start + 2],
            samples[3 * start + 1],
            samples[3 * start],
        ] + encode_opaque_from(samples, start + run_length(samples, 3, start))
    }
}

/// The opaque stream for RGB samples.
pub open spec fn encode_opaque(samples: Seq<u8>) -> Seq<u8> {
    encode_opaque_from(samples, 0)
}

/// The record of a stream with alpha for `count` pixels like the RGBA pixel
/// `start`: `count, alpha`, and `blue, green, red` unless the pixel is
/// fully transparent.
pub open spec fn alpha_record(samples: Seq<u8>, start: int, count: nat) -> Seq<u8> {
    if samples[4 * start + 3] == 0 {
        seq![count as u8, 0u8]
    } else {
        seq![
            count as u8,
            samples[4 * start + 3],
            samples[4 * start + 2],
            samples[4 * start + 1],
            samples[4 * start],
        ]
    }
}

/// The records with alpha for the RGBA pixels from pixel `start` on.
pub open spec fn encode_alpha_from(samples: Seq<u8>, start: int) -> Seq<u8>
    decreases
            if 4 * start <= samples.len() {
                samples.len() - 4 * start
            } else {
                0
            },
{
    if start < 0 || (start + 1) * 4 > samples.len() {
        Seq::empty()
    } else {
        alpha_record(samples, start, run_length(samples, 4, start)) + encode_alpha_from(
            samples,
            start + run_length(samples, 4, start),
        )
    }
}

/// The stream with alpha for RGBA samples.
pub open spec fn encode_alpha(samples: Seq<u8>) -> Seq<u8> {
    encode_alpha_from(samples, 0)
}

/// A run is of 1 to 255 pixels, lies within the samples, and all its pixels
/// equal its first. It ends at 255 pixels, at the end of the samples or in
/// front of a pixel that differs.
pub proof fn lemma_run_length(samples: Seq<u8>, channels: int, start: int)
    requires
        channels > 0,
        start >= 0,
        (start + 1) * channels <= samples.len(),
    ensures
        1 <= run_length(samples, channels, start) <= 255,
        (start + run_length(samples, channels, start)) * channels <= samples.len(),
        forall|i: int|
            0 <= i < run_length(samples, channels, start) ==> #[trigger] pixel_at(
                samples,
                channels,
                start + i,
            ) == pixel_at(samples, channels, start),
        run_length(samples, channels, start) == 255 || (start + run_length(
            samples,
            channels,
            start,
        ) + 1) * channels > samples.len() || pixel_at(
            samples,
            channels,
            start + run_length(samples, channels, start),
        ) != pixel_at(samples, channels, start),
{
    lemma_run_tail(samples, channels, start, 1);
}

/// What `lemma_run_length` says, for a run that is `k` pixels long already.
proof fn lemma_run_tail(samples: Seq<u8>, channels: int, start: int, k: int)
    requires
        channels > 0,
        start >= 0,
        1 <= k <= 255,
        (start + k) * channels <= samples.len(),
        forall|i: int|
            0 <= i < k ==> #[trigger] pixel_at(samples, channels, start + i) == pixel_at(
                samples,
                channels,
                start,
            ),
    ensures
        k + run_tail(samples, channels, start, k) <= 255,
        (start + k + run_tail(samples, channels, start, k)) * channels <= samples.len(),
        forall|i: int|
            0 <= i < k + run_tail(samples, channels, start, k) ==> #[trigger] pixel_at(
                samples,
                channels,
                start + i,
            ) == pixel_at(samples, channels, start),
        k + run_tail(samples, channels, start, k) == 255 || (start + k + run_tail(
            samples,
            channels,
            start,
            k,
        ) + 1) * channels > samples.len() || pixel_at(
            samples,
            channels,
            start + k + run_tail(samples, channels, start, k),
        ) != pixel_at(samples, channels, start),
    decreases 255 - k,
{
    if k < 255 && (start + k + 1) * channels <= samples.len() && pixel_at(
        samples,
        channels,
        start + k,
    ) == pixel_at(samples, channels, start) {
        lemma_run_tail(samples, channels, start, k + 1);
    }
}

/// Nothing in front of a decoder's result leaves it as it is.
pub(crate) proof fn lemma_after_nothing(rest: Result<Seq<u8>, ConvertError>)
    ensures
        after(Seq::empty(), rest) == rest,
{
    if let Ok(tail) = rest {
        assert(Seq::<u8>::empty() + tail =~= tail);
    }
}

/// What two decoders make of the two parts of a stream, put together.
pub open spec fn joined(
    head: Result<Seq<u8>, ConvertError>,
    rest: Result<Seq<u8>, ConvertError>,
) -> Result<Seq<u8>, ConvertError> {
    match head {
        Ok(h) => after(h, rest),
        Err(e) => Err(e),
    }
}

/// An opaque stream can be cut between any two records and its parts be
/// decoded each for itself: put together, the results are the result for
/// the whole.
pub proof fn lemma_decode_opaque_split(stream: Seq<u8>, at: int)
    requires
        0 <= at <= stream.len(),
        at % 4 == 0,
    ensures
        decode_opaque(stream) == joined(
            decode_opaque(stream.take(at)),
            decode_opaque(stream.skip(at)),
        ),
    decreases at,
{
    if at == 0 {
        assert(stream.skip(0) =~= stream);
        lemma_after_nothing(decode_opaque(stream));
    } else {
        let head = stream.take(at);
        assert(head[0] == stream[0]);
        if stream[0] != 0 {
            let pixel = seq![stream[3], stream[2], stream[1]];
            let run = repeat_pixel(pixel, stream[0] as nat);
            assert(seq![head[3], head[2], head[1]] =~= pixel);
            lemma_decode_opaque_split(stream.skip(4), at - 4);
            assert(stream.skip(4).take(at - 4) =~= head.skip(4));
            assert(stream.skip(4).skip(at - 4) =~= stream.skip(at));
            let first = decode_opaque(head.skip(4));
            let second = decode_opaque(stream.skip(at));
            if let Ok(f) = first {
                if let Ok(t) = second {
                    assert(run + (f + t) =~= (run + f) + t);
                }
            }
        }
    }
}

/// Zero-count rejection in an opaque stream: a complete record with a
/// count of zero, wherever it stands, makes the stream fail as a whole.
pub proof fn lemma_opaque_zero_count(stream: Seq<u8>, record: int)
    requires
        0 <= record,
        4 * record + 4 <= stream.len(),
        stream[4 * record] == 0,
    ensures
        decode_opaque(stream) == Err::<Seq<u8>, ConvertError>(ConvertError::ZeroRunLength),
    decreases record,
{
    if stream[0] != 0 {
        assert(record > 0);
        assert(stream.skip(4)[4 * (record - 1)] == stream[4 * record]);
        lemma_opaque_zero_count(stream.skip(4), record - 1);
    }
}

/// The number of bytes that the records for the first `pixels` pixels of a
/// stream with alpha take, as far as the stream can be decoded.
pub open spec fn alpha_consumed(stream: Seq<u8>, pixels: nat) -> int
    decreases pixels,
{
    if pixels == 0 || stream.len() < 2 || stream[0] == 0 || stream.len() < alpha_record_len(stream)
        || stream[0] > pixels {
        0
    } else {
        alpha_record_len(stream) + alpha_consumed(
            stream.skip(alpha_record_len(stream)),
            (pixels - stream[0]) as nat,
        )
    }
}

/// Zero-count rejection in a stream with alpha: where the records for some
/// pixels are in order and the record behind them has a count of zero, the
/// stream fails as soon as more pixels than these are asked of it.
pub proof fn lemma_alpha_zero_count(stream: Seq<u8>, good: nat, more: nat)
    requires
        decode_alpha(stream, good).is_ok(),
        more > 0,
        0 <= alpha_consumed(stream, good) < stream.len(),
        stream[alpha_consumed(stream, good)] == 0,
    ensures
        decode_alpha(stream, good + more) == Err::<Seq<u8>, ConvertError>(
            ConvertError::ZeroRunLength,
        ),
    decreases good,
{
    if good > 0 {
        let len = alpha_record_len(stream);
        let behind = stream.skip(len);
        let left = (good - stream[0]) as nat;
        lemma_alpha_consumed_bounds(behind, left);
        assert(behind[alpha_consumed(behind, left)] == stream[len + alpha_consumed(behind, left)]);
        lemma_alpha_zero_count(behind, left, more);
        assert((good + more - stream[0]) as nat == left + more);
    }
}

/// The records that were read lie within the stream.
proof fn lemma_alpha_consumed_bounds(stream: Seq<u8>, pixels: nat)
    ensures
        0 <= alpha_consumed(stream, pixels) <= stream.len(),
    decreases pixels,
{
    if !(pixels == 0 || stream.len() < 2 || stream[0] == 0 || stream.len() < alpha_record_len(
        stream,
    ) || stream[0] > pixels) {
        lemma_alpha_consumed_bounds(
            stream.skip(alpha_record_len(stream)),
            (pixels - stream[0]) as nat,
        );
    }
}

/// Alpha-zero compaction in writing: a run of fully transparent pixels is
/// written as the two bytes `count, 0`, whatever its color.
pub proof fn lemma_transparent_run_written(samples: Seq<u8>, start: int)
    requires
        0 <= start,
        (start + 1) * 4 <= samples.len(),
        samples[4 * start + 3] == 0,
    ensures
        encode_alpha_from(samples, start) == seq![run_length(samples, 4, start) as u8, 0u8]
            + encode_alpha_from(samples, start + run_length(samples, 4, start)),
{
}

/// Alpha-zero compaction in reading: the two bytes `count, 0` are read as
/// `count` pixels of four zeroes each.
pub proof fn lemma_transparent_run_read(count: u8, behind: Seq<u8>, pixels: nat)
    requires
        1 <= count <= pixels,
    ensures
        decode_alpha(seq![count, 0u8] + behind, pixels) == after(
            repeat_pixel(seq![0u8, 0u8, 0u8, 0u8], count as nat),
            decode_alpha(behind, (pixels - count) as nat),
        ),
{
    let stream = seq![count, 0u8] + behind;
    assert(stream[0] == count && stream[1] == 0);
    assert(stream.skip(2) =~= behind);
}

/// The view of an executable result, for comparison with a decoder's model.
pub open spec fn result_view(r: Result<Vec<u8>, ConvertError>) -> Result<Seq<u8>, ConvertError> {
    match r {
        Ok(v) => Ok(v@),
        Err(e) => Err(e),
    }
}

/// Expands the records of an opaque stream into RGB samples.
#[verifier::rlimit(40)]
pub fn data_to_png_chunk_rgb(input: &[u8]) -> (result: Result<Vec<u8>, ConvertError>)
    ensures
        result_view(result) == decode_opaque(input@),
{
    let mut output: Vec<u8> = Vec::new();
    let len: usize = input.len();
    let records: usize = len / 4;
    let mut i: usize = 0;
    proof {
        assert(input@.skip(0) =~= input@);
        lemma_after_nothing(decode_opaque(input@));
    }
    while i < records
        invariant
            len == input@.len(),
            records == len / 4,
            i <= records,
            decode_opaque(input@) == after(output@, decode_opaque(input@.skip(4 * i))),
        decreases records - i,
    {
        let input_offset: usize = i * 4;
        let ghost rest = input@.skip(4 * i);
        assert(rest.len() >= 4);
        assert(rest.skip(4) =~= input@.skip(4 * (i + 1)));

        let rle_count: u8 = input[input_offset];
        if rle_count == 0 {
            return Err(ConvertError::ZeroRunLength);
        }
        let b: u8 = input[input_offset + 1];
        let g: u8 = input[input_offset + 2];
        let r: u8 = input[input_offset + 3];

        let ghost before = output@;
        let ghost pixel = seq![r, g, b];
        let mut k: u8 = 0;
        while k < rle_count
            invariant
                k <= rle_count,
                pixel == seq![r, g, b],
                output@ == before + repeat_pixel(pixel, k as nat),
            decreases rle_count - k,
        {
            output.push(r);
            output.push(g);
            output.push(b);
            k += 1;
            assert(output@ =~= before + repeat_pixel(pixel, k as nat));
        }
        proof {
            let tail = decode_opaque(rest.skip(4));
            assert(decode_opaque(rest) == after(repeat_pixel(pixel, rle_count as nat), tail));
            if let Ok(t) = tail {
                assert(before + (repeat_pixel(pixel, rle_count as nat) + t) =~= output@ + t);
            }
        }
        i += 1;
    }
    assert(output@ + Seq::<u8>::empty() =~= output@);
    Ok(output)
}

/// Expands the records of a stream with alpha into the RGBA samples of
/// `pixel_count` pixels, reading no further than the record that completes them.
#[verifier::rlimit(40)]
pub fn data_to_png_rgba(input: &[u8], pixel_count: usize) -> (result: Result<
    Vec<u8>,
    ConvertError,
>)
    ensures
        result_view(result) == decode_alpha(input@, pixel_count as nat),
{
    let mut output: Vec<u8> = Vec::new();
    let len: usize = input.len();
    let mut offset: usize = 0;
    let mut pixel: usize = 0;
    proof {
        assert(input@.skip(0) =~= input@);
        lemma_after_nothing(decode_alpha(input@, pixel_count as nat));
    }
    while pixel < pixel_count
        invariant
            len == input@.len(),
            offset <= len,
            pixel <= pixel_count,
            decode_alpha(input@, pixel_count as nat) == after(
                output@,
                decode_alpha(input@.skip(offset as int), (pixel_count - pixel) as nat),
            ),
        decreases pixel_count - pixel,
    {
        let ghost rest = input@.skip(offset as int);
        if len - offset < 1 {
            return Err(ConvertError::TruncatedStream);
        }
        let rle_count: u8 = input[offset];
        if rle_count == 0 {
            return Err(ConvertError::ZeroRunLength);
        }
        if len - offset < 2 {
            return Err(ConvertError::TruncatedStream);
        }
        let r: u8;
        let g: u8;
        let b: u8;
        let a: u8 = input[offset + 1];
        let record_len: usize;
        if a != 0 {
            if len - offset < 5 {
                return Err(ConvertError::TruncatedStream);
            }
            b = input[offset + 2];
            g = input[offset + 3];
            r = input[offset + 4];
            record_len = 5;
        } else {
            b = 0;
            g = 0;
            r = 0;
            record_len = 2;
        }
        if rle_count as usize > pixel_count - pixel {
            return Err(ConvertError::PixelCountMismatch);
        }
        assert(record_len == alpha_record_len(rest));
        assert(alpha_record_pixel(rest) =~= seq![r, g, b, a]);
        assert(rest.skip(record_len as int) =~= input@.skip(offset + record_len));

        let ghost before = output@;
        let ghost color = seq![r, g, b, a];
        let mut k: u8 = 0;
        while k < rle_count
            invariant
                k <= rle_count,
                color == seq![r, g, b, a],
                output@ == before + repeat_pixel(color, k as nat),
            decreases rle_count - k,
        {
            output.push(r);
            output.push(g);
            output.push(b);
            output.push(a);
            k += 1;
            assert(output@ =~= before + repeat_pixel(color, k as nat));
        }
        proof {
            let tail = decode_alpha(
                rest.skip(record_len as int),
                (pixel_count - pixel - rle_count) as nat,
            );
            assert(decode_alpha(rest, (pixel_count - pixel) as nat) == after(
                repeat_pixel(color, rle_count as nat),
                tail,
            ));
            if let Ok(t) = tail {
                assert(before + (repeat_pixel(color, rle_count as nat) + t) =~= output@ + t);
            }
        }
        offset += record_len;
        pixel += rle_count as usize;
    }
    assert(output@ + Seq::<u8>::empty() =~= output@);
    Ok(output)
}

} // verus!
