use celeste_converter::error::ConvertError;
use celeste_converter::format::BitDepth::{Eight, Four, One, Sixteen, Two};
use celeste_converter::format::ColorType::{Grayscale, GrayscaleAlpha, Indexed, Rgb, Rgba};
use celeste_converter::png::{Png, PngChunk};

#[test]
fn as_chunk_inherits_png_data() {
    let data = vec![0xAA, 0xBB, 0xCC, 0xDD, 0xEE, 0xFF];
    let png = Png::new(2, 3, Grayscale, Eight, data, None).unwrap();
    let png_chunk = png.as_chunk();

    assert_eq!(png_chunk.data, [0xAA, 0xBB, 0xCC, 0xDD, 0xEE, 0xFF]);
    assert_eq!(png_chunk.len, 6);
    assert_eq!(png_chunk.span, 6);
}

#[test]
fn one_bit_into_single_chunk() {
    let data = vec![0b00001111];
    let png = Png::new(8, 1, Grayscale, One, data, None).unwrap();
    let png_chunks = png.chunks(8);

    assert_eq!(png_chunks.len(), 1);
    assert_eq!(png_chunks[0].data, [0b00001111]);
    assert_eq!(png_chunks[0].len, 8);
}

#[test]
fn one_bit_into_multiple_chunks() {
    let data = vec![0b00001111, 0b10101010];
    let png = Png::new(16, 1, Grayscale, One, data, None).unwrap();
    let png_chunks = png.chunks(8);

    assert_eq!(png_chunks.len(), 2);
    assert_eq!(png_chunks[0].data, [0b00001111]);
    assert_eq!(png_chunks[0].len, 8);
    assert_eq!(png_chunks[1].data, [0b10101010]);
    assert_eq!(png_chunks[1].len, 8);
}

#[test]
fn one_bit_into_multiple_chunks_with_remainder() {
    let data = vec![0b00001111, 0b10101010, 0b01000000];
    let png = Png::new(24, 1, Grayscale, One, data, None).unwrap();
    let png_chunks = png.chunks(16);

    assert_eq!(png_chunks.len(), 2);
    assert_eq!(png_chunks[0].data, [0b00001111, 0b10101010]);
    assert_eq!(png_chunks[0].len, 16);
    assert_eq!(png_chunks[1].data, [0b01000000]);
    assert_eq!(png_chunks[1].len, 8);
}

#[test]
fn one_bit_into_multiple_chunks_with_width_not_divisible_by_eight() {
    let data = vec![0b00001111, 0b10100000, 0b10101010, 0b10000000];
    let png = Png::new(12, 2, Grayscale, One, data, None).unwrap();
    let png_chunks = png.chunks(8);

    assert_eq!(png_chunks.len(), 2);
    assert_eq!(png_chunks[0].data, [0b00001111, 0b10100000]);
    assert_eq!(png_chunks[0].len, 12);
    assert_eq!(png_chunks[0].span, 12);
    assert_eq!(png_chunks[1].data, [0b10101010, 0b10000000]);
    assert_eq!(png_chunks[1].len, 12);
    assert_eq!(png_chunks[1].span, 12);
}

#[test]
fn two_bit_into_single_chunk() {
    let data = vec![0b00001111];
    let png = Png::new(4, 1, Grayscale, Two, data, None).unwrap();
    let png_chunks = png.chunks(4);

    assert_eq!(png_chunks.len(), 1);
    assert_eq!(png_chunks[0].data, [0b00001111]);
    assert_eq!(png_chunks[0].len, 4);
}

#[test]
fn two_bit_into_multiple_chunks() {
    let data = vec![0b00001111, 0b10101010];
    let png = Png::new(8, 1, Grayscale, Two, data, None).unwrap();
    let png_chunks = png.chunks(4);

    assert_eq!(png_chunks.len(), 2);
    assert_eq!(png_chunks[0].data, [0b00001111]);
    assert_eq!(png_chunks[0].len, 4);
    assert_eq!(png_chunks[1].data, [0b10101010]);
    assert_eq!(png_chunks[1].len, 4);
}

#[test]
fn two_bit_into_multiple_chunks_with_remainder() {
    let data = vec![0b00001111, 0b10101010, 0b01000000];
    let png = Png::new(12, 1, Grayscale, Two, data, None).unwrap();
    let png_chunks = png.chunks(8);

    assert_eq!(png_chunks.len(), 2);
    assert_eq!(png_chunks[0].data, [0b00001111, 0b10101010]);
    assert_eq!(png_chunks[0].len, 8);
    assert_eq!(png_chunks[1].data, [0b01000000]);
    assert_eq!(png_chunks[1].len, 4);
}

#[test]
fn two_bit_into_multiple_chunks_with_width_not_divisible_by_four() {
    let data = vec![0b00001111, 0b10100000, 0b10101010, 0b10000000];
    let png = Png::new(6, 2, Grayscale, Two, data, None).unwrap();
    let png_chunks = png.chunks(4);

    assert_eq!(png_chunks.len(), 2);
    assert_eq!(png_chunks[0].data, [0b00001111, 0b10100000]);
    assert_eq!(png_chunks[0].len, 6);
    assert_eq!(png_chunks[1].data, [0b10101010, 0b10000000]);
    assert_eq!(png_chunks[1].len, 6);
}

#[test]
fn four_bit_into_single_chunk() {
    let data = vec![0b00001111];
    let png = Png::new(2, 1, Grayscale, Four, data, None).unwrap();
    let png_chunks = png.chunks(2);

    assert_eq!(png_chunks.len(), 1);
    assert_eq!(png_chunks[0].data, [0b00001111]);
    assert_eq!(png_chunks[0].len, 2);
}

#[test]
fn four_bit_into_multiple_chunks() {
    let data = vec![0b00001111, 0b10101010];
    let png = Png::new(4, 1, Grayscale, Four, data, None).unwrap();
    let png_chunks = png.chunks(2);

    assert_eq!(png_chunks.len(), 2);
    assert_eq!(png_chunks[0].data, [0b00001111]);
    assert_eq!(png_chunks[0].len, 2);
    assert_eq!(png_chunks[1].data, [0b10101010]);
    assert_eq!(png_chunks[1].len, 2);
}

#[test]
fn four_bit_into_multiple_chunks_with_remainder() {
    let data = vec![0b00001111, 0b10101010, 0b01000000];
    let png = Png::new(6, 1, Grayscale, Four, data, None).unwrap();
    let png_chunks = png.chunks(4);

    assert_eq!(png_chunks.len(), 2);
    assert_eq!(png_chunks[0].data, [0b00001111, 0b10101010]);
    assert_eq!(png_chunks[0].len, 4);
    assert_eq!(png_chunks[1].data, [0b01000000]);
    assert_eq!(png_chunks[1].len, 2);
}

#[test]
fn four_bit_into_multiple_chunks_with_width_not_divisible_by_two() {
    let data = vec![0b00001111, 0b10100000, 0b10101010, 0b10000000];
    let png = Png::new(3, 2, Grayscale, Four, data, None).unwrap();
    let png_chunks = png.chunks(2);

    assert_eq!(png_chunks.len(), 2);
    assert_eq!(png_chunks[0].data, [0b00001111, 0b10100000]);
    assert_eq!(png_chunks[0].len, 3);
    assert_eq!(png_chunks[1].data, [0b10101010, 0b10000000]);
    assert_eq!(png_chunks[1].len, 3);
}

#[test]
fn eight_bit_single_channel_into_single_chunk() {
    let data = vec![0xAA, 0xBB];
    let png = Png::new(1, 2, Grayscale, Eight, data, None).unwrap();
    let png_chunks = png.chunks(2);

    assert_eq!(png_chunks.len(), 1);
    assert_eq!(png_chunks[0].data, [0xAA, 0xBB]);
    assert_eq!(png_chunks[0].len, 2);
}

#[test]
fn eight_bit_single_channel_into_multiple_chunks() {
    let data = vec![0xAA, 0xBB, 0xCC, 0xDD];
    let png = Png::new(1, 4, Grayscale, Eight, data, None).unwrap();
    let png_chunks = png.chunks(2);

    assert_eq!(png_chunks.len(), 2);
    assert_eq!(png_chunks[0].data, [0xAA, 0xBB]);
    assert_eq!(png_chunks[0].len, 2);
    assert_eq!(png_chunks[1].data, [0xCC, 0xDD]);
    assert_eq!(png_chunks[1].len, 2);
}

#[test]
fn eight_bit_single_channel_into_multiple_chunks_with_remainder() {
    let data = vec![0xAA, 0xBB, 0xCC, 0xDD, 0xEE];
    let png = Png::new(1, 5, Grayscale, Eight, data, None).unwrap();
    let png_chunks = png.chunks(2);

    assert_eq!(png_chunks.len(), 3);
    assert_eq!(png_chunks[0].data, [0xAA, 0xBB]);
    assert_eq!(png_chunks[0].len, 2);
    assert_eq!(png_chunks[1].data, [0xCC, 0xDD]);
    assert_eq!(png_chunks[1].len, 2);
    assert_eq!(png_chunks[2].data, [0xEE]);
    assert_eq!(png_chunks[2].len, 1);
}

#[test]
fn eight_bit_double_channel_into_single_chunk() {
    let data = vec![0xAA, 0x01, 0xBB, 0x02];
    let png = Png::new(1, 2, GrayscaleAlpha, Eight, data, None).unwrap();
    let png_chunks = png.chunks(2);

    assert_eq!(png_chunks.len(), 1);
    assert_eq!(png_chunks[0].data, [0xAA, 0x01, 0xBB, 0x02]);
    assert_eq!(png_chunks[0].len, 2);
}

#[test]
fn eight_bit_double_channel_into_multiple_chunks() {
    let data = vec![0xAA, 0x01, 0xBB, 0x02, 0xCC, 0x03, 0xDD, 0x04];
    let png = Png::new(1, 4, GrayscaleAlpha, Eight, data, None).unwrap();
    let png_chunks = png.chunks(2);

    assert_eq!(png_chunks.len(), 2);
    assert_eq!(png_chunks[0].data, [0xAA, 0x01, 0xBB, 0x02]);
    assert_eq!(png_chunks[0].len, 2);
    assert_eq!(png_chunks[1].data, [0xCC, 0x03, 0xDD, 0x04]);
    assert_eq!(png_chunks[1].len, 2);
}

#[test]
fn eight_bit_double_channel_into_multiple_chunks_with_remainder() {
    let data = vec![0xAA, 0x01, 0xBB, 0x02, 0xCC, 0x03, 0xDD, 0x04, 0xEE, 0x05];
    let png = Png::new(1, 5, GrayscaleAlpha, Eight, data, None).unwrap();
    let png_chunks = png.chunks(2);

    assert_eq!(png_chunks.len(), 3);
    assert_eq!(png_chunks[0].data, [0xAA, 0x01, 0xBB, 0x02]);
    assert_eq!(png_chunks[0].len, 2);
    assert_eq!(png_chunks[1].data, [0xCC, 0x03, 0xDD, 0x04]);
    assert_eq!(png_chunks[1].len, 2);
    assert_eq!(png_chunks[2].data, [0xEE, 0x05]);
    assert_eq!(png_chunks[2].len, 1);
}

#[test]
fn eight_bit_triple_channel_into_single_chunk() {
    let data = vec![0xAA, 0x01, 0x01, 0xBB, 0x02, 0x02];
    let png = Png::new(1, 2, Rgb, Eight, data, None).unwrap();
    let png_chunks = png.chunks(2);

    assert_eq!(png_chunks.len(), 1);
    assert_eq!(png_chunks[0].data, [0xAA, 0x01, 0x01, 0xBB, 0x02, 0x02]);
    assert_eq!(png_chunks[0].len, 2);
}

#[test]
fn eight_bit_triple_channel_into_multiple_chunks() {
    let data = vec![
        0xAA, 0x01, 0x01,
        0xBB, 0x02, 0x02,
        0xCC, 0x03, 0x03,
        0xDD, 0x04, 0x04,
    ];
    let png = Png::new(1, 4, Rgb, Eight, data, None).unwrap();
    let png_chunks = png.chunks(2);

    assert_eq!(png_chunks.len(), 2);
    assert_eq!(png_chunks[0].data, [0xAA, 0x01, 0x01, 0xBB, 0x02, 0x02]);
    assert_eq!(png_chunks[0].len, 2);
    assert_eq!(png_chunks[1].data, [0xCC, 0x03, 0x03, 0xDD, 0x04, 0x04]);
    assert_eq!(png_chunks[1].len, 2);
}

#[test]
fn eight_bit_triple_channel_into_multiple_chunks_with_remainder() {
    let data = vec![
        0xAA, 0x01, 0x01,
        0xBB, 0x02, 0x02,
        0xCC, 0x03, 0x03,
        0xDD, 0x04, 0x04,
        0xEE, 0x05, 0x05,
    ];
    let png = Png::new(1, 5, Rgb, Eight, data, None).unwrap();
    let png_chunks = png.chunks(2);

    assert_eq!(png_chunks.len(), 3);
    assert_eq!(png_chunks[0].data, [0xAA, 0x01, 0x01, 0xBB, 0x02, 0x02]);
    assert_eq!(png_chunks[0].len, 2);
    assert_eq!(png_chunks[1].data, [0xCC, 0x03, 0x03, 0xDD, 0x04, 0x04]);
    assert_eq!(png_chunks[1].len, 2);
    assert_eq!(png_chunks[2].data, [0xEE, 0x05, 0x05]);
    assert_eq!(png_chunks[2].len, 1);
}

#[test]
fn eight_bit_quadruple_channel_into_single_chunk() {
    let data = vec![0xAA, 0x01, 0x01, 0x01, 0xBB, 0x02, 0x02, 0x02];
    let png = Png::new(1, 2, Rgba, Eight, data, None).unwrap();
    let png_chunks = png.chunks(2);

    assert_eq!(png_chunks.len(), 1);
    assert_eq!(png_chunks[0].data, [0xAA, 0x01, 0x01, 0x01, 0xBB, 0x02, 0x02, 0x02]);
    assert_eq!(png_chunks[0].len, 2);
}

#[test]
fn eight_bit_quadruple_channel_into_multiple_chunks() {
    let data = vec![
        0xAA, 0x01, 0x01, 0x01,
        0xBB, 0x02, 0x02, 0x02,
        0xCC, 0x03, 0x03, 0x03,
        0xDD, 0x04, 0x04, 0x04,
    ];
    let png = Png::new(1, 4, Rgba, Eight, data, None).unwrap();
    let png_chunks = png.chunks(2);

    assert_eq!(png_chunks.len(), 2);
    assert_eq!(png_chunks[0].data, [0xAA, 0x01, 0x01, 0x01, 0xBB, 0x02, 0x02, 0x02]);
    assert_eq!(png_chunks[0].len, 2);
    assert_eq!(png_chunks[1].data, [0xCC, 0x03, 0x03, 0x03, 0xDD, 0x04, 0x04, 0x04]);
    assert_eq!(png_chunks[1].len, 2);
}

#[test]
fn eight_bit_quadruple_channel_into_multiple_chunks_with_remainder() {
    let data = vec![
        0xAA, 0x01, 0x01, 0x01,
        0xBB, 0x02, 0x02, 0x02,
        0xCC, 0x03, 0x03, 0x03,
        0xDD, 0x04, 0x04, 0x04,
        0xEE, 0x05, 0x05, 0x05,
    ];
    let png = Png::new(1, 5, Rgba, Eight, data, None).unwrap();
    let png_chunks = png.chunks(2);

    assert_eq!(png_chunks.len(), 3);
    assert_eq!(png_chunks[0].data, [0xAA, 0x01, 0x01, 0x01, 0xBB, 0x02, 0x02, 0x02]);
    assert_eq!(png_chunks[0].len, 2);
    assert_eq!(png_chunks[1].data, [0xCC, 0x03, 0x03, 0x03, 0xDD, 0x04, 0x04, 0x04]);
    assert_eq!(png_chunks[1].len, 2);
    assert_eq!(png_chunks[2].data, [0xEE, 0x05, 0x05, 0x05]);
    assert_eq!(png_chunks[2].len, 1);
}

#[test]
fn sixteen_bit_into_multiple_chunks() {
    let data = vec![0x00, 0x01, 0x00, 0x02, 0x00, 0x03];
    let png = Png::new(3, 1, Grayscale, Sixteen, data, None).unwrap();
    let png_chunks = png.chunks(2);

    assert_eq!(png_chunks.len(), 2);
    assert_eq!(png_chunks[0].data, [0x00, 0x01, 0x00, 0x02]);
    assert_eq!(png_chunks[0].len, 2);
    assert_eq!(png_chunks[1].data, [0x00, 0x03]);
    assert_eq!(png_chunks[1].len, 1);
}

#[test]
fn target_is_rounded_up_to_whole_bytes() {
    // Four pixels share a byte: a target of 5 pixels becomes one of 8.
    let data = vec![1, 2, 3, 4, 5];
    let png = Png::new(20, 1, Grayscale, Two, data, None).unwrap();
    let png_chunks = png.chunks(5);

    assert_eq!(png_chunks.len(), 3);
    assert_eq!(png_chunks[0].data, [1, 2]);
    assert_eq!(png_chunks[0].len, 8);
    assert_eq!(png_chunks[0].span, 8);
    assert_eq!(png_chunks[1].data, [3, 4]);
    assert_eq!(png_chunks[1].len, 8);
    assert_eq!(png_chunks[2].data, [5]);
    assert_eq!(png_chunks[2].len, 4);
    assert_eq!(png_chunks[2].span, 4);
}

#[test]
fn target_beyond_the_image_makes_one_chunk() {
    let data = vec![1, 2, 3, 4, 5, 6];
    let png = Png::new(2, 1, Rgb, Eight, data, None).unwrap();
    let png_chunks = png.chunks(usize::MAX);

    assert_eq!(png_chunks.len(), 1);
    assert_eq!(png_chunks[0].data, [1, 2, 3, 4, 5, 6]);
    assert_eq!(png_chunks[0].len, 2);
}

#[test]
fn no_pixels_make_no_chunks() {
    let png = Png::new(0, 7, Rgb, Eight, vec![], None).unwrap();
    assert_eq!(png.chunks(16).len(), 0);
    let png = Png::new(5, 0, Grayscale, One, vec![], None).unwrap();
    assert_eq!(png.chunks(16).len(), 0);
    assert_eq!(png.as_chunk().len, 0);
}

#[test]
fn divisor_follows_the_packing() {
    assert_eq!(Png::new(16, 1, Grayscale, One, vec![0; 2], None).unwrap().divisor, 8);
    assert_eq!(Png::new(16, 1, Grayscale, Two, vec![0; 4], None).unwrap().divisor, 4);
    assert_eq!(Png::new(16, 1, Grayscale, Four, vec![0; 8], None).unwrap().divisor, 2);
    assert_eq!(Png::new(12, 2, Grayscale, One, vec![0; 4], None).unwrap().divisor, 12);
    assert_eq!(Png::new(3, 2, Grayscale, Four, vec![0; 4], None).unwrap().divisor, 3);
    assert_eq!(Png::new(3, 2, Rgb, Eight, vec![0; 18], None).unwrap().divisor, 1);
    assert_eq!(Png::new(3, 2, Rgba, Sixteen, vec![0; 48], None).unwrap().divisor, 1);
    assert_eq!(Png::new(3, 2, Rgba, Sixteen, vec![0; 48], None).unwrap().bpp, 64);
}

#[test]
fn indexed_without_palette_is_refused() {
    let result = Png::new(1, 1, Indexed, Eight, vec![0], None);
    assert_eq!(result.err(), Some(ConvertError::MissingPalette));
    let result = Png::new(1, 1, Indexed, Sixteen, vec![0, 0], None);
    assert_eq!(result.err(), Some(ConvertError::MissingPalette));
}

#[test]
fn indexed_with_palette_is_accepted() {
    let result = Png::new(1, 1, Indexed, Eight, vec![0], Some(vec![1, 2, 3]));
    assert!(result.is_ok());
}

#[test]
fn unknown_combinations_are_refused() {
    let cases = [
        (Rgb, One), (Rgb, Two), (Rgb, Four),
        (Rgba, One), (Rgba, Two), (Rgba, Four),
        (GrayscaleAlpha, One), (GrayscaleAlpha, Two), (GrayscaleAlpha, Four),
    ];
    for (color_type, bit_depth) in cases {
        let result = Png::new(0, 0, color_type, bit_depth, vec![], None);
        assert_eq!(result.err(), Some(ConvertError::UnsupportedFormat));
    }
    let result = Png::new(0, 0, Indexed, Sixteen, vec![], Some(vec![0, 0, 0]));
    assert_eq!(result.err(), Some(ConvertError::UnsupportedFormat));
}

#[test]
fn data_of_another_length_are_refused() {
    let result = Png::new(2, 2, Rgb, Eight, vec![0; 11], None);
    assert_eq!(result.err(), Some(ConvertError::PixelCountMismatch));
    let result = Png::new(2, 2, Rgb, Eight, vec![0; 13], None);
    assert_eq!(result.err(), Some(ConvertError::PixelCountMismatch));
    // Rows of 12 pixels at one bit take two bytes each.
    let result = Png::new(12, 2, Grayscale, One, vec![0; 3], None);
    assert_eq!(result.err(), Some(ConvertError::PixelCountMismatch));
}

#[test]
fn images_beyond_the_address_space_are_refused() {
    let result = Png::new(usize::MAX, 2, Grayscale, Eight, vec![], None);
    assert_eq!(result.err(), Some(ConvertError::ImageTooLarge));
    let result = Png::new(usize::MAX / 4 + 1, 1, Grayscale, One, vec![], None);
    assert_eq!(result.err(), Some(ConvertError::ImageTooLarge));
}

#[test]
fn chunk_can_be_made_by_hand() {
    let png = Png::new(4, 1, Grayscale, Eight, vec![1, 2, 3, 4], None).unwrap();
    let data = [3, 4];
    let chunk = PngChunk::new(&data, 2, 2, &png);
    assert_eq!(chunk.data, [3, 4]);
    assert_eq!(chunk.len, 2);
    assert_eq!(chunk.span, 2);
    assert_eq!(chunk.rgb().unwrap(), [3, 3, 3, 4, 4, 4]);
}
