use celeste_converter::codec::RawImage;
use celeste_converter::convert::{
    data_to_image, data_to_png, data_to_png_rgb, image_to_png, pixel_count, pixels_to_data,
    png_to_data, png_to_data_chunk_rgb, png_to_data_chunk_rgba, read_bool, read_u32, read_u8,
    write_bool, write_u32, write_u8, Image, TARGET_CHUNK_SIZE,
};
use celeste_converter::error::ConvertError;
use celeste_converter::format::BitDepth;
use celeste_converter::format::ColorType;
use celeste_converter::png::Png;
use celeste_converter::rle::{data_to_png_chunk_rgb, data_to_png_rgba};

fn rgb_png(width: usize, height: usize, samples: Vec<u8>) -> Png {
    Png::new(width, height, ColorType::Rgb, BitDepth::Eight, samples, None).unwrap()
}

fn rgba_png(width: usize, height: usize, samples: Vec<u8>) -> Png {
    Png::new(width, height, ColorType::Rgba, BitDepth::Eight, samples, None).unwrap()
}

fn encode_rgb(samples: Vec<u8>) -> Vec<u8> {
    let png = rgb_png(samples.len() / 3, 1, samples);
    let chunk = png.as_chunk();
    png_to_data_chunk_rgb(&chunk).unwrap()
}

fn encode_rgba(samples: Vec<u8>) -> Vec<u8> {
    let png = rgba_png(samples.len() / 4, 1, samples);
    let chunk = png.as_chunk();
    png_to_data_chunk_rgba(&chunk).unwrap()
}

fn data_file(width: u32, height: u32, has_alpha: bool, records: &[u8]) -> Vec<u8> {
    let mut file = Vec::new();
    file.extend_from_slice(&width.to_le_bytes());
    file.extend_from_slice(&height.to_le_bytes());
    file.push(has_alpha as u8);
    file.extend_from_slice(records);
    file
}

fn png_file(
    width: u32,
    height: u32,
    color_type: png::ColorType,
    bit_depth: png::BitDepth,
    palette: Option<Vec<u8>>,
    data: &[u8],
) -> Vec<u8> {
    let mut file = Vec::new();
    {
        let mut encoder = png::Encoder::new(&mut file, width, height);
        encoder.set_color(color_type);
        encoder.set_depth(bit_depth);
        if let Some(palette) = palette {
            encoder.set_palette(palette);
        }
        let mut writer = encoder.write_header().unwrap();
        writer.write_image_data(data).unwrap();
        writer.finish().unwrap();
    }
    file
}

fn decode_png_file(file: &[u8]) -> (png::OutputInfo, Vec<u8>) {
    let mut reader = png::Decoder::new(file).read_info().unwrap();
    let mut data = vec![0; reader.output_buffer_size()];
    let info = reader.next_frame(&mut data).unwrap();
    data.truncate(info.buffer_size());
    (info, data)
}

#[test]
fn single_pixel_is_one_record() {
    assert_eq!(encode_rgb(vec![1, 2, 3]), [1, 3, 2, 1]);
    assert_eq!(encode_rgba(vec![1, 2, 3, 4]), [1, 4, 3, 2, 1]);
}

#[test]
fn no_pixels_are_no_records() {
    assert_eq!(encode_rgb(vec![]), Vec::<u8>::new());
    assert_eq!(encode_rgba(vec![]), Vec::<u8>::new());
}

#[test]
fn equal_pixels_are_one_run() {
    assert_eq!(encode_rgb(vec![9, 8, 7, 9, 8, 7, 9, 8, 7]), [3, 7, 8, 9]);
    assert_eq!(encode_rgba(vec![9, 8, 7, 6, 9, 8, 7, 6]), [2, 6, 7, 8, 9]);
}

#[test]
fn a_pixel_that_differs_in_one_channel_ends_the_run() {
    assert_eq!(
        encode_rgb(vec![9, 8, 7, 9, 8, 7, 9, 8, 6, 9, 8, 7]),
        [2, 7, 8, 9, 1, 6, 8, 9, 1, 7, 8, 9]
    );
    assert_eq!(
        encode_rgba(vec![9, 8, 7, 6, 9, 8, 7, 5]),
        [1, 6, 7, 8, 9, 1, 5, 7, 8, 9]
    );
}

#[test]
fn three_hundred_equal_pixels_are_two_records() {
    let mut samples = Vec::new();
    for _ in 0..300 {
        samples.extend_from_slice(&[10, 20, 30]);
    }
    assert_eq!(encode_rgb(samples), [255, 30, 20, 10, 45, 30, 20, 10]);

    let mut samples = Vec::new();
    for _ in 0..300 {
        samples.extend_from_slice(&[10, 20, 30, 40]);
    }
    assert_eq!(encode_rgba(samples), [255, 40, 30, 20, 10, 45, 40, 30, 20, 10]);
}

#[test]
fn runs_of_exactly_255_and_256_pixels() {
    let samples: Vec<u8> = std::iter::repeat([1u8, 2, 3]).take(255).flatten().collect();
    assert_eq!(encode_rgb(samples), [255, 3, 2, 1]);
    let samples: Vec<u8> = std::iter::repeat([1u8, 2, 3]).take(256).flatten().collect();
    assert_eq!(encode_rgb(samples), [255, 3, 2, 1, 1, 3, 2, 1]);
}

#[test]
fn transparent_run_takes_two_bytes() {
    assert_eq!(encode_rgba(vec![10, 20, 30, 0, 10, 20, 30, 0, 10, 20, 30, 0]), [3, 0]);
    assert_eq!(encode_rgba(vec![0, 0, 0, 0]), [1, 0]);
    assert_eq!(encode_rgba(vec![255, 255, 255, 0, 1, 2, 3, 4]), [1, 0, 1, 4, 3, 2, 1]);
}

#[test]
fn transparent_pixels_of_different_colors_are_different_runs() {
    assert_eq!(encode_rgba(vec![1, 2, 3, 0, 4, 5, 6, 0]), [1, 0, 1, 0]);
}

#[test]
fn transparent_run_decodes_to_zeroes() {
    assert_eq!(data_to_png_rgba(&[3, 0], 3).unwrap(), [0, 0, 0, 0, 0, 0, 0, 0, 0, 0, 0, 0]);
    let stream = encode_rgba(vec![10, 20, 30, 0, 10, 20, 30, 0]);
    assert_eq!(data_to_png_rgba(&stream, 2).unwrap(), [0, 0, 0, 0, 0, 0, 0, 0]);
}

#[test]
fn opaque_records_decode_in_rgb_order() {
    assert_eq!(data_to_png_chunk_rgb(&[2, 30, 20, 10, 1, 3, 2, 1]).unwrap(), [10, 20, 30, 10, 20, 30, 1, 2, 3]);
}

#[test]
fn opaque_decoder_ignores_a_record_in_part() {
    assert_eq!(data_to_png_chunk_rgb(&[1, 30, 20, 10, 1, 3, 2]).unwrap(), [10, 20, 30]);
    assert_eq!(data_to_png_chunk_rgb(&[1, 30, 20]).unwrap(), Vec::<u8>::new());
    assert_eq!(data_to_png_chunk_rgb(&[]).unwrap(), Vec::<u8>::new());
}

#[test]
fn opaque_zero_count_is_refused() {
    assert_eq!(data_to_png_chunk_rgb(&[0, 30, 20, 10]).err(), Some(ConvertError::ZeroRunLength));
    assert_eq!(
        data_to_png_chunk_rgb(&[2, 30, 20, 10, 0, 1, 2, 3, 1, 1, 1, 1]).err(),
        Some(ConvertError::ZeroRunLength)
    );
}

#[test]
fn alpha_records_decode_in_rgba_order() {
    assert_eq!(
        data_to_png_rgba(&[2, 40, 30, 20, 10, 1, 0, 1, 4, 3, 2, 1], 4).unwrap(),
        [10, 20, 30, 40, 10, 20, 30, 40, 0, 0, 0, 0, 1, 2, 3, 4]
    );
}

#[test]
fn alpha_zero_count_is_refused() {
    assert_eq!(data_to_png_rgba(&[0, 0], 1).err(), Some(ConvertError::ZeroRunLength));
    assert_eq!(data_to_png_rgba(&[0], 1).err(), Some(ConvertError::ZeroRunLength));
    assert_eq!(
        data_to_png_rgba(&[1, 0, 0, 9, 9, 9, 9], 2).err(),
        Some(ConvertError::ZeroRunLength)
    );
}

#[test]
fn alpha_stream_that_ends_early_is_refused() {
    assert_eq!(data_to_png_rgba(&[], 1).err(), Some(ConvertError::TruncatedStream));
    assert_eq!(data_to_png_rgba(&[1], 1).err(), Some(ConvertError::TruncatedStream));
    assert_eq!(data_to_png_rgba(&[1, 9, 1, 2], 1).err(), Some(ConvertError::TruncatedStream));
    assert_eq!(data_to_png_rgba(&[1, 0], 2).err(), Some(ConvertError::TruncatedStream));
}

#[test]
fn alpha_run_beyond_the_image_is_refused() {
    assert_eq!(data_to_png_rgba(&[3, 0], 2).err(), Some(ConvertError::PixelCountMismatch));
    assert_eq!(
        data_to_png_rgba(&[1, 0, 2, 9, 1, 2, 3], 2).err(),
        Some(ConvertError::PixelCountMismatch)
    );
}

#[test]
fn alpha_decoder_reads_no_further_than_the_image() {
    assert_eq!(data_to_png_rgba(&[1, 0, 0, 0, 77], 1).unwrap(), [0, 0, 0, 0]);
    assert_eq!(data_to_png_rgba(&[0, 0, 77], 0).unwrap(), Vec::<u8>::new());
}

#[test]
fn opaque_decoding_is_the_same_for_pieces_of_any_size() {
    let mut stream = Vec::new();
    for i in 0..50u8 {
        stream.extend_from_slice(&[i % 7 + 1, i, i.wrapping_mul(3), i.wrapping_mul(5)]);
    }
    stream.extend_from_slice(&[9, 9]);
    let whole = data_to_png_chunk_rgb(&stream).unwrap();
    for records in 1..60 {
        assert_eq!(data_to_png_rgb(&stream, records * 4).unwrap(), whole);
    }
}

#[test]
fn opaque_decoding_in_pieces_reports_the_zero_count() {
    let stream = [1, 1, 1, 1, 1, 2, 2, 2, 0, 3, 3, 3, 1, 4, 4, 4];
    for records in 1..6 {
        assert_eq!(
            data_to_png_rgb(&stream, records * 4).err(),
            Some(ConvertError::ZeroRunLength)
        );
    }
}

#[test]
fn numbers_are_written_least_significant_byte_first() {
    let mut output = vec![7];
    write_u32(&mut output, 0x0403_0201);
    write_u8(&mut output, 9);
    write_bool(&mut output, true);
    write_bool(&mut output, false);
    write_u32(&mut output, 65536 * 4 + 5);
    assert_eq!(output, [7, 1, 2, 3, 4, 9, 1, 0, 5, 0, 4, 0]);
}

#[test]
fn numbers_are_read_as_they_were_written() {
    let input = [1, 2, 3, 4, 9, 2, 0, 0xFF, 0xFF, 0xFF, 0xFF];
    let mut position = 0;
    assert_eq!(read_u32(&input, &mut position), Ok(0x0403_0201));
    assert_eq!(position, 4);
    assert_eq!(read_u8(&input, &mut position), Ok(9));
    assert_eq!(read_bool(&input, &mut position), Ok(true));
    assert_eq!(read_bool(&input, &mut position), Ok(false));
    assert_eq!(position, 7);
    assert_eq!(read_u32(&input, &mut position), Ok(u32::MAX));
    assert_eq!(position, 11);
    assert_eq!(read_u8(&input, &mut position), Err(ConvertError::TruncatedStream));
    assert_eq!(read_bool(&input, &mut position), Err(ConvertError::TruncatedStream));
    assert_eq!(read_u32(&input, &mut position), Err(ConvertError::TruncatedStream));
    assert_eq!(position, 11);
}

#[test]
fn a_number_in_part_is_not_read() {
    let input = [1, 2, 3];
    let mut position = 0;
    assert_eq!(read_u32(&input, &mut position), Err(ConvertError::TruncatedStream));
    assert_eq!(position, 0);
    let mut position = 17;
    assert_eq!(read_u32(&input, &mut position), Err(ConvertError::TruncatedStream));
    assert_eq!(read_u8(&input, &mut position), Err(ConvertError::TruncatedStream));
    assert_eq!(position, 17);
}

#[test]
fn written_numbers_are_read_back() {
    for value in [0u32, 1, 255, 256, 65535, 65536, 0x00FF_FFFF, 0x0100_0000, u32::MAX] {
        let mut output = Vec::new();
        write_u32(&mut output, value);
        assert_eq!(output, value.to_le_bytes());
        let mut position = 0;
        assert_eq!(read_u32(&output, &mut position), Ok(value));
    }
}

#[test]
fn opaque_data_file_is_read() {
    let file = data_file(2, 2, false, &[3, 30, 20, 10, 1, 3, 2, 1]);
    let image = data_to_image(&file).unwrap();
    assert_eq!(image.width, 2);
    assert_eq!(image.height, 2);
    assert!(!image.has_alpha);
    assert_eq!(image.samples, [10, 20, 30, 10, 20, 30, 10, 20, 30, 1, 2, 3]);
}

#[test]
fn alpha_data_file_is_read() {
    let file = data_file(3, 1, true, &[2, 0, 1, 40, 30, 20, 10]);
    let image = data_to_image(&file).unwrap();
    assert_eq!(image.width, 3);
    assert_eq!(image.height, 1);
    assert!(image.has_alpha);
    assert_eq!(image.samples, [0, 0, 0, 0, 0, 0, 0, 0, 10, 20, 30, 40]);
}

#[test]
fn any_flag_but_zero_stands_for_alpha() {
    let mut file = data_file(1, 1, false, &[1, 0]);
    file[8] = 2;
    let image = data_to_image(&file).unwrap();
    assert!(image.has_alpha);
    assert_eq!(image.samples, [0, 0, 0, 0]);
}

#[test]
fn data_file_without_pixels_is_read() {
    let image = data_to_image(&data_file(0, 5, false, &[])).unwrap();
    assert_eq!(image.samples, Vec::<u8>::new());
    let image = data_to_image(&data_file(5, 0, true, &[])).unwrap();
    assert_eq!(image.samples, Vec::<u8>::new());
}

#[test]
fn data_file_with_a_header_in_part_is_refused() {
    let file = data_file(1, 1, false, &[1, 1, 2, 3]);
    for len in 0..9 {
        assert_eq!(data_to_image(&file[..len]).err(), Some(ConvertError::TruncatedStream));
    }
    assert!(data_to_image(&file).is_ok());
}

#[test]
fn data_file_with_zero_count_is_refused() {
    let file = data_file(2, 1, false, &[1, 1, 2, 3, 0, 1, 2, 3]);
    assert_eq!(data_to_image(&file).err(), Some(ConvertError::ZeroRunLength));
    assert_eq!(data_to_png(&file).err(), Some(ConvertError::ZeroRunLength));
    let file = data_file(2, 1, true, &[1, 0, 0, 0]);
    assert_eq!(data_to_image(&file).err(), Some(ConvertError::ZeroRunLength));
    assert_eq!(data_to_png(&file).err(), Some(ConvertError::ZeroRunLength));
}

#[test]
fn opaque_data_file_with_too_few_pixels_is_refused() {
    let file = data_file(2, 2, false, &[3, 30, 20, 10]);
    assert_eq!(data_to_image(&file).err(), Some(ConvertError::TruncatedStream));
    let file = data_file(2, 2, false, &[3, 30, 20, 10, 1, 1, 1]);
    assert_eq!(data_to_image(&file).err(), Some(ConvertError::TruncatedStream));
}

#[test]
fn opaque_data_file_with_too_many_pixels_is_refused() {
    let file = data_file(2, 2, false, &[5, 30, 20, 10]);
    assert_eq!(data_to_image(&file).err(), Some(ConvertError::PixelCountMismatch));
    let file = data_file(2, 2, false, &[4, 30, 20, 10, 1, 1, 1, 1]);
    assert_eq!(data_to_image(&file).err(), Some(ConvertError::PixelCountMismatch));
}

#[test]
fn alpha_data_file_with_bytes_behind_the_image_is_read() {
    let file = data_file(1, 1, true, &[1, 0, 1, 2, 3]);
    assert_eq!(data_to_image(&file).unwrap().samples, [0, 0, 0, 0]);
}

#[test]
fn data_file_beyond_the_address_space_is_refused() {
    let file = data_file(u32::MAX, u32::MAX, true, &[1, 0]);
    assert_eq!(data_to_image(&file).err(), Some(ConvertError::ImageTooLarge));
}

#[test]
fn image_is_written_as_data_file() {
    let png = rgb_png(2, 2, vec![10, 20, 30, 10, 20, 30, 10, 20, 30, 1, 2, 3]);
    let file = pixels_to_data(&png, TARGET_CHUNK_SIZE).unwrap();
    assert_eq!(file, data_file(2, 2, false, &[3, 30, 20, 10, 1, 3, 2, 1]));

    let png = rgba_png(3, 1, vec![9, 9, 9, 0, 9, 9, 9, 0, 10, 20, 30, 40]);
    let file = pixels_to_data(&png, TARGET_CHUNK_SIZE).unwrap();
    assert_eq!(file, data_file(3, 1, true, &[2, 0, 1, 40, 30, 20, 10]));
}

#[test]
fn runs_end_where_chunks_end() {
    let samples: Vec<u8> = std::iter::repeat([1u8, 2, 3]).take(300).flatten().collect();
    let png = rgb_png(300, 1, samples);
    assert_eq!(
        pixels_to_data(&png, 300).unwrap(),
        data_file(300, 1, false, &[255, 3, 2, 1, 45, 3, 2, 1])
    );
    assert_eq!(
        pixels_to_data(&png, 100).unwrap(),
        data_file(300, 1, false, &[100, 3, 2, 1, 100, 3, 2, 1, 100, 3, 2, 1])
    );
}

#[test]
fn grayscale_alpha_image_has_alpha() {
    let data = vec![7, 0, 7, 0, 9, 255];
    let png = Png::new(3, 1, ColorType::GrayscaleAlpha, BitDepth::Eight, data, None).unwrap();
    let file = pixels_to_data(&png, TARGET_CHUNK_SIZE).unwrap();
    assert_eq!(file, data_file(3, 1, true, &[2, 0, 1, 255, 9, 9, 9]));
}

#[test]
fn indexed_image_is_opaque() {
    let palette = vec![1, 2, 3, 4, 5, 6];
    let png = Png::new(4, 1, ColorType::Indexed, BitDepth::One, vec![0b0110_0000], Some(palette))
        .unwrap();
    let file = pixels_to_data(&png, TARGET_CHUNK_SIZE).unwrap();
    assert_eq!(file, data_file(4, 1, false, &[1, 3, 2, 1, 2, 6, 5, 4, 1, 3, 2, 1]));
}

#[test]
fn image_with_an_index_beyond_the_palette_is_refused() {
    let palette = vec![1, 2, 3];
    let png = Png::new(4, 1, ColorType::Indexed, BitDepth::One, vec![0b0110_0000], Some(palette))
        .unwrap();
    assert_eq!(
        pixels_to_data(&png, TARGET_CHUNK_SIZE).err(),
        Some(ConvertError::PaletteIndexOutOfRange)
    );
    assert_eq!(pixels_to_data(&png, 1).err(), Some(ConvertError::PaletteIndexOutOfRange));
}

#[test]
fn decoded_pixels_are_the_same_at_any_target() {
    let mut samples = Vec::new();
    for i in 0..97u32 {
        let v = (i / 5) as u8;
        samples.extend_from_slice(&[v, v.wrapping_mul(3), 7, if i % 11 < 4 { 0 } else { 200 }]);
    }
    let png = rgba_png(97, 1, samples);
    let expected = data_to_image(&pixels_to_data(&png, 97).unwrap()).unwrap().samples;
    for target in 1..120 {
        let file = pixels_to_data(&png, target).unwrap();
        let image = data_to_image(&file).unwrap();
        assert_eq!(image.samples, expected, "target {}", target);
        assert_eq!((image.width, image.height, image.has_alpha), (97, 1, true));
    }
}

#[test]
fn opaque_image_survives_the_way_there_and_back() {
    let mut samples = Vec::new();
    for i in 0..600u32 {
        samples.extend_from_slice(&[(i / 270) as u8, (i / 7) as u8, 3]);
    }
    let png = rgb_png(30, 20, samples.clone());
    let file = pixels_to_data(&png, 64).unwrap();
    let image = data_to_image(&file).unwrap();
    assert_eq!(image.samples, samples);
    assert_eq!((image.width, image.height, image.has_alpha), (30, 20, false));
}

#[test]
fn transparent_pixels_come_back_black() {
    let png = rgba_png(3, 1, vec![1, 2, 3, 0, 4, 5, 6, 0, 7, 8, 9, 10]);
    let file = pixels_to_data(&png, TARGET_CHUNK_SIZE).unwrap();
    let image = data_to_image(&file).unwrap();
    assert_eq!(image.samples, [0, 0, 0, 0, 0, 0, 0, 0, 7, 8, 9, 10]);
}

#[test]
fn data_file_of_full_runs_survives_the_way_there_and_back() {
    let file = data_file(20, 20, true, &[255, 0, 100, 9, 1, 2, 3, 45, 9, 1, 2, 4]);
    let image = data_to_image(&file).unwrap();
    let png = rgba_png(20, 20, image.samples);
    assert_eq!(pixels_to_data(&png, TARGET_CHUNK_SIZE).unwrap(), file);
}

#[test]
fn second_round_trip_is_stable() {
    // Two records for one run: not what the encoder writes.
    let file = data_file(4, 1, false, &[1, 3, 2, 1, 3, 3, 2, 1]);
    let image = data_to_image(&file).unwrap();
    let png = rgb_png(4, 1, image.samples);
    let second = pixels_to_data(&png, TARGET_CHUNK_SIZE).unwrap();
    assert_eq!(second, data_file(4, 1, false, &[4, 3, 2, 1]));
    let image = data_to_image(&second).unwrap();
    let png = rgb_png(4, 1, image.samples);
    assert_eq!(pixels_to_data(&png, TARGET_CHUNK_SIZE).unwrap(), second);
}

#[test]
fn data_becomes_a_png_file() {
    let file = data_file(2, 2, false, &[3, 30, 20, 10, 1, 3, 2, 1]);
    let png = data_to_png(&file).unwrap();
    assert_eq!(png[..8], [137, 80, 78, 71, 13, 10, 26, 10]);
    let (info, data) = decode_png_file(&png);
    assert_eq!((info.width, info.height), (2, 2));
    assert_eq!(info.color_type, png::ColorType::Rgb);
    assert_eq!(info.bit_depth, png::BitDepth::Eight);
    assert_eq!(data, [10, 20, 30, 10, 20, 30, 10, 20, 30, 1, 2, 3]);
}

#[test]
fn data_with_alpha_becomes_a_png_file_with_alpha() {
    let file = data_file(3, 1, true, &[2, 0, 1, 40, 30, 20, 10]);
    let png = data_to_png(&file).unwrap();
    let (info, data) = decode_png_file(&png);
    assert_eq!((info.width, info.height), (3, 1));
    assert_eq!(info.color_type, png::ColorType::Rgba);
    assert_eq!(info.bit_depth, png::BitDepth::Eight);
    assert_eq!(data, [0, 0, 0, 0, 0, 0, 0, 0, 10, 20, 30, 40]);
}

#[test]
fn image_without_pixels_is_refused_by_the_encoder() {
    let file = data_file(0, 0, false, &[]);
    assert_eq!(data_to_png(&file).err(), Some(ConvertError::PngEncoding));
    let image = Image { width: 1, height: 1, has_alpha: false, samples: vec![1, 2] };
    assert_eq!(image_to_png(&image).err(), Some(ConvertError::PngEncoding));
}

#[test]
fn png_file_becomes_data() {
    let file = png_file(
        2,
        2,
        png::ColorType::Rgb,
        png::BitDepth::Eight,
        None,
        &[10, 20, 30, 10, 20, 30, 10, 20, 30, 1, 2, 3],
    );
    assert_eq!(png_to_data(&file).unwrap(), data_file(2, 2, false, &[3, 30, 20, 10, 1, 3, 2, 1]));
}

#[test]
fn png_file_with_alpha_becomes_data_with_alpha() {
    let file = png_file(
        3,
        1,
        png::ColorType::Rgba,
        png::BitDepth::Eight,
        None,
        &[5, 5, 5, 0, 5, 5, 5, 0, 10, 20, 30, 40],
    );
    assert_eq!(png_to_data(&file).unwrap(), data_file(3, 1, true, &[2, 0, 1, 40, 30, 20, 10]));
}

#[test]
fn one_bit_png_file_with_odd_width_becomes_data() {
    // Rows of 10 pixels: two bytes each, six bits of padding.
    let file = png_file(
        10,
        2,
        png::ColorType::Grayscale,
        png::BitDepth::One,
        None,
        &[0b11111111, 0b11_000000, 0b00000000, 0b00_000000],
    );
    assert_eq!(
        png_to_data(&file).unwrap(),
        data_file(10, 2, false, &[10, 255, 255, 255, 10, 0, 0, 0])
    );
}

#[test]
fn indexed_png_file_becomes_data() {
    let file = png_file(
        4,
        1,
        png::ColorType::Indexed,
        png::BitDepth::Two,
        Some(vec![1, 2, 3, 4, 5, 6, 7, 8, 9]),
        &[0b00_01_10_10],
    );
    assert_eq!(
        png_to_data(&file).unwrap(),
        data_file(4, 1, false, &[1, 3, 2, 1, 1, 6, 5, 4, 2, 9, 8, 7])
    );
}

#[test]
fn sixteen_bit_png_file_becomes_data() {
    let file = png_file(
        1,
        1,
        png::ColorType::Rgb,
        png::BitDepth::Sixteen,
        None,
        &[0x00, 0xAA, 0xC8, 0xCC, 0xFF, 0xFF],
    );
    assert_eq!(png_to_data(&file).unwrap(), data_file(1, 1, false, &[1, 255, 200, 0]));
}

#[test]
fn what_is_no_png_file_is_refused() {
    assert_eq!(png_to_data(&[]).err(), Some(ConvertError::PngDecoding));
    assert_eq!(png_to_data(&[1, 2, 3, 4, 5]).err(), Some(ConvertError::PngDecoding));
    let file = png_file(1, 1, png::ColorType::Grayscale, png::BitDepth::Eight, None, &[7]);
    assert_eq!(png_to_data(&file[..file.len() / 2]).err(), Some(ConvertError::PngDecoding));
    assert_eq!(Png::load(&[]).err(), Some(ConvertError::PngDecoding));
}

#[test]
fn png_file_is_loaded_with_its_metadata() {
    let file = png_file(
        4,
        1,
        png::ColorType::Indexed,
        png::BitDepth::Two,
        Some(vec![1, 2, 3, 4, 5, 6, 7, 8, 9]),
        &[0b00_01_10_10],
    );
    let png = Png::load(&file).unwrap();
    assert_eq!((png.width, png.height), (4, 1));
    assert_eq!(png.color_type, ColorType::Indexed);
    assert_eq!(png.bit_depth, BitDepth::Two);
    assert_eq!(png.data, [0b00_01_10_10]);
    assert_eq!(png.palette, Some(vec![1, 2, 3, 4, 5, 6, 7, 8, 9]));
    assert_eq!(png.bpp, 2);
    assert_eq!(png.divisor, 4);
}

#[test]
fn frames_with_unknown_numbers_are_refused() {
    let raw = RawImage {
        width: 1,
        height: 1,
        color_type: 1,
        bit_depth: 8,
        data: vec![0],
        palette: None,
    };
    assert_eq!(Png::from_raw(raw).err(), Some(ConvertError::UnsupportedFormat));
    let raw = RawImage {
        width: 1,
        height: 1,
        color_type: 0,
        bit_depth: 3,
        data: vec![0],
        palette: None,
    };
    assert_eq!(Png::from_raw(raw).err(), Some(ConvertError::UnsupportedFormat));
    let raw = RawImage {
        width: 1,
        height: 1,
        color_type: 3,
        bit_depth: 8,
        data: vec![0],
        palette: None,
    };
    assert_eq!(Png::from_raw(raw).err(), Some(ConvertError::MissingPalette));
}

#[test]
fn numbers_of_the_png_header_are_known() {
    assert_eq!(ColorType::from_code(0), Some(ColorType::Grayscale));
    assert_eq!(ColorType::from_code(2), Some(ColorType::Rgb));
    assert_eq!(ColorType::from_code(3), Some(ColorType::Indexed));
    assert_eq!(ColorType::from_code(4), Some(ColorType::GrayscaleAlpha));
    assert_eq!(ColorType::from_code(6), Some(ColorType::Rgba));
    assert_eq!(ColorType::from_code(1), None);
    assert_eq!(ColorType::from_code(5), None);
    assert_eq!(BitDepth::from_code(1), Some(BitDepth::One));
    assert_eq!(BitDepth::from_code(2), Some(BitDepth::Two));
    assert_eq!(BitDepth::from_code(4), Some(BitDepth::Four));
    assert_eq!(BitDepth::from_code(8), Some(BitDepth::Eight));
    assert_eq!(BitDepth::from_code(16), Some(BitDepth::Sixteen));
    assert_eq!(BitDepth::from_code(0), None);
    assert_eq!(BitDepth::from_code(32), None);
    assert_eq!(BitDepth::Sixteen.bits(), 16);
    assert_eq!(ColorType::GrayscaleAlpha.samples(), 2);
}

#[test]
fn data_survives_the_way_through_png_and_back() {
    let mut records = Vec::new();
    let mut pixels = 0u32;
    for i in 0..400u32 {
        let count = (i % 9 + 1) as u8;
        let alpha = if i % 4 == 0 { 0 } else { (i % 250 + 1) as u8 };
        records.push(count);
        records.push(alpha);
        if alpha != 0 {
            records.extend_from_slice(&[(i % 256) as u8, (i / 2 % 256) as u8, 9]);
        }
        pixels += count as u32;
    }
    let file = data_file(pixels, 1, true, &records);
    let png = data_to_png(&file).unwrap();
    assert_eq!(png_to_data(&png).unwrap(), file);
}

#[test]
fn pixels_are_counted() {
    assert_eq!(pixel_count(0, 0), Ok(0));
    assert_eq!(pixel_count(3, 5), Ok(15));
    assert_eq!(pixel_count(65536, 65536), Ok(1 << 32));
    assert_eq!(pixel_count(u32::MAX, u32::MAX), Err(ConvertError::ImageTooLarge));
}

#[test]
fn opaque_image_takes_samples_that_fit() {
    let image = Image::opaque(2, 1, vec![1, 2, 3, 4, 5, 6]).ok().unwrap();
    assert_eq!((image.width, image.height, image.has_alpha), (2, 1, false));
    assert_eq!(image.samples, [1, 2, 3, 4, 5, 6]);
    assert_eq!(Image::opaque(2, 1, vec![1, 2, 3, 4, 5]).err(), Some(ConvertError::TruncatedStream));
    assert_eq!(
        Image::opaque(2, 1, vec![1, 2, 3, 4, 5, 6, 7]).err(),
        Some(ConvertError::PixelCountMismatch)
    );
    assert_eq!(
        Image::opaque(u32::MAX, u32::MAX, vec![]).err(),
        Some(ConvertError::ImageTooLarge)
    );
}

#[test]
fn every_error_has_its_words() {
    assert_eq!(ConvertError::ZeroRunLength.message(), "Unexpected RLE count value of 0");
    assert_eq!(
        ConvertError::MissingPalette.message(),
        "Image with indexed color type is missing a palette"
    );
    let all = [
        ConvertError::ZeroRunLength,
        ConvertError::TruncatedStream,
        ConvertError::PixelCountMismatch,
        ConvertError::ImageTooLarge,
        ConvertError::MissingPalette,
        ConvertError::UnsupportedFormat,
        ConvertError::PaletteIndexOutOfRange,
        ConvertError::PngDecoding,
        ConvertError::PngEncoding,
    ];
    for (i, one) in all.iter().enumerate() {
        assert!(!one.message().is_empty());
        for other in all.iter().skip(i + 1) {
            assert_ne!(one.message(), other.message());
        }
    }
}

#[test]
fn image_beyond_the_address_space_is_not_written() {
    let image = Image { width: u32::MAX, height: u32::MAX, has_alpha: true, samples: vec![] };
    assert_eq!(image_to_png(&image).err(), Some(ConvertError::ImageTooLarge));
}

#[test]
fn frame_becomes_an_image_container() {
    let raw = RawImage {
        width: 2,
        height: 1,
        color_type: 4,
        bit_depth: 16,
        data: vec![0x01, 0x01, 0xFF, 0xFF, 0x80, 0x80, 0x00, 0x00],
        palette: None,
    };
    let png = Png::from_raw(raw).unwrap();
    assert_eq!((png.width, png.height), (2, 1));
    assert_eq!(png.color_type, ColorType::GrayscaleAlpha);
    assert_eq!(png.bit_depth, BitDepth::Sixteen);
    assert_eq!(png.bpp, 32);
    assert_eq!(png.divisor, 1);
    assert_eq!(
        pixels_to_data(&png, TARGET_CHUNK_SIZE).unwrap(),
        data_file(2, 1, true, &[1, 255, 1, 1, 1, 1, 0])
    );
}

#[test]
fn color_types_have_their_numbers() {
    for color_type in [
        ColorType::Grayscale,
        ColorType::Rgb,
        ColorType::Indexed,
        ColorType::GrayscaleAlpha,
        ColorType::Rgba,
    ] {
        assert_eq!(ColorType::from_code(color_type.code()), Some(color_type));
    }
    assert_eq!(ColorType::Rgb.code(), 2);
    assert_eq!(ColorType::Rgba.code(), 6);
}

#[test]
fn gray_png_file_becomes_data() {

    let file = png_file(
        2,
        2,
        png::ColorType::Grayscale,
        png::BitDepth::Eight,
        None,
        &[1, 1, 1, 2],
    );
    assert_eq!(
        png_to_data(&file).unwrap(),
        data_file(2, 2, false, &[3, 1, 1, 1, 1, 2, 2, 2])
    );
}

#[test]
fn large_image_is_cut_into_chunks_of_65536_pixels() {
    // 70000 equal pixels: runs end at the chunk's end, so the records are
    // 257 full runs and one of 1 for the first chunk, then those of the rest.
    let samples: Vec<u8> = std::iter::repeat([5u8, 6, 7]).take(70000).flatten().collect();
    let png = rgb_png(700, 100, samples.clone());
    let file = pixels_to_data(&png, TARGET_CHUNK_SIZE).unwrap();
    let records = &file[9..];
    assert_eq!(records.len() % 4, 0);
    let counts: Vec<u8> = records.chunks(4).map(|r| r[0]).collect();
    let first_chunk: usize = counts[..258].iter().map(|&c| c as usize).sum();
    assert_eq!(first_chunk, 65536);
    assert_eq!(counts[256], 255);
    assert_eq!(counts[257], 1);
    let total: usize = counts.iter().map(|&c| c as usize).sum();
    assert_eq!(total, 70000);
    assert_eq!(data_to_image(&file).unwrap().samples, samples);
}
