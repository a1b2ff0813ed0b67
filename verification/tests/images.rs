use gltf_snapshot::formats::is_decodable;
use gltf_snapshot::gpu::TextureRole;
use gltf_snapshot::images::{load_texture, upload_texture, white_texture, ImageData, ImageSource, Picture, TextureError};
use std::io::Cursor;

fn png(width: u32, height: u32, pixels: Vec<u8>) -> Vec<u8> {
    let picture = image::RgbaImage::from_raw(width, height, pixels).unwrap();
    let mut out = Cursor::new(Vec::new());
    picture.write_to(&mut out, image::ImageFormat::Png).unwrap();
    out.into_inner()
}

#[test]
fn png_becomes_a_texture() {
    let pixels: Vec<u8> = (0..24u8).map(|i| i * 10).collect();
    let upload = load_texture(&png(3, 2, pixels.clone())).unwrap();
    assert_eq!(upload.pixels, pixels);
    assert_eq!(upload.bytes_per_row, 12);
    assert_eq!(upload.rows_per_image, 2);
    assert_eq!(upload.desc, TextureRole::Image.texture(3, 2));
}

#[test]
fn images_without_alpha_become_opaque() {
    let rgb = image::RgbImage::from_raw(1, 2, vec![1, 2, 3, 4, 5, 6]).unwrap();
    let mut out = Cursor::new(Vec::new());
    rgb.write_to(&mut out, image::ImageFormat::Png).unwrap();
    let upload = load_texture(&out.into_inner()).unwrap();
    assert_eq!(upload.pixels, vec![1, 2, 3, 255, 4, 5, 6, 255]);
    assert_eq!(upload.bytes_per_row, 4);
    assert_eq!(upload.rows_per_image, 2);
}

#[test]
fn jpeg_becomes_a_texture() {
    let rgb = image::RgbImage::from_pixel(8, 8, image::Rgb([200, 200, 200]));
    let mut out = Cursor::new(Vec::new());
    rgb.write_to(&mut out, image::ImageFormat::Jpeg).unwrap();
    let upload = load_texture(&out.into_inner()).unwrap();
    assert_eq!(upload.pixels.len(), 256);
    for p in upload.pixels.chunks(4) {
        assert!(p[0] > 195 && p[0] < 205);
        assert_eq!(p[3], 255);
    }
}

#[test]
fn bytes_that_are_no_image_are_refused() {
    assert!(matches!(load_texture(&[]), Err(TextureError::Decode(_))));
    assert!(matches!(load_texture(b"not an image"), Err(TextureError::Decode(_))));
    let mut cut = png(3, 2, vec![9; 24]);
    cut.truncate(40);
    assert!(matches!(load_texture(&cut), Err(TextureError::Decode(_))));
}

#[test]
fn decoding_twice_gives_the_same() {
    let data = png(2, 2, (0..16u8).collect());
    assert_eq!(load_texture(&data).unwrap().pixels, load_texture(&data).unwrap().pixels);
}

#[test]
fn upload_describes_rows() {
    let upload = upload_texture(Picture { width: 5, height: 7, pixels: vec![3; 140] });
    assert_eq!(upload.bytes_per_row, 20);
    assert_eq!(upload.rows_per_image, 7);
    assert_eq!(upload.pixels.len() as u32, upload.bytes_per_row * upload.rows_per_image);
}

#[test]
fn white_texture_is_one_white_pixel() {
    let upload = white_texture();
    assert_eq!(upload.pixels, vec![255, 255, 255, 255]);
    assert_eq!(upload.bytes_per_row, 4);
    assert_eq!(upload.rows_per_image, 1);
    assert_eq!(upload.desc, TextureRole::White.texture(1, 1));
    assert_eq!(upload.desc.label, Some("default_white_texture"));
}

#[test]
fn image_in_a_buffer_is_cut_out() {
    let buffers = vec![vec![0u8; 4], vec![1u8, 2, 3, 4, 5]];
    let source = ImageSource::View { buffer: 1, offset: 1, length: 3 };
    assert!(source.is_in_range(&buffers));
    match source.locate(&buffers) {
        ImageData::Bytes(bytes) => assert_eq!(bytes, vec![2, 3, 4]),
        ImageData::File(_) => panic!("not a file"),
    }
}

#[test]
fn image_in_a_file_is_named() {
    let source = ImageSource::Uri(String::from("textures/wood.png"));
    assert!(source.is_in_range(&vec![]));
    match source.locate(&vec![]) {
        ImageData::File(uri) => assert_eq!(uri, "textures/wood.png"),
        ImageData::Bytes(_) => panic!("not in a buffer"),
    }
}

#[test]
fn stretches_beyond_the_buffer_are_told() {
    let buffers = vec![vec![0u8; 4]];
    assert!(ImageSource::View { buffer: 0, offset: 4, length: 0 }.is_in_range(&buffers));
    assert!(!ImageSource::View { buffer: 0, offset: 2, length: 3 }.is_in_range(&buffers));
    assert!(!ImageSource::View { buffer: 0, offset: 5, length: 0 }.is_in_range(&buffers));
    assert!(!ImageSource::View { buffer: 1, offset: 0, length: 0 }.is_in_range(&buffers));
    assert!(!ImageSource::View { buffer: 0, offset: usize::MAX, length: 2 }.is_in_range(&buffers));
}

/// A baseline JPEG of 8 by 8 pixels in which every coefficient is zero.
fn gray_jpeg(y: u8, cb: u8, cr: u8) -> Vec<u8> {
    let mut data = vec![0xff, 0xd8, 0xff, 0xdb, 0, 67, 0];
    data.extend_from_slice(&[1; 64]);
    data.extend_from_slice(&[0xff, 0xc0, 0, 17, 8, 0, 8, 0, 8, 3, 1, y, 0, 2, cb, 0, 3, cr, 0]);
    for class in [0x00u8, 0x10] {
        data.extend_from_slice(&[0xff, 0xc4, 0, 20, class, 1]);
        data.extend_from_slice(&[0; 16]);
    }
    data.extend_from_slice(&[0xff, 0xda, 0, 12, 3, 1, 0, 2, 0, 3, 0, 0, 63, 0]);
    data.extend_from_slice(&[0, 0, 0, 0, 0xff, 0xd9]);
    data
}

#[test]
fn unusual_subsampling_is_decoded() {
    for (y, cb, cr) in [(0x11, 0x11, 0x11), (0x22, 0x11, 0x11), (0x41, 0x11, 0x11), (0x12, 0x22, 0x11)] {
        let upload = load_texture(&gray_jpeg(y, cb, cr)).unwrap();
        assert_eq!(upload.bytes_per_row, 32);
        for p in upload.pixels.chunks(4) {
            assert_eq!(p, [128, 128, 128, 255]);
        }
    }
}

#[test]
fn large_quantization_values_are_decoded() {
    let mut data = gray_jpeg(0x11, 0x11, 0x11);
    let mut table = vec![0xff, 0xd8, 0xff, 0xdb, 0, 131, 0x10];
    table.extend_from_slice(&[0xff; 128]);
    table.extend_from_slice(&data.split_off(71));
    assert!(load_texture(&table).is_ok());
}

#[test]
fn wide_jpeg_becomes_a_texture() {
    let rgb = image::RgbImage::from_pixel(300, 20, image::Rgb([10, 10, 10]));
    let mut out = Cursor::new(Vec::new());
    rgb.write_to(&mut out, image::ImageFormat::Jpeg).unwrap();
    let upload = load_texture(&out.into_inner()).unwrap();
    assert_eq!(upload.bytes_per_row, 1200);
    assert_eq!(upload.rows_per_image, 20);
}

/// Whether addresses have 32 bits.
fn narrow() -> bool {
    usize::MAX as u64 == u32::MAX as u64
}

/// Where the frame header of `gray_jpeg` starts.
const FRAME: usize = 71;

/// Where the scan header of `gray_jpeg` starts.
const SCAN: usize = 134;

#[test]
fn frames_with_odd_samples_are_refused() {
    let fine = gray_jpeg(0x11, 0x11, 0x11);
    assert!(is_decodable(&fine));
    assert_eq!(fine[FRAME..FRAME + 2], [0xff, 0xc0]);
    let mut lossless = fine.clone();
    lossless[FRAME + 1] = 0xc3;
    assert!(is_decodable(&lossless));
    for precision in [7, 9, 12] {
        lossless[FRAME + 4] = precision;
        assert!(!is_decodable(&lossless));
        assert!(matches!(load_texture(&lossless), Err(TextureError::Unsupported)));
    }
    let mut lossy = fine.clone();
    lossy[FRAME + 4] = 12;
    assert!(is_decodable(&lossy));
    assert!(matches!(load_texture(&lossy), Err(TextureError::Decode(_))));
}

#[test]
fn tall_frames_with_a_single_scan_are_refused() {
    let mut tall = gray_jpeg(0x11, 0x11, 0x11);
    tall[FRAME + 5] = 0xff;
    tall[FRAME + 6] = 0xf9;
    assert!(is_decodable(&tall));
    assert_eq!(tall[SCAN..SCAN + 5], [0xff, 0xda, 0, 12, 3]);
    tall[SCAN + 4] = 1;
    assert!(!is_decodable(&tall));
    assert!(matches!(load_texture(&tall), Err(TextureError::Unsupported)));
    tall[FRAME + 6] = 0xf8;
    assert!(is_decodable(&tall));
    tall[FRAME + 6] = 0xf9;
    tall[FRAME + 3] = 18;
    assert!(is_decodable(&tall));
    assert!(matches!(load_texture(&tall), Err(TextureError::Decode(_))));
}

#[test]
fn wide_frames_with_a_single_scan_are_refused_where_rows_are_filled_up() {
    for (sampling, fine) in [(0x11, true), (0x21, true), (0x31, false), (0x41, true)] {
        let mut wide = gray_jpeg(0x11, sampling, 0x11);
        wide[FRAME + 7] = 0xff;
        wide[FRAME + 8] = 0xf9;
        assert!(is_decodable(&wide));
        wide[SCAN + 4] = 1;
        assert_eq!(is_decodable(&wide), fine);
    }
}

#[test]
fn widest_jpeg_becomes_a_texture() {
    let gray = image::GrayImage::from_pixel(65535, 2, image::Luma([77]));
    let mut out = Cursor::new(Vec::new());
    gray.write_to(&mut out, image::ImageFormat::Jpeg).unwrap();
    let upload = load_texture(&out.into_inner()).unwrap();
    assert_eq!(upload.bytes_per_row, 4 * 65535);
    assert_eq!(upload.rows_per_image, 2);
    for p in upload.pixels.chunks(4) {
        assert!(p[0] > 72 && p[0] < 82);
        assert_eq!(p[3], 255);
    }
}

#[test]
fn tallest_jpeg_is_decoded_unless_its_scan_is_single() {
    let rgb = image::RgbImage::from_pixel(2, 65535, image::Rgb([77, 77, 77]));
    let mut out = Cursor::new(Vec::new());
    rgb.write_to(&mut out, image::ImageFormat::Jpeg).unwrap();
    assert_eq!(load_texture(&out.into_inner()).unwrap().rows_per_image, 65535);
    let gray = image::GrayImage::from_pixel(2, 65535, image::Luma([77]));
    let mut out = Cursor::new(Vec::new());
    gray.write_to(&mut out, image::ImageFormat::Jpeg).unwrap();
    assert!(matches!(load_texture(&out.into_inner()), Err(TextureError::Unsupported)));
}

#[test]
fn later_scans_count() {
    let mut tall = gray_jpeg(0x11, 0x11, 0x11);
    tall[FRAME + 5] = 0xff;
    tall[FRAME + 6] = 0xff;
    let end = tall.len() - 2;
    assert_eq!(tall[end..], [0xff, 0xd9]);
    let single = [0xff, 0xda, 0, 8, 1, 1, 0, 0, 63, 0];
    let mut second = tall[..end].to_vec();
    second.extend_from_slice(&[0xff, 0, 0xff, 0xd0, 7, 0xff, 0xff, 0xfe, 0, 2]);
    second.extend_from_slice(&single);
    assert!(!is_decodable(&second));
    let mut behind = tall.clone();
    behind.extend_from_slice(&single);
    assert!(is_decodable(&behind));
    let mut comment = tall[..end].to_vec();
    comment.extend_from_slice(&[0xff, 0xfe, 0, 12]);
    comment.extend_from_slice(&single);
    comment.extend_from_slice(&[0xff, 0xd9]);
    assert!(is_decodable(&comment));
}

#[test]
fn large_frames_are_refused_where_memory_is_short() {
    let mut large = gray_jpeg(0x11, 0x11, 0x11);
    large[FRAME + 5] = 0x80;
    large[FRAME + 7] = 0x80;
    assert_eq!(is_decodable(&large), !narrow());
    assert!(load_texture(&large).is_err());
}

#[test]
fn bytes_shaped_like_a_frame_header_do_not_matter() {
    let fine = gray_jpeg(0x11, 0x11, 0x11);
    let odd = [0xff, 0xc3, 0, 11, 12, 0xff, 0xff, 0xff, 0xff, 3, 1, 0x33, 0];
    for marker in [0xfeu8, 0xe0, 0xe5] {
        let mut data = vec![0xff, 0xd8, 0xff, marker, 0, 15];
        data.extend_from_slice(&odd);
        data.extend_from_slice(&fine[2..]);
        assert!(is_decodable(&data));
        assert_eq!(load_texture(&data).unwrap().pixels, load_texture(&fine).unwrap().pixels);
    }
    let mut behind = fine.clone();
    behind.extend_from_slice(&odd);
    assert_eq!(load_texture(&behind).unwrap().pixels, load_texture(&fine).unwrap().pixels);
}

#[test]
fn frame_headers_are_found_behind_stray_bytes() {
    let mut lossless = gray_jpeg(0x11, 0x11, 0x11);
    lossless[FRAME + 1] = 0xc3;
    lossless[FRAME + 4] = 12;
    for stray in [&[0xff, 0xff][..], &[0xff, 0, 1, 2], &[0xff, 0xe1, 0, 2]] {
        let mut data = vec![0xff, 0xd8, 0xff, 0xfe, 0, 3, 9];
        data.extend_from_slice(stray);
        data.extend_from_slice(&lossless[2..]);
        assert!(!is_decodable(&data));
    }
    for last in [&[0xff, 0xd9][..], &[0xff, 0xda], &[0xff, 0xfe, 0, 1], &[0xff, 0xfe, 0xff, 0xff]] {
        let mut data = vec![0xff, 0xd8];
        data.extend_from_slice(last);
        data.extend_from_slice(&lossless[2..]);
        assert!(is_decodable(&data));
        assert!(matches!(load_texture(&data), Err(TextureError::Decode(_))));
    }
}

/// The start of a PNG: its signature and header, then chunks without checksums.
fn png_start(width: u32, height: u32, color: u8, chunks: &[(&[u8; 4], Vec<u8>)]) -> Vec<u8> {
    let mut data = b"\x89PNG\r\n\x1a\n\0\0\0\x0dIHDR".to_vec();
    data.extend_from_slice(&width.to_be_bytes());
    data.extend_from_slice(&height.to_be_bytes());
    data.extend_from_slice(&[8, color, 0, 0, 0, 0, 0, 0, 0]);
    for (kind, content) in chunks {
        data.extend_from_slice(&(content.len() as u32).to_be_bytes());
        data.extend_from_slice(&kind[..]);
        data.extend_from_slice(content);
        data.extend_from_slice(&[0; 4]);
    }
    data
}

#[test]
fn odd_palettes_are_refused() {
    for (len, fine) in [(3, true), (768, true), (4, false), (2, false), (771, false)] {
        let data = png_start(1, 1, 3, &[(b"gAMA", vec![0; 4]), (b"PLTE", vec![7; len])]);
        assert_eq!(is_decodable(&data), fine);
        if !fine {
            assert!(matches!(load_texture(&data), Err(TextureError::Unsupported)));
        }
        let color = png_start(1, 1, 2, &[(b"PLTE", vec![7; len])]);
        assert!(is_decodable(&color));
    }
    let late = png_start(1, 1, 3, &[(b"IDAT", vec![0; 4]), (b"PLTE", vec![7; 4])]);
    assert!(is_decodable(&late));
}

#[test]
fn large_png_headers_are_refused_where_memory_is_short() {
    assert!(is_decodable(&png_start(0x4000, 0x7fff, 2, &[])));
    for (width, height) in [(0x4000, 0x8000), (u32::MAX, u32::MAX)] {
        let data = png_start(width, height, 2, &[(b"IDAT", vec![0; 4])]);
        assert_eq!(is_decodable(&data), !narrow());
        assert!(load_texture(&data).is_err());
    }
}

#[test]
fn frames_are_counted_where_addresses_are_short() {
    let most = vec![0xff, 0xff, 0xff, 0xff, 0, 0, 0, 0];
    let fewer = vec![0xff, 0xff, 0xff, 0xfe, 0, 0, 0, 0];
    let data = vec![0u8; 4];
    let counted = png_start(1, 1, 2, &[(b"acTL", most.clone()), (b"IDAT", data.clone())]);
    assert_eq!(is_decodable(&counted), !narrow());
    let cut = counted[..counted.len() - 8].to_vec();
    assert_eq!(is_decodable(&cut), !narrow());
    let described =
        png_start(1, 1, 2, &[(b"acTL", most.clone()), (b"fcTL", vec![0; 26]), (b"IDAT", data.clone())]);
    assert!(is_decodable(&described));
    let again = png_start(1, 1, 2, &[(b"acTL", most.clone()), (b"acTL", fewer), (b"IDAT", data.clone())]);
    assert!(is_decodable(&again));
    let empty = png_start(1, 1, 2, &[(b"acTL", most.clone()), (b"fcTL", vec![]), (b"IDAT", data)]);
    assert_eq!(is_decodable(&empty), !narrow());
    let ended = png_start(1, 1, 2, &[(b"acTL", most), (b"IEND", vec![])]);
    assert!(is_decodable(&ended));
}

/// The checksum of a chunk, over its kind and its content.
fn checksum(bytes: &[u8]) -> u32 {
    let mut crc = u32::MAX;
    for byte in bytes {
        crc ^= u32::from(*byte);
        for _ in 0..8 {
            crc = if crc & 1 == 1 { crc >> 1 ^ 0xedb8_8320 } else { crc >> 1 };
        }
    }
    !crc
}

#[test]
fn png_with_the_largest_number_of_frames_becomes_a_texture() {
    let plain = png(2, 1, vec![1, 2, 3, 255, 4, 5, 6, 255]);
    let content = [&b"acTL"[..], &[0xff, 0xff, 0xff, 0xff, 0, 0, 0, 0]].concat();
    let mut data = plain[..33].to_vec();
    data.extend_from_slice(&8u32.to_be_bytes());
    data.extend_from_slice(&content);
    data.extend_from_slice(&checksum(&content).to_be_bytes());
    data.extend_from_slice(&plain[33..]);
    match load_texture(&data) {
        Ok(upload) => assert_eq!(upload.pixels, vec![1, 2, 3, 255, 4, 5, 6, 255]),
        Err(TextureError::Unsupported) => assert!(narrow()),
        Err(TextureError::Decode(e)) => panic!("{:?}", e),
    }
}

#[test]
fn other_data_is_decodable() {
    assert!(is_decodable(&[]));
    assert!(is_decodable(b"GIF89a"));
    assert!(is_decodable(&[0xff, 0xd8]));
}

#[test]
fn png_without_image_data_is_refused() {
    let data = png_start(1, 1, 0, &[]);
    assert!(is_decodable(&data));
    assert!(matches!(load_texture(&data), Err(TextureError::Decode(_))));
}
