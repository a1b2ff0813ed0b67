use gltf_snapshot::align::align_to;
use gltf_snapshot::images::{picture_from_frame, FrameError};
use gltf_snapshot::readback::ReadbackLayout;

#[test]
fn align_to_rounds_up() {
    assert_eq!(align_to(3200, 256), 3328);
    assert_eq!(align_to(3328, 256), 3328);
    assert_eq!(align_to(0, 256), 0);
    assert_eq!(align_to(1, 256), 256);
    assert_eq!(align_to(7, 1), 7);
    assert_eq!(align_to(u32::MAX - 256, 256), u32::MAX - 255);
}

#[test]
fn layout_of_default_frame() {
    let layout = ReadbackLayout::new(800, 600);
    assert_eq!(layout.padded_bytes_per_row, 3328);
    assert_eq!(layout.buffer_size, 3328 * 600);
    assert_eq!(ReadbackLayout::try_new(800, 600), Some(layout));
}

#[test]
fn layout_refuses_sizes_beyond_32_bits() {
    assert_eq!(ReadbackLayout::try_new(0x4000_0000, 1), None);
    assert_eq!(ReadbackLayout::try_new(0x3fff_ffff, 1), None);
    assert!(ReadbackLayout::try_new(0x3fff_ffbf, 1).is_some());
    assert_eq!(ReadbackLayout::try_new(64, 0x0100_0000), None);
    assert!(ReadbackLayout::try_new(64, 0x00ff_ffff).is_some());
}

#[test]
fn unpad_drops_padding() {
    let layout = ReadbackLayout::new(2, 3);
    assert_eq!(layout.padded_bytes_per_row, 256);
    let mut data = vec![0xeeu8; layout.buffer_size as usize];
    for y in 0..3usize {
        for x in 0..8usize {
            data[y * 256 + x] = (10 * y + x) as u8;
        }
    }
    let pixels = layout.unpad(&data);
    let expected: Vec<u8> = vec![
        0, 1, 2, 3, 4, 5, 6, 7, 10, 11, 12, 13, 14, 15, 16, 17, 20, 21, 22, 23, 24, 25, 26, 27,
    ];
    assert_eq!(pixels, expected);
}

#[test]
fn unpad_needs_no_padding_after_last_row() {
    let layout = ReadbackLayout::new(1, 2);
    let mut data = vec![0u8; 260];
    data[0..4].copy_from_slice(&[1, 2, 3, 4]);
    data[256..260].copy_from_slice(&[5, 6, 7, 8]);
    assert_eq!(layout.unpad(&data), vec![1, 2, 3, 4, 5, 6, 7, 8]);
}

#[test]
fn unpad_of_empty_frames() {
    assert!(ReadbackLayout::new(0, 5).unpad(&[]).is_empty());
    assert!(ReadbackLayout::new(5, 0).unpad(&[]).is_empty());
}

#[test]
fn frame_read_back_is_accepted_as_image() {
    let layout = ReadbackLayout::new(3, 2);
    let data: Vec<u8> = (0..layout.buffer_size).map(|i| (i % 251) as u8).collect();
    let pixels = layout.unpad(&data);
    let picture = picture_from_frame(3, 2, pixels.clone()).unwrap();
    assert_eq!(picture.width, 3);
    assert_eq!(picture.height, 2);
    assert_eq!(picture.pixels, pixels);
}

#[test]
fn frame_with_too_few_bytes_is_refused() {
    let error = picture_from_frame(2, 2, vec![0u8; 15]).unwrap_err();
    assert_eq!(error, FrameError::InvalidBuffer);
    assert_eq!(error.message(), "Invalid image buffer");
}

#[test]
fn frame_keeps_only_the_bytes_of_its_pixels() {
    let bytes: Vec<u8> = (0..20u8).collect();
    let picture = picture_from_frame(2, 2, bytes.clone()).unwrap();
    assert_eq!(picture.pixels, bytes[..16].to_vec());
}
