use rust_renderer::readback::{copy_rows, frame_copy_code, padded_row_bytes, render_size, resized};

#[test]
fn padded_rows_round_up_to_the_alignment() {
    assert_eq!(padded_row_bytes(64, 256), 256);
    assert_eq!(padded_row_bytes(65, 256), 512);
    assert_eq!(padded_row_bytes(1, 256), 256);
    assert_eq!(padded_row_bytes(0, 256), 0);
    assert_eq!(padded_row_bytes(1920, 256), 7680);
    assert_eq!(padded_row_bytes(3, 8), 16);
}

fn buffer() -> Vec<u8> {
    // Two rows of two pixels, rows 12 bytes apart.
    let mut data = Vec::new();
    for i in 0..20u8 {
        data.push(i);
    }
    data
}

#[test]
fn rows_are_copied_without_padding() {
    let mut out = vec![9u8; 3];
    copy_rows(&buffer(), 2, 2, 12, false, &mut out);
    assert_eq!(out, vec![0, 1, 2, 3, 4, 5, 6, 7, 12, 13, 14, 15, 16, 17, 18, 19]);
}

#[test]
fn bgra_swaps_red_and_blue() {
    let mut out = Vec::new();
    copy_rows(&buffer(), 2, 2, 12, true, &mut out);
    assert_eq!(out, vec![2, 1, 0, 3, 6, 5, 4, 7, 14, 13, 12, 15, 18, 17, 16, 19]);
}

#[test]
fn swapping_twice_gives_back_the_frame() {
    let data: Vec<u8> = (0..32u8).collect();
    let mut once = Vec::new();
    copy_rows(&data, 4, 2, 16, true, &mut once);
    let mut twice = Vec::new();
    copy_rows(&once, 4, 2, 16, true, &mut twice);
    assert_eq!(twice, data);
}

#[test]
fn empty_frame() {
    let mut out = vec![1u8, 2];
    copy_rows(&[], 0, 0, 256, false, &mut out);
    assert!(out.is_empty());
}

#[test]
fn frame_request_codes() {
    assert_eq!(frame_copy_code(false, 16, 16), -1);
    assert_eq!(frame_copy_code(true, 0, 16), -3);
    assert_eq!(frame_copy_code(true, 16, 15), -2);
    assert_eq!(frame_copy_code(true, 16, 16), 0);
    assert_eq!(frame_copy_code(true, 16, 100), 0);
}

#[test]
fn render_sizes_are_at_least_one_pixel() {
    assert_eq!(render_size(0, 0), (1, 1));
    assert_eq!(render_size(640, 0), (640, 1));
    assert_eq!(render_size(640, 480), (640, 480));
}

#[test]
fn resize_only_on_a_new_size() {
    assert_eq!(resized((640, 480), 640, 480), None);
    assert_eq!(resized((1, 1), 0, 0), None);
    assert_eq!(resized((640, 480), 800, 0), Some((800, 1)));
    assert_eq!(resized((640, 480), 640, 481), Some((640, 481)));
}
