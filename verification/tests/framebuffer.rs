use rxterm::framebuffer::base64_encode;
use rxterm::framebuffer::copy_framebuffer_rect;
use rxterm::framebuffer::extract_rect_from_framebuffer;
use rxterm::framebuffer::update_framebuffer;
use rxterm::framebuffer::FrameRect;

fn rect(x: u16, y: u16, width: u16, height: u16) -> FrameRect {
    FrameRect { x, y, width, height }
}

/// A 4x3 buffer whose pixel (x, y) holds bytes [10*y + x; 4].
fn numbered() -> Vec<u8> {
    let mut fb = Vec::new();
    for y in 0..3u8 {
        for x in 0..4u8 {
            for _ in 0..4 {
                fb.push(10 * y + x);
            }
        }
    }
    fb
}

fn pixel(fb: &[u8], width: usize, x: usize, y: usize) -> u8 {
    fb[(y * width + x) * 4]
}

#[test]
fn update_writes_rows_into_place() {
    let mut fb = vec![0u8; 4 * 3 * 4];
    let data: Vec<u8> = (1..=16).collect();
    update_framebuffer(&mut fb, 4, &rect(1, 1, 2, 2), &data);
    assert_eq!(&fb[(1 * 4 + 1) * 4..(1 * 4 + 3) * 4], &data[0..8]);
    assert_eq!(&fb[(2 * 4 + 1) * 4..(2 * 4 + 3) * 4], &data[8..16]);
    assert_eq!(fb[0], 0);
    assert_eq!(fb[(1 * 4) * 4], 0);
}

#[test]
fn update_stops_at_short_data() {
    let mut fb = vec![0u8; 4 * 3 * 4];
    let data = vec![9u8; 12];
    update_framebuffer(&mut fb, 4, &rect(0, 0, 2, 2), &data);
    assert!(fb[0..8].iter().all(|b| *b == 9));
    assert!(fb[16..24].iter().all(|b| *b == 0));
}

#[test]
fn update_stops_at_buffer_end() {
    let mut fb = vec![0u8; 4 * 3 * 4];
    let data = vec![7u8; 2 * 4 * 4];
    update_framebuffer(&mut fb, 4, &rect(2, 1, 2, 4), &data);
    assert_eq!(pixel(&fb, 4, 2, 1), 7);
    assert_eq!(pixel(&fb, 4, 3, 2), 7);
    assert_eq!(pixel(&fb, 4, 1, 2), 0);
}

#[test]
fn extract_reads_back_a_rectangle() {
    let fb = numbered();
    let out = extract_rect_from_framebuffer(&fb, 4, &rect(1, 1, 2, 2));
    assert_eq!(out.len(), 16);
    assert_eq!(out[0], 11);
    assert_eq!(out[4], 12);
    assert_eq!(out[8], 21);
    assert_eq!(out[12], 22);
}

#[test]
fn extract_stops_at_buffer_end() {
    let fb = numbered();
    let out = extract_rect_from_framebuffer(&fb, 4, &rect(0, 2, 4, 5));
    assert_eq!(out.len(), 16);
    assert_eq!(out[0], 20);
}

#[test]
fn extract_after_update_gives_the_data() {
    let mut fb = numbered();
    let data: Vec<u8> = (100..124).collect();
    let r = rect(1, 0, 3, 2);
    update_framebuffer(&mut fb, 4, &r, &data);
    assert_eq!(extract_rect_from_framebuffer(&fb, 4, &r), data);
}

#[test]
fn copy_moves_down_without_smearing() {
    let mut fb = numbered();
    copy_framebuffer_rect(&mut fb, 4, &rect(0, 0, 4, 2), &rect(0, 1, 4, 2));
    for x in 0..4 {
        assert_eq!(pixel(&fb, 4, x, 0), x as u8);
        assert_eq!(pixel(&fb, 4, x, 1), x as u8);
        assert_eq!(pixel(&fb, 4, x, 2), 10 + x as u8);
    }
}

#[test]
fn copy_moves_up_without_smearing() {
    let mut fb = numbered();
    copy_framebuffer_rect(&mut fb, 4, &rect(0, 1, 4, 2), &rect(0, 0, 4, 2));
    for x in 0..4 {
        assert_eq!(pixel(&fb, 4, x, 0), 10 + x as u8);
        assert_eq!(pixel(&fb, 4, x, 1), 20 + x as u8);
        assert_eq!(pixel(&fb, 4, x, 2), 20 + x as u8);
    }
}

#[test]
fn copy_right_within_rows() {
    let mut fb = numbered();
    copy_framebuffer_rect(&mut fb, 4, &rect(0, 0, 3, 3), &rect(1, 0, 3, 3));
    for y in 0..3 {
        assert_eq!(pixel(&fb, 4, 0, y), 10 * y as u8);
        assert_eq!(pixel(&fb, 4, 1, y), 10 * y as u8);
        assert_eq!(pixel(&fb, 4, 2, y), 10 * y as u8 + 1);
        assert_eq!(pixel(&fb, 4, 3, y), 10 * y as u8 + 2);
    }
}

#[test]
fn copy_uses_the_smaller_size_and_skips_rows_outside() {
    let mut fb = numbered();
    copy_framebuffer_rect(&mut fb, 4, &rect(0, 0, 1, 3), &rect(3, 1, 2, 5));
    assert_eq!(pixel(&fb, 4, 3, 1), 0);
    assert_eq!(pixel(&fb, 4, 3, 2), 10);
    assert_eq!(pixel(&fb, 4, 3, 0), 3);
}

#[test]
fn base64_of_bytes() {
    assert_eq!(base64_encode(&[]), "");
    assert_eq!(base64_encode(b"Man"), "TWFu");
    assert_eq!(base64_encode(&[0xff, 0x00]), "/wA=");
}

#[test]
fn copy_skips_rows_past_the_end() {
    let mut fb: Vec<u8> = (0..16u8).collect();
    let src = FrameRect { x: 0, y: 0, width: 1, height: 2 };
    let dst = FrameRect { x: 1, y: 1, width: 1, height: 2 };
    copy_framebuffer_rect(&mut fb, 2, &src, &dst);
    let mut expected: Vec<u8> = (0..16u8).collect();
    expected[12..16].copy_from_slice(&[0, 1, 2, 3]);
    assert_eq!(fb, expected);
}

#[test]
fn extract_stops_at_the_last_row() {
    let fb: Vec<u8> = (0..16u8).collect();
    let out = extract_rect_from_framebuffer(&fb, 2, &FrameRect { x: 1, y: 1, width: 1, height: 3 });
    assert_eq!(out, vec![12, 13, 14, 15]);
}

#[test]
fn base64_pads_the_last_group() {
    assert_eq!(base64_encode(b""), "");
    assert_eq!(base64_encode(b"f"), "Zg==");
    assert_eq!(base64_encode(b"fo"), "Zm8=");
    assert_eq!(base64_encode(b"foo"), "Zm9v");
    assert_eq!(base64_encode(b"foobar"), "Zm9vYmFy");
    assert_eq!(base64_encode(&[0xfb, 0xff, 0x3e]), "+/8+");
}
