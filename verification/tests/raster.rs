use burin::blur::{blur_pad, box_pass_h, box_pass_h_clamp, box_pass_v, box_pass_v_clamp};
use burin::mipmap::{box_filter, build_mip_chain, mip_level_count, select_mip};
use burin::pixel::{
    blend_gradient_strip, blend_pixel, blend_row_constant, clear_rect, fill_rounded_rect_manual,
    pixels_to_rgba_bytes, present_region, rgba_u32_to_softbuffer, softbuffer_pixels,
};

#[test]
fn blend_pixel_source_over() {
    // Opaque green under a half-covered premultiplied red.
    let mut d = 0xFF00_FF00u32;
    blend_pixel(&mut d, 0x8000_0080, 128);
    assert_eq!(d, 0xFF00_7F80);
}

#[test]
fn blend_pixel_extremes() {
    let mut d = 0x1234_5678u32;
    blend_pixel(&mut d, 0xFFFF_FFFF, 0);
    assert_eq!(d, 0x1234_5678);
    blend_pixel(&mut d, 0xFF01_0203, 255);
    assert_eq!(d, 0xFF01_0203);
}

#[test]
fn blend_row_blends_every_pixel() {
    let mut row = vec![0u32, 0xFFFF_FFFF];
    blend_row_constant(&mut row, 0x8000_0080, 128);
    assert_eq!(row[0], 0x8000_0080);
    assert_eq!(row[1], 0xFF7F_7FFF);
}

#[test]
fn softbuffer_swaps_red_and_blue() {
    assert_eq!(rgba_u32_to_softbuffer(0x1122_3344), 0x0044_3322);
    assert_eq!(rgba_u32_to_softbuffer(0x8011_2233), 0x0033_2211);
}

#[test]
fn pixels_unpack_to_rgba_bytes() {
    assert_eq!(pixels_to_rgba_bytes(&[0x1122_3344, 0xFF00_00FF]), vec![0x44, 0x33, 0x22, 0x11, 0xFF, 0, 0, 0xFF]);
}

#[test]
fn horizontal_pass_zero_and_clamped_edges() {
    let src = [0u8, 30, 60];
    let mut dst = [0u8; 3];
    box_pass_h(&src, &mut dst, 3, 1, 1);
    assert_eq!(dst, [10, 30, 30]);
    box_pass_h_clamp(&src, &mut dst, 3, 1, 1);
    assert_eq!(dst, [10, 30, 50]);
}

#[test]
fn vertical_pass_zero_and_clamped_edges() {
    let src = [0u8, 30, 60];
    let mut dst = [0u8; 3];
    box_pass_v(&src, &mut dst, 1, 3, 1);
    assert_eq!(dst, [10, 30, 30]);
    box_pass_v_clamp(&src, &mut dst, 1, 3, 1);
    assert_eq!(dst, [10, 30, 50]);
}

#[test]
fn zero_radius_pass_copies() {
    let src = [1u8, 2, 3, 4];
    let mut dst = [0u8; 4];
    box_pass_h(&src, &mut dst, 2, 2, 0);
    assert_eq!(dst, src);
    assert_eq!(blur_pad(4), 12);
}

#[test]
fn box_filter_averages_covered_pixels() {
    let src = [10u8, 20, 30, 40, 30, 40, 50, 60, 50, 60, 70, 80, 70, 80, 90, 100];
    assert_eq!(box_filter(&src, 2, 2, 1, 1), vec![40, 50, 60, 70]);
    // Same size: a copy.
    assert_eq!(box_filter(&src, 2, 2, 2, 2), src.to_vec());
}

#[test]
fn mip_counts() {
    assert_eq!(mip_level_count(256, 256), 8);
    assert_eq!(mip_level_count(1024, 4), 10);
    assert_eq!(mip_level_count(3, 2), 1);
    assert_eq!(mip_level_count(1, 1), 1);
    assert_eq!(mip_level_count(0, 0), 1);
}

#[test]
fn mip_chain_halves_each_level() {
    let px = vec![100u8; 4 * 4 * 4];
    let levels = build_mip_chain(&px, 4, 4);
    assert_eq!(levels.len(), 2);
    assert_eq!(*levels[0], px);
    assert_eq!(*levels[1], vec![100u8; 2 * 2 * 4]);
}

#[test]
fn select_mip_picks_smallest_covering_level() {
    assert_eq!(select_mip(8, 256, 256, 64, 64), 2);
    assert_eq!(select_mip(8, 256, 256, 300, 300), 0);
    assert_eq!(select_mip(8, 256, 256, 1, 1), 7);
    assert_eq!(select_mip(1, 256, 256, 1, 1), 0);
}

#[test]
fn softbuffer_frame_converts_every_pixel() {
    let out = softbuffer_pixels(&[0xFF11_2233, 0x0044_5566]);
    assert_eq!(out, vec![0x0033_2211, 0x0066_5544]);
}

#[test]
fn present_region_copies_only_the_damaged_rect() {
    // 3x2 frame; region columns 1..3 of row 1.
    let pixels = [
        0xFF00_0001u32, 0xFF00_0002, 0xFF00_0003,
        0xFF00_0004, 0xFF00_0005, 0xFF01_0006,
    ];
    let mut buffer = [7u32; 6];
    present_region(&pixels, &mut buffer, 3, 1, 1, 3, 2);
    assert_eq!(buffer, [7, 7, 7, 7, 0x0005_0000, 0x0006_0001]);
}

#[test]
fn present_region_stops_at_the_shorter_buffer() {
    let pixels = [0x0000_00AAu32; 4];
    let mut buffer = [0u32; 3];
    present_region(&pixels, &mut buffer, 2, 0, 0, 2, 2);
    assert_eq!(buffer, [0x00AA_0000; 3]);
    let mut empty_rows = [9u32; 4];
    present_region(&pixels, &mut empty_rows, 2, 0, 1, 2, 1);
    assert_eq!(empty_rows, [9; 4]);
}

#[test]
fn clear_rect_fills_the_rect() {
    // 4x3 frame, clear columns 1..3 of rows 1..3.
    let mut px = [0u32; 12];
    clear_rect(&mut px, 4, 1, 1, 3, 3, 9);
    assert_eq!(px, [0, 0, 0, 0, 0, 9, 9, 0, 0, 9, 9, 0]);
}

#[test]
fn clear_rect_skips_rows_past_the_frame() {
    // 3x2 frame with one missing pixel: row 1 would end past it.
    let mut px = [1u32; 5];
    clear_rect(&mut px, 3, 0, 0, 3, 2, 4);
    assert_eq!(px, [4, 4, 4, 1, 1]);
    let mut none = [1u32; 4];
    clear_rect(&mut none, 2, 0, 2, 2, 1, 4);
    assert_eq!(none, [1; 4]);
}

#[test]
fn opaque_gradient_strip_is_copied_to_each_row() {
    let mut px = [1u32; 6];
    blend_gradient_strip(&mut px, 3, 1, 3, 0, 2, &[(0x1122_3344, 255), (0x5566_7788, 255)]);
    assert_eq!(px, [1, 0x1122_3344, 0x5566_7788, 1, 0x1122_3344, 0x5566_7788]);
}

#[test]
fn translucent_gradient_strip_blends_and_skips_clear_entries() {
    let mut px = [0xFF00_00FFu32; 4];
    blend_gradient_strip(&mut px, 2, 0, 2, 1, 2, &[(0x0000_FF00, 128), (0x1234_5678, 0)]);
    // Row 0 untouched; (0, 1) gets green over red at half alpha; (1, 1) kept.
    assert_eq!(px[0], 0xFF00_00FF);
    assert_eq!(px[1], 0xFF00_00FF);
    assert_eq!(px[2], 0xFF00_FF7F);
    assert_eq!(px[3], 0xFF00_00FF);
}

const RED: u32 = 0xFF00_00FF;

#[test]
fn rounded_rect_top_left_corner_and_row_fills() {
    let mut px = [0u32; 20];
    let tpl = [0u8, 128, 128, 255];
    fill_rounded_rect_manual(&mut px, 5, 0, 4, 0, 3, RED, Some((&tpl, 2)), None, None, None);
    assert_eq!(
        px,
        [
            0, 0x8000_0080, RED, RED, 0,
            0x8000_0080, RED, RED, RED, 0,
            RED, RED, RED, RED, 0,
            0, 0, 0, 0, 0,
        ]
    );
}

#[test]
fn rounded_rect_bottom_right_corner_is_mirrored() {
    let mut px = [0u32; 20];
    let tpl = [255u8, 0, 0, 0];
    fill_rounded_rect_manual(&mut px, 5, 0, 4, 0, 3, RED, None, None, Some((&tpl, 2)), None);
    assert_eq!(
        px,
        [
            RED, RED, RED, RED, 0,
            RED, RED, 0, 0, 0,
            RED, RED, 0, RED, 0,
            0, 0, 0, 0, 0,
        ]
    );
}
