use std::rc::Rc;

use burin::blur::box_blur_rgba;
use burin::composite::{blend_span, blit_pixmap, blit_text_surface, colorize_region};
use burin::cpu_image::ImageCache;
use burin::image_registry::{register_image, ImageRegistry};

#[test]
fn blit_pixmap_places_opaque_source() {
    let mut frame = vec![0u32; 4 * 3];
    let src = vec![0xFF00_00FFu32; 2 * 2];
    blit_pixmap(&mut frame, 4, 3, &src, 2, 2, 1, 1, None, None);
    let expect_at = |x: usize, y: usize| if (1..3).contains(&x) && (1..3).contains(&y) { 0xFF00_00FF } else { 0 };
    for y in 0..3 {
        for x in 0..4 {
            assert_eq!(frame[y * 4 + x], expect_at(x, y), "pixel ({x}, {y})");
        }
    }
}

#[test]
fn blit_pixmap_clips_to_frame_and_clip_rect() {
    let mut frame = vec![0u32; 3 * 3];
    let src = vec![0xFFFF_FFFFu32; 3 * 3];
    blit_pixmap(&mut frame, 3, 3, &src, 3, 3, -1, -1, None, Some((0, 0, 1, 3)));
    // Only column 0 (clip) of rows 0..2 (source reach) is written.
    assert_eq!(frame, vec![0xFFFF_FFFF, 0, 0, 0xFFFF_FFFF, 0, 0, 0, 0, 0]);
}

#[test]
fn blit_pixmap_mask_scales_and_zero_mask_skips() {
    let mut frame = vec![0u32; 2];
    let src = vec![0xFF00_00FFu32; 2];
    let mask = [128u8, 0];
    blit_pixmap(&mut frame, 2, 1, &src, 2, 1, 0, 0, Some(&mask), None);
    // a = 255 * 128 / 255 = 128, r = 128.
    assert_eq!(frame[0], 0x8000_0080);
    assert_eq!(frame[1], 0);
}

#[test]
fn blit_pixmap_transparent_source_pixels_leave_frame() {
    let mut frame = vec![0x1234_5678u32; 1];
    blit_pixmap(&mut frame, 1, 1, &[0x00FF_FFFF], 1, 1, 0, 0, None, None);
    assert_eq!(frame[0], 0x1234_5678);
}

#[test]
fn text_surface_opacity() {
    let src = vec![0xFF00_00FFu32];
    let mut frame = vec![0u32];
    blit_text_surface(&mut frame, 1, 1, &src, 1, 1, 0, 0, 0, None);
    assert_eq!(frame[0], 0);
    blit_text_surface(&mut frame, 1, 1, &src, 1, 1, 0, 0, 128, None);
    assert_eq!(frame[0], 0x8000_0080);
    let mut frame = vec![0u32];
    blit_text_surface(&mut frame, 1, 1, &src, 1, 1, 0, 0, 255, None);
    assert_eq!(frame[0], 0xFF00_00FF);
}

#[test]
fn span_blends_one_clipped_row() {
    let mut frame = vec![0u32; 4 * 2];
    blend_span(&mut frame, 4, 2, -5, 10, 1, 10, 20, 30, 255, None, Some((1, 0, 3, 2)));
    assert_eq!(&frame[..4], &[0, 0, 0, 0]);
    assert_eq!(&frame[4..], &[0, 0xFF1E_140A, 0xFF1E_140A, 0]);
}

#[test]
fn span_outside_rows_or_transparent_does_nothing() {
    let mut frame = vec![7u32; 4];
    blend_span(&mut frame, 2, 2, 0, 2, 2, 1, 1, 1, 255, None, None);
    blend_span(&mut frame, 2, 2, 0, 2, -1, 1, 1, 1, 255, None, None);
    blend_span(&mut frame, 2, 2, 0, 2, 0, 1, 1, 1, 0, None, None);
    blend_span(&mut frame, 2, 2, 0, 2, 0, 1, 1, 1, 255, None, Some((0, 1, 2, 2)));
    assert_eq!(frame, vec![7u32; 4]);
}

#[test]
fn span_with_mask() {
    let mut frame = vec![0u32; 2];
    let mask = [0u8, 255];
    blend_span(&mut frame, 2, 1, 0, 2, 0, 255, 0, 0, 255, Some(&mask), None);
    assert_eq!(frame, vec![0, 0xFF00_00FF]);
}

#[test]
fn colorize_premultiplies_coverage() {
    // 3-wide plane; take the 2×1 region at (1, 0).
    let alpha = [0u8, 255, 128];
    let px = colorize_region(&alpha, 3, 1, 0, 2, 1, 255, 0, 0, 255).unwrap();
    assert_eq!(px, vec![0xFF00_00FF, 0x8000_0080]);
    assert!(colorize_region(&alpha, 3, 0, 0, 0, 1, 255, 0, 0, 255).is_none());
    // Zero coverage gives the zero pixel.
    assert_eq!(colorize_region(&alpha, 3, 0, 0, 1, 1, 9, 9, 9, 255).unwrap(), vec![0]);
}

#[test]
fn box_blur_rgba_blurs_each_channel_with_clamped_edges() {
    // A single bright pixel in a 3×1 strip, every channel.
    let src = [0u32, 0x3C3C_3C3C, 0];
    let out = box_blur_rgba(&src, 3, 1, 1);
    // Rows of height 1: the vertical passes keep values; three horizontal
    // passes of [0, 60, 0] with clamped edges.
    // Pass 1: [20, 20, 20]; passes 2 and 3 keep a constant row.
    assert_eq!(out, vec![0x1414_1414u32; 3]);
}

#[test]
fn box_blur_rgba_zero_radius_copies() {
    let src = [1u32, 2, 3];
    assert_eq!(box_blur_rgba(&src, 3, 1, 0), src.to_vec());
    assert_eq!(box_blur_rgba(&src, 0, 0, 2), src.to_vec());
}

#[test]
fn cpu_image_cache_premultiplies_and_picks_level() {
    let mut reg = ImageRegistry::new();
    // 4×4 half-transparent white.
    register_image(&mut reg, 1, 4, 4, Rc::new([255u8, 255, 255, 128].repeat(16)));
    let mut cache = ImageCache::new();
    let full = cache.ensure_mip(&mut reg, 1, 4, 4).unwrap();
    assert_eq!(full.len(), 16);
    assert!(full.iter().all(|&p| p == 0x8080_8080));
    let small = cache.ensure_mip(&mut reg, 1, 2, 2).unwrap();
    assert_eq!(small.len(), 4);
    assert!(cache.ensure_mip(&mut reg, 99, 1, 1).is_none());
}

#[test]
fn cpu_image_cache_evicts_least_recently_used() {
    let mut reg = ImageRegistry::new();
    for h in 0..40u64 {
        register_image(&mut reg, h, 1, 1, Rc::new(vec![h as u8, 0, 0, 255]));
    }
    let mut cache = ImageCache::new();
    for h in 0..32u64 {
        cache.ensure_mip(&mut reg, h, 1, 1).unwrap();
    }
    // Touch image 0 so that image 1 becomes the oldest.
    cache.ensure_mip(&mut reg, 0, 1, 1).unwrap();
    let p = cache.ensure_mip(&mut reg, 35, 1, 1).unwrap();
    assert_eq!(*p, vec![0xFF00_0023]);
}
