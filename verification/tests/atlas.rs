use burin::atlas::{AtlasEntry, AtlasKey, GlyphAtlas};

fn key(glyph_id: u16) -> AtlasKey {
    AtlasKey { font_id: 1, glyph_id, font_size_bits: 16 }
}

/// A `w` by `h` mask filled with `v`.
fn solid(w: u32, h: u32, v: u8) -> Option<(Vec<u8>, u32, u32, i32, i32)> {
    Some((vec![v; (w * h) as usize], w, h, 0, 0))
}

/// A 4×4 opaque glyph blitted with a clip rect must only write destination
/// pixels inside that rect — the per-pixel text clipping that mirrors
/// glyphon's `TextBounds` on the GPU.
#[test]
fn blit_to_clips_per_pixel() {
    let mut atlas = GlyphAtlas::new(16, 16);
    // Store a 4×4 fully-opaque glyph: the first glyph lands at atlas (0,0).
    let stored = atlas.get_or_insert(key(1), || solid(4, 4, 255));
    let entry = AtlasEntry {
        x: 0,
        y: 0,
        width: 4,
        height: 4,
        left: 0,
        top: 0,
    };
    assert_eq!(stored, Some(entry));
    let white = [255u8, 255, 255, 255];

    // No clip: the whole 4×4 glyph lands at dst (2,2)..(6,6).
    let mut dst = vec![0u32; 16 * 16];
    atlas.blit_to(&entry, 2, 2, &mut dst, 16, 16, white, None);
    assert_ne!(
        dst[3 * 16 + 3],
        0,
        "unclipped glyph pixel should be written"
    );
    assert_eq!(dst[0], 0, "pixel outside the glyph should be untouched");

    // Clip to x>=4, y>=4: only the bottom-right of the glyph survives.
    let mut dst = vec![0u32; 16 * 16];
    atlas.blit_to(&entry, 2, 2, &mut dst, 16, 16, white, Some((4, 4, 16, 16)));
    assert_eq!(
        dst[2 * 16 + 2],
        0,
        "pixel outside the clip must NOT be written"
    );
    assert_eq!(
        dst[3 * 16 + 3],
        0,
        "pixel outside the clip must NOT be written"
    );
    assert_ne!(
        dst[4 * 16 + 4],
        0,
        "pixel inside the clip should be written"
    );
    assert_ne!(
        dst[5 * 16 + 5],
        0,
        "pixel inside the clip should be written"
    );
}

#[test]
fn glyphs_pack_left_to_right_then_down() {
    let mut atlas = GlyphAtlas::new(10, 10);
    let a = atlas.get_or_insert(key(1), || solid(4, 3, 1)).unwrap();
    let b = atlas.get_or_insert(key(2), || solid(4, 5, 2)).unwrap();
    // 4 + 4 + 4 > 10: the third glyph starts a row below the tallest (5).
    let c = atlas.get_or_insert(key(3), || solid(4, 2, 3)).unwrap();
    assert_eq!((a.x, a.y), (0, 0));
    assert_eq!((b.x, b.y), (4, 0));
    assert_eq!((c.x, c.y), (0, 5));
}

#[test]
fn cache_hit_returns_same_entry_without_rasterizing() {
    let mut atlas = GlyphAtlas::new(16, 16);
    let first = atlas.get_or_insert(key(7), || Some((vec![9u8; 6], 3, 2, -1, 5)));
    assert_eq!(
        first,
        Some(AtlasEntry { x: 0, y: 0, width: 3, height: 2, left: -1, top: 5 })
    );
    let second = atlas.get_or_insert(key(7), || panic!("must not rasterize a cached glyph"));
    assert_eq!(second, first);
}

#[test]
fn missing_empty_or_oversized_glyphs_are_not_stored() {
    let mut atlas = GlyphAtlas::new(8, 8);
    assert_eq!(atlas.get_or_insert(key(1), || None), None);
    assert_eq!(atlas.get_or_insert(key(2), || Some((Vec::new(), 0, 5, 0, 0))), None);
    assert_eq!(atlas.get_or_insert(key(3), || solid(9, 1, 1)), None);
    // Nothing was placed: the next glyph still lands at the origin.
    let e = atlas.get_or_insert(key(4), || solid(2, 2, 1)).unwrap();
    assert_eq!((e.x, e.y), (0, 0));
}

#[test]
fn full_atlas_restarts_from_empty() {
    let mut atlas = GlyphAtlas::new(4, 4);
    let a = atlas.get_or_insert(key(1), || solid(4, 3, 1)).unwrap();
    assert_eq!((a.x, a.y), (0, 0));
    // A 4×2 glyph fits neither beside nor below: the atlas is cleared.
    let b = atlas.get_or_insert(key(2), || solid(4, 2, 2)).unwrap();
    assert_eq!((b.x, b.y), (0, 0));
    // The first glyph was forgotten and is rasterised again.
    let mut called = false;
    let again = atlas.get_or_insert(key(1), || {
        called = true;
        solid(2, 1, 1)
    });
    assert!(called);
    assert_eq!(again.map(|e| (e.x, e.y)), Some((0, 2)));
}

#[test]
fn clear_resets_the_cursor() {
    let mut atlas = GlyphAtlas::new(8, 8);
    atlas.get_or_insert(key(1), || solid(3, 3, 1));
    atlas.clear();
    let e = atlas.get_or_insert(key(2), || solid(3, 3, 1)).unwrap();
    assert_eq!((e.x, e.y), (0, 0));
    assert_eq!((atlas.width(), atlas.height()), (8, 8));
}

#[test]
fn blit_draws_the_stored_mask_with_exact_blend() {
    let mut atlas = GlyphAtlas::new(8, 8);
    // Two-texel glyph: coverage 255 then 0.
    let e = atlas
        .get_or_insert(key(1), || Some((vec![255u8, 0], 2, 1, 0, 0)))
        .unwrap();
    let mut dst = vec![0x8040_2010u32; 3];
    atlas.blit_to(&e, 0, 0, &mut dst, 3, 1, [200, 100, 50, 255], None);
    // Full coverage replaces the pixel with the opaque colour.
    assert_eq!(dst[0], 0xFF32_64C8);
    // Zero coverage and pixels outside the glyph stay as they were.
    assert_eq!(dst[1], 0x8040_2010);
    assert_eq!(dst[2], 0x8040_2010);
}

#[test]
fn blit_with_partial_coverage_is_source_over() {
    let mut atlas = GlyphAtlas::new(4, 4);
    let e = atlas.get_or_insert(key(1), || Some((vec![128u8], 1, 1, 0, 0))).unwrap();
    let mut dst = vec![0xFF00_00FFu32]; // opaque red
    atlas.blit_to(&e, 0, 0, &mut dst, 1, 1, [0, 0, 255, 255], None);
    // a = 128: src = (0, 0, 128, 128); out = src + dst * 127 / 255.
    let r = 255 * 127 / 255;
    let b = 128;
    let a = 128 + 255 * 127 / 255;
    assert_eq!(dst[0], (a << 24) | (b << 16) | r);
}

#[test]
fn blit_off_the_buffer_writes_nothing() {
    let mut atlas = GlyphAtlas::new(8, 8);
    let e = atlas.get_or_insert(key(1), || solid(2, 2, 255)).unwrap();
    let mut dst = vec![0u32; 16];
    atlas.blit_to(&e, 4, 0, &mut dst, 4, 4, [255, 255, 255, 255], None);
    atlas.blit_to(&e, -2, 0, &mut dst, 4, 4, [255, 255, 255, 255], None);
    atlas.blit_to(&e, 0, 0, &mut dst, 4, 4, [255, 255, 255, 255], Some((3, 3, 1, 1)));
    assert!(dst.iter().all(|&p| p == 0));
}

#[test]
fn blit_partly_left_of_the_buffer_draws_the_visible_part() {
    let mut atlas = GlyphAtlas::new(8, 8);
    let e = atlas.get_or_insert(key(1), || solid(3, 1, 255)).unwrap();
    let mut dst = vec![0u32; 4];
    atlas.blit_to(&e, -1, 0, &mut dst, 4, 1, [255, 255, 255, 255], None);
    assert_eq!(dst, vec![0xFFFF_FFFF, 0xFFFF_FFFF, 0, 0]);
}
