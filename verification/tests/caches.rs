use std::cell::Cell;
use std::rc::Rc;

use burin::glyph_cache::{BitmapKey, CachedGlyph, GlyphCache, WidthKey, MAX_BITMAP_BYTES};
use burin::shadow_cache::{ShadowCache, ShadowKey, MAX_ENTRIES};

fn glyph(w: u32, h: u32, tag: u8) -> CachedGlyph<Vec<u8>> {
    CachedGlyph {
        pixmap: Rc::new(vec![tag; 4]),
        width: w,
        height: h,
        left: -1,
        top: 7,
        color_rgb: [tag, 0, 0],
    }
}

#[test]
fn keys_keep_their_fields() {
    let w = WidthKey::new(9, 3, 120);
    assert_eq!((w.font_id, w.glyph_id, w.size_bits), (9, 3, 120));
    let b = BitmapKey::new(9, 3, 120, [1, 2, 3]);
    assert_eq!(b.color_rgb, [1, 2, 3]);
}

#[test]
fn measure_computes_once_then_hits() {
    let mut c: GlyphCache<(f32, f32), Vec<u8>> = GlyphCache::new();
    let calls = Cell::new(0);
    let m = c.measure(1, 65, 140, || {
        calls.set(calls.get() + 1);
        Some((7.5, 1.0))
    });
    assert_eq!(m, Some((7.5, 1.0)));
    let again = c.measure(1, 65, 140, || {
        calls.set(calls.get() + 1);
        Some((0.0, 0.0))
    });
    assert_eq!(again, Some((7.5, 1.0)));
    assert_eq!(calls.get(), 1);
    // Another size is another key; a failed computation is not cached.
    assert_eq!(c.measure(1, 65, 141, || None), None);
    assert_eq!(c.measure(1, 65, 141, || Some((2.0, 2.0))), Some((2.0, 2.0)));
}

#[test]
fn rasterize_caches_by_colour() {
    let mut c: GlyphCache<u32, Vec<u8>> = GlyphCache::new();
    let g = c.rasterize(1, 65, 140, [255, 0, 0], || Some(glyph(2, 3, 1))).unwrap();
    assert_eq!((g.width, g.height, g.left, g.top), (2, 3, -1, 7));
    let hit = c.rasterize(1, 65, 140, [255, 0, 0], || None).unwrap();
    assert!(Rc::ptr_eq(&g.pixmap, &hit.pixmap));
    // Same glyph in another colour is a miss.
    assert!(c.rasterize(1, 65, 140, [0, 255, 0], || None).is_none());
}

#[test]
fn rasterize_purges_half_when_over_budget() {
    let mut c: GlyphCache<u32, Vec<u8>> = GlyphCache::new();
    // Four 1 MiB bitmaps fill the 4 MiB budget exactly.
    for id in 0..4u16 {
        assert!(c.rasterize(1, id, 100, [0, 0, 0], || Some(glyph(512, 512, id as u8))).is_some());
    }
    assert_eq!(MAX_BITMAP_BYTES, 4 * 1024 * 1024);
    for id in 0..4u16 {
        assert!(c.rasterize(1, id, 100, [0, 0, 0], || None).is_some());
    }
    // The fifth passes the budget: half of the four are dropped first.
    assert!(c.rasterize(1, 4, 100, [0, 0, 0], || Some(glyph(1, 1, 4))).is_some());
    let kept = (0..4u16).filter(|&id| c.rasterize(1, id, 100, [0, 0, 0], || None).is_some()).count();
    assert_eq!(kept, 2);
    assert!(c.rasterize(1, 4, 100, [0, 0, 0], || None).is_some());
}

#[test]
fn trim_and_clear() {
    let mut c: GlyphCache<u32, Vec<u8>> = GlyphCache::new();
    assert!(c.rasterize(1, 0, 100, [0, 0, 0], || Some(glyph(1, 1, 0))).is_some());
    assert!(c.rasterize(1, 1, 100, [0, 0, 0], || Some(glyph(1, 1, 1))).is_some());
    // Under budget: trim keeps everything.
    c.trim(300);
    let kept = (0..2u16).filter(|&id| c.rasterize(1, id, 100, [0, 0, 0], || None).is_some()).count();
    assert_eq!(kept, 2);
    let _ = c.measure(1, 0, 100, || Some(5u32));
    c.clear_bitmaps();
    assert!(c.rasterize(1, 0, 100, [0, 0, 0], || None).is_none());
    // Metrics survive a bitmap clear.
    assert_eq!(c.measure(1, 0, 100, || None), Some(5));
}

#[test]
fn trim_over_budget_drops_half() {
    let mut c: GlyphCache<u32, Vec<u8>> = GlyphCache::new();
    assert!(c.rasterize(1, 0, 100, [0, 0, 0], || Some(glyph(1024, 1024, 0))).is_some());
    // Past the budget: half of the two cached bitmaps are dropped to make room.
    assert!(c.rasterize(1, 1, 100, [0, 0, 0], || Some(glyph(1, 1, 1))).is_some());
    assert!(c.rasterize(1, 2, 100, [0, 0, 0], || Some(glyph(1, 1, 2))).is_some());
    c.trim(1);
    let kept = (0..3u16).filter(|&id| c.rasterize(1, id, 100, [0, 0, 0], || None).is_some()).count();
    assert_eq!(kept, 1);
}

fn shadow_key(ew: u32) -> ShadowKey {
    ShadowKey { ew, eh: 10, radii: [4, 4, 4, 4], blur: 8, color: [0, 0, 0, 128] }
}

#[test]
fn shadow_template_is_built_once() {
    let mut c: ShadowCache<Vec<u8>> = ShadowCache::new();
    let a = c.get_or_build(shadow_key(20), || Some(vec![1, 2, 3])).unwrap();
    let b = c.get_or_build(shadow_key(20), || None).unwrap();
    assert!(Rc::ptr_eq(&a, &b));
    assert_eq!(*b, vec![1, 2, 3]);
    assert!(c.get_or_build(shadow_key(21), || None).is_none());
}

#[test]
fn shadow_cache_drops_least_recently_used_when_full() {
    let mut c: ShadowCache<u32> = ShadowCache::new();
    for i in 0..MAX_ENTRIES as u32 {
        assert!(c.get_or_build(shadow_key(i), || Some(i)).is_some());
    }
    // Touch the oldest so that key 1 becomes the least recently used.
    assert_eq!(c.get_or_build(shadow_key(0), || None).map(|p| *p), Some(0));
    assert!(c.get_or_build(shadow_key(100), || Some(100)).is_some());
    assert_eq!(c.get_or_build(shadow_key(0), || None).map(|p| *p), Some(0));
    assert_eq!(c.get_or_build(shadow_key(2), || None).map(|p| *p), Some(2));
    assert!(c.get_or_build(shadow_key(1), || None).is_none());
}
