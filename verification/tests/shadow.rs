use burin::shadow::{
    blit_nine_patch, draw_shadow_patch, exact_patch_from_plane, nine_patch_from_plane, shadow_key,
    NinePatch, ShadowPatch,
};
use burin::shadow_cache::{ShadowCache, ShadowKey};

fn small_patch() -> NinePatch {
    NinePatch {
        c: 1,
        top_left: vec![0xFF00_0001],
        top_right: vec![0xFF00_0002],
        bottom_left: vec![0xFF00_0003],
        bottom_right: vec![0xFF00_0004],
        top: vec![128],
        bottom: vec![64],
        left: vec![32],
        right: vec![16],
    }
}

#[test]
fn nine_patch_draws_each_piece_once() {
    let mut px = vec![0u32; 30];
    blit_nine_patch(&mut px, 6, 5, &small_patch(), 1, 1, 4, 3, 255, 255, 255, 255, None, None);
    let expected: Vec<u32> = vec![
        0, 0, 0, 0, 0, 0,
        0, 0xFF00_0001, 0x8080_8080, 0x8080_8080, 0xFF00_0002, 0,
        0, 0x2020_2020, 0xFFFF_FFFF, 0xFFFF_FFFF, 0x1010_1010, 0,
        0, 0xFF00_0003, 0x4040_4040, 0x4040_4040, 0xFF00_0004, 0,
        0, 0, 0, 0, 0, 0,
    ];
    assert_eq!(px, expected);
}

#[test]
fn nine_patch_respects_clip_and_frame() {
    let mut px = vec![0u32; 30];
    // Box hangs off the left edge; clip keeps only columns 0..2.
    blit_nine_patch(&mut px, 6, 5, &small_patch(), -1, 0, 4, 3, 255, 255, 255, 255, None, Some((0, 0, 2, 5)));
    assert_eq!(&px[0..6], &[0x8080_8080, 0x8080_8080, 0, 0, 0, 0]);
    assert_eq!(&px[6..12], &[0xFFFF_FFFF, 0xFFFF_FFFF, 0, 0, 0, 0]);
    assert_eq!(&px[12..18], &[0x4040_4040, 0x4040_4040, 0, 0, 0, 0]);
    assert!(px[18..].iter().all(|&p| p == 0));
}

#[test]
fn nine_patch_is_cut_from_the_template() {
    let plane: Vec<u8> = (0..16u8).collect();
    let p = nine_patch_from_plane(&plane, 4, 4, 1, 255, 255, 255, 255).unwrap();
    assert_eq!(p.c, 1);
    assert_eq!(p.top_left, vec![0]);
    assert_eq!(p.top_right, vec![0x0303_0303]);
    assert_eq!(p.bottom_left, vec![0x0C0C_0C0C]);
    assert_eq!(p.bottom_right, vec![0x0F0F_0F0F]);
    assert_eq!((p.top[0], p.bottom[0], p.left[0], p.right[0]), (2, 14, 8, 11));
    assert!(nine_patch_from_plane(&plane, 4, 4, 0, 255, 255, 255, 255).is_none());
}

#[test]
fn exact_patch_colourises_the_whole_template() {
    match exact_patch_from_plane(&[0, 200], 2, 1, 255, 255, 255, 255) {
        Some(ShadowPatch::Exact { pixmap, w, h }) => {
            assert_eq!((w, h), (2, 1));
            assert_eq!(pixmap, vec![0, 0xC8C8_C8C8]);
        }
        _ => panic!("expected an exact patch"),
    }
    assert!(exact_patch_from_plane(&[], 0, 3, 255, 255, 255, 255).is_none());
}

#[test]
fn exact_shadow_is_blitted_as_is() {
    let patch = ShadowPatch::Exact { pixmap: vec![0xFF00_00FF, 0], w: 2, h: 1 };
    let mut px = vec![7u32; 4];
    draw_shadow_patch(&mut px, 2, 2, &patch, 0, 1, 2, 1, 0, 0, 0, 0, None, None);
    assert_eq!(px, vec![7, 7, 0xFF00_00FF, 7]);
}

#[test]
fn cached_nine_patch_draws_through_the_cache() {
    let mut cache: ShadowCache<ShadowPatch> = ShadowCache::new();
    let key = ShadowKey { ew: 0, eh: 0, radii: [0; 4], blur: 4, color: [255; 4] };
    let patch = cache.get_or_build(key, || Some(ShadowPatch::Nine(small_patch()))).unwrap();
    let mut px = vec![0u32; 30];
    draw_shadow_patch(&mut px, 6, 5, &patch, 1, 1, 4, 3, 255, 255, 255, 255, None, None);
    assert_eq!(px[7], 0xFF00_0001);
    assert_eq!(px[14], 0xFFFF_FFFF);
}

#[test]
fn nine_patch_key_ignores_the_element_size() {
    // pad 3, radius 4: corner span 3 + (3 + 4 + 1) = 11; a box needs > 22 px.
    let (k1, nine1) = shadow_key(40, 30, 3, 4, [1, 2, 3, 4], 6, [0, 0, 0, 90]);
    let (k2, nine2) = shadow_key(90, 17, 3, 4, [1, 2, 3, 4], 6, [0, 0, 0, 90]);
    assert!(nine1 && nine2);
    assert_eq!((k1.ew, k1.eh, k2.ew, k2.eh), (0, 0, 0, 0));
    assert_eq!((k1.radii, k1.blur, k1.color), ([1, 2, 3, 4], 6, [0, 0, 0, 90]));
    // 16 + 6 = 22 is not more than 22: an exact entry keyed by size.
    let (k3, nine3) = shadow_key(16, 30, 3, 4, [1, 2, 3, 4], 6, [0, 0, 0, 90]);
    assert!(!nine3);
    assert_eq!((k3.ew, k3.eh), (16, 30));
}
