use std::rc::Rc;

use burin::downscale::binary64_scale;

use burin::image_registry::{
    debug_image_registry_sizes, image_teardown_cleanup, lookup_image, lookup_image_mips,
    register_image, register_image_for, ImageRegistry,
};
use burin::resource::{Icon, ImageCache, ImageError, ImageId};
use burin::ssr::{encode_png, finish_render, ssr_output, SsrError};

const PNG_SIGNATURE: [u8; 8] = [137, 80, 78, 71, 13, 10, 26, 10];

#[test]
fn register_then_lookup_gives_the_pixels_back() {
    let mut reg = ImageRegistry::new();
    let px = Rc::new(vec![1u8, 2, 3, 4, 5, 6, 7, 8]);
    register_image(&mut reg, 42, 2, 1, px.clone());
    let (w, h, got) = lookup_image(&reg, 42).unwrap();
    assert_eq!((w, h), (2, 1));
    assert_eq!(*got, *px);
    assert!(lookup_image(&reg, 43).is_none());
    assert_eq!(debug_image_registry_sizes(&reg), (1, 1, 0));
}

#[test]
fn registering_a_known_hash_keeps_the_first_image() {
    let mut reg = ImageRegistry::new();
    register_image(&mut reg, 1, 1, 1, Rc::new(vec![9u8; 4]));
    register_image(&mut reg, 1, 1, 1, Rc::new(vec![7u8; 4]));
    assert_eq!(*lookup_image(&reg, 1).unwrap().2, vec![9u8; 4]);
}

#[test]
fn oversized_images_are_scaled_to_the_limit() {
    let mut reg = ImageRegistry::new();
    let px = Rc::new(vec![200u8; 8192 * 10 * 4]);
    register_image(&mut reg, 5, 8192, 10, px);
    let (w, h, got) = lookup_image(&reg, 5).unwrap();
    assert_eq!((w, h), (4096, 5));
    assert_eq!(got.len(), 4096 * 5 * 4);
    assert!(got.iter().all(|&b| b == 200));
}

#[test]
fn last_owner_teardown_evicts_the_image() {
    let mut reg = ImageRegistry::new();
    register_image_for(&mut reg, 10, 77, 1, 1, Rc::new(vec![1u8; 4]));
    register_image_for(&mut reg, 11, 77, 1, 1, Rc::new(vec![1u8; 4]));
    assert_eq!(debug_image_registry_sizes(&reg), (1, 1, 2));
    image_teardown_cleanup(&mut reg, 10);
    assert!(lookup_image(&reg, 77).is_some());
    image_teardown_cleanup(&mut reg, 11);
    assert!(lookup_image(&reg, 77).is_none());
    assert_eq!(debug_image_registry_sizes(&reg), (0, 0, 0));
}

#[test]
fn pinned_images_survive_teardown() {
    let mut reg = ImageRegistry::new();
    register_image(&mut reg, 3, 1, 1, Rc::new(vec![1u8; 4]));
    register_image_for(&mut reg, 20, 3, 1, 1, Rc::new(vec![1u8; 4]));
    image_teardown_cleanup(&mut reg, 20);
    assert!(lookup_image(&reg, 3).is_some());
}

#[test]
fn registering_twice_from_one_element_counts_once() {
    let mut reg = ImageRegistry::new();
    register_image_for(&mut reg, 1, 8, 1, 1, Rc::new(vec![1u8; 4]));
    register_image_for(&mut reg, 1, 8, 1, 1, Rc::new(vec![1u8; 4]));
    image_teardown_cleanup(&mut reg, 1);
    assert!(lookup_image(&reg, 8).is_none());
}

#[test]
fn mip_chain_is_built_once_and_cached() {
    let mut reg = ImageRegistry::new();
    register_image(&mut reg, 6, 4, 4, Rc::new(vec![50u8; 64]));
    let m1 = lookup_image_mips(&mut reg, 6).unwrap();
    assert_eq!((m1.width, m1.height, m1.levels.len()), (4, 4, 2));
    let m2 = lookup_image_mips(&mut reg, 6).unwrap();
    assert!(Rc::ptr_eq(&m1, &m2));
    assert!(lookup_image_mips(&mut reg, 999).is_none());
}

#[test]
fn png_roundtrip_through_the_image_cache() {
    let frame = [0xFF00_00FFu32, 0xFF00_FF00];
    let png = encode_png(&frame, 2, 1).unwrap();
    assert_eq!(&png[..8], &PNG_SIGNATURE);
    let mut cache = ImageCache::new();
    let id = cache.load_from_bytes(&png).unwrap();
    assert_eq!(cache.size(id), Some((2, 1)));
    assert_eq!(cache.pixels(id).unwrap(), &[255, 0, 0, 255, 0, 255, 0, 255]);
}

#[test]
fn gif_images_decode_too() {
    // A 1x1 GIF whose only pixel is transparent.
    let gif: [u8; 43] = [
        0x47, 0x49, 0x46, 0x38, 0x39, 0x61, 0x01, 0x00, 0x01, 0x00, 0x80, 0x00, 0x00, 0x00, 0x00,
        0x00, 0xFF, 0xFF, 0xFF, 0x21, 0xF9, 0x04, 0x01, 0x00, 0x00, 0x00, 0x00, 0x2C, 0x00, 0x00,
        0x00, 0x00, 0x01, 0x00, 0x01, 0x00, 0x00, 0x02, 0x02, 0x44, 0x01, 0x00, 0x3B,
    ];
    let mut cache = ImageCache::new();
    let id = cache.load_from_bytes(&gif).unwrap();
    assert_eq!(cache.size(id), Some((1, 1)));
    let px = cache.pixels(id).unwrap();
    assert_eq!(px.len(), 4);
    assert_eq!(px[3], 0);
}

#[test]
fn garbage_bytes_give_a_decode_error() {
    let mut cache = ImageCache::new();
    match cache.load_from_bytes(b"definitely not an image") {
        Err(ImageError::Decode(msg)) => {
            assert!(!msg.is_empty());
            let shown = ImageError::Decode(msg.clone()).message();
            assert_eq!(shown, format!("decode error: {msg}"));
        }
        other => panic!("expected a decode error, got {other:?}"),
    }
    assert_eq!(cache.size(ImageId(1)), None);
}

#[test]
fn unsupported_error_message() {
    assert_eq!(ImageError::Unsupported("no codec".to_string()).message(), "unsupported: no codec");
}

#[test]
fn image_ids_count_up_and_release_frees() {
    let png = encode_png(&[0xFFFF_FFFF], 1, 1).unwrap();
    let mut cache = ImageCache::new();
    let a = cache.load_from_bytes(&png).unwrap();
    let b = cache.load_from_bytes(&png).unwrap();
    assert_eq!((a, b), (ImageId(1), ImageId(2)));
    cache.retain(a);
    cache.release(a);
    assert!(cache.size(a).is_some());
    cache.release(a);
    assert!(cache.size(a).is_none());
    assert!(cache.pixels(b).is_some());
}

#[test]
fn icons_have_their_path_data() {
    assert_eq!(Icon::Check.path_data(), "M20 6L9 17l-5-5");
    assert_eq!(Icon::Minus.path_data(), "M5 12h14");
    for icon in [Icon::Save, Icon::Settings, Icon::Calendar, Icon::Phone, Icon::Search] {
        assert!(icon.path_data().starts_with('M'));
    }
}

#[test]
fn finish_render_packages_pixels_and_png() {
    let rgba = vec![0xFF00_00FFu32; 4];
    let out = finish_render(rgba.clone(), 2, 2).unwrap();
    assert_eq!((out.width, out.height), (2, 2));
    assert_eq!(out.rgba, rgba);
    assert_eq!(&out.png[..8], &PNG_SIGNATURE);
    let mut cache = ImageCache::new();
    let id = cache.load_from_bytes(&out.png).unwrap();
    assert_eq!(cache.pixels(id).unwrap(), &[255u8, 0, 0, 255].repeat(4)[..]);
}

#[test]
fn empty_frame_is_an_encode_error() {
    match finish_render(Vec::new(), 0, 0) {
        Err(SsrError::Encode(m)) => {
            assert!(!m.is_empty());
            let shown = SsrError::Encode(m.clone()).message();
            assert_eq!(shown, format!("SSR PNG encode error: {m}"));
        }
        _ => panic!("a zero-sized PNG cannot be encoded"),
    }
}

#[test]
fn ssr_output_maps_encoder_failure() {
    match ssr_output(vec![1, 2], 2, 1, Err("boom".to_string())) {
        Err(SsrError::Encode(m)) => assert_eq!(m, "boom"),
        _ => panic!("expected an encode error"),
    }
    let ok = ssr_output(vec![1, 2], 2, 1, Ok(vec![9, 9])).ok().unwrap();
    assert_eq!((ok.width, ok.height, ok.rgba, ok.png), (2, 1, vec![1, 2], vec![9, 9]));
}

#[test]
fn ssr_error_messages() {
    assert_eq!(SsrError::Mount("m".to_string()).message(), "SSR mount error: m");
    assert_eq!(SsrError::Render("r".to_string()).message(), "SSR render error: r");
}

#[test]
fn oversize_sides_follow_binary64_scaling() {
    assert_eq!(binary64_scale(4237, 4237), 4095);
    assert_eq!(binary64_scale(1, 4237), 0);
    assert_eq!(binary64_scale(5000, 8192), 2500);
    assert_eq!(binary64_scale(8192, 8192), 4096);
    assert_eq!(binary64_scale(4097, 4097), 4096);
    assert_eq!(binary64_scale(3000, 4097), 2999);
    assert_eq!(binary64_scale(6000, 10000), 2457);
    assert_eq!(binary64_scale(u32::MAX, u32::MAX), 4096);
    let mut reg = ImageRegistry::new();
    register_image(&mut reg, 9, 4237, 2, Rc::new(vec![10u8; 4237 * 2 * 4]));
    let (w, h, got) = lookup_image(&reg, 9).unwrap();
    assert_eq!((w, h), (4095, 1));
    assert_eq!(got.len(), 4095 * 4);
}

#[test]
fn box_filter_spans_follow_binary64_ratios() {
    // 30 pixels down to 22: the ratio 30/22 is not exact, and pixel 11
    // starts at source pixel 14 (11 * 1.3636... rounds just below 15).
    let mut src = Vec::new();
    for i in 0..30u8 {
        src.extend_from_slice(&[i * 8, 0, 0, 255]);
    }
    let dst = burin::mipmap::box_filter(&src, 30, 1, 22, 1);
    assert_eq!(dst.len(), 22 * 4);
    assert_eq!(dst[11 * 4], 120);
    assert_eq!(dst[0], (0 + 8) / 2);
}
