use std::cell::Cell;
use std::rc::Rc;

use burin::text_cache::TextSurfaceCache;

const RED: [u8; 4] = [255, 0, 0, 0];
const BLUE: [u8; 4] = [0, 0, 255, 0];

fn surface(name: &str, w: u32, h: u32) -> Option<(String, u32, u32)> {
    Some((name.to_string(), w, h))
}

#[test]
fn same_generation_and_colour_reuses_the_surface() {
    let mut cache: TextSurfaceCache<String> = TextSurfaceCache::new();
    let a = cache.get_or_render(1, 7, RED, || surface("a", 10, 10)).unwrap();
    let b = cache
        .get_or_render(1, 7, RED, || -> Option<(String, u32, u32)> { panic!("cached surface re-rendered") })
        .unwrap();
    assert!(Rc::ptr_eq(&a, &b));
    assert_eq!(*a, "a");
}

#[test]
fn generation_or_colour_change_renders_again() {
    let mut cache: TextSurfaceCache<String> = TextSurfaceCache::new();
    cache.get_or_render(1, 1, RED, || surface("v1", 4, 4));
    let v2 = cache.get_or_render(1, 2, RED, || surface("v2", 4, 4)).unwrap();
    assert_eq!(*v2, "v2");
    let blue = cache.get_or_render(1, 2, BLUE, || surface("blue", 4, 4)).unwrap();
    assert_eq!(*blue, "blue");
}

#[test]
fn failed_render_drops_the_stale_surface() {
    let mut cache: TextSurfaceCache<String> = TextSurfaceCache::new();
    cache.get_or_render(3, 1, RED, || surface("old", 4, 4));
    assert!(cache.get_or_render(3, 2, RED, || None).is_none());
    // The stale surface is gone: even the old generation renders again.
    let rendered = Cell::new(false);
    cache.get_or_render(3, 1, RED, || {
        rendered.set(true);
        surface("again", 4, 4)
    });
    assert!(rendered.get());
}

#[test]
fn least_recently_used_surface_leaves_first() {
    let mut cache: TextSurfaceCache<String> = TextSurfaceCache::new();
    // Two 4 MiB surfaces fill the 8 MiB budget exactly.
    cache.get_or_render(1, 0, RED, || surface("one", 1024, 1024));
    cache.end_frame();
    cache.get_or_render(2, 0, RED, || surface("two", 1024, 1024));
    cache.end_frame();
    // A third one evicts the oldest (element 1) only.
    cache.get_or_render(3, 0, RED, || surface("three", 1024, 1024));
    let two_rendered = Cell::new(false);
    cache.get_or_render(2, 0, RED, || {
        two_rendered.set(true);
        surface("two again", 1, 1)
    });
    assert!(!two_rendered.get());
    let one_rendered = Cell::new(false);
    cache.get_or_render(1, 0, RED, || {
        one_rendered.set(true);
        surface("one again", 1, 1)
    });
    assert!(one_rendered.get());
}

#[test]
fn oversized_surface_is_kept_alone() {
    let mut cache: TextSurfaceCache<String> = TextSurfaceCache::new();
    cache.get_or_render(1, 0, RED, || surface("small", 8, 8));
    let big = cache.get_or_render(2, 0, RED, || surface("big", 3000, 1000)).unwrap();
    assert_eq!(*big, "big");
    let small_rendered = Cell::new(false);
    cache.get_or_render(1, 0, RED, || {
        small_rendered.set(true);
        surface("small", 8, 8)
    });
    assert!(small_rendered.get());
}
