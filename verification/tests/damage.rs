use burin::damage::{deduplicate_contained, greedy_merge, make_disjoint, DamageTracker, DirtyVisual};
use burin::geometry::Rect;

#[test]
fn test_deduplicate_contained() {
    let a = Rect::new(0, 0, 100, 100);
    let b = Rect::new(10, 10, 20, 20); // fully inside a
    let c = Rect::new(200, 200, 50, 50);
    let result = deduplicate_contained(vec![a, b, c]);
    assert_eq!(result.len(), 2);
}

#[test]
fn test_greedy_merge_single() {
    let mut rects = vec![Rect::new(0, 0, 100, 50)];
    greedy_merge(&mut rects, 4);
    assert_eq!(rects.len(), 1);
}

#[test]
fn test_greedy_merge_overlapping() {
    let mut rects = vec![
        Rect::new(0, 0, 100, 50),
        Rect::new(80, 0, 100, 50),
        Rect::new(200, 10, 50, 30),
        Rect::new(210, 0, 60, 50),
        Rect::new(400, 400, 100, 100),
    ];
    greedy_merge(&mut rects, 3);
    assert_eq!(rects.len(), 3);
}

#[test]
fn test_make_disjoint() {
    let mut rects = vec![
        Rect::new(0, 0, 100, 50),
        Rect::new(80, 0, 100, 50), // overlaps first
        Rect::new(400, 400, 100, 100),
    ];
    make_disjoint(&mut rects);
    assert_eq!(rects.len(), 2);
    for i in 0..rects.len() {
        for j in (i + 1)..rects.len() {
            assert!(!rects[i].intersects(&rects[j]), "rects must be disjoint");
        }
    }
}

#[test]
fn deduplicate_keeps_both_of_two_equal_rects_once() {
    let a = Rect::new(5, 5, 10, 10);
    let result = deduplicate_contained(vec![a, a]);
    assert_eq!(result, vec![a]);
}

#[test]
fn greedy_merge_unions_the_cheapest_pair() {
    // The two touching rectangles merge; the far one stays.
    let mut rects = vec![
        Rect::new(0, 0, 10, 10),
        Rect::new(10, 0, 10, 10),
        Rect::new(500, 500, 10, 10),
    ];
    greedy_merge(&mut rects, 2);
    assert_eq!(rects.len(), 2);
    assert!(rects.contains(&Rect::new(0, 0, 20, 10)));
    assert!(rects.contains(&Rect::new(500, 500, 10, 10)));
}

#[test]
fn make_disjoint_covers_what_it_was_given() {
    let a = Rect::new(0, 0, 100, 50);
    let b = Rect::new(80, 0, 100, 50);
    let mut rects = vec![a, b];
    make_disjoint(&mut rects);
    for r in [a, b] {
        assert!(rects.iter().any(|o| o.contains_rect(&r)));
    }
}

#[test]
fn tracker_first_frame_damages_new_visual_with_margin() {
    let mut t = DamageTracker::new();
    let viewport = Rect::new(0, 0, 800, 600);
    let dirty = [DirtyVisual { id: 1, visual: Some(Rect::new(100, 100, 50, 50)) }];
    let out = t.compute(&dirty, 4, viewport);
    assert_eq!(out, vec![Rect::new(97, 97, 56, 56)]);
}

#[test]
fn tracker_move_damages_old_and_new_place() {
    let mut t = DamageTracker::new();
    let viewport = Rect::new(0, 0, 800, 600);
    let first = [DirtyVisual { id: 7, visual: Some(Rect::new(10, 10, 20, 20)) }];
    t.compute(&first, 8, viewport);
    let moved = [DirtyVisual { id: 7, visual: Some(Rect::new(300, 300, 20, 20)) }];
    let out = t.compute(&moved, 8, viewport);
    assert_eq!(out.len(), 2);
    assert!(out.iter().any(|r| r.contains_rect(&Rect::new(10, 10, 20, 20))));
    assert!(out.iter().any(|r| r.contains_rect(&Rect::new(300, 300, 20, 20))));
}

#[test]
fn tracker_unchanged_element_damages_only_current_rect() {
    let mut t = DamageTracker::new();
    let viewport = Rect::new(0, 0, 800, 600);
    let d = [DirtyVisual { id: 3, visual: Some(Rect::new(50, 50, 10, 10)) }];
    t.compute(&d, 8, viewport);
    let out = t.compute(&d, 8, viewport);
    assert_eq!(out, vec![Rect::new(47, 47, 16, 16)]);
}

#[test]
fn tracker_removed_element_damages_its_last_rect() {
    let mut t = DamageTracker::new();
    let viewport = Rect::new(0, 0, 800, 600);
    t.compute(&[DirtyVisual { id: 9, visual: Some(Rect::new(200, 200, 10, 10)) }], 8, viewport);
    let out = t.compute(&[DirtyVisual { id: 9, visual: None }], 8, viewport);
    assert_eq!(out, vec![Rect::new(197, 197, 16, 16)]);
    // Gone for good: a second removal damages nothing.
    let again = t.compute(&[DirtyVisual { id: 9, visual: None }], 8, viewport);
    assert!(again.is_empty());
}

#[test]
fn tracker_clamps_to_viewport_and_drops_offscreen() {
    let mut t = DamageTracker::new();
    let viewport = Rect::new(0, 0, 100, 100);
    let dirty = [
        DirtyVisual { id: 1, visual: Some(Rect::new(90, 90, 50, 50)) },
        DirtyVisual { id: 2, visual: Some(Rect::new(1000, 1000, 5, 5)) },
    ];
    let out = t.compute(&dirty, 8, viewport);
    assert_eq!(out, vec![Rect::new(87, 87, 13, 13)]);
}

#[test]
fn tracker_clear_forgets_previous_rects() {
    let mut t = DamageTracker::new();
    let viewport = Rect::new(0, 0, 800, 600);
    t.compute(&[DirtyVisual { id: 4, visual: Some(Rect::new(10, 10, 10, 10)) }], 8, viewport);
    t.clear();
    let out = t.compute(&[DirtyVisual { id: 4, visual: None }], 8, viewport);
    assert!(out.is_empty());
}

#[test]
fn tracker_output_is_disjoint_and_bounded() {
    let mut t = DamageTracker::new();
    let viewport = Rect::new(0, 0, 1000, 1000);
    let mut dirty = Vec::new();
    for k in 0..10u64 {
        let off = (k as i64) * 37;
        dirty.push(DirtyVisual { id: k, visual: Some(Rect::new(off, off / 2, 60, 40)) });
    }
    let out = t.compute(&dirty, 3, viewport);
    assert!(out.len() <= 3);
    for i in 0..out.len() {
        for j in (i + 1)..out.len() {
            assert!(!out[i].intersects(&out[j]));
        }
    }
}
