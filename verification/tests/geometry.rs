use burin::geometry::{intersect_rects, Rect};

#[test]
fn union_is_the_bounding_box() {
    let a = Rect::new(0, 0, 10, 10);
    let b = Rect::new(20, 5, 5, 30);
    assert_eq!(a.union(&b), Rect::new(0, 0, 25, 35));
    assert_eq!(b.union(&a), Rect::new(0, 0, 25, 35));
}

#[test]
fn areas_and_overlap() {
    let a = Rect::new(0, 0, 10, 10);
    let b = Rect::new(5, 5, 10, 10);
    assert_eq!(a.area(), 100);
    assert_eq!(a.intersection_area(&b), 25);
    assert_eq!(a.intersection_area(&Rect::new(10, 0, 5, 5)), 0);
    assert!(a.right() == 10 && a.bottom() == 10);
}

#[test]
fn touching_rects_do_not_intersect() {
    let a = Rect::new(0, 0, 10, 10);
    assert!(!a.intersects(&Rect::new(10, 0, 10, 10)));
    assert!(a.intersects(&Rect::new(9, 9, 10, 10)));
}

#[test]
fn containment_includes_edges() {
    let a = Rect::new(0, 0, 10, 10);
    assert!(a.contains_rect(&a));
    assert!(a.contains_rect(&Rect::new(2, 2, 8, 8)));
    assert!(!a.contains_rect(&Rect::new(2, 2, 9, 8)));
}

#[test]
fn intersect_rects_clips_and_collapses() {
    let a = Rect::new(0, 0, 10, 10);
    let b = Rect::new(5, 5, 10, 10);
    assert_eq!(intersect_rects(a, b), Rect::new(5, 5, 5, 5));
    let far = intersect_rects(a, Rect::new(50, 50, 5, 5));
    assert_eq!((far.width, far.height), (0, 0));
}
