use burin::paint_order::{sorted_cache_matches, z_sorted_children};

#[test]
fn children_paint_lowest_z_first_ties_in_document_order() {
    let children = [(1u64, 0i32), (2, 5), (3, -1), (4, 5), (5, 0)];
    assert_eq!(z_sorted_children(&children), vec![3, 1, 5, 2, 4]);
}

#[test]
fn already_ordered_children_keep_their_order() {
    let children = [(10u64, 0i32), (11, 0), (12, 1), (13, 2)];
    assert_eq!(z_sorted_children(&children), vec![10, 11, 12, 13]);
    assert!(z_sorted_children(&[]).is_empty());
}

#[test]
fn reversed_z_is_reversed() {
    let children = [(1u64, 3i32), (2, 2), (3, 1)];
    assert_eq!(z_sorted_children(&children), vec![3, 2, 1]);
}

#[test]
fn cache_matches_only_identical_lists() {
    assert!(sorted_cache_matches(&[1, 2, 3], &[1, 2, 3]));
    assert!(!sorted_cache_matches(&[1, 3, 2], &[1, 2, 3]));
    assert!(!sorted_cache_matches(&[1, 2], &[1, 2, 3]));
    assert!(sorted_cache_matches(&[], &[]));
}
