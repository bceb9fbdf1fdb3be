use burin::backdrop::{composite_backdrop, snapshot_region};

#[test]
fn snapshot_copies_the_region_rows() {
    let px = [1u32, 2, 3, 4, 5, 6];
    assert_eq!(snapshot_region(&px, 3, 1, 3, 0, 2), vec![2, 3, 5, 6]);
    assert_eq!(snapshot_region(&px, 3, 0, 3, 1, 2), vec![4, 5, 6]);
    assert_eq!(snapshot_region(&px, 3, 1, 1, 0, 2), Vec::<u32>::new());
}

#[test]
fn backdrop_replaces_covered_and_keeps_uncovered_pixels() {
    let mut px = [7u32, 8];
    composite_backdrop(&mut px, 2, 0, 2, 0, 1, 0, 2, 0, 1, &[0x1020_3040, 0x5060_7080], &[255, 0], 0, 0, 0, 0);
    assert_eq!(px, [0x1020_3040, 8]);
}

#[test]
fn backdrop_tint_and_partial_coverage() {
    let mut px = [0u32, 0];
    // Opaque tint replaces the blurred colour; half coverage mixes it in.
    composite_backdrop(&mut px, 2, 0, 2, 0, 1, 0, 2, 0, 1, &[0, 0xFF00_00FF], &[255, 128], 1, 2, 3, 255);
    assert_eq!(px[0], 0xFF03_0201);
    assert_eq!(px[1], 0x8001_0100);
    let mut half = [0u32];
    composite_backdrop(&mut half, 1, 0, 1, 0, 1, 0, 1, 0, 1, &[0xFF00_00FF], &[128], 0, 0, 0, 0);
    assert_eq!(half[0], 0x8000_0080);
}

#[test]
fn backdrop_stays_inside_the_damage_rect() {
    let mut px = [7u32, 8, 9, 10];
    composite_backdrop(&mut px, 2, 0, 2, 0, 2, 1, 2, 1, 2, &[1, 2, 3, 4], &[255; 4], 0, 0, 0, 0);
    assert_eq!(px, [7, 8, 9, 4]);
}
