use burin::gpu_state::{
    grown_capacity, pad_rows, padded_bpr, persistent_target_size, PathMeshCache, TextureCache,
    MAX_GPU_IMAGES,
};

#[test]
fn persistent_targets_rebuild_only_on_size_change() {
    assert_eq!(persistent_target_size(None, None), None);
    assert_eq!(persistent_target_size(Some((0, 10)), None), None);
    assert_eq!(persistent_target_size(Some((800, 600)), None), Some((800, 600)));
    assert_eq!(persistent_target_size(Some((800, 600)), Some((800, 600))), None);
    assert_eq!(persistent_target_size(Some((800, 600)), Some((640, 480))), Some((800, 600)));
}

#[test]
fn buffers_grow_to_powers_of_two_from_256() {
    assert_eq!(grown_capacity(512, 300), None);
    assert_eq!(grown_capacity(0, 0), None);
    assert_eq!(grown_capacity(0, 1), Some(256));
    assert_eq!(grown_capacity(0, 256), Some(256));
    assert_eq!(grown_capacity(256, 257), Some(512));
    assert_eq!(grown_capacity(1024, 5000), Some(8192));
}

#[test]
fn path_meshes_unused_for_long_are_trimmed_every_30_frames() {
    let mut cache: PathMeshCache<Vec<u32>> = PathMeshCache::new();
    cache.insert(1, vec![1, 2, 3]);
    for _ in 0..60 {
        cache.end_frame();
    }
    // Frame 60: threshold 0, the mesh from frame 0 survives.
    assert_eq!(cache.get(1), Some(&vec![1, 2, 3]));
    for _ in 0..90 {
        cache.end_frame();
    }
    // Last used at frame 60; at frame 150 the threshold is 90.
    assert_eq!(cache.get(1), None);
}

#[test]
fn over_256_meshes_the_stricter_trim_applies() {
    let mut cache: PathMeshCache<u8> = PathMeshCache::new();
    for k in 0..300u64 {
        cache.insert(k, 0);
    }
    cache.end_frame(); // frame 1: threshold 0 keeps everything
    assert!(cache.get(5).is_some());
    for _ in 0..30 {
        cache.end_frame();
    }
    // Frame 31 with 300 meshes: those unused since frame 0 are dropped,
    // mesh 5 (used at frame 1) stays.
    assert!(cache.get(7).is_none());
    assert!(cache.get(5).is_some());
}

#[test]
fn padded_bpr_rounds_rows_to_256_bytes() {
    assert_eq!(padded_bpr(1), 256);
    assert_eq!(padded_bpr(64), 256);
    assert_eq!(padded_bpr(65), 512);
    assert_eq!(padded_bpr(0), 0);
}

#[test]
fn pad_rows_zero_fills_each_row() {
    let level = [1u8, 2, 3, 4, 5, 6];
    assert_eq!(pad_rows(&level, 3, 5, 2), vec![1, 2, 3, 0, 0, 4, 5, 6, 0, 0]);
    assert_eq!(pad_rows(&level, 2, 2, 3), vec![1, 2, 3, 4, 5, 6]);
}

#[test]
fn texture_cache_uploads_once_and_evicts_lru() {
    let mut c: TextureCache<u64> = TextureCache::new();
    for h in 0..MAX_GPU_IMAGES as u64 {
        c.begin_frame();
        c.ensure(h, || Some(h * 10));
    }
    assert_eq!(c.get(5), Some(&50));
    // Cached: upload is not called.
    c.ensure(5, || -> Option<u64> { panic!("already cached") });
    // Image 0 is drawn again this frame, so image 1 is now the oldest.
    c.begin_frame();
    c.touch(&[0, 999]);
    c.ensure(1000, || Some(7));
    assert_eq!(c.get(1000), Some(&7));
    assert_eq!(c.get(0), Some(&0));
    assert_eq!(c.get(1), None);
    // A failed upload still made room.
    c.ensure(2000, || None);
    assert_eq!(c.get(2000), None);
    assert_eq!(c.get(2), None);
}
