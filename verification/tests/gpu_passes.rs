use burin::gpu_passes::{layer_text_ranges, schedule_passes, GpuPass};

#[test]
fn no_effects_draws_all_layers_in_one_pass() {
    assert_eq!(schedule_passes(&[0, 1, 4], &[], &[]), vec![GpuPass::Layers { start: 0, end: 3 }]);
    assert_eq!(schedule_passes(&[], &[], &[]), vec![]);
}

#[test]
fn effect_splits_layers_at_its_z() {
    assert_eq!(
        schedule_passes(&[0, 1, 2, 3], &[1], &[]),
        vec![
            GpuPass::Layers { start: 0, end: 2 },
            GpuPass::Effects { start: 0, end: 1 },
            GpuPass::Layers { start: 2, end: 4 },
        ]
    );
}

#[test]
fn backdrops_come_before_effects_at_the_same_z() {
    assert_eq!(
        schedule_passes(&[0, 5], &[5, 5], &[2, 5]),
        vec![
            GpuPass::Layers { start: 0, end: 1 },
            GpuPass::Backdrop { index: 0 },
            GpuPass::Layers { start: 1, end: 2 },
            GpuPass::Backdrop { index: 1 },
            GpuPass::Effects { start: 0, end: 2 },
        ]
    );
}

#[test]
fn effect_below_every_layer_is_drawn_first() {
    assert_eq!(
        schedule_passes(&[3], &[1], &[]),
        vec![GpuPass::Effects { start: 0, end: 1 }, GpuPass::Layers { start: 0, end: 1 }]
    );
}

#[test]
fn texts_are_drawn_with_the_layer_of_their_z() {
    assert_eq!(layer_text_ranges(&[0, 2, 5], &[0, 0, 2, 5, 5]), vec![(0, 2), (2, 3), (3, 5)]);
    // A text area whose z has no layer stops the cursor: it and the ones
    // after it are not drawn.
    assert_eq!(layer_text_ranges(&[0, 5], &[0, 3, 5]), vec![(0, 1), (1, 1)]);
}
