use burin::draw_order::{draw_order, DrawStep};

#[test]
fn commands_and_texts_merge_by_z_with_backdrops_between() {
    assert_eq!(
        draw_order(&[0, 2], &[1, 2], &[2]),
        vec![
            DrawStep::Command { index: 0 },
            DrawStep::Text { index: 0 },
            DrawStep::Backdrop { index: 0 },
            DrawStep::Command { index: 1 },
            DrawStep::Text { index: 1 },
        ]
    );
}

#[test]
fn backdrop_above_every_item_is_not_applied() {
    assert_eq!(draw_order(&[0], &[], &[5]), vec![DrawStep::Command { index: 0 }]);
    assert_eq!(draw_order(&[], &[], &[1]), vec![]);
}

#[test]
fn backdrops_below_the_first_item_come_first() {
    assert_eq!(
        draw_order(&[3], &[], &[1, 2]),
        vec![
            DrawStep::Backdrop { index: 0 },
            DrawStep::Backdrop { index: 1 },
            DrawStep::Command { index: 0 },
        ]
    );
    // Texts alone, and a tie between a command and a text: the command first.
    assert_eq!(
        draw_order(&[4], &[4], &[]),
        vec![DrawStep::Command { index: 0 }, DrawStep::Text { index: 0 }]
    );
}
