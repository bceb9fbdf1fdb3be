use burin::cursor::{glyph_pos_at_ci, move_visual_row, visual_row_at_exp_ci, CursorAnchor};

#[test]
fn visual_row_counts_glyphs_across_rows() {
    let runs = [3usize, 0, 2];
    assert_eq!(visual_row_at_exp_ci(&runs, 0), 0);
    assert_eq!(visual_row_at_exp_ci(&runs, 1), 0);
    assert_eq!(visual_row_at_exp_ci(&runs, 3), 0);
    // The empty middle row holds no glyph, so index 4 is on row 2.
    assert_eq!(visual_row_at_exp_ci(&runs, 4), 2);
    assert_eq!(visual_row_at_exp_ci(&runs, 5), 2);
    assert_eq!(visual_row_at_exp_ci(&runs, 6), 2);
    assert_eq!(visual_row_at_exp_ci(&[2, 2], 3), 1);
    assert_eq!(visual_row_at_exp_ci(&[], 3), 0);
}

#[test]
fn cursor_at_zero_starts_the_first_glyph() {
    assert_eq!(glyph_pos_at_ci(&[3, 0, 2], 0, false), (0, CursorAnchor::GlyphStart { run: 0, glyph: 0 }));
    assert_eq!(glyph_pos_at_ci(&[0, 2], 0, false), (1, CursorAnchor::GlyphStart { run: 1, glyph: 0 }));
    assert_eq!(glyph_pos_at_ci(&[], 0, false), (0, CursorAnchor::LineStart));
}

#[test]
fn cursor_follows_the_previous_glyph() {
    let runs = [3usize, 0, 2];
    assert_eq!(glyph_pos_at_ci(&runs, 2, false), (0, CursorAnchor::GlyphEnd { run: 0, glyph: 1 }));
    assert_eq!(glyph_pos_at_ci(&runs, 5, false), (2, CursorAnchor::GlyphEnd { run: 2, glyph: 1 }));
}

#[test]
fn cursor_after_newline_jumps_to_next_row() {
    let runs = [3usize, 0, 2];
    assert_eq!(glyph_pos_at_ci(&runs, 3, true), (2, CursorAnchor::GlyphStart { run: 2, glyph: 0 }));
    // Nothing after the last glyph: left edge of the last row.
    assert_eq!(glyph_pos_at_ci(&runs, 5, true), (2, CursorAnchor::LineStart));
    assert_eq!(glyph_pos_at_ci(&runs, 9, false), (2, CursorAnchor::LineStart));
}

#[test]
fn move_visual_row_clamps_and_keeps_x() {
    assert_eq!(move_visual_row(0, 4, 9, 1, |_| 100), (0, 0));
    assert_eq!(move_visual_row(3, 1, 7, -5, |row| row * 10 + 1), (0, 1));
    assert_eq!(move_visual_row(3, 1, 7, 10, |row| row * 10 + 1), (2, 21));
    assert_eq!(move_visual_row(3, 1, 7, 0, |_| -> usize { panic!("row unchanged") }), (1, 7));
    assert_eq!(move_visual_row(3, 2, 7, 1, |_| -> usize { panic!("row unchanged") }), (2, 7));
}
