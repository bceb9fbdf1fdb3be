use burin::text::{
    byte_to_char_index, char_index_to_byte, char_index_to_cursor, char_utf8_width,
    cursor_to_char_index, expanded_to_raw, raw_to_expanded, TextCursor,
};

fn roundtrip(text: &str) {
    let n = text.chars().count();
    for ci in 0..=n {
        let cur = char_index_to_cursor(text, ci);
        let back = cursor_to_char_index(text, cur);
        assert_eq!(
            back, ci,
            "roundtrip failed at char_index {ci} for {text:?} (cursor={cur:?})"
        );
    }
}

#[test]
fn roundtrip_single_line() {
    roundtrip("abcdef");
}

#[test]
fn roundtrip_multiline() {
    roundtrip("abc\ndef\nghi");
}

#[test]
fn roundtrip_with_empty_lines() {
    roundtrip("abc\n\ndef\n\n\nx");
}

#[test]
fn roundtrip_multibyte() {
    roundtrip("中文\n简体字\n한글");
}

#[test]
fn roundtrip_leading_and_trailing_newline() {
    roundtrip("\nabc\n");
}

#[test]
fn empty_line_is_representable() {
    // "abc\n\ndef": char 4 is the start of the empty line (line 1, byte 0).
    let text = "abc\n\ndef";
    let cur = char_index_to_cursor(text, 4);
    assert_eq!(
        cur,
        TextCursor::new(1, 0),
        "start of empty line must be line 1 byte 0"
    );
    assert_eq!(cursor_to_char_index(text, TextCursor::new(1, 0)), 4);
}

#[test]
fn line_start_positions() {
    // "abc\ndef": char 4 = 'd' = line 1 byte 0.
    let text = "abc\ndef";
    assert_eq!(char_index_to_cursor(text, 4), TextCursor::new(1, 0));
    // char 0 = line 0 byte 0.
    assert_eq!(char_index_to_cursor(text, 0), TextCursor::new(0, 0));
}

#[test]
fn cursor_index_is_a_byte_offset() {
    // '中' is three bytes: the second character of the line starts at byte 3.
    assert_eq!(char_index_to_cursor("中文", 1), TextCursor::new(0, 3));
    assert_eq!(cursor_to_char_index("中文", TextCursor::new(0, 3)), 1);
}

#[test]
fn index_past_end_gives_end_position() {
    assert_eq!(char_index_to_cursor("ab\ncd", 99), TextCursor::new(1, 2));
}

#[test]
fn cursor_past_line_end_clamps_to_line_end() {
    // Line 0 of "ab\ncd" ends before the newline, at char 2.
    assert_eq!(cursor_to_char_index("ab\ncd", TextCursor::new(0, 50)), 2);
}

#[test]
fn cursor_past_last_line_gives_char_count() {
    assert_eq!(cursor_to_char_index("ab\ncd", TextCursor::new(7, 0)), 5);
}

#[test]
fn utf8_widths() {
    assert_eq!(char_utf8_width('a'), 1);
    assert_eq!(char_utf8_width('é'), 2);
    assert_eq!(char_utf8_width('中'), 3);
    assert_eq!(char_utf8_width('😀'), 4);
}

#[test]
fn expanded_counts_tabs_as_four_and_newlines_as_nothing() {
    let text = "a\tb\nc";
    assert_eq!(raw_to_expanded(text, 0), 0);
    assert_eq!(raw_to_expanded(text, 1), 1);
    assert_eq!(raw_to_expanded(text, 2), 5);
    assert_eq!(raw_to_expanded(text, 3), 6);
    assert_eq!(raw_to_expanded(text, 4), 6);
    assert_eq!(raw_to_expanded(text, 5), 7);
    assert_eq!(raw_to_expanded(text, 50), 7);
}

#[test]
fn expanded_to_raw_inverts_raw_to_expanded() {
    let text = "a\tb\nc\r\nd";
    let n = text.chars().count();
    for ci in 0..=n {
        let exp = raw_to_expanded(text, ci);
        let back = expanded_to_raw(text, exp);
        // Landing on the first raw index with the same expanded position.
        assert!(back <= ci);
        assert_eq!(raw_to_expanded(text, back), exp);
    }
}

#[test]
fn expanded_inside_a_tab_maps_to_after_it() {
    // Expanded positions 2..=5 fall inside or at the end of the tab.
    let text = "a\tb";
    assert_eq!(expanded_to_raw(text, 1), 1);
    assert_eq!(expanded_to_raw(text, 3), 2);
    assert_eq!(expanded_to_raw(text, 5), 2);
    assert_eq!(expanded_to_raw(text, 6), 3);
    assert_eq!(expanded_to_raw(text, 100), 3);
}

#[test]
fn char_and_byte_indices_roundtrip() {
    let s = "aé中😀";
    assert_eq!(char_index_to_byte(s, 0), 0);
    assert_eq!(char_index_to_byte(s, 1), 1);
    assert_eq!(char_index_to_byte(s, 2), 3);
    assert_eq!(char_index_to_byte(s, 3), 6);
    assert_eq!(char_index_to_byte(s, 4), 10);
    assert_eq!(char_index_to_byte(s, 9), 10);
    for ci in 0..=4 {
        assert_eq!(byte_to_char_index(s, char_index_to_byte(s, ci)), ci);
    }
    // A byte inside a character counts that character as before it.
    assert_eq!(byte_to_char_index(s, 4), 3);
    assert_eq!(byte_to_char_index(s, 100), 4);
}
