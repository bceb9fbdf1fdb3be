//! Text index conversions: character indices, byte offsets, line cursors and
//! the tab-expanded index space used by the text shaper.

use vstd::prelude::*;
use vstd::string::StringSliceAdditionalSpecFns;

verus! {

broadcast use vstd::string::axiom_spec_iter;

/// A position in multi-line text: the logical line (lines are split on
/// `'\n'`) and the **byte** offset within that line.
#[derive(Clone, Copy, Debug, PartialEq, Eq)]
pub struct TextCursor {
    pub line: usize,
    pub index: usize,
}

impl TextCursor {
    pub fn new(line: usize, index: usize) -> (c: TextCursor)
        ensures
            c.line == line,
            c.index == index,
    {
        TextCursor { line, index }
    }
}

// ── Specification ────────────────────────────────────────────────────

/// Number of bytes in the UTF-8 encoding of `c`.
pub open spec fn utf8_width(c: char) -> nat {
    if (c as u32) < 0x80 {
        1
    } else if (c as u32) < 0x800 {
        2
    } else if (c as u32) < 0x10000 {
        3
    } else {
        4
    }
}

/// Number of bytes in the UTF-8 encoding of a character sequence.
pub open spec fn byte_len(s: Seq<char>) -> nat
    decreases s.len(),
{
    if s.len() == 0 {
        0
    } else {
        byte_len(s.drop_last()) + utf8_width(s.last())
    }
}

/// The (line, byte-in-line) position reached after reading the characters
/// of `p` from the start of a text.
pub open spec fn line_position(p: Seq<char>) -> (nat, nat)
    decreases p.len(),
{
    if p.len() == 0 {
        (0, 0)
    } else {
        let prev = line_position(p.drop_last());
        if p.last() == '\n' {
            (prev.0 + 1, 0)
        } else {
            (prev.0, prev.1 + utf8_width(p.last()))
        }
    }
}

/// The prefix of `s` made of its first `n` characters (all of `s` when `n`
/// is past its end).
pub open spec fn prefix(s: Seq<char>, n: int) -> Seq<char> {
    if n <= s.len() {
        s.take(n)
    } else {
        s
    }
}

/// Whether scanning `s` for the cursor `(line, index)` stops at character
/// position `i`: either the position of `i` is the cursor itself, or `i`
/// is the newline ending the cursor's line and the cursor lies past that
/// line's last byte.
pub open spec fn cursor_stops_at(s: Seq<char>, line: nat, index: nat, i: int) -> bool {
    let pos = line_position(s.take(i));
    ||| (pos.0 == line && pos.1 == index)
    ||| (s[i] == '\n' && pos.0 == line && pos.1 < index)
}

/// The first character position at or after `i` where the scan for the
/// cursor stops, or the length of `s` when it never does.
pub open spec fn cursor_char_index_from(s: Seq<char>, line: nat, index: nat, i: int) -> int
    decreases s.len() - i,
{
    if i >= s.len() {
        s.len() as int
    } else if cursor_stops_at(s, line, index, i) {
        i
    } else {
        cursor_char_index_from(s, line, index, i + 1)
    }
}

/// The character index that a cursor denotes in `s`.
pub open spec fn cursor_char_index(s: Seq<char>, line: nat, index: nat) -> int {
    cursor_char_index_from(s, line, index, 0)
}

/// Width of a character in the expanded index space of the shaper: a tab
/// becomes four spaces, line breaks have no glyph.
pub open spec fn expanded_width(c: char) -> nat {
    if c == '\t' {
        4
    } else if c == '\n' || c == '\r' {
        0
    } else {
        1
    }
}

/// Expanded length of a character sequence.
pub open spec fn expanded_len(s: Seq<char>) -> nat
    decreases s.len(),
{
    if s.len() == 0 {
        0
    } else {
        expanded_len(s.drop_last()) + expanded_width(s.last())
    }
}

/// The least raw index `i` whose expanded prefix reaches `e`, or the length
/// of `s` when no prefix does, searching from `i`.
pub open spec fn raw_index_of_expanded_from(s: Seq<char>, e: nat, i: int) -> int
    decreases s.len() - i,
{
    if i >= s.len() {
        s.len() as int
    } else if expanded_len(s.take(i)) >= e {
        i
    } else {
        raw_index_of_expanded_from(s, e, i + 1)
    }
}

/// The raw index that the expanded index `e` maps back to.
pub open spec fn raw_index_of_expanded(s: Seq<char>, e: nat) -> int {
    raw_index_of_expanded_from(s, e, 0)
}

/// The number of characters of `s` that start before byte offset `b`,
/// searching from character `i`.
pub open spec fn char_count_before_byte_from(s: Seq<char>, b: nat, i: int) -> int
    decreases s.len() - i,
{
    if i >= s.len() {
        s.len() as int
    } else if byte_len(s.take(i)) >= b {
        i
    } else {
        char_count_before_byte_from(s, b, i + 1)
    }
}

// ── Lemmas ───────────────────────────────────────────────────────────

proof fn lemma_take_succ(s: Seq<char>, i: int)
    requires
        0 <= i < s.len(),
    ensures
        s.take(i + 1).drop_last() == s.take(i),
        s.take(i + 1).last() == s[i],
        s.take(i + 1).len() == i + 1,
{
    assert(s.take(i + 1).drop_last() =~= s.take(i));
}

proof fn lemma_take_full(s: Seq<char>)
    ensures
        s.take(s.len() as int) == s,
{
    assert(s.take(s.len() as int) =~= s);
}

proof fn lemma_byte_len_concat(a: Seq<char>, b: Seq<char>)
    ensures
        byte_len(a + b) == byte_len(a) + byte_len(b),
    decreases b.len(),
{
    if b.len() == 0 {
        assert(a + b =~= a);
    } else {
        assert((a + b).drop_last() =~= a + b.drop_last());
        lemma_byte_len_concat(a, b.drop_last());
    }
}

proof fn lemma_utf8_width_scalar(c: char)
    ensures
        vstd::utf8::encode_scalar(c as u32).len() == utf8_width(c),
{
    broadcast use vstd::utf8::char_is_scalar;

    assert(vstd::utf8::is_scalar(c as u32));
}

/// The UTF-8 encoding of `s` is `byte_len(s)` bytes long.
pub proof fn lemma_encoded_len(s: Seq<char>)
    ensures
        vstd::utf8::encode_utf8(s).len() == byte_len(s),
    decreases s.len(),
{
    if s.len() > 0 {
        lemma_encoded_len(s.drop_first());
        lemma_utf8_width_scalar(s[0]);
        lemma_byte_len_concat(seq![s[0]], s.drop_first());
        assert(seq![s[0]] + s.drop_first() =~= s);
        assert(seq![s[0]].drop_last() =~= Seq::<char>::empty());
        assert(seq![s[0]].last() == s[0]);
        assert(byte_len(Seq::<char>::empty()) == 0);
        assert(byte_len(seq![s[0]]) == utf8_width(s[0]));
        assert(vstd::utf8::encode_utf8(s) == vstd::utf8::encode_scalar(s[0] as u32)
            + vstd::utf8::encode_utf8(s.drop_first()));
    }
}

proof fn lemma_byte_len_ge_len(s: Seq<char>)
    ensures
        byte_len(s) >= s.len(),
    decreases s.len(),
{
    if s.len() > 0 {
        lemma_byte_len_ge_len(s.drop_last());
    }
}

proof fn lemma_byte_len_prefix_mono(s: Seq<char>, i: int, j: int)
    requires
        0 <= i <= j <= s.len(),
    ensures
        byte_len(s.take(i)) <= byte_len(s.take(j)),
        i < j ==> byte_len(s.take(i)) < byte_len(s.take(j)),
    decreases j - i,
{
    if i < j {
        lemma_take_succ(s, j - 1);
        lemma_byte_len_prefix_mono(s, i, j - 1);
    }
}

proof fn lemma_line_position_le_bytes(p: Seq<char>)
    ensures
        line_position(p).1 <= byte_len(p),
        line_position(p).0 <= p.len(),
    decreases p.len(),
{
    if p.len() > 0 {
        lemma_line_position_le_bytes(p.drop_last());
    }
}

/// The byte length of a `&str` is the UTF-8 length of its characters.
pub proof fn lemma_str_bytes(text: &str)
    ensures
        byte_len(text@) == text.spec_bytes().len(),
        text@.len() <= byte_len(text@),
{
    lemma_encoded_len(text@);
    lemma_byte_len_ge_len(text@);
}

/// Positions strictly increase in (line, byte) order as the scan advances,
/// and crossing a newline moves to a later line.
proof fn lemma_line_position_increases(s: Seq<char>, j: int, k: int)
    requires
        0 <= j < k <= s.len(),
    ensures
        ({
            let pj = line_position(s.take(j));
            let pk = line_position(s.take(k));
            &&& pj.0 <= pk.0
            &&& pj.0 == pk.0 ==> pj.1 < pk.1
            &&& s[j] == '\n' ==> pj.0 < pk.0
        }),
    decreases k - j,
{
    lemma_take_succ(s, k - 1);
    if j < k - 1 {
        lemma_line_position_increases(s, j, k - 1);
    }
}

proof fn lemma_cursor_scan_skips(s: Seq<char>, line: nat, index: nat, i: int, target: int)
    requires
        0 <= i <= target <= s.len(),
        forall|j: int| i <= j < target ==> !cursor_stops_at(s, line, index, j),
    ensures
        cursor_char_index_from(s, line, index, i) == cursor_char_index_from(
            s,
            line,
            index,
            target,
        ),
    decreases target - i,
{
    if i < target {
        lemma_cursor_scan_skips(s, line, index, i + 1, target);
    }
}

/// Round trip: converting a character index to a cursor and back yields the
/// same character index, for every index from the start to the end of the
/// text (empty lines included).
pub proof fn lemma_cursor_roundtrip(s: Seq<char>, ci: int)
    requires
        0 <= ci <= s.len(),
    ensures
        ({
            let pos = line_position(s.take(ci));
            cursor_char_index(s, pos.0, pos.1) == ci
        }),
{
    let pos = line_position(s.take(ci));
    assert forall|j: int| 0 <= j < ci implies !cursor_stops_at(s, pos.0, pos.1, j) by {
        lemma_line_position_increases(s, j, ci);
    }
    lemma_cursor_scan_skips(s, pos.0, pos.1, 0, ci);
}

proof fn lemma_expanded_mono(s: Seq<char>, i: int, j: int)
    requires
        0 <= i <= j <= s.len(),
    ensures
        expanded_len(s.take(i)) <= expanded_len(s.take(j)),
    decreases j - i,
{
    if i < j {
        lemma_take_succ(s, j - 1);
        lemma_expanded_mono(s, i, j - 1);
    }
}

proof fn lemma_raw_scan_result(s: Seq<char>, e: nat, i: int)
    requires
        0 <= i <= s.len(),
    ensures
        i <= raw_index_of_expanded_from(s, e, i) <= s.len(),
        forall|j: int|
            i <= j < raw_index_of_expanded_from(s, e, i) ==> expanded_len(s.take(j)) < e,
        raw_index_of_expanded_from(s, e, i) < s.len() ==> expanded_len(
            s.take(raw_index_of_expanded_from(s, e, i)),
        ) >= e,
    decreases s.len() - i,
{
    if i < s.len() && expanded_len(s.take(i)) < e {
        lemma_raw_scan_result(s, e, i + 1);
    }
}

/// `expanded_to_raw` mirrors `raw_to_expanded`: for a raw index `r` inside
/// the text, the expanded index `e` maps back to a raw index at or before
/// `r` exactly when `e` is at most the expanded index of `r`.
pub proof fn lemma_expanded_raw_galois(s: Seq<char>, e: nat, r: int)
    requires
        0 <= r < s.len(),
    ensures
        raw_index_of_expanded(s, e) <= r <==> e <= expanded_len(s.take(r)),
{
    lemma_raw_scan_result(s, e, 0);
    let k = raw_index_of_expanded(s, e);
    if k <= r {
        if k < s.len() {
            lemma_expanded_mono(s, k, r);
        }
    } else {
        assert(expanded_len(s.take(r)) < e);
    }
}

/// Mapping a raw index to the expanded space and back never moves it
/// forward.
pub proof fn lemma_expanded_raw_roundtrip(s: Seq<char>, r: int)
    requires
        0 <= r <= s.len(),
    ensures
        raw_index_of_expanded(s, expanded_len(s.take(r))) <= r,
{
    lemma_raw_scan_result(s, expanded_len(s.take(r)), 0);
}

/// The round trip from raw to expanded and back gives the raw index back
/// exactly when it is 0 or the character before it is not a line break
/// (a line break has no expanded width, so the index before it maps to
/// the same expanded index).
pub proof fn lemma_expanded_raw_exact(s: Seq<char>, r: int)
    requires
        0 <= r <= s.len(),
    ensures
        (raw_index_of_expanded(s, expanded_len(s.take(r))) == r) <==> (r == 0 || (s[r - 1] != '\n'
            && s[r - 1] != '\r')),
{
    let e = expanded_len(s.take(r));
    lemma_raw_scan_result(s, e, 0);
    lemma_expanded_raw_roundtrip(s, r);
    let k = raw_index_of_expanded(s, e);
    if r > 0 {
        lemma_take_succ(s, r - 1);
        if s[r - 1] != '\n' && s[r - 1] != '\r' {
            assert(expanded_len(s.take(r - 1)) < e);
            if k < r {
                lemma_expanded_mono(s, k, r - 1);
            }
        } else {
            assert(expanded_len(s.take(r - 1)) == e);
            if k == r {
                assert(expanded_len(s.take(r - 1)) < e);
            }
        }
    }
}

/// `expanded_to_raw(text, raw_to_expanded(text, ci))`, stated over the two
/// functions' contracts: for `ci` within the text it is at most `ci`, and
/// equal to `ci` exactly when `ci` is 0 or the character before it is not a
/// line break.
pub proof fn lemma_raw_expanded_raw(s: Seq<char>, ci: int)
    requires
        0 <= ci <= s.len(),
    ensures
        raw_index_of_expanded(s, expanded_len(prefix(s, ci))) <= ci,
        (raw_index_of_expanded(s, expanded_len(prefix(s, ci))) == ci) <==> (ci == 0 || (s[ci - 1]
            != '\n' && s[ci - 1] != '\r')),
{
    lemma_expanded_raw_roundtrip(s, ci);
    lemma_expanded_raw_exact(s, ci);
}

proof fn lemma_byte_scan_result(s: Seq<char>, b: nat, i: int)
    requires
        0 <= i <= s.len(),
    ensures
        i <= char_count_before_byte_from(s, b, i) <= s.len(),
        forall|j: int|
            i <= j < char_count_before_byte_from(s, b, i) ==> byte_len(s.take(j)) < b,
        char_count_before_byte_from(s, b, i) < s.len() ==> byte_len(
            s.take(char_count_before_byte_from(s, b, i)),
        ) >= b,
    decreases s.len() - i,
{
    if i < s.len() && byte_len(s.take(i)) < b {
        lemma_byte_scan_result(s, b, i + 1);
    }
}

/// Round trip between character indices and byte offsets: the byte offset
/// of character `ci` maps back to `ci` (clamped to the text's length).
pub proof fn lemma_byte_char_roundtrip(s: Seq<char>, ci: int)
    requires
        0 <= ci,
    ensures
        char_count_before_byte_from(s, byte_len(prefix(s, ci)), 0) == if ci <= s.len() {
            ci
        } else {
            s.len() as int
        },
{
    let n = if ci <= s.len() {
        ci
    } else {
        s.len() as int
    };
    lemma_take_full(s);
    assert(prefix(s, ci) == s.take(n));
    let b = byte_len(s.take(n));
    lemma_byte_scan_result(s, b, 0);
    let k = char_count_before_byte_from(s, b, 0);
    if k < n {
        lemma_byte_len_prefix_mono(s, k, n);
    } else if k > n {
        assert(byte_len(s.take(n)) < b);
    }
}

// ── Executable conversions ───────────────────────────────────────────

/// Number of bytes in the UTF-8 encoding of `c`.
pub fn char_utf8_width(c: char) -> (w: usize)
    ensures
        w == utf8_width(c),
{
    let v = c as u32;
    if v < 0x80 {
        1
    } else if v < 0x800 {
        2
    } else if v < 0x10000 {
        3
    } else {
        4
    }
}

/// Convert a whole-text character index into a cursor (`line` is the
/// logical line, `index` the byte offset within it). An index at or beyond
/// the end of the text gives the end position.
pub fn char_index_to_cursor(text: &str, char_index: usize) -> (cur: TextCursor)
    requires
        byte_len(text@) <= usize::MAX,
    ensures
        cur.line == line_position(prefix(text@, char_index as int)).0,
        cur.index == line_position(prefix(text@, char_index as int)).1,
{
    let ghost s = text@;
    proof {
        lemma_str_bytes(text);
        lemma_take_full(s);
    }
    let mut line: usize = 0;
    let mut byte_in_line: usize = 0;
    let mut chars_seen: usize = 0;
    for ch in it: text.chars()
        invariant
            it.seq() == s,
            s == text@,
            chars_seen == it.index(),
            chars_seen <= char_index,
            chars_seen <= s.len(),
            byte_len(s) <= usize::MAX,
            line == line_position(s.take(chars_seen as int)).0,
            byte_in_line == line_position(s.take(chars_seen as int)).1,
    {
        if chars_seen == char_index {
            return TextCursor::new(line, byte_in_line);
        }
        proof {
            lemma_take_succ(s, chars_seen as int);
            lemma_line_position_le_bytes(s.take(chars_seen + 1));
            lemma_byte_len_prefix_mono(s, chars_seen + 1, s.len() as int);
            lemma_take_full(s);
            lemma_byte_len_ge_len(s);
        }
        if ch == '\n' {
            line = line + 1;
            byte_in_line = 0;
        } else {
            byte_in_line = byte_in_line + char_utf8_width(ch);
        }
        chars_seen = chars_seen + 1;
    }
    TextCursor::new(line, byte_in_line)
}

/// Inverse of [`char_index_to_cursor`]: map a cursor back to a whole-text
/// character index. A cursor past the end of its line resolves to the
/// newline ending that line; a cursor past the text resolves to its end.
pub fn cursor_to_char_index(text: &str, cursor: TextCursor) -> (ci: usize)
    requires
        byte_len(text@) <= usize::MAX,
    ensures
        ci == cursor_char_index(text@, cursor.line as nat, cursor.index as nat),
{
    let ghost s = text@;
    let ghost cl = cursor.line as nat;
    let ghost cx = cursor.index as nat;
    proof {
        lemma_str_bytes(text);
    }
    let mut line: usize = 0;
    let mut byte_in_line: usize = 0;
    let mut chars_seen: usize = 0;
    for ch in it: text.chars()
        invariant
            it.seq() == s,
            s == text@,
            chars_seen == it.index(),
            chars_seen <= s.len(),
            byte_len(s) <= usize::MAX,
            cl == cursor.line,
            cx == cursor.index,
            line == line_position(s.take(chars_seen as int)).0,
            byte_in_line == line_position(s.take(chars_seen as int)).1,
            cursor_char_index(s, cl, cx) == cursor_char_index_from(s, cl, cx, chars_seen as int),
    {
        if line == cursor.line && byte_in_line == cursor.index {
            return chars_seen;
        }
        if ch == '\n' {
            if line == cursor.line && byte_in_line < cursor.index {
                return chars_seen;
            }
        }
        proof {
            lemma_take_succ(s, chars_seen as int);
            lemma_line_position_le_bytes(s.take(chars_seen + 1));
            lemma_byte_len_prefix_mono(s, chars_seen + 1, s.len() as int);
            lemma_take_full(s);
            lemma_byte_len_ge_len(s);
        }
        if ch == '\n' {
            line = line + 1;
            byte_in_line = 0;
        } else {
            byte_in_line = byte_in_line + char_utf8_width(ch);
        }
        chars_seen = chars_seen + 1;
    }
    chars_seen
}

/// Map a raw-text character index to the expanded index space (tabs count
/// four, `\n` and `\r` count nothing since they have no glyph).
pub fn raw_to_expanded(text: &str, ci: usize) -> (exp: usize)
    requires
        byte_len(text@) <= usize::MAX,
        expanded_len(prefix(text@, ci as int)) <= usize::MAX,
    ensures
        exp == expanded_len(prefix(text@, ci as int)),
{
    let ghost s = text@;
    proof {
        lemma_str_bytes(text);
        lemma_take_full(s);
        if ci <= s.len() {
            assert(prefix(s, ci as int) == s.take(ci as int));
        }
    }
    let mut exp: usize = 0;
    let mut i: usize = 0;
    for c in it: text.chars()
        invariant
            it.seq() == s,
            s == text@,
            i == it.index(),
            i <= s.len(),
            i <= ci,
            byte_len(s) <= usize::MAX,
            expanded_len(prefix(s, ci as int)) <= usize::MAX,
            exp == expanded_len(s.take(i as int)),
    {
        if i >= ci {
            return exp;
        }
        proof {
            lemma_take_succ(s, i as int);
            lemma_byte_len_ge_len(s);
            lemma_take_full(s);
            if ci <= s.len() {
                lemma_expanded_mono(s, i + 1, ci as int);
            } else {
                lemma_expanded_mono(s, i + 1, s.len() as int);
            }
            assert(expanded_len(s.take(i + 1)) == exp + expanded_width(c));
        }
        let w: usize = if c == '\t' {
            4
        } else if c == '\n' || c == '\r' {
            0
        } else {
            1
        };
        exp = exp + w;
        i = i + 1;
    }
    exp
}

/// Map an expanded-text index back to a raw character index: the first raw
/// index whose expanded prefix reaches `exp_ci`, or the character count.
pub fn expanded_to_raw(text: &str, exp_ci: usize) -> (ci: usize)
    requires
        byte_len(text@) <= usize::MAX,
    ensures
        ci == raw_index_of_expanded(text@, exp_ci as nat),
{
    let ghost s = text@;
    proof {
        lemma_str_bytes(text);
    }
    let mut exp: u128 = 0;
    let mut i: usize = 0;
    for c in it: text.chars()
        invariant
            it.seq() == s,
            s == text@,
            i == it.index(),
            i <= s.len(),
            byte_len(s) <= usize::MAX,
            exp == expanded_len(s.take(i as int)),
            exp < 4 * (usize::MAX as int) + 4,
            exp <= 4 * i,
            raw_index_of_expanded(s, exp_ci as nat) == raw_index_of_expanded_from(
                s,
                exp_ci as nat,
                i as int,
            ),
    {
        let w: u128 = if c == '\t' {
            4
        } else if c == '\n' || c == '\r' {
            0
        } else {
            1
        };
        if exp >= exp_ci as u128 {
            return i;
        }
        proof {
            lemma_take_succ(s, i as int);
            lemma_byte_len_ge_len(s);
        }
        exp = exp + w;
        i = i + 1;
    }
    i
}

/// Byte offset of character `ci` in `s` (the byte length of `s` when `ci`
/// is at or past its end).
pub fn char_index_to_byte(s: &str, ci: usize) -> (b: usize)
    requires
        byte_len(s@) <= usize::MAX,
    ensures
        b == byte_len(prefix(s@, ci as int)),
{
    let ghost t = s@;
    proof {
        lemma_str_bytes(s);
        lemma_take_full(t);
    }
    let mut bytes: usize = 0;
    let mut i: usize = 0;
    for c in it: s.chars()
        invariant
            it.seq() == t,
            t == s@,
            i == it.index(),
            i <= t.len(),
            i <= ci,
            byte_len(t) <= usize::MAX,
            bytes == byte_len(t.take(i as int)),
    {
        if i == ci {
            return bytes;
        }
        proof {
            lemma_take_succ(t, i as int);
            lemma_byte_len_prefix_mono(t, i + 1, t.len() as int);
            lemma_take_full(t);
            lemma_byte_len_ge_len(t);
        }
        bytes = bytes + char_utf8_width(c);
        i = i + 1;
    }
    bytes
}

/// Number of characters of `s` that start strictly before byte offset `bi`.
pub fn byte_to_char_index(s: &str, bi: usize) -> (ci: usize)
    requires
        byte_len(s@) <= usize::MAX,
    ensures
        ci == char_count_before_byte_from(s@, bi as nat, 0),
{
    let ghost t = s@;
    proof {
        lemma_str_bytes(s);
    }
    let mut bytes: usize = 0;
    let mut i: usize = 0;
    for c in it: s.chars()
        invariant
            it.seq() == t,
            t == s@,
            i == it.index(),
            i <= t.len(),
            byte_len(t) <= usize::MAX,
            bytes == byte_len(t.take(i as int)),
            char_count_before_byte_from(t, bi as nat, 0) == char_count_before_byte_from(
                t,
                bi as nat,
                i as int,
            ),
    {
        if bytes >= bi {
            return i;
        }
        proof {
            lemma_take_succ(t, i as int);
            lemma_byte_len_prefix_mono(t, i + 1, t.len() as int);
            lemma_take_full(t);
            lemma_byte_len_ge_len(t);
        }
        bytes = bytes + char_utf8_width(c);
        i = i + 1;
    }
    i
}

} // verus!
