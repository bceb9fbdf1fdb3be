//! Cursor placement over laid-out text.
//!
//! A laid-out buffer is seen through the number of glyphs in each of its
//! visual rows (layout runs). An expanded character index `c >= 1` sits
//! just after glyph `c - 1`, counting glyphs across all rows in order;
//! index `0` sits before the first glyph. Pixel positions stay with the
//! caller: placement answers with the glyph edge the cursor is drawn at.

use vstd::prelude::*;

verus! {

/// Glyphs in rows `0 .. i`.
pub open spec fn glyphs_before(runs: Seq<usize>, i: int) -> int
    decreases i,
{
    if i <= 0 || runs.len() == 0 {
        0
    } else if i > runs.len() {
        glyphs_before(runs, runs.len() as int)
    } else {
        glyphs_before(runs, i - 1) + runs[i - 1]
    }
}

/// Glyphs in all rows.
pub open spec fn glyph_total(runs: Seq<usize>) -> int {
    glyphs_before(runs, runs.len() as int)
}

/// Row `i` holds the glyph just before expanded index `c`.
pub open spec fn row_holds(runs: Seq<usize>, i: int, c: int) -> bool {
    0 <= i < runs.len() && glyphs_before(runs, i) < c <= glyphs_before(runs, i + 1)
}

/// The row holding the glyph just before expanded index `c`
/// (`1 <= c <= glyph_total(runs)`; see `lemma_row_exists_unique`).
pub open spec fn row_of(runs: Seq<usize>, c: int) -> int {
    choose|i: int| row_holds(runs, i, c)
}

/// The first row at or after `j` that holds a glyph.
pub open spec fn first_nonempty_from(runs: Seq<usize>, j: int) -> Option<int>
    decreases runs.len() - j,
{
    if j < 0 || j >= runs.len() {
        None
    } else if runs[j] > 0 {
        Some(j)
    } else {
        first_nonempty_from(runs, j + 1)
    }
}

/// Glyph counts never shrink as rows are added.
pub proof fn lemma_glyphs_before_monotonic(runs: Seq<usize>, i: int, j: int)
    requires
        0 <= i <= j <= runs.len(),
    ensures
        glyphs_before(runs, i) <= glyphs_before(runs, j),
    decreases j - i,
{
    if i < j {
        lemma_glyphs_before_monotonic(runs, i, j - 1);
    }
}

/// Every expanded index `1 ..= glyph_total` lies in exactly one row.
pub proof fn lemma_row_exists_unique(runs: Seq<usize>, c: int)
    requires
        1 <= c <= glyph_total(runs),
    ensures
        row_holds(runs, row_of(runs, c), c),
        forall|i: int| #[trigger] row_holds(runs, i, c) ==> i == row_of(runs, c),
{
    lemma_row_exists(runs, c, runs.len() as int);
    let r = row_of(runs, c);
    assert forall|i: int| #[trigger] row_holds(runs, i, c) implies i == r by {
        if i < r {
            lemma_glyphs_before_monotonic(runs, i + 1, r);
        }
        if r < i {
            lemma_glyphs_before_monotonic(runs, r + 1, i);
        }
    }
}

proof fn lemma_row_exists(runs: Seq<usize>, c: int, n: int)
    requires
        0 <= n <= runs.len(),
        1 <= c <= glyphs_before(runs, n),
    ensures
        exists|i: int| row_holds(runs, i, c),
    decreases n,
{
    if n > 0 {
        if c <= glyphs_before(runs, n - 1) {
            lemma_row_exists(runs, c, n - 1);
        } else {
            assert(row_holds(runs, n - 1, c));
        }
    }
}

/// Where the cursor is drawn: at the left edge of a line, or at the start
/// or end edge of glyph `glyph` of row `run`.
#[derive(Clone, Copy, Debug, PartialEq, Eq, Structural)]
pub enum CursorAnchor {
    LineStart,
    GlyphStart { run: usize, glyph: usize },
    GlyphEnd { run: usize, glyph: usize },
}

/// The last row, or `0` when there is none.
pub open spec fn last_row(runs: Seq<usize>) -> int {
    if runs.len() == 0 {
        0
    } else {
        runs.len() - 1
    }
}

/// Where the cursor goes at the start of the first row from `j` on that
/// holds a glyph, or at the left edge of the last row when none does.
pub open spec fn next_line_start(runs: Seq<usize>, j: int) -> (int, CursorAnchor) {
    match first_nonempty_from(runs, j) {
        Some(k) => (k, CursorAnchor::GlyphStart { run: k as usize, glyph: 0 }),
        None => (last_row(runs), CursorAnchor::LineStart),
    }
}

proof fn lemma_first_nonempty_in_range(runs: Seq<usize>, j: int)
    ensures
        first_nonempty_from(runs, j) matches Some(k) ==> j <= k < runs.len() && runs[k] > 0,
    decreases runs.len() - j,
{
    if 0 <= j < runs.len() && runs[j] == 0 {
        lemma_first_nonempty_in_range(runs, j + 1);
    }
}

fn first_nonempty(runs: &[usize], j: usize) -> (r: Option<usize>)
    ensures
        match first_nonempty_from(runs@, j as int) {
            Some(k) => r == Some(k as usize) && j <= k < runs@.len(),
            None => r is None,
        },
{
    proof {
        lemma_first_nonempty_in_range(runs@, j as int);
    }
    let mut k = j;
    while k < runs.len()
        invariant
            j <= k,
            first_nonempty_from(runs@, j as int) == first_nonempty_from(runs@, k as int),
        decreases runs@.len() - k,
    {
        if runs[k] > 0 {
            return Some(k);
        }
        k = k + 1;
    }
    None
}

/// The visual row of expanded character index `exp_ci`: row 0 for `0`, the
/// row holding glyph `exp_ci - 1` while there is one, and the last row
/// past all glyphs.
pub fn visual_row_at_exp_ci(runs: &[usize], exp_ci: usize) -> (r: usize)
    requires
        glyph_total(runs@) <= usize::MAX,
    ensures
        exp_ci == 0 ==> r == 0,
        1 <= exp_ci <= glyph_total(runs@) ==> r == row_of(runs@, exp_ci as int),
        exp_ci > glyph_total(runs@) ==> r == last_row(runs@),
{
    proof {
        lemma_glyphs_before_monotonic(runs@, 0, runs@.len() as int);
    }
    if exp_ci == 0 {
        return 0;
    }
    let mut i: usize = 0;
    let mut before: usize = 0;
    while i < runs.len()
        invariant
            1 <= exp_ci,
            i <= runs@.len(),
            before == glyphs_before(runs@, i as int),
            before < exp_ci,
            glyph_total(runs@) <= usize::MAX,
        decreases runs@.len() - i,
    {
        proof {
            lemma_glyphs_before_monotonic(runs@, i + 1, runs@.len() as int);
        }
        if before + runs[i] >= exp_ci {
            proof {
                lemma_row_exists_unique(runs@, exp_ci as int);
                assert(row_holds(runs@, i as int, exp_ci as int));
            }
            return i;
        }
        before = before + runs[i];
        i = i + 1;
    }
    if runs.len() == 0 {
        0
    } else {
        runs.len() - 1
    }
}

/// The row of expanded character index `exp_ci` and the glyph edge the
/// cursor is drawn at. Index `0` sits at the start of the first glyph.
/// Otherwise the cursor follows glyph `exp_ci - 1`; when `at_newline` (the
/// raw cursor is just past a line break) it goes instead to the start of
/// the next row that holds a glyph. Past all glyphs, or with no glyph to go
/// to, it sits at the left edge of the last row.
pub fn glyph_pos_at_ci(runs: &[usize], exp_ci: usize, at_newline: bool) -> (r: (usize, CursorAnchor))
    requires
        glyph_total(runs@) <= usize::MAX,
    ensures
        exp_ci == 0 ==> match first_nonempty_from(runs@, 0) {
            Some(k) => r == (k as usize, CursorAnchor::GlyphStart { run: k as usize, glyph: 0 }),
            None => r == (0usize, CursorAnchor::LineStart),
        },
        1 <= exp_ci <= glyph_total(runs@) ==> {
            let i = row_of(runs@, exp_ci as int);
            if at_newline {
                r.0 == next_line_start(runs@, i + 1).0 && r.1 == next_line_start(runs@, i + 1).1
            } else {
                r == (
                    i as usize,
                    CursorAnchor::GlyphEnd {
                        run: i as usize,
                        glyph: (exp_ci - 1 - glyphs_before(runs@, i)) as usize,
                    },
                )
            }
        },
        exp_ci > glyph_total(runs@) ==> r == (last_row(runs@) as usize, CursorAnchor::LineStart),
{
    proof {
        lemma_glyphs_before_monotonic(runs@, 0, runs@.len() as int);
    }
    if exp_ci == 0 {
        return match first_nonempty(runs, 0) {
            Some(k) => (k, CursorAnchor::GlyphStart { run: k, glyph: 0 }),
            None => (0, CursorAnchor::LineStart),
        };
    }
    let last = if runs.len() == 0 {
        0
    } else {
        runs.len() - 1
    };
    let mut i: usize = 0;
    let mut before: usize = 0;
    while i < runs.len()
        invariant
            1 <= exp_ci,
            i <= runs@.len(),
            before == glyphs_before(runs@, i as int),
            before < exp_ci,
            glyph_total(runs@) <= usize::MAX,
            last == last_row(runs@),
        decreases runs@.len() - i,
    {
        proof {
            lemma_glyphs_before_monotonic(runs@, i + 1, runs@.len() as int);
        }
        if before + runs[i] >= exp_ci {
            proof {
                lemma_row_exists_unique(runs@, exp_ci as int);
                assert(row_holds(runs@, i as int, exp_ci as int));
            }
            if at_newline {
                let next = first_nonempty(runs, i + 1);
                let r = match next {
                    Some(k) => (k, CursorAnchor::GlyphStart { run: k, glyph: 0 }),
                    None => (last, CursorAnchor::LineStart),
                };
                proof {
                    let ghost want = next_line_start(runs@, i + 1);
                    assert(r.0 == want.0 && r.1 == want.1);
                }
                return r;
            }
            return (i, CursorAnchor::GlyphEnd { run: i, glyph: exp_ci - 1 - before });
        }
        before = before + runs[i];
        i = i + 1;
    }
    (last, CursorAnchor::LineStart)
}

/// The row a move of `delta` rows from `cur_row` lands on, kept within
/// `0 .. total`.
pub open spec fn moved_row(total: int, cur_row: int, delta: int) -> int {
    if cur_row + delta < 0 {
        0
    } else if cur_row + delta > total - 1 {
        total - 1
    } else {
        cur_row + delta
    }
}

/// Move the cursor by `delta` visual rows in a buffer of `total` rows.
/// With no rows the cursor goes to `(0, 0)`; when the row does not change
/// the cursor stays at `cur_ci`; otherwise its index on the new row is what
/// `ci_at_row` gives for that row (the caller keeps the cursor's pixel x).
pub fn move_visual_row<F>(total: usize, cur_row: usize, cur_ci: usize, delta: isize, ci_at_row: F) -> (r: (usize, usize)) where
    F: FnOnce(usize) -> usize,
    requires
        cur_row <= isize::MAX,
        isize::MIN <= cur_row + delta <= isize::MAX,
        total > 0 && moved_row(total as int, cur_row as int, delta as int) != cur_row ==> call_requires(
            ci_at_row,
            (moved_row(total as int, cur_row as int, delta as int) as usize,),
        ),
    ensures
        total == 0 ==> r == (0usize, 0usize),
        total > 0 ==> r.0 == moved_row(total as int, cur_row as int, delta as int),
        total > 0 && r.0 == cur_row ==> r.1 == cur_ci,
        total > 0 && r.0 != cur_row ==> call_ensures(ci_at_row, (r.0,), r.1),
{
    if total == 0 {
        return (0, 0);
    }
    let moved = cur_row as isize + delta;
    let new_row = if moved < 0 {
        0
    } else if moved as usize > total - 1 {
        total - 1
    } else {
        moved as usize
    };
    if new_row == cur_row {
        return (cur_row, cur_ci);
    }
    let new_ci = ci_at_row(new_row);
    (new_row, new_ci)
}

} // verus!
