//! Box-blur passes over single-channel (alpha) planes, used by the CPU
//! shadow and backdrop-blur rendering. Three passes of half-width `half`
//! approximate a gaussian; each pass averages a window of `2 * half + 1`
//! samples, either with zero padding outside the plane or with the edge
//! samples extended (clamped).

use vstd::prelude::*;
use crate::pixel::{chan, pack};
use crate::grid::lemma_index_cell;
use crate::mipmap::zeroed;

verus! {

// ── Specification ────────────────────────────────────────────────────

/// `f(lo) + ... + f(hi - 1)`.
pub open spec fn wsum(f: spec_fn(int) -> int, lo: int, hi: int) -> int
    decreases hi - lo,
{
    if hi <= lo {
        0
    } else {
        wsum(f, lo, hi - 1) + f(hi - 1)
    }
}

/// Sample `k` of row `y`, zero outside the row.
pub open spec fn row_zero(src: Seq<u8>, w: int, y: int, k: int) -> int {
    if 0 <= k < w {
        src[y * w + k] as int
    } else {
        0
    }
}

/// Sample `k` of column `x`, zero outside the column.
pub open spec fn col_zero(src: Seq<u8>, w: int, h: int, x: int, k: int) -> int {
    if 0 <= k < h {
        src[k * w + x] as int
    } else {
        0
    }
}

pub open spec fn clamp_index(k: int, n: int) -> int {
    if k < 0 {
        0
    } else if k >= n {
        n - 1
    } else {
        k
    }
}

/// Sample `k` of row `y`, the nearest edge sample outside the row.
pub open spec fn row_clamped(src: Seq<u8>, w: int, y: int, k: int) -> int {
    src[y * w + clamp_index(k, w)] as int
}

/// Sample `k` of column `x`, the nearest edge sample outside the column.
pub open spec fn col_clamped(src: Seq<u8>, w: int, h: int, x: int, k: int) -> int {
    src[clamp_index(k, h) * w + x] as int
}

/// Average of the window of `2 * half + 1` samples centred on `c`.
pub open spec fn window_avg(f: spec_fn(int) -> int, c: int, half: int) -> int {
    wsum(f, c - half, c + half + 1) / (2 * half + 1)
}

/// Requirements shared by the passes: the planes hold `w * h` samples (the
/// destination at least that many), a non-empty plane has non-empty rows,
/// and window sums fit in `u32`.
pub open spec fn pass_args_ok(src_len: int, dst_len: int, w: int, h: int, half: int) -> bool {
    if half == 0 {
        src_len == dst_len
    } else {
        &&& w * h <= src_len
        &&& w * h <= dst_len
        &&& h > 0 ==> w > 0
        &&& 255 * (2 * half + 2) <= u32::MAX
        &&& w + h + half + 1 <= usize::MAX
    }
}

// ── Lemmas ───────────────────────────────────────────────────────────

proof fn lemma_wsum_front(f: spec_fn(int) -> int, lo: int, hi: int)
    requires
        lo < hi,
    ensures
        wsum(f, lo, hi) == f(lo) + wsum(f, lo + 1, hi),
    decreases hi - lo,
{
    if hi - 1 > lo {
        lemma_wsum_front(f, lo, hi - 1);
        assert(wsum(f, lo + 1, hi) == wsum(f, lo + 1, hi - 1) + f(hi - 1));
    } else {
        assert(wsum(f, lo, hi) == wsum(f, lo, hi - 1) + f(hi - 1));
        assert(wsum(f, lo + 1, hi) == 0);
    }
}

proof fn lemma_wsum_bounds(f: spec_fn(int) -> int, lo: int, hi: int)
    requires
        forall|k: int| 0 <= #[trigger] f(k) <= 255,
        lo <= hi,
    ensures
        0 <= wsum(f, lo, hi) <= 255 * (hi - lo),
    decreases hi - lo,
{
    if hi > lo {
        lemma_wsum_bounds(f, lo, hi - 1);
    }
}

/// Outside `[a, b)` the function is zero: the sum over `[lo, hi)` is the
/// sum over its overlap with `[a, b)`.
proof fn lemma_wsum_zero_outside(f: spec_fn(int) -> int, lo: int, hi: int, a: int, b: int)
    requires
        forall|k: int| (k < a || k >= b) ==> #[trigger] f(k) == 0,
        lo <= a <= hi,
        a <= b,
    ensures
        wsum(f, lo, hi) == wsum(f, a, if hi <= b {
            hi
        } else {
            b
        }),
    decreases hi - lo,
{
    if lo < a {
        lemma_wsum_front(f, lo, hi);
        lemma_wsum_zero_outside(f, lo + 1, hi, a, b);
    } else if hi > b {
        lemma_wsum_zero_outside(f, lo, hi - 1, a, b);
    }
}

proof fn lemma_avg_u8(f: spec_fn(int) -> int, c: int, half: int)
    requires
        forall|k: int| 0 <= #[trigger] f(k) <= 255,
        half >= 0,
    ensures
        0 <= window_avg(f, c, half) <= 255,
        wsum(f, c - half, c + half + 1) <= 255 * (2 * half + 1),
{
    lemma_wsum_bounds(f, c - half, c + half + 1);
    let s = wsum(f, c - half, c + half + 1);
    assert(0 <= s / (2 * half + 1) <= 255) by (nonlinear_arith)
        requires
            0 <= s <= 255 * (2 * half + 1),
            half >= 0,
    ;
}

proof fn lemma_index_in_plane(w: int, h: int, x: int, y: int)
    requires
        0 <= x < w,
        0 <= y < h,
    ensures
        0 <= y * w + x < w * h,
        0 <= y * w,
{
    assert(0 <= y * w + x < w * h) by (nonlinear_arith)
        requires
            0 <= x < w,
            0 <= y < h,
    ;
    assert(0 <= y * w) by (nonlinear_arith)
        requires
            0 <= y,
            0 <= w,
    ;
}

/// Two different samples of a plane have different indices.
proof fn lemma_index_distinct(w: int, x1: int, y1: int, x2: int, y2: int)
    requires
        0 <= x1 < w,
        0 <= x2 < w,
        0 <= y1,
        0 <= y2,
        x1 != x2 || y1 != y2,
    ensures
        y1 * w + x1 != y2 * w + x2,
{
    if y1 == y2 {
    } else if y1 < y2 {
        assert(y1 * w + x1 < y2 * w + x2) by (nonlinear_arith)
            requires
                0 <= x1 < w,
                0 <= x2,
                y1 < y2,
        ;
    } else {
        assert(y2 * w + x2 < y1 * w + x1) by (nonlinear_arith)
            requires
                0 <= x2 < w,
                0 <= x1,
                y2 < y1,
        ;
    }
}

// ── Executable passes ────────────────────────────────────────────────

fn copy_plane(src: &[u8], dst: &mut [u8])
    requires
        src@.len() == old(dst)@.len(),
    ensures
        final(dst)@ == src@,
{
    let n = src.len();
    let mut i: usize = 0;
    while i < n
        invariant
            n == src@.len(),
            dst@.len() == n,
            i <= n,
            forall|k: int| 0 <= k < i ==> #[trigger] dst@[k] == src@[k],
        decreases n - i,
    {
        dst[i] = src[i];
        i = i + 1;
    }
    proof {
        assert(dst@ =~= src@);
    }
}

/// Total blur reach in pixels of three passes of half-width `half`.
pub fn blur_pad(half: usize) -> (r: usize)
    requires
        3 * half <= usize::MAX,
    ensures
        r == 3 * half,
{
    3 * half
}

/// Sample `k` of the line of `len` samples at `base + k * stride`: zero
/// outside the line, or the nearest edge sample when `clamp` is set.
pub open spec fn line_sample(
    src: Seq<u8>,
    base: int,
    stride: int,
    len: int,
    clamp: bool,
    k: int,
) -> int {
    if clamp {
        src[base + clamp_index(k, len) * stride] as int
    } else if 0 <= k < len {
        src[base + k * stride] as int
    } else {
        0
    }
}

/// Position of sample `k` of a line.
pub open spec fn line_pos(base: int, stride: int, k: int) -> int {
    base + k * stride
}

/// `i` is the position of some sample of the line.
pub open spec fn on_line(i: int, base: int, stride: int, len: int) -> bool {
    exists|k: int| 0 <= k < len && i == #[trigger] line_pos(base, stride, k)
}

fn clamped_sample(src: &[u8], base: usize, stride: usize, len: usize, k: i64) -> (v: u32)
    requires
        len > 0,
        base + (len - 1) * stride < src@.len(),
        -0x8000_0000 <= k <= 0x1_0000_0000,
        len <= 0x7FFF_FFFF,
    ensures
        v == line_sample(src@, base as int, stride as int, len as int, true, k as int),
        v <= 255,
{
    let _n = src.len();
    let c: usize = if k < 0 {
        0
    } else if k >= len as i64 {
        len - 1
    } else {
        k as usize
    };
    proof {
        assert(c * stride <= (len - 1) * stride) by (nonlinear_arith)
            requires
                c <= len - 1,
        ;
    }
    src[base + c * stride] as u32
}

/// One box-blur pass along a line of `len` samples at
/// `base + k * stride`; every other position of `dst` is left as it was.
fn line_pass(
    src: &[u8],
    dst: &mut [u8],
    base: usize,
    stride: usize,
    len: usize,
    half: usize,
    clamp: bool,
)
    requires
        len > 0,
        stride > 0,
        half > 0,
        base + (len - 1) * stride < src@.len(),
        base + (len - 1) * stride < old(dst)@.len(),
        255 * (2 * half + 2) <= u32::MAX,
        len + half + 1 <= usize::MAX,
        clamp ==> len + half + 1 <= 0x7FFF_FFFF,
    ensures
        final(dst)@.len() == old(dst)@.len(),
        forall|k: int|
            0 <= k < len ==> #[trigger] final(dst)@[base + k * stride] == window_avg(
                |j: int| line_sample(src@, base as int, stride as int, len as int, clamp, j),
                k,
                half as int,
            ),
        forall|i: int|
            0 <= i < old(dst)@.len() && !on_line(i, base as int, stride as int, len as int)
                ==> #[trigger] final(dst)@[i] == old(dst)@[i],
{
    let ghost s = src@;
    let ghost f = |j: int| line_sample(s, base as int, stride as int, len as int, clamp, j);
    let win: u32 = (2 * half + 1) as u32;
    let n = src.len();
    let _m = dst.len();
    proof {
        assert forall|j: int| 0 <= #[trigger] f(j) <= 255 by {
            if clamp {
                let c = clamp_index(j, len as int);
                assert(c * stride <= (len - 1) * stride) by (nonlinear_arith)
                    requires
                        0 <= c <= len - 1,
                        stride > 0,
                ;
            } else if 0 <= j < len {
                assert(j * stride <= (len - 1) * stride) by (nonlinear_arith)
                    requires
                        0 <= j <= len - 1,
                        stride > 0,
                ;
            }
        }
    }
    // Initial window centred on sample 0.
    let mut sum: u32 = 0;
    if clamp {
        let mut k: i64 = -(half as i64);
        while k <= half as i64
            invariant
                s == src@,
                n == s.len(),
                f == (|j: int| line_sample(s, base as int, stride as int, len as int, clamp, j)),
                forall|j: int| 0 <= #[trigger] f(j) <= 255,
                clamp,
                len > 0,
                base + (len - 1) * stride < s.len(),
                clamp ==> len + half + 1 <= 0x7FFF_FFFF,
                255 * (2 * half + 2) <= u32::MAX,
                -(half as int) <= k <= half + 1,
                sum == wsum(f, -(half as int), k as int),
            decreases half + 1 - k,
        {
            proof {
                lemma_wsum_bounds(f, -(half as int), k as int);
            }
            sum = sum + clamped_sample(src, base, stride, len, k);
            k = k + 1;
        }
    } else {
        let last = if half <= len - 1 {
            half
        } else {
            len - 1
        };
        let mut k: usize = 0;
        while k <= last
            invariant
                s == src@,
                n == s.len(),
                f == (|j: int| line_sample(s, base as int, stride as int, len as int, clamp, j)),
                forall|j: int| 0 <= #[trigger] f(j) <= 255,
                !clamp,
                base + (len - 1) * stride < s.len(),
                last < len,
                last <= half,
                k <= last + 1,
                255 * (2 * half + 2) <= u32::MAX,
                sum == wsum(f, 0, k as int),
            decreases last + 1 - k,
        {
            proof {
                lemma_wsum_bounds(f, 0, k as int);
                assert(k * stride <= (len - 1) * stride) by (nonlinear_arith)
                    requires
                        k <= len - 1,
                ;
            }
            sum = sum + src[base + k * stride] as u32;
            k = k + 1;
        }
        proof {
            assert forall|j: int| (j < 0 || j >= len) implies #[trigger] f(j) == 0 by {}
            lemma_wsum_zero_outside(f, -(half as int), half + 1, 0, len as int);
        }
    }
    let ghost start = dst@;
    let mut x: usize = 0;
    while x < len
        invariant
            s == src@,
            n == s.len(),
            f == (|j: int| line_sample(s, base as int, stride as int, len as int, clamp, j)),
            forall|j: int| 0 <= #[trigger] f(j) <= 255,
            len > 0,
            stride > 0,
            half > 0,
            base + (len - 1) * stride < s.len(),
            base + (len - 1) * stride < dst@.len(),
            dst@.len() == start.len(),
            len + half + 1 <= usize::MAX,
            clamp ==> len + half + 1 <= 0x7FFF_FFFF,
            255 * (2 * half + 2) <= u32::MAX,
            win == 2 * half + 1,
            x <= len,
            sum == wsum(f, x - half, x + half + 1),
            forall|k: int|
                0 <= k < x ==> #[trigger] dst@[base + k * stride] == window_avg(f, k, half as int),
            forall|i: int|
                0 <= i < dst@.len() && !on_line(i, base as int, stride as int, x as int)
                    ==> #[trigger] dst@[i] == start[i],
        decreases len - x,
    {
        proof {
            lemma_avg_u8(f, x as int, half as int);
            lemma_wsum_front(f, x - half, x + half + 1);
            lemma_wsum_bounds(f, x - half + 1, x + half + 1);
            assert(x * stride <= (len - 1) * stride) by (nonlinear_arith)
                requires
                    x <= len - 1,
            ;
        }
        let pos = base + x * stride;
        let ghost before = dst@;
        dst[pos] = (sum / win) as u8;
        if clamp {
            let a = clamped_sample(src, base, stride, len, (x + half + 1) as i64);
            let r = clamped_sample(src, base, stride, len, x as i64 - half as i64);
            sum = sum + a;
            sum = sum - r;
        } else {
            let add = x + half + 1;
            if add < len {
                proof {
                    assert(add * stride <= (len - 1) * stride) by (nonlinear_arith)
                        requires
                            add <= len - 1,
                    ;
                }
                sum = sum + src[base + add * stride] as u32;
            }
            if x >= half {
                proof {
                    assert((x - half) * stride <= (len - 1) * stride) by (nonlinear_arith)
                        requires
                            x - half <= len - 1,
                            x >= half,
                    ;
                }
                sum = sum - src[base + (x - half) * stride] as u32;
            }
        }
        proof {
            assert(sum == wsum(f, x + 1 - half, x + 1 + half + 1));
            assert forall|k: int| 0 <= k < x + 1 implies #[trigger] dst@[base + k * stride]
                == window_avg(f, k, half as int) by {
                if k < x {
                    assert(k * stride < x * stride) by (nonlinear_arith)
                        requires
                            k < x,
                            stride > 0,
                    ;
                }
            }
            assert forall|i: int|
                0 <= i < dst@.len() && !on_line(i, base as int, stride as int, x + 1)
                    implies #[trigger] dst@[i] == start[i] by {
                if i == pos {
                    assert(i == line_pos(base as int, stride as int, x as int));
                    assert(on_line(i, base as int, stride as int, x + 1));
                }
                assert(!on_line(i, base as int, stride as int, x as int)) by {
                    if on_line(i, base as int, stride as int, x as int) {
                        let k = choose|k: int|
                            0 <= k < x && i == #[trigger] line_pos(base as int, stride as int, k);
                        assert(on_line(i, base as int, stride as int, x + 1));
                    }
                }
            }
        }
        x = x + 1;
    }
}

/// One horizontal box-blur pass, zero padding outside each row.
pub fn box_pass_h(src: &[u8], dst: &mut [u8], w: usize, h: usize, half: usize)
    requires
        pass_args_ok(src@.len() as int, old(dst)@.len() as int, w as int, h as int, half as int),
    ensures
        half == 0 ==> final(dst)@ == src@,
        final(dst)@.len() == old(dst)@.len(),
        half > 0 ==> forall|y: int, x: int|
            0 <= y < h && 0 <= x < w ==> #[trigger] final(dst)@[y * w + x] == window_avg(
                |k: int| row_zero(src@, w as int, y, k),
                x,
                half as int,
            ),
        half > 0 ==> forall|i: int|
            w * h <= i < old(dst)@.len() ==> #[trigger] final(dst)@[i] == old(dst)@[i],
{
    plane_pass(src, dst, w, h, half, false, false);
}

/// One vertical box-blur pass, zero padding outside each column.
pub fn box_pass_v(src: &[u8], dst: &mut [u8], w: usize, h: usize, half: usize)
    requires
        pass_args_ok(src@.len() as int, old(dst)@.len() as int, w as int, h as int, half as int),
    ensures
        half == 0 ==> final(dst)@ == src@,
        final(dst)@.len() == old(dst)@.len(),
        half > 0 ==> forall|y: int, x: int|
            0 <= y < h && 0 <= x < w ==> #[trigger] final(dst)@[y * w + x] == window_avg(
                |k: int| col_zero(src@, w as int, h as int, x, k),
                y,
                half as int,
            ),
        half > 0 ==> forall|i: int|
            w * h <= i < old(dst)@.len() ==> #[trigger] final(dst)@[i] == old(dst)@[i],
{
    plane_pass(src, dst, w, h, half, true, false);
}

/// One horizontal box-blur pass with the edge samples extended (used for
/// backdrop blur, where zero padding would darken the borders).
pub fn box_pass_h_clamp(src: &[u8], dst: &mut [u8], w: usize, h: usize, half: usize)
    requires
        pass_args_ok(src@.len() as int, old(dst)@.len() as int, w as int, h as int, half as int),
        half > 0 ==> w + h + half + 1 <= i32::MAX,
    ensures
        half == 0 ==> final(dst)@ == src@,
        final(dst)@.len() == old(dst)@.len(),
        half > 0 ==> forall|y: int, x: int|
            0 <= y < h && 0 <= x < w ==> #[trigger] final(dst)@[y * w + x] == window_avg(
                |k: int| row_clamped(src@, w as int, y, k),
                x,
                half as int,
            ),
        half > 0 ==> forall|i: int|
            w * h <= i < old(dst)@.len() ==> #[trigger] final(dst)@[i] == old(dst)@[i],
{
    plane_pass(src, dst, w, h, half, false, true);
}

/// One vertical box-blur pass with the edge samples extended.
pub fn box_pass_v_clamp(src: &[u8], dst: &mut [u8], w: usize, h: usize, half: usize)
    requires
        pass_args_ok(src@.len() as int, old(dst)@.len() as int, w as int, h as int, half as int),
        half > 0 ==> w + h + half + 1 <= i32::MAX,
    ensures
        half == 0 ==> final(dst)@ == src@,
        final(dst)@.len() == old(dst)@.len(),
        half > 0 ==> forall|y: int, x: int|
            0 <= y < h && 0 <= x < w ==> #[trigger] final(dst)@[y * w + x] == window_avg(
                |k: int| col_clamped(src@, w as int, h as int, x, k),
                y,
                half as int,
            ),
        half > 0 ==> forall|i: int|
            w * h <= i < old(dst)@.len() ==> #[trigger] final(dst)@[i] == old(dst)@[i],
{
    plane_pass(src, dst, w, h, half, true, true);
}

/// The sample function of a plane pass at pixel `(x, y)`.
pub open spec fn plane_sample(
    src: Seq<u8>,
    w: int,
    h: int,
    vertical: bool,
    clamp: bool,
    x: int,
    y: int,
) -> spec_fn(int) -> int {
    if vertical {
        if clamp {
            |k: int| col_clamped(src, w, h, x, k)
        } else {
            |k: int| col_zero(src, w, h, x, k)
        }
    } else {
        if clamp {
            |k: int| row_clamped(src, w, y, k)
        } else {
            |k: int| row_zero(src, w, y, k)
        }
    }
}

fn plane_pass(
    src: &[u8],
    dst: &mut [u8],
    w: usize,
    h: usize,
    half: usize,
    vertical: bool,
    clamp: bool,
)
    requires
        pass_args_ok(src@.len() as int, old(dst)@.len() as int, w as int, h as int, half as int),
        clamp && half > 0 ==> w + h + half + 1 <= 0x7FFF_FFFF,
    ensures
        half == 0 ==> final(dst)@ == src@,
        final(dst)@.len() == old(dst)@.len(),
        half > 0 ==> forall|y: int, x: int|
            0 <= y < h && 0 <= x < w ==> #[trigger] final(dst)@[y * w + x] == window_avg(
                plane_sample(src@, w as int, h as int, vertical, clamp, x, y),
                if vertical {
                    y
                } else {
                    x
                },
                half as int,
            ),
        half > 0 ==> forall|i: int|
            w * h <= i < old(dst)@.len() ==> #[trigger] final(dst)@[i] == old(dst)@[i],
{
    if half == 0 {
        copy_plane(src, dst);
        return ;
    }
    let ghost s = src@;
    let n = src.len();
    if !vertical {
        let mut y: usize = 0;
        while y < h
            invariant
                s == src@,
                n == s.len(),
                !vertical,
                half > 0,
                pass_args_ok(s.len() as int, old(dst)@.len() as int, w as int, h as int, half as int),
                clamp ==> w + h + half + 1 <= 0x7FFF_FFFF,
                dst@.len() == old(dst)@.len(),
                y <= h,
                forall|yy: int, x: int|
                    0 <= yy < y && 0 <= x < w ==> #[trigger] dst@[yy * w + x] == window_avg(
                        plane_sample(s, w as int, h as int, vertical, clamp, x, yy),
                        x,
                        half as int,
                    ),
                forall|i: int| y * w <= i < dst@.len() ==> #[trigger] dst@[i] == old(dst)@[i],
            decreases h - y,
        {
            proof {
                lemma_index_in_plane(w as int, h as int, 0, y as int);
                assert((y + 1) * w <= w * h) by (nonlinear_arith)
                    requires
                        y < h,
                        w >= 0,
                ;
                assert((y + 1) * w == y * w + w) by (nonlinear_arith);
            }
            let ghost before = dst@;
            line_pass(src, dst, y * w, 1, w, half, clamp);
            proof {
                let yi = y as int;
                assert forall|x: int| 0 <= x < w implies plane_sample(
                    s,
                    w as int,
                    h as int,
                    vertical,
                    clamp,
                    x,
                    yi,
                ) =~= (|j: int| line_sample(s, yi * w, 1, w as int, clamp, j)) by {}
                assert forall|yy: int, x: int| 0 <= yy < y + 1 && 0 <= x < w implies #[trigger] dst@[
                    yy * w + x
                ] == window_avg(
                    plane_sample(s, w as int, h as int, vertical, clamp, x, yy),
                    x,
                    half as int,
                ) by {
                    if yy < y {
                        if on_line(yy * w + x, yi * w, 1, w as int) {
                            let k = choose|k: int|
                                0 <= k < w && yy * w + x == #[trigger] line_pos(yi * w, 1, k);
                            lemma_index_distinct(w as int, x, yy, k, yi);
                        }
                        lemma_index_in_plane(w as int, h as int, x, yy);
                    } else {
                        assert(dst@[yi * w + x * 1] == window_avg(
                            |j: int| line_sample(s, yi * w, 1, w as int, clamp, j),
                            x,
                            half as int,
                        ));
                    }
                }
                assert forall|i: int| (y + 1) * w <= i < dst@.len() implies #[trigger] dst@[i]
                    == old(dst)@[i] by {
                    if on_line(i, yi * w, 1, w as int) {
                        let k = choose|k: int| 0 <= k < w && i == #[trigger] line_pos(yi * w, 1, k);
                    }
                    assert(y * w <= i);
                }
            }
            y = y + 1;
        }
        proof {
            assert(h * w == w * h) by (nonlinear_arith);
        }
    } else if h > 0 {
        let mut x: usize = 0;
        while x < w
            invariant
                s == src@,
                n == s.len(),
                vertical,
                half > 0,
                h > 0,
                pass_args_ok(s.len() as int, old(dst)@.len() as int, w as int, h as int, half as int),
                clamp ==> w + h + half + 1 <= 0x7FFF_FFFF,
                dst@.len() == old(dst)@.len(),
                x <= w,
                forall|yy: int, xx: int|
                    0 <= yy < h && 0 <= xx < x ==> #[trigger] dst@[yy * w + xx] == window_avg(
                        plane_sample(s, w as int, h as int, vertical, clamp, xx, yy),
                        yy,
                        half as int,
                    ),
                forall|yy: int, xx: int|
                    0 <= yy < h && x <= xx < w ==> #[trigger] dst@[yy * w + xx] == old(dst)@[yy * w
                        + xx],
                forall|i: int| w * h <= i < dst@.len() ==> #[trigger] dst@[i] == old(dst)@[i],
            decreases w - x,
        {
            proof {
                lemma_index_in_plane(w as int, h as int, x as int, (h - 1) as int);
                assert((h - 1) * w == x * 0 + (h - 1) * w);
            }
            let ghost before = dst@;
            line_pass(src, dst, x, w, h, half, clamp);
            proof {
                let xi = x as int;
                assert forall|yy: int| 0 <= yy < h implies plane_sample(
                    s,
                    w as int,
                    h as int,
                    vertical,
                    clamp,
                    xi,
                    yy,
                ) =~= (|j: int| line_sample(s, xi, w as int, h as int, clamp, j)) by {}
                assert forall|yy: int, xx: int|
                    0 <= yy < h && 0 <= xx < x + 1 implies #[trigger] dst@[yy * w + xx] == window_avg(
                    plane_sample(s, w as int, h as int, vertical, clamp, xx, yy),
                    yy,
                    half as int,
                ) by {
                    lemma_index_in_plane(w as int, h as int, xx, yy);
                    if xx < x {
                        if on_line(yy * w + xx, xi, w as int, h as int) {
                            let k = choose|k: int| 0 <= k < h && yy * w + xx == #[trigger] line_pos(xi, w as int, k);
                            lemma_index_distinct(w as int, xx, yy, xi, k);
                        }
                    } else {
                        assert(dst@[xi + yy * w] == window_avg(
                            |j: int| line_sample(s, xi, w as int, h as int, clamp, j),
                            yy,
                            half as int,
                        ));
                    }
                }
                assert forall|yy: int, xx: int|
                    0 <= yy < h && x + 1 <= xx < w implies #[trigger] dst@[yy * w + xx] == old(
                    dst,
                )@[yy * w + xx] by {
                    lemma_index_in_plane(w as int, h as int, xx, yy);
                    if on_line(yy * w + xx, xi, w as int, h as int) {
                        let k = choose|k: int| 0 <= k < h && yy * w + xx == #[trigger] line_pos(xi, w as int, k);
                        lemma_index_distinct(w as int, xx, yy, xi, k);
                    }
                }
                assert forall|i: int| w * h <= i < dst@.len() implies #[trigger] dst@[i] == old(
                    dst,
                )@[i] by {
                    if on_line(i, xi, w as int, h as int) {
                        let k = choose|k: int| 0 <= k < h && i == #[trigger] line_pos(xi, w as int, k);
                        lemma_index_in_plane(w as int, h as int, xi, k);
                    }
                }
            }
            x = x + 1;
        }
    }
}

// ── Backdrop blur of a pixel region ─────────────────────────────────

/// The clamped-edge horizontal pass as a whole `w` by `h` plane.
pub open spec fn h_clamp_plane(p: Seq<u8>, w: int, h: int, half: int) -> Seq<u8> {
    Seq::new(
        (w * h) as nat,
        |i: int| window_avg(|k: int| row_clamped(p, w, i / w, k), i % w, half) as u8,
    )
}

/// The clamped-edge vertical pass as a whole `w` by `h` plane.
pub open spec fn v_clamp_plane(p: Seq<u8>, w: int, h: int, half: int) -> Seq<u8> {
    Seq::new(
        (w * h) as nat,
        |i: int| window_avg(|k: int| col_clamped(p, w, h, i % w, k), i / w, half) as u8,
    )
}

/// Three horizontal then three vertical clamped-edge passes.
pub open spec fn backdrop_blur_plane(p: Seq<u8>, w: int, h: int, half: int) -> Seq<u8> {
    v_clamp_plane(
        v_clamp_plane(
            v_clamp_plane(
                h_clamp_plane(h_clamp_plane(h_clamp_plane(p, w, h, half), w, h, half), w, h, half),
                w,
                h,
                half,
            ),
            w,
            h,
            half,
        ),
        w,
        h,
        half,
    )
}

// ── Reach of the backdrop blur ───────────────────────────────────────

proof fn lemma_wsum_zeros(f: spec_fn(int) -> int, lo: int, hi: int)
    requires
        forall|k: int| lo <= k < hi ==> #[trigger] f(k) == 0,
    ensures
        wsum(f, lo, hi) == 0,
    decreases hi - lo,
{
    if hi > lo {
        lemma_wsum_zeros(f, lo, hi - 1);
    }
}

proof fn lemma_wsum_single(f: spec_fn(int) -> int, lo: int, hi: int, s: int)
    requires
        lo <= s < hi,
        forall|k: int| lo <= k < hi && k != s ==> #[trigger] f(k) == 0,
    ensures
        wsum(f, lo, hi) == f(s),
    decreases hi - lo,
{
    if hi - 1 == s {
        lemma_wsum_zeros(f, lo, hi - 1);
    } else {
        lemma_wsum_single(f, lo, hi - 1, s);
    }
}

proof fn lemma_wsum_const(f: spec_fn(int) -> int, lo: int, hi: int, c: int)
    requires
        lo <= hi,
        forall|k: int| lo <= k < hi ==> #[trigger] f(k) == c,
    ensures
        wsum(f, lo, hi) == (hi - lo) * c,
    decreases hi - lo,
{
    if hi > lo {
        lemma_wsum_const(f, lo, hi - 1, c);
        assert(f(hi - 1) == c);
        assert(wsum(f, lo, hi) == wsum(f, lo, hi - 1) + f(hi - 1));
        assert((hi - 1 - lo) * c + c == (hi - lo) * c) by (nonlinear_arith);
    } else {
        assert((hi - lo) * c == 0) by (nonlinear_arith)
            requires
                hi == lo,
        ;
    }
}

/// One horizontal pass over a single row, at a sample `c` whose whole
/// window lies inside the row and holds nothing but `q[s]`.
proof fn lemma_row_pass_single(q: Seq<u8>, w: int, half: int, c: int, s: int)
    requires
        q.len() == w,
        half >= 0,
        0 <= c - half,
        c + half < w,
        c - half <= s <= c + half,
        forall|k: int| c - half <= k <= c + half && k != s ==> q[k] == 0,
    ensures
        h_clamp_plane(q, w, 1, half)[c] as int == q[s] as int / (2 * half + 1),
{
    vstd::arithmetic::div_mod::lemma_basic_div(c, w);
    vstd::arithmetic::div_mod::lemma_small_mod(c as nat, w as nat);
    let f = |k: int| row_clamped(q, w, c / w, k);
    assert forall|k: int| c - half <= k < c + half + 1 && k != s implies #[trigger] f(k) == 0 by {
        assert(c / w == 0);
        assert((c / w) * w == 0);
        assert(clamp_index(k, w) == k);
        assert(f(k) == q[k] as int);
    }
    lemma_wsum_single(f, c - half, c + half + 1, s);
    assert((c / w) * w == 0);
    assert(clamp_index(s, w) == s);
    assert(f(s) == q[s] as int);
    assert(q[s] as int / (2 * half + 1) <= 255) by (nonlinear_arith)
        requires
            q[s] <= 255,
            half >= 0,
    ;
}

/// One horizontal pass over a single row, at a sample `c` whose whole
/// window lies inside the row and holds only zeros.
proof fn lemma_row_pass_zero(q: Seq<u8>, w: int, half: int, c: int)
    requires
        q.len() == w,
        half >= 0,
        0 <= c - half,
        c + half < w,
        forall|k: int| c - half <= k <= c + half ==> q[k] == 0,
    ensures
        h_clamp_plane(q, w, 1, half)[c] == 0,
{
    vstd::arithmetic::div_mod::lemma_basic_div(c, w);
    vstd::arithmetic::div_mod::lemma_small_mod(c as nat, w as nat);
    let f = |k: int| row_clamped(q, w, c / w, k);
    assert forall|k: int| c - half <= k < c + half + 1 implies #[trigger] f(k) == 0 by {
        assert(c / w == 0);
        assert((c / w) * w == 0);
        assert(clamp_index(k, w) == k);
        assert(f(k) == q[k] as int);
    }
    lemma_wsum_zeros(f, c - half, c + half + 1);
}

/// On a single row the vertical pass changes nothing: every window holds
/// the same sample.
proof fn lemma_column_pass_single_row(q: Seq<u8>, w: int, half: int)
    requires
        q.len() == w,
        w > 0,
        half >= 0,
    ensures
        v_clamp_plane(q, w, 1, half) == q,
{
    let r = v_clamp_plane(q, w, 1, half);
    assert forall|i: int| 0 <= i < w implies #[trigger] r[i] == q[i] by {
        vstd::arithmetic::div_mod::lemma_basic_div(i, w);
        vstd::arithmetic::div_mod::lemma_small_mod(i as nat, w as nat);
        let f = |k: int| col_clamped(q, w, 1, i % w, k);
        assert forall|k: int| i / w - half <= k < i / w + half + 1 implies #[trigger] f(k)
            == q[i] as int by {
            assert(clamp_index(k, 1) == 0);
        }
        lemma_wsum_const(f, i / w - half, i / w + half + 1, q[i] as int);
        let n = 2 * half + 1;
        assert((n * (q[i] as int)) / n == q[i] as int) by (nonlinear_arith)
            requires
                n >= 1,
        ;
    }
    assert(r =~= q);
}

/// The reach of the backdrop blur: on a single row (where the vertical
/// passes change nothing) a lone sample `v` at `x0` spreads exactly
/// `3 * half` samples to the right, since each of the three horizontal
/// passes carries it `half` further: the sample `3 * half` away is `v`
/// divided by the window size `2 * half + 1` three times over, and the
/// next one stays zero.
pub proof fn lemma_backdrop_blur_reach(p: Seq<u8>, w: int, half: int, x0: int)
    requires
        half >= 1,
        p.len() == w,
        0 <= x0,
        x0 + 6 * half + 2 <= w,
        forall|k: int| 0 <= k < w && k != x0 ==> p[k] == 0,
    ensures
        backdrop_blur_plane(p, w, 1, half)[x0 + 3 * half] as int == p[x0] as int / (2 * half + 1) / (
        2 * half + 1) / (2 * half + 1),
        backdrop_blur_plane(p, w, 1, half)[x0 + 3 * half + 1] == 0,
{
    let n = 2 * half + 1;
    let p1 = h_clamp_plane(p, w, 1, half);
    let p2 = h_clamp_plane(p1, w, 1, half);
    let p3 = h_clamp_plane(p2, w, 1, half);
    assert(p1.len() == w && p2.len() == w && p3.len() == w);
    // First pass: `v / n` at `x0 + half`, zeros from there to `x0 + 5 * half + 1`.
    lemma_row_pass_single(p, w, half, x0 + half, x0);
    assert forall|j: int| x0 + half < j <= x0 + 5 * half + 1 implies p1[j] == 0 by {
        lemma_row_pass_zero(p, w, half, j);
    }
    // Second pass: `v / n / n` at `x0 + 2 * half`, zeros to `x0 + 4 * half + 1`.
    lemma_row_pass_single(p1, w, half, x0 + 2 * half, x0 + half);
    assert forall|j: int| x0 + 2 * half < j <= x0 + 4 * half + 1 implies p2[j] == 0 by {
        lemma_row_pass_zero(p1, w, half, j);
    }
    // Third pass.
    lemma_row_pass_single(p2, w, half, x0 + 3 * half, x0 + 2 * half);
    lemma_row_pass_zero(p2, w, half, x0 + 3 * half + 1);
    // The vertical passes keep the row.
    lemma_column_pass_single_row(p3, w, half);
    lemma_column_pass_single_row(v_clamp_plane(p3, w, 1, half), w, half);
    lemma_column_pass_single_row(v_clamp_plane(v_clamp_plane(p3, w, 1, half), w, 1, half), w, half);
}

/// Channel `k` of each of the first `n` pixels (zero past the source).
pub open spec fn rgba_plane(src: Seq<u32>, n: int, k: u32) -> Seq<u8> {
    Seq::new(
        n as nat,
        |i: int|
            if i < src.len() {
                chan(src[i], k) as u8
            } else {
                0u8
            },
    )
}

/// A `w` by `h` region of canonical pixels blurred channel by channel.
pub open spec fn box_blurred_rgba(src: Seq<u32>, w: int, h: int, half: int) -> Seq<u32> {
    Seq::new(
        (w * h) as nat,
        |i: int|
            pack(
                backdrop_blur_plane(rgba_plane(src, w * h, 0), w, h, half)[i] as u32,
                backdrop_blur_plane(rgba_plane(src, w * h, 1), w, h, half)[i] as u32,
                backdrop_blur_plane(rgba_plane(src, w * h, 2), w, h, half)[i] as u32,
                backdrop_blur_plane(rgba_plane(src, w * h, 3), w, h, half)[i] as u32,
            ),
    )
}

/// One vertical pass over a single column, at a sample `c` whose whole
/// window lies inside the column and holds nothing but `q[s]`.
proof fn lemma_col_pass_single(q: Seq<u8>, h: int, half: int, c: int, s: int)
    requires
        q.len() == h,
        half >= 0,
        0 <= c - half,
        c + half < h,
        c - half <= s <= c + half,
        forall|k: int| c - half <= k <= c + half && k != s ==> q[k] == 0,
    ensures
        v_clamp_plane(q, 1, h, half)[c] as int == q[s] as int / (2 * half + 1),
{
    assert(c / 1 == c && c % 1 == 0);
    let f = |k: int| col_clamped(q, 1, h, c % 1, k);
    assert forall|k: int| c - half <= k < c + half + 1 && k != s implies #[trigger] f(k) == 0 by {
        assert(clamp_index(k, h) == k);
        assert(f(k) == q[k] as int);
    }
    lemma_wsum_single(f, c - half, c + half + 1, s);
    assert(clamp_index(s, h) == s);
    assert(f(s) == q[s] as int);
    assert(q[s] as int / (2 * half + 1) <= 255) by (nonlinear_arith)
        requires
            q[s] <= 255,
            half >= 0,
    ;
}

/// One vertical pass over a single column, at a sample `c` whose whole
/// window lies inside the column and holds only zeros.
proof fn lemma_col_pass_zero(q: Seq<u8>, h: int, half: int, c: int)
    requires
        q.len() == h,
        half >= 0,
        0 <= c - half,
        c + half < h,
        forall|k: int| c - half <= k <= c + half ==> q[k] == 0,
    ensures
        v_clamp_plane(q, 1, h, half)[c] == 0,
{
    assert(c / 1 == c && c % 1 == 0);
    let f = |k: int| col_clamped(q, 1, h, c % 1, k);
    assert forall|k: int| c - half <= k < c + half + 1 implies #[trigger] f(k) == 0 by {
        assert(clamp_index(k, h) == k);
        assert(f(k) == q[k] as int);
    }
    lemma_wsum_zeros(f, c - half, c + half + 1);
}

/// On a single column the horizontal pass changes nothing.
proof fn lemma_row_pass_single_column(q: Seq<u8>, h: int, half: int)
    requires
        q.len() == h,
        half >= 0,
    ensures
        h_clamp_plane(q, 1, h, half) == q,
{
    let r = h_clamp_plane(q, 1, h, half);
    assert forall|i: int| 0 <= i < h implies #[trigger] r[i] == q[i] by {
        assert(i / 1 == i && i % 1 == 0);
        let f = |k: int| row_clamped(q, 1, i / 1, k);
        assert forall|k: int| i % 1 - half <= k < i % 1 + half + 1 implies #[trigger] f(k)
            == q[i] as int by {
            assert(clamp_index(k, 1) == 0);
        }
        lemma_wsum_const(f, i % 1 - half, i % 1 + half + 1, q[i] as int);
        let n = 2 * half + 1;
        assert((n * (q[i] as int)) / n == q[i] as int) by (nonlinear_arith)
            requires
                n >= 1,
        ;
    }
    assert(r =~= q);
}

/// The vertical reach of the backdrop blur: on a single column (where the
/// horizontal passes change nothing) a lone sample `v` at `y0` spreads
/// exactly `3 * half` samples down, since each of the three vertical passes
/// carries it `half` further: the sample `3 * half` below is `v` divided by
/// the window size `2 * half + 1` three times over, and the next one stays
/// zero.
pub proof fn lemma_backdrop_blur_reach_down(p: Seq<u8>, h: int, half: int, y0: int)
    requires
        half >= 1,
        p.len() == h,
        0 <= y0,
        y0 + 6 * half + 2 <= h,
        forall|k: int| 0 <= k < h && k != y0 ==> p[k] == 0,
    ensures
        backdrop_blur_plane(p, 1, h, half)[y0 + 3 * half] as int == p[y0] as int / (2 * half + 1) / (
        2 * half + 1) / (2 * half + 1),
        backdrop_blur_plane(p, 1, h, half)[y0 + 3 * half + 1] == 0,
{
    lemma_row_pass_single_column(p, h, half);
    lemma_row_pass_single_column(h_clamp_plane(p, 1, h, half), h, half);
    lemma_row_pass_single_column(h_clamp_plane(h_clamp_plane(p, 1, h, half), 1, h, half), h, half);
    let q1 = v_clamp_plane(p, 1, h, half);
    let q2 = v_clamp_plane(q1, 1, h, half);
    assert(q1.len() == h && q2.len() == h);
    lemma_col_pass_single(p, h, half, y0 + half, y0);
    assert forall|j: int| y0 + half < j <= y0 + 5 * half + 1 implies q1[j] == 0 by {
        lemma_col_pass_zero(p, h, half, j);
    }
    lemma_col_pass_single(q1, h, half, y0 + 2 * half, y0 + half);
    assert forall|j: int| y0 + 2 * half < j <= y0 + 4 * half + 1 implies q2[j] == 0 by {
        lemma_col_pass_zero(q1, h, half, j);
    }
    lemma_col_pass_single(q2, h, half, y0 + 3 * half, y0 + 2 * half);
    lemma_col_pass_zero(q2, h, half, y0 + 3 * half + 1);
}

proof fn lemma_plane_single(src: Seq<u32>, w: int, x0: int, k: u32)
    requires
        k < 4,
        src.len() == w,
        0 <= x0 < w,
        forall|j: int| 0 <= j < w && j != x0 ==> src[j] == 0,
    ensures
        rgba_plane(src, w * 1, k).len() == w,
        rgba_plane(src, w * 1, k)[x0] as int == chan(src[x0], k) as int,
        forall|j: int| 0 <= j < w && j != x0 ==> #[trigger] rgba_plane(src, w * 1, k)[j] == 0,
{
    assert(chan(0, k) == 0) by (bit_vector)
        requires
            k < 4,
    ;
    let v = src[x0];
    assert(chan(v, k) < 256) by (bit_vector);
    assert forall|j: int| 0 <= j < w && j != x0 implies #[trigger] rgba_plane(src, w * 1, k)[j]
        == 0 by {
        assert(src[j] == 0);
    }
}

/// The reach of `box_blurred_rgba`, channel by channel: in a one-row region
/// holding a single non-zero pixel at `x0`, the pixel `3 * half` to its
/// right has each channel of it divided by the window size `2 * half + 1`
/// three times over, and the pixel beyond is untouched by it (zero).
pub proof fn lemma_box_blur_rgba_reach(src: Seq<u32>, w: int, half: int, x0: int)
    requires
        half >= 1,
        src.len() == w,
        0 <= x0,
        x0 + 6 * half + 2 <= w,
        forall|k: int| 0 <= k < w && k != x0 ==> src[k] == 0,
    ensures
        forall|c: u32|
            c < 4 ==> #[trigger] chan(box_blurred_rgba(src, w, 1, half)[x0 + 3 * half], c) as int
                == chan(src[x0], c) as int / (2 * half + 1) / (2 * half + 1) / (2 * half + 1),
        box_blurred_rgba(src, w, 1, half)[x0 + 3 * half + 1] == 0,
{
    let n = 2 * half + 1;
    lemma_plane_single(src, w, x0, 0);
    lemma_plane_single(src, w, x0, 1);
    lemma_plane_single(src, w, x0, 2);
    lemma_plane_single(src, w, x0, 3);
    let p0 = rgba_plane(src, w * 1, 0);
    let p1 = rgba_plane(src, w * 1, 1);
    let p2 = rgba_plane(src, w * 1, 2);
    let p3 = rgba_plane(src, w * 1, 3);
    lemma_backdrop_blur_reach(p0, w, half, x0);
    lemma_backdrop_blur_reach(p1, w, half, x0);
    lemma_backdrop_blur_reach(p2, w, half, x0);
    lemma_backdrop_blur_reach(p3, w, half, x0);
    let i = x0 + 3 * half;
    let b0 = backdrop_blur_plane(p0, w, 1, half)[i] as u32;
    let b1 = backdrop_blur_plane(p1, w, 1, half)[i] as u32;
    let b2 = backdrop_blur_plane(p2, w, 1, half)[i] as u32;
    let b3 = backdrop_blur_plane(p3, w, 1, half)[i] as u32;
    crate::pixel::lemma_pack_chan(b0, b1, b2, b3);
    assert(box_blurred_rgba(src, w, 1, half)[i] == pack(b0, b1, b2, b3));
    assert(box_blurred_rgba(src, w, 1, half)[i + 1] == pack(0, 0, 0, 0));
    assert(pack(0, 0, 0, 0) == 0) by (bit_vector);
}

proof fn lemma_h_plane(src: Seq<u8>, dst: Seq<u8>, w: int, h: int, half: int)
    requires
        w > 0,
        dst.len() == w * h,
        forall|y: int, x: int|
            0 <= y < h && 0 <= x < w ==> #[trigger] dst[y * w + x] == window_avg(
                |k: int| row_clamped(src, w, y, k),
                x,
                half,
            ),
    ensures
        dst == h_clamp_plane(src, w, h, half),
{
    assert forall|i: int| 0 <= i < w * h implies #[trigger] dst[i] == h_clamp_plane(
        src,
        w,
        h,
        half,
    )[i] by {
        lemma_index_cell(w, h, i);
        assert(dst[(i / w) * w + i % w] == window_avg(
            |k: int| row_clamped(src, w, i / w, k),
            i % w,
            half,
        ));
    }
    assert(dst =~= h_clamp_plane(src, w, h, half));
}

proof fn lemma_v_plane(src: Seq<u8>, dst: Seq<u8>, w: int, h: int, half: int)
    requires
        w > 0,
        dst.len() == w * h,
        forall|y: int, x: int|
            0 <= y < h && 0 <= x < w ==> #[trigger] dst[y * w + x] == window_avg(
                |k: int| col_clamped(src, w, h, x, k),
                y,
                half,
            ),
    ensures
        dst == v_clamp_plane(src, w, h, half),
{
    assert forall|i: int| 0 <= i < w * h implies #[trigger] dst[i] == v_clamp_plane(
        src,
        w,
        h,
        half,
    )[i] by {
        lemma_index_cell(w, h, i);
        assert(dst[(i / w) * w + i % w] == window_avg(
            |k: int| col_clamped(src, w, h, i % w, k),
            i / w,
            half,
        ));
    }
    assert(dst =~= v_clamp_plane(src, w, h, half));
}

/// Blur one channel plane in place with three clamped horizontal and three
/// clamped vertical passes, `tmp` as scratch.
fn blur_plane(c: &mut Vec<u8>, tmp: &mut Vec<u8>, w: usize, h: usize, half: usize)
    requires
        w > 0,
        h > 0,
        half > 0,
        old(c)@.len() == w * h,
        old(tmp)@.len() == w * h,
        255 * (2 * half + 2) <= u32::MAX,
        w + h + half + 1 <= i32::MAX,
    ensures
        final(c)@ == backdrop_blur_plane(old(c)@, w as int, h as int, half as int),
        final(tmp)@.len() == w * h,
{
    let ghost p0 = c@;
    let ghost (wi, hi, hf) = (w as int, h as int, half as int);
    box_pass_h_clamp(c.as_slice(), tmp.as_mut_slice(), w, h, half);
    proof {
        lemma_h_plane(p0, tmp@, wi, hi, hf);
    }
    box_pass_h_clamp(tmp.as_slice(), c.as_mut_slice(), w, h, half);
    proof {
        lemma_h_plane(h_clamp_plane(p0, wi, hi, hf), c@, wi, hi, hf);
    }
    box_pass_h_clamp(c.as_slice(), tmp.as_mut_slice(), w, h, half);
    proof {
        lemma_h_plane(h_clamp_plane(h_clamp_plane(p0, wi, hi, hf), wi, hi, hf), tmp@, wi, hi, hf);
    }
    let ghost h3 = tmp@;
    box_pass_v_clamp(tmp.as_slice(), c.as_mut_slice(), w, h, half);
    proof {
        lemma_v_plane(h3, c@, wi, hi, hf);
    }
    box_pass_v_clamp(c.as_slice(), tmp.as_mut_slice(), w, h, half);
    proof {
        lemma_v_plane(v_clamp_plane(h3, wi, hi, hf), tmp@, wi, hi, hf);
    }
    box_pass_v_clamp(tmp.as_slice(), c.as_mut_slice(), w, h, half);
    proof {
        lemma_v_plane(v_clamp_plane(v_clamp_plane(h3, wi, hi, hf), wi, hi, hf), c@, wi, hi, hf);
    }
}

/// Three-pass box blur (approximating a gaussian) of a `w` by `h` region
/// of canonical pixels, each channel separately, with clamped edges; used
/// for backdrop filters. Half-width 0, or an empty region, copies the
/// source.
pub fn box_blur_rgba(src: &[u32], w: usize, h: usize, half: usize) -> (out: Vec<u32>)
    requires
        half > 0 && w > 0 && h > 0 ==> {
            &&& src@.len() <= w * h
            &&& w * h <= usize::MAX
            &&& 255 * (2 * half + 2) <= u32::MAX
            &&& w + h + half + 1 <= i32::MAX
        },
    ensures
        (half == 0 || w == 0 || h == 0) ==> out@ == src@,
        !(half == 0 || w == 0 || h == 0) ==> out@ == box_blurred_rgba(
            src@,
            w as int,
            h as int,
            half as int,
        ),
{
    if half == 0 || w == 0 || h == 0 {
        let mut copy: Vec<u32> = Vec::with_capacity(src.len());
        let mut j: usize = 0;
        while j < src.len()
            invariant
                j <= src@.len(),
                copy@ == src@.take(j as int),
            decreases src@.len() - j,
        {
            copy.push(src[j]);
            j = j + 1;
            proof {
                assert(copy@ =~= src@.take(j as int));
            }
        }
        proof {
            assert(src@.take(src@.len() as int) =~= src@);
        }
        return copy;
    }
    let n = w * h;
    let mut c0 = zeroed(n);
    let mut c1 = zeroed(n);
    let mut c2 = zeroed(n);
    let mut c3 = zeroed(n);
    let m = src.len();
    let mut i: usize = 0;
    while i < m
        invariant
            m == src@.len(),
            m <= n,
            i <= m,
            c0@.len() == n,
            c1@.len() == n,
            c2@.len() == n,
            c3@.len() == n,
            forall|k: int| 0 <= k < n ==> #[trigger] c0@[k] == if k < i {
                chan(src@[k], 0) as u8
            } else {
                0u8
            },
            forall|k: int| 0 <= k < n ==> #[trigger] c1@[k] == if k < i {
                chan(src@[k], 1) as u8
            } else {
                0u8
            },
            forall|k: int| 0 <= k < n ==> #[trigger] c2@[k] == if k < i {
                chan(src@[k], 2) as u8
            } else {
                0u8
            },
            forall|k: int| 0 <= k < n ==> #[trigger] c3@[k] == if k < i {
                chan(src@[k], 3) as u8
            } else {
                0u8
            },
        decreases m - i,
    {
        let px = src[i];
        proof {
            assert(px & 0xFF == (px >> 0u32) & 0xFF) by (bit_vector);
            assert((px >> 0u32) & 0xFF <= 255) by (bit_vector);
            assert((px >> 8u32) & 0xFF <= 255) by (bit_vector);
            assert((px >> 16u32) & 0xFF <= 255) by (bit_vector);
            assert((px >> 24u32) & 0xFF <= 255) by (bit_vector);
        }
        c0.set(i, (px & 0xFF) as u8);
        c1.set(i, ((px >> 8) & 0xFF) as u8);
        c2.set(i, ((px >> 16) & 0xFF) as u8);
        c3.set(i, ((px >> 24) & 0xFF) as u8);
        i = i + 1;
    }
    proof {
        assert(c0@ =~= rgba_plane(src@, n as int, 0));
        assert(c1@ =~= rgba_plane(src@, n as int, 1));
        assert(c2@ =~= rgba_plane(src@, n as int, 2));
        assert(c3@ =~= rgba_plane(src@, n as int, 3));
    }
    let mut tmp = zeroed(n);
    blur_plane(&mut c0, &mut tmp, w, h, half);
    blur_plane(&mut c1, &mut tmp, w, h, half);
    blur_plane(&mut c2, &mut tmp, w, h, half);
    blur_plane(&mut c3, &mut tmp, w, h, half);
    let ghost target = box_blurred_rgba(src@, w as int, h as int, half as int);
    let mut out: Vec<u32> = Vec::with_capacity(n);
    let mut k: usize = 0;
    while k < n
        invariant
            n == w * h,
            k <= n,
            c0@.len() == n,
            c1@.len() == n,
            c2@.len() == n,
            c3@.len() == n,
            target == box_blurred_rgba(src@, w as int, h as int, half as int),
            c0@ == backdrop_blur_plane(rgba_plane(src@, n as int, 0), w as int, h as int, half as int),
            c1@ == backdrop_blur_plane(rgba_plane(src@, n as int, 1), w as int, h as int, half as int),
            c2@ == backdrop_blur_plane(rgba_plane(src@, n as int, 2), w as int, h as int, half as int),
            c3@ == backdrop_blur_plane(rgba_plane(src@, n as int, 3), w as int, h as int, half as int),
            out@.len() == k,
            forall|j: int| 0 <= j < k ==> #[trigger] out@[j] == target[j],
        decreases n - k,
    {
        let v = ((c3[k] as u32) << 24) | ((c2[k] as u32) << 16) | ((c1[k] as u32) << 8) | (c0[k] as u32);
        proof {
            assert(v == pack(c0@[k as int] as u32, c1@[k as int] as u32, c2@[k as int] as u32, c3@[k as int] as u32));
        }
        out.push(v);
        k = k + 1;
    }
    proof {
        assert(out@ =~= target);
    }
    out
}

} // verus!
