//! Box-filter downsampling of RGBA8 images and mip chains.

use vstd::prelude::*;

use std::rc::Rc;

verus! {

use vstd::arithmetic::power2::pow2;
use crate::downscale::{binary64_ceil, binary64_floor, binary64_floor_ceil};

// ── Specification ────────────────────────────────────────────────────

/// Contribution of source pixel `(sx, sy)` to channel `c` of a box sum
/// (`c == 4` counts the pixel). Pixels whose bytes lie past the end of the
/// buffer contribute nothing.
pub open spec fn pixel_weight(src: Seq<u8>, src_w: int, sx: int, sy: int, c: int) -> int {
    let si = (sy * src_w + sx) * 4;
    if si + 4 <= src.len() {
        if c < 4 {
            src[si + c] as int
        } else {
            1
        }
    } else {
        0
    }
}

/// Sum of `pixel_weight` over row `sy`, columns `x0..x1`.
pub open spec fn row_sum(src: Seq<u8>, src_w: int, sy: int, x0: int, x1: int, c: int) -> int
    decreases x1 - x0,
{
    if x1 <= x0 {
        0
    } else {
        row_sum(src, src_w, sy, x0, x1 - 1, c) + pixel_weight(src, src_w, x1 - 1, sy, c)
    }
}

/// Sum of `pixel_weight` over rows `y0..y1`, columns `x0..x1`.
pub open spec fn area_sum(
    src: Seq<u8>,
    src_w: int,
    y0: int,
    y1: int,
    x0: int,
    x1: int,
    c: int,
) -> int
    decreases y1 - y0,
{
    if y1 <= y0 {
        0
    } else {
        area_sum(src, src_w, y0, y1 - 1, x0, x1, c) + row_sum(src, src_w, y1 - 1, x0, x1, c)
    }
}

/// First source coordinate covered by destination coordinate `d`, as
/// binary64 arithmetic computes it:
/// `(d as f64 * (src_n as f64 / dst_n as f64)).floor() as u32`.
pub open spec fn span_lo(d: int, src_n: int, dst_n: int) -> int {
    let f = binary64_floor(d as nat, src_n as nat, dst_n as nat);
    if f > u32::MAX {
        u32::MAX as int
    } else {
        f as int
    }
}

/// One past the last source coordinate covered by destination coordinate
/// `d`, as binary64 arithmetic computes it:
/// `(((d + 1) as f64 * (src_n as f64 / dst_n as f64)).ceil() as u32).min(src_n)`.
pub open spec fn span_hi(d: int, src_n: int, dst_n: int) -> int {
    let c = binary64_ceil((d + 1) as nat, src_n as nat, dst_n as nat);
    let c = if c > u32::MAX {
        u32::MAX as int
    } else {
        c as int
    };
    if c <= src_n {
        c
    } else {
        src_n
    }
}

/// `span_hi`, or `span_lo` where that is larger (an empty span either way).
pub open spec fn span_end(d: int, src_n: int, dst_n: int) -> int {
    if span_hi(d, src_n, dst_n) < span_lo(d, src_n, dst_n) {
        span_lo(d, src_n, dst_n)
    } else {
        span_hi(d, src_n, dst_n)
    }
}

/// Channel `c` of destination pixel `(dx, dy)`: the average of the source
/// pixels it covers (zero when it covers none).
pub open spec fn box_value(
    src: Seq<u8>,
    src_w: int,
    src_h: int,
    dst_w: int,
    dst_h: int,
    dx: int,
    dy: int,
    c: int,
) -> int {
    let y0 = span_lo(dy, src_h, dst_h);
    let y1 = span_hi(dy, src_h, dst_h);
    let x0 = span_lo(dx, src_w, dst_w);
    let x1 = span_hi(dx, src_w, dst_w);
    let cnt = area_sum(src, src_w, y0, y1, x0, x1, 4);
    if cnt > 0 {
        area_sum(src, src_w, y0, y1, x0, x1, c) / cnt
    } else {
        0
    }
}

/// The downsampled image, row-major RGBA8.
pub open spec fn box_filtered(src: Seq<u8>, src_w: int, src_h: int, dst_w: int, dst_h: int) -> Seq<
    u8,
> {
    Seq::new(
        (dst_w * dst_h * 4) as nat,
        |p: int| box_value(src, src_w, src_h, dst_w, dst_h, (p / 4) % dst_w, (p / 4) / dst_w, p % 4) as u8,
    )
}

// ── Lemmas ───────────────────────────────────────────────────────────

proof fn lemma_row_sum_bounds(src: Seq<u8>, src_w: int, sy: int, x0: int, x1: int, c: int)
    requires
        0 <= c < 4,
    ensures
        0 <= row_sum(src, src_w, sy, x0, x1, c) <= 255 * row_sum(src, src_w, sy, x0, x1, 4),
        0 <= row_sum(src, src_w, sy, x0, x1, 4),
    decreases x1 - x0,
{
    if x1 > x0 {
        lemma_row_sum_bounds(src, src_w, sy, x0, x1 - 1, c);
    }
}

proof fn lemma_area_sum_bounds(
    src: Seq<u8>,
    src_w: int,
    y0: int,
    y1: int,
    x0: int,
    x1: int,
    c: int,
)
    requires
        0 <= c < 4,
    ensures
        0 <= area_sum(src, src_w, y0, y1, x0, x1, c) <= 255 * area_sum(
            src,
            src_w,
            y0,
            y1,
            x0,
            x1,
            4,
        ),
    decreases y1 - y0,
{
    if y1 > y0 {
        lemma_area_sum_bounds(src, src_w, y0, y1 - 1, x0, x1, c);
        lemma_row_sum_bounds(src, src_w, y1 - 1, x0, x1, c);
    }
}

/// An empty span sums to nothing, whichever way round its ends are.
proof fn lemma_area_sum_clamped(
    src: Seq<u8>,
    src_w: int,
    y0: int,
    y1: int,
    x0: int,
    x1: int,
    c: int,
)
    ensures
        area_sum(src, src_w, y0, y1, x0, x1, c) == area_sum(
            src,
            src_w,
            y0,
            if y1 < y0 {
                y0
            } else {
                y1
            },
            x0,
            if x1 < x0 {
                x0
            } else {
                x1
            },
            c,
        ),
    decreases y1 - y0,
{
    if y1 > y0 {
        lemma_area_sum_clamped(src, src_w, y0, y1 - 1, x0, x1, c);
    }
}

/// The byte `p` of a row-major RGBA image of width `w` belongs to pixel
/// `((p / 4) % w, (p / 4) / w)`, channel `p % 4`.
proof fn lemma_pixel_position(w: int, x: int, y: int, c: int)
    requires
        w > 0,
        0 <= x < w,
        0 <= y,
        0 <= c < 4,
    ensures
        ((y * w + x) * 4 + c) / 4 == y * w + x,
        ((y * w + x) * 4 + c) % 4 == c,
        (y * w + x) % w == x,
        (y * w + x) / w == y,
{
    vstd::arithmetic::div_mod::lemma_fundamental_div_mod_converse(
        (y * w + x) * 4 + c,
        4,
        y * w + x,
        c,
    );
    vstd::arithmetic::div_mod::lemma_fundamental_div_mod_converse(y * w + x, w, y, x);
}

proof fn lemma_pixel_index_bound(w: int, h: int, x: int, y: int)
    requires
        0 <= x < w,
        0 <= y < h,
    ensures
        y * w + x + 1 <= w * h,
        0 <= y * w + x,
{
    assert(y * w + x + 1 <= w * h) by (nonlinear_arith)
        requires
            0 <= x < w,
            0 <= y < h,
    ;
    assert(0 <= y * w) by (nonlinear_arith)
        requires
            0 <= y,
            0 <= w,
    ;
}

// ── Executable ───────────────────────────────────────────────────────

pub(crate) fn zeroed(n: usize) -> (v: Vec<u8>)
    ensures
        v@.len() == n,
        forall|i: int| 0 <= i < n ==> v@[i] == 0,
{
    let mut v: Vec<u8> = Vec::with_capacity(n);
    let mut i: usize = 0;
    while i < n
        invariant
            i <= n,
            v@.len() == i,
            forall|k: int| 0 <= k < i ==> v@[k] == 0,
        decreases n - i,
    {
        v.push(0);
        i = i + 1;
    }
    v
}

/// The source span of destination coordinate `d`: `span_lo` and
/// `span_end`.
fn span(d: u32, src_n: u32, dst_n: u32) -> (r: (u32, u32))
    requires
        dst_n > 0,
        d < dst_n,
    ensures
        r.0 == span_lo(d as int, src_n as int, dst_n as int),
        r.1 == span_end(d as int, src_n as int, dst_n as int),
        r.0 <= r.1,
{
    let (f, _) = binary64_floor_ceil(d as u64, src_n, dst_n);
    let (_, c) = binary64_floor_ceil(d as u64 + 1, src_n, dst_n);
    let lo: u32 = if f > u32::MAX as u128 {
        u32::MAX
    } else {
        f as u32
    };
    let c32: u32 = if c > u32::MAX as u128 {
        u32::MAX
    } else {
        c as u32
    };
    let hi = if c32 <= src_n {
        c32
    } else {
        src_n
    };
    if hi < lo {
        (lo, lo)
    } else {
        (lo, hi)
    }
}

/// Byte index of pixel `(x, y)` in a row-major RGBA image of width `w`.
fn pixel_byte_index(x: u32, y: u32, w: u32) -> (i: u128)
    ensures
        i == (y as int * w as int + x as int) * 4,
        i <= 0x10_0000_0000_0000_0000,
{
    proof {
        assert((y as int) * (w as int) <= 0xFFFF_FFFF * 0xFFFF_FFFF) by (nonlinear_arith)
            requires
                y <= 0xFFFF_FFFF,
                w <= 0xFFFF_FFFF,
        ;
    }
    (y as u128 * w as u128 + x as u128) * 4
}

/// Box-filter downsample RGBA pixels from `src_w`×`src_h` to
/// `dst_w`×`dst_h`: each destination pixel is the average of the source
/// pixels it covers.
pub fn box_filter(src: &[u8], src_w: u32, src_h: u32, dst_w: u32, dst_h: u32) -> (dst: Vec<u8>)
    requires
        dst_w as int * dst_h as int * 4 <= u32::MAX,
    ensures
        dst@ == box_filtered(src@, src_w as int, src_h as int, dst_w as int, dst_h as int),
{
    let ghost sw = src_w as int;
    let ghost sh = src_h as int;
    let ghost dw = dst_w as int;
    let ghost dh = dst_h as int;
    let n = (dst_w * dst_h * 4) as usize;
    let mut dst = zeroed(n);
    let ghost expected = box_filtered(src@, sw, sh, dw, dh);
    let mut dy: u32 = 0;
    while dy < dst_h
        invariant
            sw == src_w,
            sh == src_h,
            dw == dst_w,
            dh == dst_h,
            dw * dh * 4 <= u32::MAX,
            n == dw * dh * 4,
            expected == box_filtered(src@, sw, sh, dw, dh),
            dy <= dst_h,
            dst@.len() == n,
            forall|p: int|
                0 <= p < n ==> #[trigger] dst@[p] == if p < dy * dw * 4 {
                    expected[p]
                } else {
                    0
                },
        decreases dst_h - dy,
    {
        let (y0, y1) = span(dy, src_h, dst_h);
        let mut dx: u32 = 0;
        while dx < dst_w
            invariant
                sw == src_w,
                sh == src_h,
                dw == dst_w,
                dh == dst_h,
                dw * dh * 4 <= u32::MAX,
                n == dw * dh * 4,
                expected == box_filtered(src@, sw, sh, dw, dh),
                dy < dst_h,
                dx <= dst_w,
                y0 == span_lo(dy as int, sh, dh),
                y1 == span_end(dy as int, sh, dh),
                y0 <= y1,
                dst@.len() == n,
                forall|p: int|
                    0 <= p < n ==> #[trigger] dst@[p] == if p < (dy * dw + dx) * 4 {
                        expected[p]
                    } else {
                        0
                    },
            decreases dst_w - dx,
        {
            let (x0, x1) = span(dx, src_w, dst_w);
            let mut r: u128 = 0;
            let mut g: u128 = 0;
            let mut b: u128 = 0;
            let mut a: u128 = 0;
            let mut cnt: u128 = 0;
            let mut sy: u32 = y0;
            while sy < y1
                invariant
                    sw == src_w,
                    y0 <= y1,
                    y0 <= sy <= y1,
                    x0 <= x1,
                    r == area_sum(src@, sw, y0 as int, sy as int, x0 as int, x1 as int, 0),
                    g == area_sum(src@, sw, y0 as int, sy as int, x0 as int, x1 as int, 1),
                    b == area_sum(src@, sw, y0 as int, sy as int, x0 as int, x1 as int, 2),
                    a == area_sum(src@, sw, y0 as int, sy as int, x0 as int, x1 as int, 3),
                    cnt == area_sum(src@, sw, y0 as int, sy as int, x0 as int, x1 as int, 4),
                    cnt <= (sy as int - y0 as int) * 0x1_0000_0000,
                decreases y1 - sy,
            {
                let mut sx: u32 = x0;
                while sx < x1
                    invariant
                        sw == src_w,
                        y0 <= sy < y1,
                        x0 <= sx <= x1,
                        r == area_sum(src@, sw, y0 as int, sy as int, x0 as int, x1 as int, 0)
                            + row_sum(src@, sw, sy as int, x0 as int, sx as int, 0),
                        g == area_sum(src@, sw, y0 as int, sy as int, x0 as int, x1 as int, 1)
                            + row_sum(src@, sw, sy as int, x0 as int, sx as int, 1),
                        b == area_sum(src@, sw, y0 as int, sy as int, x0 as int, x1 as int, 2)
                            + row_sum(src@, sw, sy as int, x0 as int, sx as int, 2),
                        a == area_sum(src@, sw, y0 as int, sy as int, x0 as int, x1 as int, 3)
                            + row_sum(src@, sw, sy as int, x0 as int, sx as int, 3),
                        cnt == area_sum(src@, sw, y0 as int, sy as int, x0 as int, x1 as int, 4)
                            + row_sum(src@, sw, sy as int, x0 as int, sx as int, 4),
                        cnt <= (sy as int - y0 as int) * 0x1_0000_0000 + (sx as int - x0 as int),
                    decreases x1 - sx,
                {
                    let si = pixel_byte_index(sx, sy, src_w);
                    proof {
                        lemma_area_sum_bounds(
                            src@,
                            sw,
                            y0 as int,
                            sy as int,
                            x0 as int,
                            x1 as int,
                            0,
                        );
                        lemma_area_sum_bounds(
                            src@,
                            sw,
                            y0 as int,
                            sy as int,
                            x0 as int,
                            x1 as int,
                            1,
                        );
                        lemma_area_sum_bounds(
                            src@,
                            sw,
                            y0 as int,
                            sy as int,
                            x0 as int,
                            x1 as int,
                            2,
                        );
                        lemma_area_sum_bounds(
                            src@,
                            sw,
                            y0 as int,
                            sy as int,
                            x0 as int,
                            x1 as int,
                            3,
                        );
                        lemma_row_sum_bounds(src@, sw, sy as int, x0 as int, sx as int, 0);
                        lemma_row_sum_bounds(src@, sw, sy as int, x0 as int, sx as int, 1);
                        lemma_row_sum_bounds(src@, sw, sy as int, x0 as int, sx as int, 2);
                        lemma_row_sum_bounds(src@, sw, sy as int, x0 as int, sx as int, 3);
                    }
                    if si + 4 <= src.len() as u128 {
                        let i = si as usize;
                        r = r + src[i] as u128;
                        g = g + src[i + 1] as u128;
                        b = b + src[i + 2] as u128;
                        a = a + src[i + 3] as u128;
                        cnt = cnt + 1;
                    }
                    sx = sx + 1;
                }
                sy = sy + 1;
            }
            let ghost cur = dy as int * dw + dx as int;
            proof {
                lemma_pixel_index_bound(dw, dh, dx as int, dy as int);
                assert(cur * 4 + 4 <= n) by (nonlinear_arith)
                    requires
                        cur + 1 <= dw * dh,
                        n == dw * dh * 4,
                ;
            }
            let ghost before = dst@;
            if cnt > 0 {
                let di = ((dy as u64 * dst_w as u64 + dx as u64) * 4) as usize;
                proof {
                    lemma_area_sum_bounds(src@, sw, y0 as int, y1 as int, x0 as int, x1 as int, 0);
                    lemma_area_sum_bounds(src@, sw, y0 as int, y1 as int, x0 as int, x1 as int, 1);
                    lemma_area_sum_bounds(src@, sw, y0 as int, y1 as int, x0 as int, x1 as int, 2);
                    lemma_area_sum_bounds(src@, sw, y0 as int, y1 as int, x0 as int, x1 as int, 3);
                    assert(r / cnt <= 255) by (nonlinear_arith)
                        requires
                            r <= 255 * cnt,
                            cnt > 0,
                    ;
                    assert(g / cnt <= 255) by (nonlinear_arith)
                        requires
                            g <= 255 * cnt,
                            cnt > 0,
                    ;
                    assert(b / cnt <= 255) by (nonlinear_arith)
                        requires
                            b <= 255 * cnt,
                            cnt > 0,
                    ;
                    assert(a / cnt <= 255) by (nonlinear_arith)
                        requires
                            a <= 255 * cnt,
                            cnt > 0,
                    ;
                }
                dst.set(di, (r / cnt) as u8);
                dst.set(di + 1, (g / cnt) as u8);
                dst.set(di + 2, (b / cnt) as u8);
                dst.set(di + 3, (a / cnt) as u8);
            }
            proof {
                assert forall|p: int| 0 <= p < n implies #[trigger] dst@[p] == if p < (cur + 1)
                    * 4 {
                    expected[p]
                } else {
                    0
                } by {
                    if cur * 4 <= p < cur * 4 + 4 {
                        let c = p - cur * 4;
                        lemma_pixel_position(dw, dx as int, dy as int, c);
                        lemma_area_sum_clamped(
                            src@,
                            sw,
                            y0 as int,
                            span_hi(dy as int, sh, dh),
                            x0 as int,
                            span_hi(dx as int, sw, dw),
                            c,
                        );
                        lemma_area_sum_clamped(
                            src@,
                            sw,
                            y0 as int,
                            span_hi(dy as int, sh, dh),
                            x0 as int,
                            span_hi(dx as int, sw, dw),
                            4,
                        );
                        assert(expected[p] == box_value(
                            src@,
                            sw,
                            sh,
                            dw,
                            dh,
                            dx as int,
                            dy as int,
                            c,
                        ) as u8);
                    } else {
                        assert(dst@[p] == before[p]);
                    }
                }
                assert((dy as int * dw + dx as int + 1) * 4 == (dy as int * dw + (dx as int + 1))
                    * 4);
            }
            dx = dx + 1;
        }
        proof {
            assert((dy as int * dw + dw) * 4 == ((dy as int + 1) * dw) * 4) by (nonlinear_arith);
        }
        dy = dy + 1;
    }
    proof {
        assert(dst@ =~= expected) by {
            assert forall|p: int| 0 <= p < n implies dst@[p] == expected[p] by {
                assert(dy as int * dw * 4 == dw * dh * 4);
            }
        }
    }
    dst
}


// ── Mip chains ───────────────────────────────────────────────────────

/// `floor(log2(m))`, with `0` for `m < 2`.
pub open spec fn floor_log2(m: nat) -> nat
    decreases m,
{
    if m < 2 {
        0
    } else {
        1 + floor_log2(m / 2)
    }
}

/// Number of mip levels of a `w`×`h` image: `floor(log2(max(w, h)))`, at
/// least one.
pub open spec fn mip_levels(w: u32, h: u32) -> nat {
    let m = if w >= h {
        w
    } else {
        h
    };
    if floor_log2(m as nat) < 1 {
        1
    } else {
        floor_log2(m as nat)
    }
}

/// Size of mip level `i` along one axis: halved per level, at least one.
pub open spec fn level_dim(d: u32, i: nat) -> u32
    decreases i,
{
    if i == 0 {
        d
    } else {
        let p = level_dim(d, (i - 1) as nat);
        if p / 2 >= 1 {
            p / 2
        } else {
            1
        }
    }
}

proof fn lemma_level_dim_le(d: u32, i: nat)
    ensures
        level_dim(d, i) <= if d >= 1 {
            d
        } else {
            1
        },
        i > 0 ==> level_dim(d, i) >= 1,
    decreases i,
{
    if i > 0 {
        lemma_level_dim_le(d, (i - 1) as nat);
    }
}

proof fn lemma_floor_log2_le(m: nat)
    ensures
        floor_log2(m) <= m,
    decreases m,
{
    if m >= 2 {
        lemma_floor_log2_le(m / 2);
    }
}

pub fn mip_level_count(width: u32, height: u32) -> (n: u32)
    ensures
        n == mip_levels(width, height),
{
    let mut m: u32 = if width >= height {
        width
    } else {
        height
    };
    let ghost m0 = m as nat;
    let mut count: u32 = 0;
    proof {
        vstd::arithmetic::power2::lemma2_to64();
    }
    while m >= 2
        invariant
            count + floor_log2(m as nat) == floor_log2(m0),
            count <= 32,
            m as nat * pow2(count as nat) <= m0,
            m0 <= u32::MAX,
        decreases m,
    {
        proof {
            vstd::arithmetic::power2::lemma_pow2_unfold((count + 1) as nat);
            assert((m / 2) as nat * pow2((count + 1) as nat) <= m as nat * pow2(count as nat))
                by (nonlinear_arith)
                requires
                    pow2((count + 1) as nat) == 2 * pow2(count as nat),
            ;
            if count + 1 > 32 {
                vstd::arithmetic::power2::lemma_pow2_strictly_increases(32, (count + 1) as nat);
                vstd::arithmetic::power2::lemma2_to64();
                vstd::arithmetic::power2::lemma_pow2_pos(32);
                assert((m / 2) as nat * pow2((count + 1) as nat) > u32::MAX) by (nonlinear_arith)
                    requires
                        m / 2 >= 1,
                        pow2((count + 1) as nat) > pow2(32),
                        pow2(32) == 0x1_0000_0000,
                ;
            }
        }
        m = m / 2;
        count = count + 1;
    }
    if count < 1 {
        1
    } else {
        count
    }
}

fn halved(d: u32) -> (r: u32)
    ensures
        r == if d / 2 >= 1 {
            d / 2
        } else {
            1
        },
{
    if d / 2 >= 1 {
        d / 2
    } else {
        1
    }
}

/// Mip chain of an RGBA8 image: level 0 is the image itself, each further
/// level box-filters the previous one to half its size.
pub fn build_mip_chain(pixels: &[u8], width: u32, height: u32) -> (levels: Vec<Rc<Vec<u8>>>)
    requires
        (if width >= 1 {
            width as int
        } else {
            1
        }) * (if height >= 1 {
            height as int
        } else {
            1
        }) * 4 <= u32::MAX,
    ensures
        levels@.len() == mip_levels(width, height),
        levels@[0]@ == pixels@,
        forall|i: int|
            1 <= i < levels@.len() ==> (#[trigger] levels@[i])@ == box_filtered(
                levels@[i - 1]@,
                level_dim(width, (i - 1) as nat) as int,
                level_dim(height, (i - 1) as nat) as int,
                level_dim(width, i as nat) as int,
                level_dim(height, i as nat) as int,
            ),
{
    let count = mip_level_count(width, height);
    let mut levels: Vec<Rc<Vec<u8>>> = Vec::new();
    let mut cur: Vec<u8> = vstd::slice::slice_to_vec(pixels);
    let mut mw = width;
    let mut mh = height;
    let ghost bw = if width >= 1 {
        width as int
    } else {
        1
    };
    let ghost bh = if height >= 1 {
        height as int
    } else {
        1
    };
    let mut i: u32 = 1;
    while i < count
        invariant
            1 <= i <= count || count == 0,
            count == mip_levels(width, height),
            count >= 1,
            levels@.len() == i - 1,
            mw == level_dim(width, (i - 1) as nat),
            mh == level_dim(height, (i - 1) as nat),
            bw * bh * 4 <= u32::MAX,
            bw == if width >= 1 {
                width as int
            } else {
                1
            },
            bh == if height >= 1 {
                height as int
            } else {
                1
            },
            i == 1 ==> cur@ == pixels@,
            i > 1 ==> cur@ == box_filtered(
                levels@[i - 2]@,
                level_dim(width, (i - 2) as nat) as int,
                level_dim(height, (i - 2) as nat) as int,
                mw as int,
                mh as int,
            ),
            levels@.len() >= 1 ==> levels@[0]@ == pixels@,
            forall|k: int|
                1 <= k < levels@.len() ==> (#[trigger] levels@[k])@ == box_filtered(
                    levels@[k - 1]@,
                    level_dim(width, (k - 1) as nat) as int,
                    level_dim(height, (k - 1) as nat) as int,
                    level_dim(width, k as nat) as int,
                    level_dim(height, k as nat) as int,
                ),
        decreases count - i,
    {
        let nw = halved(mw);
        let nh = halved(mh);
        proof {
            lemma_level_dim_le(width, i as nat);
            lemma_level_dim_le(height, i as nat);
            assert(nw as int * nh as int * 4 <= bw * bh * 4) by (nonlinear_arith)
                requires
                    1 <= nw <= bw,
                    1 <= nh <= bh,
            ;
        }
        let next = box_filter(cur.as_slice(), mw, mh, nw, nh);
        let ghost prev_levels = levels@;
        levels.push(Rc::new(cur));
        cur = next;
        proof {
            assert forall|k: int| 1 <= k < levels@.len() implies (#[trigger] levels@[k])@
                == box_filtered(
                levels@[k - 1]@,
                level_dim(width, (k - 1) as nat) as int,
                level_dim(height, (k - 1) as nat) as int,
                level_dim(width, k as nat) as int,
                level_dim(height, k as nat) as int,
            ) by {
                if k < prev_levels.len() {
                    assert(levels@[k] == prev_levels[k]);
                    assert(levels@[k - 1] == prev_levels[k - 1]);
                }
            }
        }
        mw = nw;
        mh = nh;
        i = i + 1;
    }
    levels.push(Rc::new(cur));
    levels
}

/// Whether mip level `i` of a `full_w`×`full_h` image is at least
/// `target_w`×`target_h`.
pub open spec fn mip_fits(full_w: u32, full_h: u32, target_w: u32, target_h: u32, i: nat) -> bool {
    let mw = if full_w as nat / pow2(i) >= 1 {
        full_w as nat / pow2(i)
    } else {
        1
    };
    let mh = if full_h as nat / pow2(i) >= 1 {
        full_h as nat / pow2(i)
    } else {
        1
    };
    mw >= target_w && mh >= target_h
}

/// The first level at or after `i` that is too small, or `level_count`.
pub open spec fn first_unfit_from(
    level_count: nat,
    full_w: u32,
    full_h: u32,
    target_w: u32,
    target_h: u32,
    i: nat,
) -> nat
    decreases level_count - i,
{
    if i >= level_count {
        level_count
    } else if !mip_fits(full_w, full_h, target_w, target_h, i) {
        i
    } else {
        first_unfit_from(level_count, full_w, full_h, target_w, target_h, i + 1)
    }
}

/// The smallest mip level whose size still covers the target: the last of
/// the leading levels that fit, or level 0.
pub open spec fn chosen_mip(level_count: nat, full_w: u32, full_h: u32, target_w: u32, target_h: u32) -> nat {
    let f = first_unfit_from(level_count, full_w, full_h, target_w, target_h, 0);
    if level_count <= 1 || f == 0 {
        0
    } else {
        (f - 1) as nat
    }
}

/// Pick the smallest mip level whose both dimensions are at least the
/// target's.
pub fn select_mip(level_count: usize, full_w: u32, full_h: u32, target_w: u32, target_h: u32) -> (i: usize)
    requires
        level_count <= 32 || target_w > 1 || target_h > 1,
    ensures
        i == chosen_mip(level_count as nat, full_w, full_h, target_w, target_h),
        level_count >= 1 ==> i < level_count,
{
    if level_count <= 1 {
        return 0;
    }
    let mut best: usize = 0;
    let mut i: usize = 0;
    while i < level_count
        invariant
            level_count >= 2,
            level_count <= 32 || target_w > 1 || target_h > 1,
            i <= level_count,
            i <= 32,
            i == 0 ==> best == 0,
            i > 0 ==> best == i - 1,
            forall|k: nat| k < i ==> mip_fits(full_w, full_h, target_w, target_h, k),
            first_unfit_from(level_count as nat, full_w, full_h, target_w, target_h, 0)
                == first_unfit_from(level_count as nat, full_w, full_h, target_w, target_h, i as nat),
        ensures
            i <= level_count,
            i == 0 ==> best == 0,
            i > 0 ==> best == i - 1,
            i == level_count || !mip_fits(full_w, full_h, target_w, target_h, i as nat),
            first_unfit_from(level_count as nat, full_w, full_h, target_w, target_h, 0)
                == first_unfit_from(level_count as nat, full_w, full_h, target_w, target_h, i as nat),
        decreases level_count - i,
    {
        if i == 32 {
            proof {
                assert(mip_fits(full_w, full_h, target_w, target_h, 31));
                vstd::arithmetic::power2::lemma2_to64();
                assert(full_w as nat / pow2(31) <= 1);
                assert(full_h as nat / pow2(31) <= 1);
            }
        }
        let sh = i as u32;
        let mw0 = full_w >> sh;
        let mh0 = full_h >> sh;
        proof {
            vstd::bits::lemma_u32_shr_is_div(full_w, sh);
            vstd::bits::lemma_u32_shr_is_div(full_h, sh);
        }
        let mw = if mw0 >= 1 {
            mw0
        } else {
            1
        };
        let mh = if mh0 >= 1 {
            mh0
        } else {
            1
        };
        if mw >= target_w && mh >= target_h {
            best = i;
        } else {
            break ;
        }
        i = i + 1;
    }
    if best < level_count - 1 {
        best
    } else {
        level_count - 1
    }
}

} // verus!
