//! Backdrop blur on the CPU frame: snapshotting the pixels under a region
//! and compositing the blurred snapshot back, tinted and masked by the
//! region's rounded-corner coverage, within the damage rect.
//!
//! Regions are device-pixel rectangles of a `pw`-wide frame: columns
//! `x0 .. x1`, rows `y0 .. y1`.

use vstd::prelude::*;
use crate::pixel::{chan, in_region, lemma_chan_le, pack};
use crate::grid::{lemma_cell, lemma_cell_bound};

verus! {

/// The snapshot of columns `x0 .. x1`, rows `y0 .. y1` of a `pw`-wide
/// frame, row-major.
pub open spec fn region_pixels(frame: Seq<u32>, pw: int, x0: int, x1: int, y0: int, y1: int) -> Seq<
    u32,
> {
    let w = x1 - x0;
    Seq::new(((x1 - x0) * (y1 - y0)) as nat, |k: int| frame[(y0 + k / w) * pw + x0 + k % w])
}

/// Copy the pixels under a region out of the frame, row by row.
pub fn snapshot_region(pixels: &[u32], pw: usize, x0: usize, x1: usize, y0: usize, y1: usize) -> (r:
    Vec<u32>)
    requires
        x0 <= x1 <= pw,
        y0 <= y1,
        y1 * pw <= pixels@.len(),
    ensures
        r@ == region_pixels(pixels@, pw as int, x0 as int, x1 as int, y0 as int, y1 as int),
{
    let ghost w = (x1 - x0) as int;
    let plen = pixels.len();
    let mut out: Vec<u32> = Vec::new();
    let mut y = y0;
    while y < y1
        invariant
            plen == pixels@.len(),
            x0 <= x1 <= pw,
            y0 <= y <= y1,
            y1 * pw <= pixels@.len(),
            w == x1 - x0,
            out@.len() == w * (y - y0),
            forall|k: int|
                0 <= k < out@.len() ==> #[trigger] out@[k] == pixels@[(y0 + k / w) * pw + x0 + k
                    % w],
        decreases y1 - y,
    {
        proof {
            assert(y * pw + pw <= y1 * pw) by (nonlinear_arith)
                requires
                    y < y1,
            ;
        }
        let row = y * pw;
        let base = out.len();
        let mut x = x0;
        while x < x1
            invariant
                plen == pixels@.len(),
                x0 <= x <= x1 <= pw,
                y0 <= y < y1,
                row == y * pw,
                row + pw <= pixels@.len(),
                w == x1 - x0,
                base == w * (y - y0),
                out@.len() == base + (x - x0),
                forall|k: int|
                    0 <= k < out@.len() ==> #[trigger] out@[k] == pixels@[(y0 + k / w) * pw + x0 + k
                        % w],
            decreases x1 - x,
        {
            proof {
                let k = base + (x - x0);
                lemma_cell(w, x - x0, y - y0);
                assert(k == (y - y0) * w + (x - x0)) by (nonlinear_arith)
                    requires
                        k == base + (x - x0),
                        base == w * (y - y0),
                ;
            }
            out.push(pixels[row + x]);
            x = x + 1;
        }
        y = y + 1;
        proof {
            assert(out@.len() == w * (y - y0)) by (nonlinear_arith)
                requires
                    out@.len() == base + w,
                    base == w * (y - 1 - y0),
            ;
        }
    }
    out
}

/// Blurred pixel `b` with the premultiplied tint (`tr`, `tg`, `tb`, `ta`)
/// composited over it, each channel capped at 255; no tint alpha leaves it.
pub open spec fn tinted(b: u32, tr: u32, tg: u32, tb: u32, ta: u32) -> u32 {
    if ta == 0 {
        b
    } else {
        let inv = 255 - ta;
        pack(
            min_255(chan(b, 0) * inv / 255 + tr),
            min_255(chan(b, 1) * inv / 255 + tg),
            min_255(chan(b, 2) * inv / 255 + tb),
            min_255(chan(b, 3) * inv / 255 + ta),
        )
    }
}

/// Byte `v` capped at 255.
pub open spec fn cap_byte(v: int) -> int {
    if v > 255 {
        255
    } else {
        v
    }
}

/// The tint is drawn source-over the blurred pixel: with a premultiplied
/// tint `(tr, tg, tb, ta)` of non-zero alpha, each colour channel of the
/// tinted pixel is the blurred channel scaled by `255 - ta` over 255 plus
/// the tint's channel, and its alpha the blurred alpha scaled the same way
/// plus `ta`, each capped at 255; a transparent tint leaves the pixel as
/// it is. So an opaque pixel under a tint that is not transparent changes
/// unless it already has the tint's colour.
pub proof fn lemma_tint_is_source_over(b: u32, tr: u32, tg: u32, tb: u32, ta: u32)
    requires
        tr <= 255,
        tg <= 255,
        tb <= 255,
        ta <= 255,
    ensures
        ta == 0 ==> tinted(b, tr, tg, tb, ta) == b,
        ta > 0 ==> {
            &&& chan(tinted(b, tr, tg, tb, ta), 0) as int == cap_byte(
                chan(b, 0) * (255 - ta) / 255 + tr,
            )
            &&& chan(tinted(b, tr, tg, tb, ta), 1) as int == cap_byte(
                chan(b, 1) * (255 - ta) / 255 + tg,
            )
            &&& chan(tinted(b, tr, tg, tb, ta), 2) as int == cap_byte(
                chan(b, 2) * (255 - ta) / 255 + tb,
            )
            &&& chan(tinted(b, tr, tg, tb, ta), 3) as int == cap_byte(
                chan(b, 3) * (255 - ta) / 255 + ta,
            )
        },
{
    if ta > 0 {
        let inv = 255 - ta;
        let c0 = min_255(chan(b, 0) * inv / 255 + tr);
        let c1 = min_255(chan(b, 1) * inv / 255 + tg);
        let c2 = min_255(chan(b, 2) * inv / 255 + tb);
        let c3 = min_255(chan(b, 3) * inv / 255 + ta);
        assert(chan(b, 0) < 256 && chan(b, 1) < 256 && chan(b, 2) < 256 && chan(b, 3) < 256)
            by (bit_vector);
        let (x0, x1, x2, x3) = (chan(b, 0), chan(b, 1), chan(b, 2), chan(b, 3));
        assert(0 <= x0 * inv / 255 <= 255 && 0 <= x1 * inv / 255 <= 255 && 0 <= x2 * inv / 255
            <= 255 && 0 <= x3 * inv / 255 <= 255) by (nonlinear_arith)
            requires
                x0 < 256,
                x1 < 256,
                x2 < 256,
                x3 < 256,
                0 <= inv <= 255,
        ;
        crate::pixel::lemma_pack_chan(c0, c1, c2, c3);
    }
}

/// `v` capped at 255.
pub open spec fn min_255(v: int) -> u32 {
    if v > 255 {
        255
    } else {
        v as u32
    }
}

/// Frame pixel `o` under the region pixel `b` at coverage `cv`: full
/// coverage replaces it, none keeps it, and in between each channel is
/// mixed in proportion.
pub open spec fn covered_px(o: u32, b: u32, cv: u32) -> u32 {
    if cv == 0 {
        o
    } else if cv == 255 {
        b
    } else {
        pack(
            ((chan(b, 0) * cv + chan(o, 0) * (255 - cv)) / 255) as u32,
            ((chan(b, 1) * cv + chan(o, 1) * (255 - cv)) / 255) as u32,
            ((chan(b, 2) * cv + chan(o, 2) * (255 - cv)) / 255) as u32,
            ((chan(b, 3) * cv + chan(o, 3) * (255 - cv)) / 255) as u32,
        )
    }
}

/// The frame after compositing a blurred region (`blurred` and `cov`, both
/// `x1 - x0` wide, row-major) over its place, within the damage rect
/// (`dx0 .. dx1`, `dy0 .. dy1`).
pub open spec fn backdrop_composited(
    frame: Seq<u32>,
    pw: int,
    x0: int,
    x1: int,
    y0: int,
    y1: int,
    dx0: int,
    dx1: int,
    dy0: int,
    dy1: int,
    blurred: Seq<u32>,
    cov: Seq<u8>,
    tint: (u32, u32, u32, u32),
) -> Seq<u32> {
    Seq::new(
        frame.len(),
        |i: int|
            if pw > 0 && in_region(pw, x0, y0, x1, y1, i) && in_region(pw, dx0, dy0, dx1, dy1, i) {
                let k = (i / pw - y0) * (x1 - x0) + (i % pw - x0);
                covered_px(
                    frame[i],
                    tinted(blurred[k], tint.0, tint.1, tint.2, tint.3),
                    cov[k] as u32,
                )
            } else {
                frame[i]
            },
    )
}

fn tint_word(b: u32, tr: u32, tg: u32, tb: u32, ta: u32) -> (r: u32)
    requires
        tr <= 255 && tg <= 255 && tb <= 255 && 0 < ta <= 255,
    ensures
        r == tinted(b, tr, tg, tb, ta),
{
    let inv = 255 - ta;
    proof {
        assert(b & 0xFF == (b >> 0u32) & 0xFF) by (bit_vector);
        lemma_chan_le(b, 0);
        lemma_chan_le(b, 1);
        lemma_chan_le(b, 2);
        lemma_chan_le(b, 3);
        lemma_byte_scale(chan(b, 0), inv);
        lemma_byte_scale(chan(b, 1), inv);
        lemma_byte_scale(chan(b, 2), inv);
        lemma_byte_scale(chan(b, 3), inv);
    }
    let br = (b & 0xFF) * inv / 255 + tr;
    let bg = ((b >> 8) & 0xFF) * inv / 255 + tg;
    let bb = ((b >> 16) & 0xFF) * inv / 255 + tb;
    let ba = ((b >> 24) & 0xFF) * inv / 255 + ta;
    let cr = if br > 255 { 255 } else { br };
    let cg = if bg > 255 { 255 } else { bg };
    let cb = if bb > 255 { 255 } else { bb };
    let ca = if ba > 255 { 255 } else { ba };
    (ca << 24) | (cb << 16) | (cg << 8) | cr
}

proof fn lemma_byte_scale(v: u32, m: u32)
    requires
        v <= 255,
        m <= 255,
    ensures
        v * m <= 255 * 255,
        v * m / 255 <= 255,
{
    assert(v * m <= 255 * 255) by (nonlinear_arith)
        requires
            v <= 255,
            m <= 255,
    ;
}

fn cover_word(o: u32, b: u32, cv: u32) -> (r: u32)
    requires
        0 < cv < 255,
    ensures
        r == covered_px(o, b, cv),
{
    let icv = 255 - cv;
    proof {
        assert(b & 0xFF == (b >> 0u32) & 0xFF) by (bit_vector);
        assert(o & 0xFF == (o >> 0u32) & 0xFF) by (bit_vector);
        lemma_chan_le(b, 0);
        lemma_chan_le(b, 1);
        lemma_chan_le(b, 2);
        lemma_chan_le(b, 3);
        lemma_chan_le(o, 0);
        lemma_chan_le(o, 1);
        lemma_chan_le(o, 2);
        lemma_chan_le(o, 3);
        lemma_byte_scale(chan(b, 0), cv);
        lemma_byte_scale(chan(b, 1), cv);
        lemma_byte_scale(chan(b, 2), cv);
        lemma_byte_scale(chan(b, 3), cv);
        lemma_byte_scale(chan(o, 0), icv);
        lemma_byte_scale(chan(o, 1), icv);
        lemma_byte_scale(chan(o, 2), icv);
        lemma_byte_scale(chan(o, 3), icv);
    }
    let lr = ((b & 0xFF) * cv + (o & 0xFF) * icv) / 255;
    let lg = (((b >> 8) & 0xFF) * cv + ((o >> 8) & 0xFF) * icv) / 255;
    let lb = (((b >> 16) & 0xFF) * cv + ((o >> 16) & 0xFF) * icv) / 255;
    let la = (((b >> 24) & 0xFF) * cv + ((o >> 24) & 0xFF) * icv) / 255;
    (la << 24) | (lb << 16) | (lg << 8) | lr
}

/// One more row of the region composited: rows below `y` and the part of
/// row `y` inside the damage columns.
proof fn lemma_row_done(
    p0: Seq<u32>,
    mid: Seq<u32>,
    now: Seq<u32>,
    pw: int,
    x0: int,
    x1: int,
    y0: int,
    y: int,
    dx0: int,
    dx1: int,
    dy0: int,
    dy1: int,
    blurred: Seq<u32>,
    cov: Seq<u8>,
    tint: (u32, u32, u32, u32),
)
    requires
        0 <= x0 <= x1 <= pw,
        0 <= y0 <= y,
        0 <= dx0,
        mid == backdrop_composited(p0, pw, x0, x1, y0, y, dx0, dx1, dy0, dy1, blurred, cov, tint),
        now.len() == p0.len(),
        forall|i: int|
            0 <= i < p0.len() ==> #[trigger] now[i] == if dy0 <= y < dy1 && y * pw + (if x0 > dx0 {
                x0
            } else {
                dx0
            }) <= i < y * pw + (if x1 < dx1 {
                x1
            } else {
                dx1
            }) {
                covered_px(
                    mid[i],
                    tinted(blurred[(y - y0) * (x1 - x0) + (i - y * pw - x0)], tint.0, tint.1, tint.2, tint.3),
                    cov[(y - y0) * (x1 - x0) + (i - y * pw - x0)] as u32,
                )
            } else {
                mid[i]
            },
    ensures
        now == backdrop_composited(p0, pw, x0, x1, y0, y + 1, dx0, dx1, dy0, dy1, blurred, cov, tint),
{
    let target = backdrop_composited(p0, pw, x0, x1, y0, y + 1, dx0, dx1, dy0, dy1, blurred, cov, tint);
    let cx0 = if x0 > dx0 { x0 } else { dx0 };
    let cx1 = if x1 < dx1 { x1 } else { dx1 };
    assert forall|i: int| 0 <= i < p0.len() implies #[trigger] now[i] == target[i] by {
        if pw > 0 {
            vstd::arithmetic::div_mod::lemma_fundamental_div_mod(i, pw);
            let q = i / pw;
            let r = i % pw;
            if y * pw <= i < y * pw + pw {
                lemma_cell(pw, i - y * pw, y);
                assert(q == y && r == i - y * pw);
                assert(mid[i] == p0[i]);
                if dy0 <= y < dy1 && cx0 <= r < cx1 {
                    assert((q - y0) * (x1 - x0) == (y - y0) * (x1 - x0));
                }
            } else {
                if i < y * pw {
                    assert(q < y) by (nonlinear_arith)
                        requires
                            i == pw * q + r,
                            0 <= r,
                            i < y * pw,
                            pw > 0,
                    ;
                } else {
                    assert(q > y) by (nonlinear_arith)
                        requires
                            i == pw * q + r,
                            r < pw,
                            i >= y * pw + pw,
                            pw > 0,
                    ;
                }
            }
        }
    }
    assert(now =~= target);
}

/// Composite a blurred region snapshot back onto the frame within the
/// damage rect: each pixel is tinted with the premultiplied tint
/// (`tr`, `tg`, `tb`, `ta`) and then mixed over the frame by the region's
/// coverage at that pixel.
pub fn composite_backdrop(
    pixels: &mut [u32],
    pw: usize,
    x0: usize,
    x1: usize,
    y0: usize,
    y1: usize,
    dx0: usize,
    dx1: usize,
    dy0: usize,
    dy1: usize,
    blurred: &[u32],
    cov: &[u8],
    tr: u32,
    tg: u32,
    tb: u32,
    ta: u32,
)
    requires
        x0 <= x1 <= pw,
        y0 <= y1,
        y1 * pw <= old(pixels)@.len(),
        blurred@.len() == (x1 - x0) * (y1 - y0),
        cov@.len() == (x1 - x0) * (y1 - y0),
        tr <= 255 && tg <= 255 && tb <= 255 && ta <= 255,
    ensures
        final(pixels)@ == backdrop_composited(
            old(pixels)@,
            pw as int,
            x0 as int,
            x1 as int,
            y0 as int,
            y1 as int,
            dx0 as int,
            dx1 as int,
            dy0 as int,
            dy1 as int,
            blurred@,
            cov@,
            (tr, tg, tb, ta),
        ),
{
    let ghost p0 = pixels@;
    let w = x1 - x0;
    let plen = pixels.len();
    let blen = blurred.len();
    let cx0 = if x0 > dx0 { x0 } else { dx0 };
    let cx1 = if x1 < dx1 { x1 } else { dx1 };
    let mut y = y0;
    while y < y1
        invariant
            plen == p0.len(),
            blen == blurred@.len(),
            pixels@.len() == p0.len(),
            x0 <= x1 <= pw,
            y0 <= y <= y1,
            y1 * pw <= p0.len(),
            w == x1 - x0,
            blurred@.len() == w * (y1 - y0),
            cov@.len() == w * (y1 - y0),
            cx0 == if x0 > dx0 { x0 } else { dx0 },
            cx1 == if x1 < dx1 { x1 } else { dx1 },
            tr <= 255 && tg <= 255 && tb <= 255 && ta <= 255,
            pixels@ == backdrop_composited(
                p0,
                pw as int,
                x0 as int,
                x1 as int,
                y0 as int,
                y as int,
                dx0 as int,
                dx1 as int,
                dy0 as int,
                dy1 as int,
                blurred@,
                cov@,
                (tr, tg, tb, ta),
            ),
        decreases y1 - y,
    {
        let ghost mid = pixels@;
        if dy0 <= y && y < dy1 {
            proof {
                assert(y * pw + pw <= y1 * pw) by (nonlinear_arith)
                    requires
                        y < y1,
                ;
            }
            let row = y * pw;
            let ly = y - y0;
            let mut x = cx0;
            while x < cx1
                invariant
                    plen == p0.len(),
                    blen == blurred@.len(),
                    pixels@.len() == p0.len(),
                    x0 <= x1 <= pw,
                    y0 <= y < y1,
                    dy0 <= y < dy1,
                    row == y * pw,
                    row + pw <= p0.len(),
                    ly == y - y0,
                    w == x1 - x0,
                    blurred@.len() == w * (y1 - y0),
                    cov@.len() == w * (y1 - y0),
                    cx0 == if x0 > dx0 { x0 } else { dx0 },
                    cx1 == if x1 < dx1 { x1 } else { dx1 },
                    cx0 <= x,
                    x <= cx1 || x == cx0,
                    tr <= 255 && tg <= 255 && tb <= 255 && ta <= 255,
                    forall|i: int|
                        0 <= i < p0.len() ==> #[trigger] pixels@[i] == if row + cx0 <= i < row + x {
                            covered_px(
                                mid[i],
                                tinted(blurred@[ly * w + (i - row - x0)], tr, tg, tb, ta),
                                cov@[ly * w + (i - row - x0)] as u32,
                            )
                        } else {
                            mid[i]
                        },
                decreases cx1 - x,
            {
                let lx = x - x0;
                proof {
                    lemma_cell_bound(w as int, (y1 - y0) as int, lx as int, ly as int);
                    assert(ly * w + lx == lx + ly * w);
                }
                let k = ly * w + lx;
                let cv = cov[k] as u32;
                if cv != 0 {
                    let mut b = blurred[k];
                    if ta > 0 {
                        b = tint_word(b, tr, tg, tb, ta);
                    }
                    if cv == 255 {
                        pixels[row + x] = b;
                    } else {
                        let o = pixels[row + x];
                        pixels[row + x] = cover_word(o, b, cv);
                    }
                }
                x = x + 1;
            }
            proof {
                lemma_row_done(p0, mid, pixels@, pw as int, x0 as int, x1 as int, y0 as int, y as int,
                    dx0 as int, dx1 as int, dy0 as int, dy1 as int, blurred@, cov@, (tr, tg, tb, ta));
            }
        } else {
            proof {
                lemma_row_done(p0, mid, pixels@, pw as int, x0 as int, x1 as int, y0 as int, y as int,
                    dx0 as int, dx1 as int, dy0 as int, dy1 as int, blurred@, cov@, (tr, tg, tb, ta));
            }
        }
        y = y + 1;
    }
}

} // verus!
