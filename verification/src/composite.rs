//! Source-over compositing onto the CPU frame buffer: blitting premultiplied
//! pixmaps (shadow patches, cached text surfaces), constant-colour spans,
//! and colourising an alpha plane.
//!
//! The frame buffer is `pw` by `ph` canonical pixels (premultiplied RGBA
//! read as a little-endian `u32`, `A << 24 | B << 16 | G << 8 | R`),
//! row-major. Clip rectangles are `(x0, y0, x1, y1)` in device pixels, the
//! right and bottom edges excluded.

use vstd::prelude::*;
use crate::pixel::{chan, over_rgba, over_rgba_word, pack};
use crate::grid::{lemma_cell, lemma_cell_bound, lemma_index_cell};

verus! {

/// Pixel (`x`, `y`) lies inside the clip rectangle, if there is one.
pub open spec fn clip_allows(clip: Option<(i32, i32, i32, i32)>, x: int, y: int) -> bool {
    match clip {
        Some((x0, y0, x1, y1)) => x0 <= x < x1 && y0 <= y < y1,
        None => true,
    }
}

/// Source pixel `s` composited onto `d`, its channels first scaled by
/// `factor / 255` when there is a factor: a transparent source, or a zero
/// factor, leaves `d` as it is.
pub open spec fn composite_px(d: u32, s: u32, factor: Option<u32>) -> u32 {
    if chan(s, 3) == 0 {
        d
    } else {
        match factor {
            None => over_rgba(d, chan(s, 0), chan(s, 1), chan(s, 2), chan(s, 3)),
            Some(m) => if m == 0 {
                d
            } else {
                over_rgba(
                    d,
                    (chan(s, 0) * m / 255) as u32,
                    (chan(s, 1) * m / 255) as u32,
                    (chan(s, 2) * m / 255) as u32,
                    (chan(s, 3) * m / 255) as u32,
                )
            },
        }
    }
}

/// Frame pixel (`x`, `y`) of a `pw` by `ph` frame is covered by a `sw` by
/// `sh` source placed at (`dx`, `dy`) and allowed by the clip.
pub open spec fn blit_covers(
    pw: int,
    ph: int,
    sw: int,
    sh: int,
    dx: int,
    dy: int,
    clip: Option<(i32, i32, i32, i32)>,
    x: int,
    y: int,
) -> bool {
    &&& 0 <= x < pw
    &&& 0 <= y < ph
    &&& dx <= x < dx + sw
    &&& dy <= y < dy + sh
    &&& clip_allows(clip, x, y)
}

/// The frame after a source blit: every covered pixel has the source pixel
/// over it composited with `factor(i)` (`i` the frame index); every other
/// pixel, and anything past `pw * ph`, is kept.
pub open spec fn blitted_frame(
    frame: Seq<u32>,
    pw: int,
    ph: int,
    src: Seq<u32>,
    sw: int,
    sh: int,
    dx: int,
    dy: int,
    factor: spec_fn(int) -> Option<u32>,
    clip: Option<(i32, i32, i32, i32)>,
) -> Seq<u32> {
    Seq::new(
        frame.len(),
        |i: int|
            if i < pw * ph && blit_covers(pw, ph, sw, sh, dx, dy, clip, i % pw, i / pw) {
                composite_px(frame[i], src[(i / pw - dy) * sw + (i % pw - dx)], factor(i))
            } else {
                frame[i]
            },
    )
}

/// The coverage factor of frame index `i` from a device-sized mask.
pub open spec fn mask_factor(mask: Option<Seq<u8>>, i: int) -> Option<u32> {
    match mask {
        Some(m) => Some(m[i] as u32),
        None => None,
    }
}

/// The contents of an optional mask.
pub open spec fn mask_view(mask: Option<&[u8]>) -> Option<Seq<u8>> {
    match mask {
        Some(m) => Some(m@),
        None => None,
    }
}

/// The frame after a source blit scaled per pixel by a device-sized
/// coverage mask, if there is one.
pub open spec fn blitted_masked(
    frame: Seq<u32>,
    pw: int,
    ph: int,
    src: Seq<u32>,
    sw: int,
    sh: int,
    dx: int,
    dy: int,
    mask: Option<Seq<u8>>,
    clip: Option<(i32, i32, i32, i32)>,
) -> Seq<u32> {
    blitted_frame(frame, pw, ph, src, sw, sh, dx, dy, |i: int| mask_factor(mask, i), clip)
}

/// Per-pixel factor of a blit: the mask's coverage where there is a mask,
/// else `op` below full opacity, else none.
spec fn blit_factor(mask: Option<Seq<u8>>, op: u32, i: int) -> Option<u32> {
    match mask {
        Some(m) => Some(m[i] as u32),
        None => if op < 255 {
            Some(op)
        } else {
            None
        },
    }
}

fn lo_bound(a: i128, b: i128) -> (r: i128)
    ensures
        r == if a >= b {
            a
        } else {
            b
        },
{
    if a >= b {
        a
    } else {
        b
    }
}

fn hi_bound(a: i128, b: i128) -> (r: i128)
    ensures
        r == if a <= b {
            a
        } else {
            b
        },
{
    if a <= b {
        a
    } else {
        b
    }
}

/// Composite one source pixel onto `d` with the given factor.
fn composite_word(d: u32, s: u32, factor: Option<u32>) -> (o: u32)
    requires
        factor matches Some(m) ==> m <= 255,
    ensures
        o == composite_px(d, s, factor),
{
    let sa = (s >> 24) & 0xFF;
    let sr = s & 0xFF;
    let sg = (s >> 8) & 0xFF;
    let sb = (s >> 16) & 0xFF;
    proof {
        assert(s & 0xFF == (s >> 0u32) & 0xFF) by (bit_vector);
        assert((s >> 24u32) & 0xFF <= 255) by (bit_vector);
        assert((s >> 16u32) & 0xFF <= 255) by (bit_vector);
        assert((s >> 8u32) & 0xFF <= 255) by (bit_vector);
        assert(s & 0xFF <= 255) by (bit_vector);
    }
    if sa == 0 {
        return d;
    }
    match factor {
        None => over_rgba_word(d, sr, sg, sb, sa),
        Some(m) => {
            if m == 0 {
                return d;
            }
            proof {
                assert(sa * m <= 255 * 255) by (nonlinear_arith)
                    requires
                        sa <= 255,
                        m <= 255,
                ;
                assert(sr * m <= 255 * 255) by (nonlinear_arith)
                    requires
                        sr <= 255,
                        m <= 255,
                ;
                assert(sg * m <= 255 * 255) by (nonlinear_arith)
                    requires
                        sg <= 255,
                        m <= 255,
                ;
                assert(sb * m <= 255 * 255) by (nonlinear_arith)
                    requires
                        sb <= 255,
                        m <= 255,
                ;
            }
            over_rgba_word(d, sr * m / 255, sg * m / 255, sb * m / 255, sa * m / 255)
        },
    }
}

/// The blit shared by pixmaps and text surfaces.
fn blit_impl(
    pixels: &mut [u32],
    pw: usize,
    ph: usize,
    src: &[u32],
    sw: u32,
    sh: u32,
    dx: i32,
    dy: i32,
    mask: Option<&[u8]>,
    op: u32,
    clip_dev: Option<(i32, i32, i32, i32)>,
)
    requires
        old(pixels)@.len() >= pw * ph,
        src@.len() >= sw * sh,
        mask matches Some(m) ==> m@.len() >= pw * ph,
    ensures
        final(pixels)@ == blitted_frame(
            old(pixels)@,
            pw as int,
            ph as int,
            src@,
            sw as int,
            sh as int,
            dx as int,
            dy as int,
            |i: int| blit_factor(mask_view(mask), op, i),
            clip_dev,
        ),
{
    let ghost p0 = pixels@;
    let ghost ww = pw as int;
    let ghost mv = mask_view(mask);
    let ghost target = blitted_frame(
        p0,
        pw as int,
        ph as int,
        src@,
        sw as int,
        sh as int,
        dx as int,
        dy as int,
        |i: int| blit_factor(mv, op, i),
        clip_dev,
    );
    proof {
        assert(pw * ph <= pixels@.len());
        assert(pixels@.len() == pixels.len());
    }
    let pwi = pw as i128;
    let phi = ph as i128;
    let dxi = dx as i128;
    let dyi = dy as i128;
    let mut x0 = lo_bound(dxi, 0);
    let mut y0 = lo_bound(dyi, 0);
    let mut x1 = hi_bound(dxi + sw as i128, pwi);
    let mut y1 = hi_bound(dyi + sh as i128, phi);
    match clip_dev {
        Some((cx0, cy0, cx1, cy1)) => {
            x0 = lo_bound(x0, cx0 as i128);
            y0 = lo_bound(y0, cy0 as i128);
            x1 = hi_bound(x1, cx1 as i128);
            y1 = hi_bound(y1, cy1 as i128);
        },
        None => {},
    }
    proof {
        assert forall|i: int| 0 <= i < pw * ph implies (#[trigger] blit_covers(
            pw as int,
            ph as int,
            sw as int,
            sh as int,
            dx as int,
            dy as int,
            clip_dev,
            i % ww,
            i / ww,
        ) <==> (x0 <= i % ww < x1 && y0 <= i / ww < y1)) by {
            lemma_index_cell(ww, ph as int, i);
        }
    }
    if x1 <= x0 || y1 <= y0 {
        proof {
            assert forall|i: int| 0 <= i < p0.len() implies #[trigger] target[i] == p0[i] by {
                if i < pw * ph {
                    lemma_index_cell(ww, ph as int, i);
                }
            }
            assert(pixels@ =~= target);
        }
        return ;
    }
    let stride = sw as usize;
    let mut y: i128 = y0;
    while y < y1
        invariant
            ww == pw,
            pwi == pw,
            phi == ph,
            dxi == dx,
            dyi == dy,
            0 <= x0 < x1 <= pw,
            0 <= y0 < y1 <= ph,
            dx <= x0,
            x1 <= dx + sw,
            dy <= y0,
            y1 <= dy + sh,
            y0 <= y <= y1,
            stride == sw,
            src@.len() >= sw * sh,
            mv == mask_view(mask),
            mask matches Some(m) ==> m@.len() >= pw * ph,
            p0.len() >= pw * ph,
            target == blitted_frame(
                p0,
                pw as int,
                ph as int,
                src@,
                sw as int,
                sh as int,
                dx as int,
                dy as int,
                |i: int| blit_factor(mv, op, i),
                clip_dev,
            ),
            forall|i: int|
                0 <= i < pw * ph ==> (#[trigger] blit_covers(
                    pw as int,
                    ph as int,
                    sw as int,
                    sh as int,
                    dx as int,
                    dy as int,
                    clip_dev,
                    i % ww,
                    i / ww,
                ) <==> (x0 <= i % ww < x1 && y0 <= i / ww < y1)),
            pixels@.len() == p0.len(),
            forall|i: int|
                0 <= i < p0.len() ==> #[trigger] pixels@[i] == if i < pw * ph && x0 <= i % ww < x1
                    && y0 <= i / ww < y {
                    target[i]
                } else {
                    p0[i]
                },
        decreases y1 - y,
    {
        let mut x: i128 = x0;
        while x < x1
            invariant
                ww == pw,
                pwi == pw,
                dxi == dx,
                dyi == dy,
                0 <= x0 < x1 <= pw,
                0 <= y0 < y1 <= ph,
                dx <= x0,
                x1 <= dx + sw,
                dy <= y0,
                y1 <= dy + sh,
                y0 <= y < y1,
                x0 <= x <= x1,
                stride == sw,
                src@.len() >= sw * sh,
                mv == mask_view(mask),
                mask matches Some(m) ==> m@.len() >= pw * ph,
                p0.len() >= pw * ph,
                target == blitted_frame(
                    p0,
                    pw as int,
                    ph as int,
                    src@,
                    sw as int,
                    sh as int,
                    dx as int,
                    dy as int,
                    |i: int| blit_factor(mv, op, i),
                    clip_dev,
                ),
                forall|i: int|
                    0 <= i < pw * ph ==> (#[trigger] blit_covers(
                        pw as int,
                        ph as int,
                        sw as int,
                        sh as int,
                        dx as int,
                        dy as int,
                        clip_dev,
                        i % ww,
                        i / ww,
                    ) <==> (x0 <= i % ww < x1 && y0 <= i / ww < y1)),
                pixels@.len() == p0.len(),
                forall|i: int|
                    0 <= i < p0.len() ==> #[trigger] pixels@[i] == if i < pw * ph && x0 <= i % ww
                        < x1 && y0 <= i / ww && (i / ww < y || (i / ww == y && i % ww < x)) {
                        target[i]
                    } else {
                        p0[i]
                    },
            decreases x1 - x,
        {
            proof {
                lemma_cell_bound(ww, ph as int, x as int, y as int);
                lemma_cell(ww, x as int, y as int);
                lemma_cell_bound(sw as int, sh as int, x - dx, y - dy);
                assert(pixels@.len() == pixels.len());
                assert(src@.len() == src.len());
            }
            let di = (y as usize) * pw + (x as usize);
            let si = ((y - dyi) as usize) * stride + ((x - dxi) as usize);
            let s = src[si];
            let factor: Option<u32> = match mask {
                Some(m) => {
                    proof {
                        assert(m@.len() == m.len());
                    }
                    Some(m[di] as u32)
                },
                None => if op < 255 {
                    Some(op)
                } else {
                    None
                },
            };
            let ghost before = pixels@;
            let d = pixels[di];
            let out = composite_word(d, s, factor);
            pixels[di] = out;
            proof {
                assert(blit_covers(
                    pw as int,
                    ph as int,
                    sw as int,
                    sh as int,
                    dx as int,
                    dy as int,
                    clip_dev,
                    di as int % ww,
                    di as int / ww,
                ));
                assert(factor == blit_factor(mv, op, di as int));
                assert(target[di as int] == composite_px(p0[di as int], s, factor));
                assert forall|i: int| 0 <= i < p0.len() implies #[trigger] pixels@[i] == if i < pw
                    * ph && x0 <= i % ww < x1 && y0 <= i / ww && (i / ww < y || (i / ww == y && i
                    % ww < x + 1)) {
                    target[i]
                } else {
                    p0[i]
                } by {
                    if i != di {
                        assert(pixels@[i] == before[i]);
                        if i < pw * ph && i / ww == y && i % ww == x {
                            lemma_index_cell(ww, ph as int, i);
                            assert(false);
                        }
                    }
                }
            }
            x = x + 1;
        }
        y = y + 1;
    }
    proof {
        assert forall|i: int| 0 <= i < p0.len() implies #[trigger] pixels@[i] == target[i] by {
            if i < pw * ph {
                lemma_index_cell(ww, ph as int, i);
            }
        }
        assert(pixels@ =~= target);
    }
}

/// Source-over blit a premultiplied pixmap (`sw` by `sh`, row-major) with
/// its top-left pixel at (`dx`, `dy`), optionally scaled per pixel by a
/// device-sized coverage mask and clipped to `clip_dev`.
pub fn blit_pixmap(
    pixels: &mut [u32],
    pw: usize,
    ph: usize,
    src: &[u32],
    sw: u32,
    sh: u32,
    dx: i32,
    dy: i32,
    mask: Option<&[u8]>,
    clip_dev: Option<(i32, i32, i32, i32)>,
)
    requires
        old(pixels)@.len() >= pw * ph,
        src@.len() >= sw * sh,
        mask matches Some(m) ==> m@.len() >= pw * ph,
    ensures
        final(pixels)@ == blitted_masked(
            old(pixels)@,
            pw as int,
            ph as int,
            src@,
            sw as int,
            sh as int,
            dx as int,
            dy as int,
            mask_view(mask),
            clip_dev,
        ),
{
    blit_impl(pixels, pw, ph, src, sw, sh, dx, dy, mask, 255, clip_dev);
    proof {
        let f1 = |i: int| blit_factor(mask_view(mask), 255, i);
        let f2 = |i: int| mask_factor(mask_view(mask), i);
        assert(f1 =~= f2);
    }
}

/// Source-over blit a premultiplied text surface (`sw` by `sh`) at
/// (`dx`, `dy`) with global opacity `op` (0-255; 255 and above draw the
/// surface as it is, 0 draws nothing), clipped to `clip_dev`.
pub fn blit_text_surface(
    pixels: &mut [u32],
    pw: usize,
    ph: usize,
    src: &[u32],
    sw: u32,
    sh: u32,
    dx: i32,
    dy: i32,
    op: u32,
    clip_dev: Option<(i32, i32, i32, i32)>,
)
    requires
        old(pixels)@.len() >= pw * ph,
        src@.len() >= sw * sh,
    ensures
        final(pixels)@ == blitted_frame(
            old(pixels)@,
            pw as int,
            ph as int,
            src@,
            sw as int,
            sh as int,
            dx as int,
            dy as int,
            |i: int|
                if op < 255 {
                    Some(op)
                } else {
                    None
                },
            clip_dev,
        ),
{
    let ghost f = |i: int|
        if op < 255 {
            Some(op)
        } else {
            None
        };
    if op == 0 {
        proof {
            let t = blitted_frame(
                pixels@,
                pw as int,
                ph as int,
                src@,
                sw as int,
                sh as int,
                dx as int,
                dy as int,
                f,
                clip_dev,
            );
            assert(t =~= pixels@);
        }
        return ;
    }
    blit_impl(pixels, pw, ph, src, sw, sh, dx, dy, None, op, clip_dev);
    proof {
        let f1 = |i: int| blit_factor(mask_view(None), op, i);
        assert(f1 =~= f);
    }
}

/// The frame after a constant-colour span on row `y`, columns
/// `x0 .. x1`: every frame pixel of the span inside the clip has `color`
/// composited over it with the mask's coverage, if any; the rest is kept.
pub open spec fn spanned_frame(
    frame: Seq<u32>,
    pw: int,
    ph: int,
    x0: int,
    x1: int,
    y: int,
    color: u32,
    mask: Option<Seq<u8>>,
    clip: Option<(i32, i32, i32, i32)>,
) -> Seq<u32> {
    Seq::new(
        frame.len(),
        |i: int|
            if i < pw * ph && i / pw == y && x0 <= i % pw < x1 && clip_allows(clip, i % pw, y) {
                composite_px(frame[i], color, mask_factor(mask, i))
            } else {
                frame[i]
            },
    )
}

/// Source-over blend the constant premultiplied colour (`sr`, `sg`, `sb`,
/// `sa`) over columns `x0 .. x1` of row `y`, optionally scaled per pixel
/// by a device-sized coverage mask and clipped to `clip_dev`.
pub fn blend_span(
    pixels: &mut [u32],
    pw: usize,
    ph: usize,
    x0: i32,
    x1: i32,
    y: i32,
    sr: u32,
    sg: u32,
    sb: u32,
    sa: u32,
    mask: Option<&[u8]>,
    clip_dev: Option<(i32, i32, i32, i32)>,
)
    requires
        old(pixels)@.len() >= pw * ph,
        mask matches Some(m) ==> m@.len() >= pw * ph,
        sr <= 255,
        sg <= 255,
        sb <= 255,
        sa <= 255,
    ensures
        final(pixels)@ == spanned_frame(
            old(pixels)@,
            pw as int,
            ph as int,
            x0 as int,
            x1 as int,
            y as int,
            pack(sr, sg, sb, sa),
            mask_view(mask),
            clip_dev,
        ),
{
    let ghost p0 = pixels@;
    let ghost ww = pw as int;
    let ghost color = pack(sr, sg, sb, sa);
    let ghost target = spanned_frame(
        p0,
        pw as int,
        ph as int,
        x0 as int,
        x1 as int,
        y as int,
        color,
        mask_view(mask),
        clip_dev,
    );
    proof {
        crate::pixel::lemma_pack_chan(sr, sg, sb, sa);
        assert(pixels@.len() == pixels.len());
    }
    if (y as i128) < 0 || (y as i128) >= (ph as i128) || sa == 0 {
        proof {
            assert forall|i: int| 0 <= i < p0.len() implies #[trigger] target[i] == p0[i] by {
                if i < pw * ph {
                    lemma_index_cell(ww, ph as int, i);
                }
            }
            assert(pixels@ =~= target);
        }
        return ;
    }
    let mut lo = x0 as i128;
    let mut hi = x1 as i128;
    match clip_dev {
        Some((cx0, cy0, cx1, cy1)) => {
            if y < cy0 || y >= cy1 {
                proof {
                    assert forall|i: int| 0 <= i < p0.len() implies #[trigger] target[i] == p0[i]
                        by {
                        if i < pw * ph {
                            lemma_index_cell(ww, ph as int, i);
                        }
                    }
                    assert(pixels@ =~= target);
                }
                return ;
            }
            lo = lo_bound(lo, cx0 as i128);
            hi = hi_bound(hi, cx1 as i128);
        },
        None => {},
    }
    let xs = lo_bound(lo, 0);
    let xe = lo_bound(hi_bound(hi, pw as i128), 0);
    proof {
        assert forall|i: int| 0 <= i < p0.len() implies #[trigger] target[i] == if i < pw * ph
            && i / ww == y && xs <= i % ww < xe {
            composite_px(p0[i], color, mask_factor(mask_view(mask), i))
        } else {
            p0[i]
        } by {
            if i < pw * ph {
                lemma_index_cell(ww, ph as int, i);
            }
        }
        assert(y * pw <= pw * ph) by (nonlinear_arith)
            requires
                0 <= y < ph,
        ;
    }
    let row = (y as usize) * pw;
    let mut x: i128 = xs;
    while x < xe
        invariant
            ww == pw,
            0 <= y < ph,
            row == y * pw,
            0 <= xs,
            xe <= pw,
            xs <= x,
            x <= xe || xe < xs,
            sr <= 255,
            sg <= 255,
            sb <= 255,
            sa <= 255,
            color == pack(sr, sg, sb, sa),
            mask matches Some(m) ==> m@.len() >= pw * ph,
            p0.len() >= pw * ph,
            target == spanned_frame(
                p0,
                pw as int,
                ph as int,
                x0 as int,
                x1 as int,
                y as int,
                color,
                mask_view(mask),
                clip_dev,
            ),
            forall|i: int|
                0 <= i < p0.len() ==> #[trigger] target[i] == if i < pw * ph && i / ww == y && xs
                    <= i % ww < xe {
                    composite_px(p0[i], color, mask_factor(mask_view(mask), i))
                } else {
                    p0[i]
                },
            pixels@.len() == p0.len(),
            forall|i: int|
                0 <= i < p0.len() ==> #[trigger] pixels@[i] == if i < pw * ph && i / ww == y && xs
                    <= i % ww < x {
                    target[i]
                } else {
                    p0[i]
                },
        decreases xe - x,
    {
        proof {
            lemma_cell_bound(ww, ph as int, x as int, y as int);
            lemma_cell(ww, x as int, y as int);
            assert(pixels@.len() == pixels.len());
        }
        let di = row + (x as usize);
        let factor: Option<u32> = match mask {
            Some(m) => {
                proof {
                    assert(m@.len() == m.len());
                }
                Some(m[di] as u32)
            },
            None => None,
        };
        let ghost before = pixels@;
        let d = pixels[di];
        let out = composite_word(d, (sa << 24) | (sb << 16) | (sg << 8) | sr, factor);
        pixels[di] = out;
        proof {
            assert(factor == mask_factor(mask_view(mask), di as int));
            assert(target[di as int] == composite_px(p0[di as int], color, factor));
            assert forall|i: int| 0 <= i < p0.len() implies #[trigger] pixels@[i] == if i < pw * ph
                && i / ww == y && xs <= i % ww < x + 1 {
                target[i]
            } else {
                p0[i]
            } by {
                if i != di {
                    assert(pixels@[i] == before[i]);
                    if i < pw * ph && i / ww == y && i % ww == x {
                        lemma_index_cell(ww, ph as int, i);
                        assert(false);
                    }
                }
            }
        }
        x = x + 1;
    }
    proof {
        assert forall|i: int| 0 <= i < p0.len() implies #[trigger] pixels@[i] == target[i] by {
            if i < pw * ph {
                lemma_index_cell(ww, ph as int, i);
            }
        }
        assert(pixels@ =~= target);
    }
}

/// Alpha texel `t` colourised with (`cr`, `cg`, `cb`, `ca`): the coverage
/// `t * ca / 255` and the colour premultiplied by it; fully transparent
/// texels give the zero pixel.
pub open spec fn colorized(t: u8, cr: u32, cg: u32, cb: u32, ca: u32) -> u32 {
    let a = (t as int * ca / 255) as u32;
    if a == 0 {
        0
    } else {
        pack((cr * a / 255) as u32, (cg * a / 255) as u32, (cb * a / 255) as u32, a)
    }
}

/// Pixel `i` (row-major) of the colourised `w`-wide region at (`x0`, `y0`)
/// of an alpha plane `plane_w` texels wide.
pub open spec fn region_px(
    alpha: Seq<u8>,
    plane_w: int,
    x0: int,
    y0: int,
    w: int,
    cr: u32,
    cg: u32,
    cb: u32,
    ca: u32,
    i: int,
) -> u32 {
    colorized(alpha[(y0 + i / w) * plane_w + x0 + i % w], cr, cg, cb, ca)
}

/// Colourise the `w` by `h` sub-region at (`x0`, `y0`) of an alpha plane
/// `plane_w` texels wide into premultiplied canonical pixels, row-major.
/// An empty region gives `None`.
pub fn colorize_region(
    alpha: &[u8],
    plane_w: usize,
    x0: usize,
    y0: usize,
    w: usize,
    h: usize,
    cr: u32,
    cg: u32,
    cb: u32,
    ca: u32,
) -> (r: Option<Vec<u32>>)
    requires
        w > 0 && h > 0 ==> (y0 + h - 1) * plane_w + x0 + w - 1 < alpha@.len(),
        w * h <= usize::MAX,
        y0 + h <= usize::MAX,
        cr <= 255,
        cg <= 255,
        cb <= 255,
        ca <= 255,
    ensures
        (w == 0 || h == 0) <==> r is None,
        r matches Some(v) ==> v@ == Seq::new(
            (w * h) as nat,
            |i: int| region_px(alpha@, plane_w as int, x0 as int, y0 as int, w as int, cr, cg, cb, ca, i),
        ),
{
    if w == 0 || h == 0 {
        return None;
    }
    let mut out: Vec<u32> = Vec::with_capacity(w * h);
    let mut y: usize = 0;
    while y < h
        invariant
            0 < w,
            y <= h,
            w * h <= usize::MAX,
            y0 + h <= usize::MAX,
            (y0 + h - 1) * plane_w + x0 + w - 1 < alpha@.len(),
            cr <= 255,
            cg <= 255,
            cb <= 255,
            ca <= 255,
            out@.len() == y * w,
            forall|i: int| 0 <= i < y * w ==> #[trigger] out@[i] == region_px(
                    alpha@,
                    plane_w as int,
                    x0 as int,
                    y0 as int,
                    w as int,
                    cr,
                    cg,
                    cb,
                    ca,
                    i,
                ),
        decreases h - y,
    {
        let mut x: usize = 0;
        while x < w
            invariant
                0 < w,
                y < h,
                x <= w,
                w * h <= usize::MAX,
                y0 + h <= usize::MAX,
                (y0 + h - 1) * plane_w + x0 + w - 1 < alpha@.len(),
                cr <= 255,
                cg <= 255,
                cb <= 255,
                ca <= 255,
                out@.len() == y * w + x,
                forall|i: int| 0 <= i < y * w + x ==> #[trigger] out@[i] == region_px(
                    alpha@,
                    plane_w as int,
                    x0 as int,
                    y0 as int,
                    w as int,
                    cr,
                    cg,
                    cb,
                    ca,
                    i,
                ),
            decreases w - x,
        {
            proof {
                assert((y0 + y) * plane_w + x0 + x <= (y0 + h - 1) * plane_w + x0 + w - 1)
                    by (nonlinear_arith)
                    requires
                        y < h,
                        x < w,
                ;
                assert(alpha@.len() == alpha.len());
                lemma_cell_bound(w as int, h as int, x as int, y as int);
                lemma_cell(w as int, x as int, y as int);
            }
            let t = alpha[(y0 + y) * plane_w + (x0 + x)];
            proof {
                assert(t as u32 * ca <= 255 * 255) by (nonlinear_arith)
                    requires
                        t <= 255,
                        ca <= 255,
                ;
            }
            let a = t as u32 * ca / 255;
            let px: u32 = if a == 0 {
                0
            } else {
                proof {
                    assert(cr * a <= 255 * 255) by (nonlinear_arith)
                        requires
                            cr <= 255,
                            a <= 255,
                    ;
                    assert(cg * a <= 255 * 255) by (nonlinear_arith)
                        requires
                            cg <= 255,
                            a <= 255,
                    ;
                    assert(cb * a <= 255 * 255) by (nonlinear_arith)
                        requires
                            cb <= 255,
                            a <= 255,
                    ;
                }
                (a << 24) | ((cb * a / 255) << 16) | ((cg * a / 255) << 8) | (cr * a / 255)
            };
            proof {
                let k = y * w + x;
                assert(k / (w as int) == y && k % (w as int) == x);
                assert(t == alpha@[(y0 + k / (w as int)) * plane_w + x0 + k % (w as int)]);
                assert(px == colorized(t, cr, cg, cb, ca));
                assert(px == region_px(
                    alpha@,
                    plane_w as int,
                    x0 as int,
                    y0 as int,
                    w as int,
                    cr,
                    cg,
                    cb,
                    ca,
                    k,
                ));
            }
            out.push(px);
            x = x + 1;
        }
        proof {
            assert(y * w + w == (y + 1) * w) by (nonlinear_arith);
        }
        y = y + 1;
    }
    proof {
        assert(h * w == w * h) by (nonlinear_arith);
        assert(out@.len() == w * h);
        assert(out@ =~= Seq::new(
            (w * h) as nat,
            |i: int|
                region_px(alpha@, plane_w as int, x0 as int, y0 as int, w as int, cr, cg, cb, ca, i),
        ));
    }
    Some(out)
}

} // verus!
