//! Pixel formats and source-over blending of the CPU frame buffer.
//!
//! The canonical frame-buffer pixel is tiny-skia's premultiplied RGBA read
//! as a little-endian `u32`: `A << 24 | B << 16 | G << 8 | R`.

use vstd::prelude::*;

verus! {

/// Byte `k` (0 = lowest) of a pixel word.
pub open spec fn chan(v: u32, k: u32) -> u32 {
    (v >> ((8 * k) as u32)) & 0xFF
}

/// Four bytes packed into a word, byte `k` at bits `8k..8k+8` (a byte
/// wider than eight bits spills into the next ones, as `<<` and `|` do).
pub open spec fn pack(c0: u32, c1: u32, c2: u32, c3: u32) -> u32 {
    (c3 << 24u32) | (c2 << 16u32) | (c1 << 8u32) | c0
}

/// Source-over of one premultiplied channel: `s + d * (255 - a) / 255`.
pub open spec fn over(s: u32, d: u32, a: u32) -> u32 {
    (s + d * (255 - a) / 255) as u32
}

/// Premultiplied colour (`r`, `g`, `b`, `a`) composited source-over onto
/// pixel `d`, channel by channel.
pub open spec fn over_rgba(d: u32, r: u32, g: u32, b: u32, a: u32) -> u32 {
    pack(over(r, chan(d, 0), a), over(g, chan(d, 1), a), over(b, chan(d, 2), a), over(a, chan(d, 3), a))
}

/// Source-over of premultiplied pixel `px` with coverage-scaled alpha `a`
/// onto `d`: alpha 0 keeps `d`, alpha 255 or more replaces it.
pub open spec fn blend_over(d: u32, px: u32, a: u32) -> u32 {
    if a == 0 {
        d
    } else if a >= 255 {
        px
    } else {
        pack(
            over(chan(px, 0), chan(d, 0), a),
            over(chan(px, 1), chan(d, 1), a),
            over(chan(px, 2), chan(d, 2), a),
            over(a, chan(d, 3), a),
        )
    }
}

/// Packing bytes and reading them back.
pub proof fn lemma_pack_chan(c0: u32, c1: u32, c2: u32, c3: u32)
    requires
        c0 < 256,
        c1 < 256,
        c2 < 256,
        c3 < 256,
    ensures
        chan(pack(c0, c1, c2, c3), 0) == c0,
        chan(pack(c0, c1, c2, c3), 1) == c1,
        chan(pack(c0, c1, c2, c3), 2) == c2,
        chan(pack(c0, c1, c2, c3), 3) == c3,
{
    assert(((((c3 << 24u32) | (c2 << 16u32) | (c1 << 8u32) | c0) >> 0u32) & 0xFF) == c0)
        by (bit_vector)
        requires
            c0 < 256,
            c1 < 256,
            c2 < 256,
            c3 < 256,
    ;
    assert(((((c3 << 24u32) | (c2 << 16u32) | (c1 << 8u32) | c0) >> 8u32) & 0xFF) == c1)
        by (bit_vector)
        requires
            c0 < 256,
            c1 < 256,
            c2 < 256,
            c3 < 256,
    ;
    assert(((((c3 << 24u32) | (c2 << 16u32) | (c1 << 8u32) | c0) >> 16u32) & 0xFF) == c2)
        by (bit_vector)
        requires
            c0 < 256,
            c1 < 256,
            c2 < 256,
            c3 < 256,
    ;
    assert(((((c3 << 24u32) | (c2 << 16u32) | (c1 << 8u32) | c0) >> 24u32) & 0xFF) == c3)
        by (bit_vector)
        requires
            c0 < 256,
            c1 < 256,
            c2 < 256,
            c3 < 256,
    ;
}

pub(crate) proof fn lemma_chan_le(v: u32, k: u32)
    requires
        k < 4,
    ensures
        chan(v, k) <= 255,
{
    let x: u32 = v >> ((8 * k) as u32);
    assert(x & 0xFF <= 255) by (bit_vector);
}

/// Source-over of a channel never exceeds 255 when the source channel is
/// at most the source alpha.
proof fn lemma_over_le(s: u32, d: u32, a: u32)
    requires
        s <= a,
        a < 255,
        d <= 255,
    ensures
        over(s, d, a) <= 255,
        s + d * (255 - a) / 255 <= 255,
{
    assert(d * (255 - a) / 255 <= 255 - a) by (nonlinear_arith)
        requires
            d <= 255,
            a < 255,
    ;
}

/// Blending a premultiplied pixel (every colour channel at most the
/// alpha) is channel-wise source-over: each channel of the result is
/// `s + d * (255 - a) / 255`, and the alpha channel is
/// `a + d_a * (255 - a) / 255`.
pub proof fn lemma_blend_premultiplied(d: u32, px: u32, a: u32)
    requires
        0 < a < 255,
        chan(px, 0) <= a,
        chan(px, 1) <= a,
        chan(px, 2) <= a,
    ensures
        chan(blend_over(d, px, a), 0) == over(chan(px, 0), chan(d, 0), a),
        chan(blend_over(d, px, a), 1) == over(chan(px, 1), chan(d, 1), a),
        chan(blend_over(d, px, a), 2) == over(chan(px, 2), chan(d, 2), a),
        chan(blend_over(d, px, a), 3) == over(a, chan(d, 3), a),
{
    lemma_chan_le(d, 0);
    lemma_chan_le(d, 1);
    lemma_chan_le(d, 2);
    lemma_chan_le(d, 3);
    lemma_over_le(chan(px, 0), chan(d, 0), a);
    lemma_over_le(chan(px, 1), chan(d, 1), a);
    lemma_over_le(chan(px, 2), chan(d, 2), a);
    lemma_over_le(a, chan(d, 3), a);
    lemma_pack_chan(
        over(chan(px, 0), chan(d, 0), a),
        over(chan(px, 1), chan(d, 1), a),
        over(chan(px, 2), chan(d, 2), a),
        over(a, chan(d, 3), a),
    );
}

pub(crate) fn blend_word(v: u32, px: u32, a: u32) -> (r: u32)
    requires
        0 < a < 255,
    ensures
        r == blend_over(v, px, a),
{
    let sr = px & 0xFF;
    let sg = (px >> 8) & 0xFF;
    let sb = (px >> 16) & 0xFF;
    let inv = 255 - a;
    proof {
        assert(px & 0xFF == (px >> 0u32) & 0xFF) by (bit_vector);
        assert(v & 0xFF == (v >> 0u32) & 0xFF) by (bit_vector);
        lemma_chan_le(px, 0);
        lemma_chan_le(px, 1);
        lemma_chan_le(px, 2);
        lemma_chan_le(v, 0);
        lemma_chan_le(v, 1);
        lemma_chan_le(v, 2);
        lemma_chan_le(v, 3);
        assert(((v >> 24) & 0xFF) * inv <= 255 * 255) by (nonlinear_arith)
            requires
                (v >> 24) & 0xFF <= 255,
                inv <= 255,
        ;
        assert(((v >> 16) & 0xFF) * inv <= 255 * 255) by (nonlinear_arith)
            requires
                (v >> 16) & 0xFF <= 255,
                inv <= 255,
        ;
        assert(((v >> 8) & 0xFF) * inv <= 255 * 255) by (nonlinear_arith)
            requires
                (v >> 8) & 0xFF <= 255,
                inv <= 255,
        ;
        assert((v & 0xFF) * inv <= 255 * 255) by (nonlinear_arith)
            requires
                v & 0xFF <= 255,
                inv <= 255,
        ;
    }
    (a + ((v >> 24) & 0xFF) * inv / 255) << 24 | (sb + ((v >> 16) & 0xFF) * inv / 255) << 16 | (sg
        + ((v >> 8) & 0xFF) * inv / 255) << 8 | (sr + (v & 0xFF) * inv / 255)
}

/// Composite premultiplied colour (`r`, `g`, `b`, `a`) source-over onto `d`.
pub(crate) fn over_rgba_word(d: u32, r: u32, g: u32, b: u32, a: u32) -> (o: u32)
    requires
        r <= 255,
        g <= 255,
        b <= 255,
        a <= 255,
    ensures
        o == over_rgba(d, r, g, b, a),
{
    let inv = 255 - a;
    proof {
        assert(d & 0xFF == (d >> 0u32) & 0xFF) by (bit_vector);
        lemma_chan_le(d, 0);
        lemma_chan_le(d, 1);
        lemma_chan_le(d, 2);
        lemma_chan_le(d, 3);
        assert(((d >> 24) & 0xFF) * inv <= 255 * 255) by (nonlinear_arith)
            requires
                (d >> 24) & 0xFF <= 255,
                inv <= 255,
        ;
        assert(((d >> 16) & 0xFF) * inv <= 255 * 255) by (nonlinear_arith)
            requires
                (d >> 16) & 0xFF <= 255,
                inv <= 255,
        ;
        assert(((d >> 8) & 0xFF) * inv <= 255 * 255) by (nonlinear_arith)
            requires
                (d >> 8) & 0xFF <= 255,
                inv <= 255,
        ;
        assert((d & 0xFF) * inv <= 255 * 255) by (nonlinear_arith)
            requires
                d & 0xFF <= 255,
                inv <= 255,
        ;
    }
    (a + ((d >> 24) & 0xFF) * inv / 255) << 24 | (b + ((d >> 16) & 0xFF) * inv / 255) << 16 | (g
        + ((d >> 8) & 0xFF) * inv / 255) << 8 | (r + (d & 0xFF) * inv / 255)
}

/// Source-over blend one canonical-RGBA pixel.
pub fn blend_pixel(dst: &mut u32, px: u32, a: u32)
    ensures
        *final(dst) == blend_over(*old(dst), px, a),
{
    if a == 0 {
        return ;
    }
    if a >= 255 {
        *dst = px;
        return ;
    }
    *dst = blend_word(*dst, px, a);
}

/// Source-over blend a full pixel row with a constant premultiplied
/// source.
pub fn blend_row_constant(row: &mut [u32], px: u32, a: u32)
    ensures
        final(row)@.len() == old(row)@.len(),
        forall|i: int|
            0 <= i < old(row)@.len() ==> #[trigger] final(row)@[i] == blend_over(
                old(row)@[i],
                px,
                a,
            ),
{
    if a == 0 {
        return ;
    }
    let n = row.len();
    let mut i: usize = 0;
    while i < n
        invariant
            n == row@.len(),
            row@.len() == old(row)@.len(),
            0 < a,
            i <= n,
            forall|k: int| 0 <= k < i ==> #[trigger] row@[k] == blend_over(old(row)@[k], px, a),
            forall|k: int| i <= k < n ==> #[trigger] row@[k] == old(row)@[k],
        decreases n - i,
    {
        let v = row[i];
        let nv = if a >= 255 {
            px
        } else {
            blend_word(v, px, a)
        };
        row[i] = nv;
        i = i + 1;
    }
}

/// Convert one canonical (RGBA-in-memory) pixel to softbuffer's `0RGB`
/// (`R` in bits 16-23, `G` in 8-15, `B` in 0-7); the alpha byte is dropped
/// and the top byte is zero.
pub fn rgba_u32_to_softbuffer(px: u32) -> (r: u32)
    ensures
        chan(r, 0) == chan(px, 2),
        chan(r, 1) == chan(px, 1),
        chan(r, 2) == chan(px, 0),
        chan(r, 3) == 0,
        r == softbuffer_px(px),
{
    let r = (px & 0x0000_FF00) | ((px & 0x0000_00FF) << 16) | ((px >> 16) & 0x0000_00FF);
    proof {
        assert((((px & 0x0000_FF00) | ((px & 0x0000_00FF) << 16) | ((px >> 16) & 0x0000_00FF))
            >> 0u32) & 0xFF == (px >> 16u32) & 0xFF) by (bit_vector);
        assert((((px & 0x0000_FF00) | ((px & 0x0000_00FF) << 16) | ((px >> 16) & 0x0000_00FF))
            >> 8u32) & 0xFF == (px >> 8u32) & 0xFF) by (bit_vector);
        assert((((px & 0x0000_FF00) | ((px & 0x0000_00FF) << 16) | ((px >> 16) & 0x0000_00FF))
            >> 16u32) & 0xFF == (px >> 0u32) & 0xFF) by (bit_vector);
        assert((((px & 0x0000_FF00) | ((px & 0x0000_00FF) << 16) | ((px >> 16) & 0x0000_00FF))
            >> 24u32) & 0xFF == 0) by (bit_vector);
    }
    r
}

/// Canonical pixel `px` in softbuffer's layout: red and blue swapped, the
/// alpha byte cleared.
pub open spec fn softbuffer_px(px: u32) -> u32 {
    (px & 0x0000_FF00) | ((px & 0x0000_00FF) << 16u32) | ((px >> 16u32) & 0x0000_00FF)
}

/// The whole frame converted to softbuffer's layout, pixel by pixel.
pub fn softbuffer_pixels(pixels: &[u32]) -> (out: Vec<u32>)
    ensures
        out@ == pixels@.map_values(|p: u32| softbuffer_px(p)),
{
    let mut out: Vec<u32> = Vec::with_capacity(pixels.len());
    let mut i: usize = 0;
    while i < pixels.len()
        invariant
            i <= pixels@.len(),
            out@.len() == i,
            forall|j: int| 0 <= j < i ==> #[trigger] out@[j] == softbuffer_px(pixels@[j]),
        decreases pixels@.len() - i,
    {
        let px = pixels[i];
        out.push(rgba_u32_to_softbuffer(px));
        i = i + 1;
    }
    proof {
        assert(out@ =~= pixels@.map_values(|p: u32| softbuffer_px(p)));
    }
    out
}

/// Pixel `i` of a `pw`-wide frame lies in rows `y0 .. y1`, columns
/// `x0 .. x1`.
pub open spec fn in_region(pw: int, x0: int, y0: int, x1: int, y1: int, i: int) -> bool {
    &&& y0 <= i / pw < y1
    &&& x0 <= i % pw < x1
}

/// In a `pw`-wide frame, columns `x0 .. x1` of row `y` are the indices
/// `y * pw + x0 .. y * pw + x1`.
pub(crate) proof fn lemma_row_span(pw: int, x0: int, x1: int, y: int, i: int)
    requires
        pw > 0,
        0 <= x0 <= x1 <= pw,
        0 <= y,
        0 <= i,
    ensures
        (i / pw == y && x0 <= i % pw < x1) <==> (y * pw + x0 <= i < y * pw + x1),
{
    vstd::arithmetic::div_mod::lemma_fundamental_div_mod(i, pw);
    if i / pw == y {
        assert(pw * (i / pw) == y * pw) by (nonlinear_arith)
            requires
                i / pw == y,
        ;
    }
    if y * pw + x0 <= i < y * pw + x1 {
        vstd::arithmetic::div_mod::lemma_fundamental_div_mod_converse(i, pw, y, i - y * pw);
    }
}

/// Copy the region (columns `x0 .. x1`, rows `y0 .. y1`) of a `pw`-wide
/// frame of canonical pixels into the window buffer, converted to
/// softbuffer's layout; pixels past the end of either buffer are skipped.
pub fn present_region(pixels: &[u32], buffer: &mut [u32], pw: u32, x0: u32, y0: u32, x1: u32, y1: u32)
    requires
        x0 <= x1 <= pw,
    ensures
        final(buffer)@.len() == old(buffer)@.len(),
        forall|i: int|
            0 <= i < old(buffer)@.len() ==> #[trigger] final(buffer)@[i] == if i < pixels@.len()
                && pw > 0 && in_region(pw as int, x0 as int, y0 as int, x1 as int, y1 as int, i) {
                softbuffer_px(pixels@[i])
            } else {
                old(buffer)@[i]
            },
{
    let ghost b0 = buffer@;
    let buf_len = if buffer.len() <= pixels.len() {
        buffer.len()
    } else {
        pixels.len()
    };
    if pw == 0 || y1 <= y0 {
        return ;
    }
    let mut y = y0;
    while y < y1
        invariant
            pw > 0,
            x0 <= x1 <= pw,
            y0 <= y <= y1,
            buf_len == if b0.len() <= pixels@.len() { b0.len() } else { pixels@.len() },
            buffer@.len() == b0.len(),
            forall|i: int|
                0 <= i < b0.len() ==> #[trigger] buffer@[i] == if i < pixels@.len() && in_region(
                    pw as int,
                    x0 as int,
                    y0 as int,
                    x1 as int,
                    y as int,
                    i,
                ) {
                    softbuffer_px(pixels@[i])
                } else {
                    b0[i]
                },
        decreases y1 - y,
    {
        proof {
            assert((y as int) * (pw as int) <= 0xFFFF_FFFF * 0xFFFF_FFFF) by (nonlinear_arith)
                requires
                    y <= 0xFFFF_FFFF,
                    pw <= 0xFFFF_FFFF,
            ;
        }
        let row = (y as u128) * (pw as u128);
        let start = if row + (x0 as u128) <= buf_len as u128 {
            (row + x0 as u128) as usize
        } else {
            buf_len
        };
        let want = (x1 - x0) as usize;
        let len = if want <= buf_len - start {
            want
        } else {
            buf_len - start
        };
        let ghost mid = buffer@;
        let mut k: usize = 0;
        while k < len
            invariant
                start + len <= buf_len,
                buf_len <= b0.len(),
                buf_len <= pixels@.len(),
                k <= len,
                buffer@.len() == b0.len(),
                forall|i: int|
                    0 <= i < b0.len() ==> #[trigger] buffer@[i] == if start <= i < start + k {
                        softbuffer_px(pixels@[i])
                    } else {
                        mid[i]
                    },
            decreases len - k,
        {
            let px = pixels[start + k];
            buffer[start + k] = rgba_u32_to_softbuffer(px);
            k = k + 1;
        }
        proof {
            assert forall|i: int| 0 <= i < b0.len() implies #[trigger] buffer@[i] == if i
                < pixels@.len() && in_region(
                pw as int,
                x0 as int,
                y0 as int,
                x1 as int,
                y + 1,
                i,
            ) {
                softbuffer_px(pixels@[i])
            } else {
                b0[i]
            } by {
                lemma_row_span(pw as int, x0 as int, x1 as int, y as int, i);
                assert(mid[i] == if i < pixels@.len() && in_region(
                    pw as int,
                    x0 as int,
                    y0 as int,
                    x1 as int,
                    y as int,
                    i,
                ) {
                    softbuffer_px(pixels@[i])
                } else {
                    b0[i]
                });
            }
        }
        y = y + 1;
    }
}

/// Pixel `i` of a `stride`-wide frame of `len` pixels is cleared by a
/// rect fill of columns `x0 .. x1`, rows `y0 .. y1`: it lies in the rect,
/// and its row of the rect ends within the frame.
pub open spec fn cleared(stride: int, x0: int, y0: int, x1: int, y1: int, len: int, i: int) -> bool {
    &&& stride > 0
    &&& in_region(stride, x0, y0, x1, y1, i)
    &&& (i / stride) * stride + x1 <= len
}

/// Fill columns `x0 .. x1` of rows `y0 .. y1` of a `stride`-wide frame with
/// `argb`; a row whose end lies past the frame is left as it is.
pub fn clear_rect(pixels: &mut [u32], stride: u32, x0: u32, y0: u32, x1: u32, y1: u32, argb: u32)
    requires
        x1 <= stride,
        y0 < y1 ==> x0 <= x1,
    ensures
        final(pixels)@.len() == old(pixels)@.len(),
        forall|i: int|
            0 <= i < old(pixels)@.len() ==> #[trigger] final(pixels)@[i] == if cleared(
                stride as int,
                x0 as int,
                y0 as int,
                x1 as int,
                y1 as int,
                old(pixels)@.len() as int,
                i,
            ) {
                argb
            } else {
                old(pixels)@[i]
            },
{
    let ghost p0 = pixels@;
    if y1 <= y0 {
        return ;
    }
    let mut y = y0;
    while y < y1
        invariant
            x0 <= x1 <= stride,
            y0 <= y <= y1,
            pixels@.len() == p0.len(),
            forall|i: int|
                0 <= i < p0.len() ==> #[trigger] pixels@[i] == if cleared(
                    stride as int,
                    x0 as int,
                    y0 as int,
                    x1 as int,
                    y as int,
                    p0.len() as int,
                    i,
                ) {
                    argb
                } else {
                    p0[i]
                },
        decreases y1 - y,
    {
        proof {
            assert((y as int) * (stride as int) <= 0xFFFF_FFFF * 0xFFFF_FFFF) by (nonlinear_arith)
                requires
                    y <= 0xFFFF_FFFF,
                    stride <= 0xFFFF_FFFF,
            ;
        }
        let row = (y as u64) * (stride as u64);
        let end = row + x1 as u64;
        let ghost mid = pixels@;
        if end <= pixels.len() as u64 {
            let off = (row + x0 as u64) as usize;
            let stop = end as usize;
            let mut k = off;
            while k < stop
                invariant
                    off <= k <= stop,
                    stop <= pixels@.len(),
                    pixels@.len() == p0.len(),
                    forall|i: int|
                        0 <= i < p0.len() ==> #[trigger] pixels@[i] == if off <= i < k {
                            argb
                        } else {
                            mid[i]
                        },
                decreases stop - k,
            {
                pixels[k] = argb;
                k = k + 1;
            }
        }
        proof {
            assert forall|i: int| 0 <= i < p0.len() implies #[trigger] pixels@[i] == if cleared(
                stride as int,
                x0 as int,
                y0 as int,
                x1 as int,
                y + 1,
                p0.len() as int,
                i,
            ) {
                argb
            } else {
                p0[i]
            } by {
                if stride > 0 {
                    lemma_row_span(stride as int, x0 as int, x1 as int, y as int, i);
                    if i / (stride as int) == y {
                        assert((i / (stride as int)) * (stride as int) == y * stride);
                    }
                } else {
                    assert(row + x1 == 0);
                }
                assert(mid[i] == if cleared(
                    stride as int,
                    x0 as int,
                    y0 as int,
                    x1 as int,
                    y as int,
                    p0.len() as int,
                    i,
                ) {
                    argb
                } else {
                    p0[i]
                });
            }
        }
        y = y + 1;
    }
}

/// The byte layout of canonical pixels: `R, G, B, A` per pixel.
pub open spec fn rgba_bytes(px: Seq<u32>) -> Seq<u8> {
    Seq::new(px.len() * 4, |i: int| chan(px[i / 4], (i % 4) as u32) as u8)
}

/// Unpack canonical pixels into `R, G, B, A` bytes.
pub fn pixels_to_rgba_bytes(rgba: &[u32]) -> (buf: Vec<u8>)
    requires
        rgba@.len() * 4 <= usize::MAX,
    ensures
        buf@ == rgba_bytes(rgba@),
{
    let n = rgba.len();
    let mut buf: Vec<u8> = Vec::with_capacity(n * 4);
    let mut i: usize = 0;
    while i < n
        invariant
            n == rgba@.len(),
            n * 4 <= usize::MAX,
            i <= n,
            buf@.len() == i * 4,
            forall|k: int| 0 <= k < i * 4 ==> #[trigger] buf@[k] == rgba_bytes(rgba@)[k],
        decreases n - i,
    {
        let px = rgba[i];
        let r = (px & 0xFF) as u8;
        let g = ((px >> 8) & 0xFF) as u8;
        let b = ((px >> 16) & 0xFF) as u8;
        let a = ((px >> 24) & 0xFF) as u8;
        proof {
            assert(px & 0xFF == (px >> 0u32) & 0xFF) by (bit_vector);
            lemma_chan_le(px, 0);
            lemma_chan_le(px, 1);
            lemma_chan_le(px, 2);
            lemma_chan_le(px, 3);
        }
        let ghost before = buf@;
        buf.push(r);
        buf.push(g);
        buf.push(b);
        buf.push(a);
        proof {
            assert forall|k: int| 0 <= k < (i + 1) * 4 implies #[trigger] buf@[k] == rgba_bytes(
                rgba@,
            )[k] by {
                if k >= i * 4 {
                    let c = k - i * 4;
                    vstd::arithmetic::div_mod::lemma_fundamental_div_mod_converse(k, 4, i as int, c);
                } else {
                    assert(buf@[k] == before[k]);
                }
            }
        }
        i = i + 1;
    }
    buf
}

/// A gradient strip is opaque when every entry's alpha is 255 or more.
pub open spec fn strip_opaque(strip: Seq<(u32, u32)>) -> bool {
    forall|k: int| 0 <= k < strip.len() ==> #[trigger] strip[k].1 >= 255
}

/// Pixel `d` after gradient entry `e` (premultiplied pixel, alpha): an
/// opaque strip copies the pixel; otherwise alpha 0 keeps `d` and any other
/// alpha composites the pixel's colour with that alpha over `d`.
pub open spec fn strip_px(d: u32, e: (u32, u32), opaque: bool) -> u32 {
    if opaque {
        e.0
    } else if e.1 == 0 {
        d
    } else {
        over_rgba(d, chan(e.0, 0), chan(e.0, 1), chan(e.0, 2), e.1)
    }
}

/// The frame after blending a horizontal gradient strip (one entry per
/// column `x0 .. x1`) over rows `y0 .. y1`.
pub open spec fn strip_blended(
    frame: Seq<u32>,
    pw: int,
    x0: int,
    x1: int,
    y0: int,
    y1: int,
    strip: Seq<(u32, u32)>,
) -> Seq<u32> {
    Seq::new(
        frame.len(),
        |i: int|
            if pw > 0 && in_region(pw, x0, y0, x1, y1, i) {
                strip_px(frame[i], strip[i % pw - x0], strip_opaque(strip))
            } else {
                frame[i]
            },
    )
}

fn strip_is_opaque(strip: &[(u32, u32)]) -> (r: bool)
    ensures
        r == strip_opaque(strip@),
{
    let mut k: usize = 0;
    while k < strip.len()
        invariant
            k <= strip@.len(),
            forall|j: int| 0 <= j < k ==> #[trigger] strip@[j].1 >= 255,
        decreases strip@.len() - k,
    {
        if strip[k].1 < 255 {
            return false;
        }
        k = k + 1;
    }
    true
}

/// Blend a horizontal gradient, precomputed as one strip entry (pixel,
/// alpha) per column `x0 .. x1`, over rows `y0 .. y1` of a `pw`-wide frame.
pub fn blend_gradient_strip(
    pixels: &mut [u32],
    pw: usize,
    x0: usize,
    x1: usize,
    y0: usize,
    y1: usize,
    strip: &[(u32, u32)],
)
    requires
        x0 <= x1 <= pw,
        y0 <= y1,
        y1 * pw <= old(pixels)@.len(),
        strip@.len() == x1 - x0,
        forall|k: int| 0 <= k < strip@.len() ==> #[trigger] strip@[k].1 <= 255,
    ensures
        final(pixels)@ == strip_blended(
            old(pixels)@,
            pw as int,
            x0 as int,
            x1 as int,
            y0 as int,
            y1 as int,
            strip@,
        ),
{
    let ghost p0 = pixels@;
    let opaque = strip_is_opaque(strip);
    let plen = pixels.len();
    let mut y = y0;
    while y < y1
        invariant
            plen == p0.len(),
            x0 <= x1 <= pw,
            y0 <= y <= y1,
            y1 * pw <= p0.len(),
            strip@.len() == x1 - x0,
            forall|k: int| 0 <= k < strip@.len() ==> #[trigger] strip@[k].1 <= 255,
            opaque == strip_opaque(strip@),
            pixels@ == strip_blended(p0, pw as int, x0 as int, x1 as int, y0 as int, y as int, strip@),
        decreases y1 - y,
    {
        proof {
            assert(y * pw + pw <= y1 * pw) by (nonlinear_arith)
                requires
                    y < y1,
            ;
        }
        let row = y * pw;
        let ghost mid = pixels@;
        let mut k: usize = 0;
        while k < x1 - x0
            invariant
                x0 <= x1 <= pw,
                y0 <= y < y1,
                row == y * pw,
                row + pw <= p0.len(),
                plen == p0.len(),
                strip@.len() == x1 - x0,
                forall|j: int| 0 <= j < strip@.len() ==> #[trigger] strip@[j].1 <= 255,
                opaque == strip_opaque(strip@),
                k <= x1 - x0,
                pixels@.len() == p0.len(),
                forall|i: int|
                    0 <= i < p0.len() ==> #[trigger] pixels@[i] == if row + x0 <= i < row + x0 + k {
                        strip_px(mid[i], strip@[i - row - x0], opaque)
                    } else {
                        mid[i]
                    },
            decreases x1 - x0 - k,
        {
            let (px, a) = strip[k];
            let idx = row + x0 + k;
            let d = pixels[idx];
            let nv = if opaque {
                px
            } else if a == 0 {
                d
            } else {
                proof {
                    assert(px & 0xFF == (px >> 0u32) & 0xFF) by (bit_vector);
                    lemma_chan_le(px, 0);
                    lemma_chan_le(px, 1);
                    lemma_chan_le(px, 2);
                }
                over_rgba_word(d, px & 0xFF, (px >> 8) & 0xFF, (px >> 16) & 0xFF, a)
            };
            pixels[idx] = nv;
            k = k + 1;
        }
        proof {
            assert forall|i: int| 0 <= i < p0.len() implies #[trigger] pixels@[i]
                == strip_blended(p0, pw as int, x0 as int, x1 as int, y0 as int, y + 1, strip@)[i] by {
                if pw > 0 {
                    lemma_row_span(pw as int, x0 as int, x1 as int, y as int, i);
                    if row + x0 <= i < row + x1 {
                        crate::grid::lemma_cell(pw as int, i - row, y as int);
                    }
                }
            }
            assert(pixels@ =~= strip_blended(p0, pw as int, x0 as int, x1 as int, y0 as int, y + 1, strip@));
        }
        y = y + 1;
    }
    proof {
        assert(pixels@ =~= strip_blended(p0, pw as int, x0 as int, x1 as int, y0 as int, y1 as int, strip@));
    }
}

// ── Rounded rectangles from corner templates ────────────────────────

/// Frame pixel `d` under coverage `a` of the opaque colour `color`: no
/// coverage keeps it, full coverage replaces it, and in between the colour
/// scaled by the coverage is composited over it.
pub open spec fn corner_px(d: u32, a: u8, color: u32) -> u32 {
    if a == 0 {
        d
    } else if a >= 255 {
        color
    } else {
        over_rgba(
            d,
            (chan(color, 0) * a / 255) as u32,
            (chan(color, 1) * a / 255) as u32,
            (chan(color, 2) * a / 255) as u32,
            a as u32,
        )
    }
}

/// The smaller of two sizes.
pub open spec fn min_int(a: int, b: int) -> int {
    if a <= b {
        a
    } else {
        b
    }
}

/// Column of the corner template (top-left oriented) that frame column `x`
/// takes, for a corner on the left or the right of `x0 .. x1`.
pub open spec fn corner_col(x: int, x0: int, x1: int, left: bool) -> int {
    if left {
        x - x0
    } else {
        x1 - 1 - x
    }
}

/// Row of the corner template that frame row `y` takes, for a corner at
/// the top or the bottom of `y0 .. y1`.
pub open spec fn corner_row(y: int, y0: int, y1: int, top: bool) -> int {
    if top {
        y - y0
    } else {
        y1 - 1 - y
    }
}

/// The frame after blitting a `size` by `size` corner template (mirrored
/// for the corner it goes to) into the rect `x0 .. x1`, `y0 .. y1`, cut to
/// the rect.
pub open spec fn corner_blitted(
    frame: Seq<u32>,
    pw: int,
    tpl: Seq<u8>,
    size: int,
    x0: int,
    x1: int,
    y0: int,
    y1: int,
    left: bool,
    top: bool,
    color: u32,
) -> Seq<u32> {
    Seq::new(
        frame.len(),
        |k: int|
            {
                let i = corner_col(k % pw, x0, x1, left);
                let j = corner_row(k / pw, y0, y1, top);
                if pw > 0 && k % pw < x1 && k / pw < y1 && 0 <= i < min_int(size, x1 - x0) && 0 <= j
                    < min_int(size, y1 - y0) {
                    corner_px(frame[k], tpl[j * size + i], color)
                } else {
                    frame[k]
                }
            },
    )
}

/// Blit one corner-coverage template (`size` by `size`, top-left oriented)
/// into its corner of the rect `x0 .. x1`, `y0 .. y1` in the opaque colour
/// `color`; returns the part of the template used (cut to the rect).
pub fn blit_corner(
    pixels: &mut [u32],
    pw: usize,
    x0: usize,
    x1: usize,
    y0: usize,
    y1: usize,
    tpl: &[u8],
    size: usize,
    left: bool,
    top: bool,
    color: u32,
) -> (r: (usize, usize))
    requires
        x0 <= x1 <= pw,
        y0 <= y1,
        y1 * pw <= old(pixels)@.len(),
        size * size <= tpl@.len(),
    ensures
        r == (min_int(size as int, x1 - x0) as usize, min_int(size as int, y1 - y0) as usize),
        final(pixels)@ == corner_blitted(
            old(pixels)@,
            pw as int,
            tpl@,
            size as int,
            x0 as int,
            x1 as int,
            y0 as int,
            y1 as int,
            left,
            top,
            color,
        ),
{
    let ghost p0 = pixels@;
    let bw = if size < x1 - x0 {
        size
    } else {
        x1 - x0
    };
    let bh = if size < y1 - y0 {
        size
    } else {
        y1 - y0
    };
    let cr = color & 0xFF;
    let cg = (color >> 8) & 0xFF;
    let cb = (color >> 16) & 0xFF;
    proof {
        assert(color & 0xFF == (color >> 0u32) & 0xFF) by (bit_vector);
        lemma_chan_le(color, 0);
        lemma_chan_le(color, 1);
        lemma_chan_le(color, 2);
    }
    let plen = pixels.len();
    let tlen = tpl.len();
    let mut j: usize = 0;
    while j < bh
        invariant
            plen == p0.len(),
            tlen == tpl@.len(),
            pixels@.len() == p0.len(),
            x0 <= x1 <= pw,
            y0 <= y1,
            y1 * pw <= p0.len(),
            size * size <= tpl@.len(),
            bw == min_int(size as int, x1 - x0),
            bh == min_int(size as int, y1 - y0),
            cr == chan(color, 0) && cg == chan(color, 1) && cb == chan(color, 2),
            cr <= 255 && cg <= 255 && cb <= 255,
            j <= bh,
            forall|k: int|
                0 <= k < p0.len() ==> #[trigger] pixels@[k] == ({
                    let i = corner_col(k % (pw as int), x0 as int, x1 as int, left);
                    let jj = corner_row(k / (pw as int), y0 as int, y1 as int, top);
                    if pw > 0 && k % (pw as int) < x1 && k / (pw as int) < y1 && 0 <= i < bw && 0 <= jj < j {
                        corner_px(p0[k], tpl@[jj * size + i], color)
                    } else {
                        p0[k]
                    }
                }),
        decreases bh - j,
    {
        let ty = if top {
            y0 + j
        } else {
            y1 - 1 - j
        };
        proof {
            assert(ty * pw + pw <= y1 * pw) by (nonlinear_arith)
                requires
                    ty < y1,
            ;
            assert(j * size + size <= size * size) by (nonlinear_arith)
                requires
                    j < size,
            ;
        }
        let row = ty * pw;
        let ghost mid = pixels@;
        let mut i: usize = 0;
        while i < bw
            invariant
                plen == p0.len(),
                tlen == tpl@.len(),
                pixels@.len() == p0.len(),
                x0 <= x1 <= pw,
                y0 <= y1,
                bw == min_int(size as int, x1 - x0),
                bh == min_int(size as int, y1 - y0),
                j < bh,
                ty == corner_row_inv(j as int, y0 as int, y1 as int, top),
                ty < y1,
                row == ty * pw,
                row + pw <= p0.len(),
                j * size + size <= tpl@.len(),
                cr == chan(color, 0) && cg == chan(color, 1) && cb == chan(color, 2),
                cr <= 255 && cg <= 255 && cb <= 255,
                i <= bw,
                forall|k: int|
                    0 <= k < p0.len() ==> #[trigger] pixels@[k] == if row <= k < row + pw && 0
                        <= corner_col(k - row, x0 as int, x1 as int, left) < i && k - row < x1 {
                        corner_px(mid[k], tpl@[j * size + corner_col(k - row, x0 as int, x1 as int, left)], color)
                    } else {
                        mid[k]
                    },
            decreases bw - i,
        {
            let tx = if left {
                x0 + i
            } else {
                x1 - 1 - i
            };
            let a = tpl[j * size + i];
            let di = row + tx;
            if a != 0 {
                if a >= 255 {
                    pixels[di] = color;
                } else {
                    let a32 = a as u32;
                    proof {
                        lemma_byte_product(cr, a32);
                        lemma_byte_product(cg, a32);
                        lemma_byte_product(cb, a32);
                    }
                    let d = pixels[di];
                    pixels[di] = over_rgba_word(d, cr * a32 / 255, cg * a32 / 255, cb * a32 / 255, a32);
                }
            }
            i = i + 1;
        }
        proof {
            assert forall|k: int| 0 <= k < p0.len() implies #[trigger] pixels@[k] == ({
                let ii = corner_col(k % (pw as int), x0 as int, x1 as int, left);
                let jj = corner_row(k / (pw as int), y0 as int, y1 as int, top);
                if pw > 0 && k % (pw as int) < x1 && k / (pw as int) < y1 && 0 <= ii < bw && 0 <= jj < j + 1 {
                    corner_px(p0[k], tpl@[jj * size + ii], color)
                } else {
                    p0[k]
                }
            }) by {
                if pw > 0 {
                    vstd::arithmetic::div_mod::lemma_fundamental_div_mod(k, pw as int);
                    if row <= k < row + pw {
                        crate::grid::lemma_cell(pw as int, k - row, ty as int);
                    } else {
                        let q = k / (pw as int);
                        let r = k % (pw as int);
                        if k < row {
                            assert(q < ty) by (nonlinear_arith)
                                requires
                                    k == pw * q + r,
                                    0 <= r,
                                    k < ty * pw,
                                    pw > 0,
                            ;
                        } else {
                            assert(q > ty) by (nonlinear_arith)
                                requires
                                    k == pw * q + r,
                                    r < pw,
                                    k >= ty * pw + pw,
                                    pw > 0,
                            ;
                        }
                    }
                }
            }
        }
        j = j + 1;
    }
    proof {
        assert(pixels@ =~= corner_blitted(
            p0,
            pw as int,
            tpl@,
            size as int,
            x0 as int,
            x1 as int,
            y0 as int,
            y1 as int,
            left,
            top,
            color,
        ));
    }
    (bw, bh)
}

/// Frame row of template row `j`, for a corner at the top or the bottom of
/// `y0 .. y1`.
pub open spec fn corner_row_inv(j: int, y0: int, y1: int, top: bool) -> int {
    if top {
        y0 + j
    } else {
        y1 - 1 - j
    }
}

proof fn lemma_byte_product(v: u32, a: u32)
    requires
        v <= 255,
        a <= 255,
    ensures
        v * a <= 255 * 255,
        v * a / 255 <= 255,
{
    assert(v * a <= 255 * 255) by (nonlinear_arith)
        requires
            v <= 255,
            a <= 255,
    ;
}

/// A corner template and its size, as plain values.
pub open spec fn corner_view(c: Option<(&[u8], usize)>) -> Option<(Seq<u8>, int)> {
    match c {
        Some((t, size)) => Some((t@, size as int)),
        None => None,
    }
}

/// The frame after an optional corner blit.
pub open spec fn corner_step(
    frame: Seq<u32>,
    pw: int,
    c: Option<(Seq<u8>, int)>,
    x0: int,
    x1: int,
    y0: int,
    y1: int,
    left: bool,
    top: bool,
    color: u32,
) -> Seq<u32> {
    match c {
        Some((t, size)) => corner_blitted(frame, pw, t, size, x0, x1, y0, y1, left, top, color),
        None => frame,
    }
}

/// The part of the rect an optional corner template covers (width, height).
pub open spec fn corner_box(c: Option<(Seq<u8>, int)>, x0: int, x1: int, y0: int, y1: int) -> (
    int,
    int,
) {
    match c {
        Some((_, size)) => (min_int(size, x1 - x0), min_int(size, y1 - y0)),
        None => (0, 0),
    }
}

/// Where the fill of row `y` starts: right of the top-left corner box on
/// its rows, else right of the bottom-left one on its rows, else at `x0`.
pub open spec fn span_left(y: int, x0: int, y0: int, y1: int, tl: (int, int), bl: (int, int)) -> int {
    if y - y0 < tl.1 {
        x0 + tl.0
    } else if y1 - 1 - y < bl.1 {
        x0 + bl.0
    } else {
        x0
    }
}

/// Where the fill of row `y` ends: left of the top-right corner box on its
/// rows, else left of the bottom-right one on its rows, else at `x1`.
pub open spec fn span_right(y: int, x1: int, y0: int, y1: int, tr: (int, int), br: (int, int)) -> int {
    if y - y0 < tr.1 {
        x1 - tr.0
    } else if y1 - 1 - y < br.1 {
        x1 - br.0
    } else {
        x1
    }
}

/// The frame after filling, on each row of the rect `x0 .. x1`, `y0 .. y1`
/// up to row `upto`, the columns between the corner boxes with `color`.
pub open spec fn rows_filled(
    frame: Seq<u32>,
    pw: int,
    x0: int,
    x1: int,
    y0: int,
    y1: int,
    upto: int,
    tl: (int, int),
    tr: (int, int),
    br: (int, int),
    bl: (int, int),
    color: u32,
) -> Seq<u32> {
    Seq::new(
        frame.len(),
        |k: int|
            if pw > 0 && y0 <= k / pw < upto && span_left(k / pw, x0, y0, y1, tl, bl) <= k % pw
                < span_right(k / pw, x1, y0, y1, tr, br) {
                color
            } else {
                frame[k]
            },
    )
}

fn corner_or_none(
    pixels: &mut [u32],
    pw: usize,
    x0: usize,
    x1: usize,
    y0: usize,
    y1: usize,
    c: Option<(&[u8], usize)>,
    left: bool,
    top: bool,
    color: u32,
) -> (r: (usize, usize))
    requires
        x0 <= x1 <= pw,
        y0 <= y1,
        y1 * pw <= old(pixels)@.len(),
        c matches Some((t, size)) ==> size * size <= t@.len(),
    ensures
        r.0 == corner_box(corner_view(c), x0 as int, x1 as int, y0 as int, y1 as int).0,
        r.1 == corner_box(corner_view(c), x0 as int, x1 as int, y0 as int, y1 as int).1,
        final(pixels)@ == corner_step(
            old(pixels)@,
            pw as int,
            corner_view(c),
            x0 as int,
            x1 as int,
            y0 as int,
            y1 as int,
            left,
            top,
            color,
        ),
{
    match c {
        Some((t, size)) => blit_corner(pixels, pw, x0, x1, y0, y1, t, size, left, top, color),
        None => (0, 0),
    }
}

proof fn lemma_span_row(
    f4: Seq<u32>,
    mid: Seq<u32>,
    now: Seq<u32>,
    pw: int,
    x0: int,
    x1: int,
    y0: int,
    y: int,
    y1: int,
    btl: (int, int),
    btr: (int, int),
    bbr: (int, int),
    bbl: (int, int),
    color: u32,
    row: int,
    l: int,
    r: int,
)
    requires
        0 <= x0 <= x1 <= pw,
        0 <= y0 <= y < y1,
        row == y * pw,
        l == span_left(y, x0, y0, y1, btl, bbl),
        r == span_right(y, x1, y0, y1, btr, bbr),
        0 <= l,
        r <= pw,
        mid == rows_filled(f4, pw, x0, x1, y0, y1, y, btl, btr, bbr, bbl, color),
        now.len() == f4.len(),
        forall|i: int|
            0 <= i < f4.len() ==> #[trigger] now[i] == if r > l && row + l <= i < row + r {
                color
            } else {
                mid[i]
            },
    ensures
        now == rows_filled(f4, pw, x0, x1, y0, y1, y + 1, btl, btr, bbr, bbl, color),
{
    let target = rows_filled(f4, pw, x0, x1, y0, y1, y + 1, btl, btr, bbr, bbl, color);
    assert forall|i: int| 0 <= i < f4.len() implies #[trigger] now[i] == target[i] by {
        if pw > 0 {
            vstd::arithmetic::div_mod::lemma_fundamental_div_mod(i, pw);
            let q = i / pw;
            let rr = i % pw;
            if row <= i < row + pw {
                crate::grid::lemma_cell(pw, i - row, y);
                assert(q == y && rr == i - row);
            } else if i < row {
                assert(q < y) by (nonlinear_arith)
                    requires
                        i == pw * q + rr,
                        0 <= rr,
                        i < y * pw,
                        pw > 0,
                ;
            } else {
                assert(q > y) by (nonlinear_arith)
                    requires
                        i == pw * q + rr,
                        rr < pw,
                        i >= y * pw + pw,
                        pw > 0,
                ;
            }
        }
    }
    assert(now =~= target);
}

/// Fill a pixel-aligned rounded rect (`x0 .. x1`, `y0 .. y1`) in the opaque
/// colour `color`: the corner-coverage templates present (top-left,
/// top-right, bottom-right, bottom-left; each `size` by `size`, top-left
/// oriented) are blitted into their corners in that order, then each row is
/// filled between the corner boxes.
pub fn fill_rounded_rect_manual(
    pixels: &mut [u32],
    pw: usize,
    x0: usize,
    x1: usize,
    y0: usize,
    y1: usize,
    color: u32,
    tl: Option<(&[u8], usize)>,
    tr: Option<(&[u8], usize)>,
    br: Option<(&[u8], usize)>,
    bl: Option<(&[u8], usize)>,
)
    requires
        x0 <= x1 <= pw,
        y0 <= y1,
        y1 * pw <= old(pixels)@.len(),
        tl matches Some((t, size)) ==> size * size <= t@.len(),
        tr matches Some((t, size)) ==> size * size <= t@.len(),
        br matches Some((t, size)) ==> size * size <= t@.len(),
        bl matches Some((t, size)) ==> size * size <= t@.len(),
    ensures
        ({
            let (xa, xb, ya, yb) = (x0 as int, x1 as int, y0 as int, y1 as int);
            let f1 = corner_step(old(pixels)@, pw as int, corner_view(tl), xa, xb, ya, yb, true, true, color);
            let f2 = corner_step(f1, pw as int, corner_view(tr), xa, xb, ya, yb, false, true, color);
            let f3 = corner_step(f2, pw as int, corner_view(br), xa, xb, ya, yb, false, false, color);
            let f4 = corner_step(f3, pw as int, corner_view(bl), xa, xb, ya, yb, true, false, color);
            final(pixels)@ == rows_filled(
                f4,
                pw as int,
                xa,
                xb,
                ya,
                yb,
                yb,
                corner_box(corner_view(tl), xa, xb, ya, yb),
                corner_box(corner_view(tr), xa, xb, ya, yb),
                corner_box(corner_view(br), xa, xb, ya, yb),
                corner_box(corner_view(bl), xa, xb, ya, yb),
                color,
            )
        }),
{
    let (tlw, tlh) = corner_or_none(pixels, pw, x0, x1, y0, y1, tl, true, true, color);
    let (trw, trh) = corner_or_none(pixels, pw, x0, x1, y0, y1, tr, false, true, color);
    let (brw, brh) = corner_or_none(pixels, pw, x0, x1, y0, y1, br, false, false, color);
    let (blw, blh) = corner_or_none(pixels, pw, x0, x1, y0, y1, bl, true, false, color);
    let ghost f4 = pixels@;
    let ghost (btl, btr, bbr, bbl) = (
        (tlw as int, tlh as int),
        (trw as int, trh as int),
        (brw as int, brh as int),
        (blw as int, blh as int),
    );
    let plen = pixels.len();
    let mut y = y0;
    while y < y1
        invariant
            plen == f4.len(),
            pixels@.len() == f4.len(),
            x0 <= x1 <= pw,
            y0 <= y <= y1,
            y1 * pw <= f4.len(),
            tlw <= x1 - x0 && trw <= x1 - x0 && brw <= x1 - x0 && blw <= x1 - x0,
            btl == (tlw as int, tlh as int) && btr == (trw as int, trh as int),
            bbr == (brw as int, brh as int) && bbl == (blw as int, blh as int),
            pixels@ == rows_filled(f4, pw as int, x0 as int, x1 as int, y0 as int, y1 as int, y as int, btl, btr, bbr, bbl, color),
        decreases y1 - y,
    {
        let from_top = y - y0;
        let from_bot = y1 - 1 - y;
        let l = if from_top < tlh {
            x0 + tlw
        } else if from_bot < blh {
            x0 + blw
        } else {
            x0
        };
        let r = if from_top < trh {
            x1 - trw
        } else if from_bot < brh {
            x1 - brw
        } else {
            x1
        };
        proof {
            assert(y * pw + pw <= y1 * pw) by (nonlinear_arith)
                requires
                    y < y1,
            ;
        }
        let row = y * pw;
        let ghost mid = pixels@;
        if r > l {
            let mut k = row + l;
            while k < row + r
                invariant
                    row + l <= k <= row + r,
                    r <= pw,
                    row + pw <= f4.len(),
                    pixels@.len() == f4.len(),
                    forall|i: int|
                        0 <= i < f4.len() ==> #[trigger] pixels@[i] == if row + l <= i < k {
                            color
                        } else {
                            mid[i]
                        },
                decreases row + r - k,
            {
                pixels[k] = color;
                k = k + 1;
            }
            proof {
                lemma_span_row(f4, mid, pixels@, pw as int, x0 as int, x1 as int, y0 as int, y as int,
                    y1 as int, btl, btr, bbr, bbl, color, row as int, l as int, r as int);
            }
        } else {
            proof {
                lemma_span_row(f4, mid, pixels@, pw as int, x0 as int, x1 as int, y0 as int, y as int,
                    y1 as int, btl, btr, bbr, bbl, color, row as int, l as int, r as int);
            }
        }
        y = y + 1;
    }
}

} // verus!
