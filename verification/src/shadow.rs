//! Drop-shadow patches for the CPU backend: cutting a nine-patch out of a
//! blurred alpha template, and compositing a patch onto the frame.
//!
//! A nine-patch keeps four colourised `c` by `c` corner pixmaps and four
//! alpha profiles of length `c`: top and bottom by row, left and right by
//! column. Drawn over a `tw` by `th` shadow box, the corners go to the box
//! corners, each profile is repeated along its edge, and the centre is
//! filled with the full shadow colour. The pieces do not overlap, so every
//! pixel of the box is composited exactly once.

use vstd::prelude::*;
use crate::pixel::pack;
use crate::composite::{
    blend_span, blit_pixmap, blitted_masked, clip_allows, colorize_region, composite_px,
    mask_factor, mask_view, region_px, spanned_frame,
};
use crate::grid::lemma_index_cell;
use crate::shadow_cache::ShadowKey;

verus! {

/// A size-independent shadow template: corner pixmaps (premultiplied,
/// row-major, `c` by `c`) and edge alpha profiles (length `c`).
pub struct NinePatch {
    pub c: usize,
    pub top_left: Vec<u32>,
    pub top_right: Vec<u32>,
    pub bottom_left: Vec<u32>,
    pub bottom_right: Vec<u32>,
    pub top: Vec<u8>,
    pub bottom: Vec<u8>,
    pub left: Vec<u8>,
    pub right: Vec<u8>,
}

/// A cached shadow: the full colourised shadow of a small element
/// (`w` by `h`, premultiplied, row-major), or a nine-patch.
pub enum ShadowPatch {
    Exact { pixmap: Vec<u32>, w: u32, h: u32 },
    Nine(NinePatch),
}

/// The `w` by `h` region at (`x0`, `y0`) of an alpha plane `plane_w` texels
/// wide, colourised in (`cr`, `cg`, `cb`, `ca`), row-major.
pub open spec fn colorized_region(
    alpha: Seq<u8>,
    plane_w: int,
    x0: int,
    y0: int,
    w: int,
    h: int,
    cr: u32,
    cg: u32,
    cb: u32,
    ca: u32,
) -> Seq<u32> {
    Seq::new((w * h) as nat, |i: int| region_px(alpha, plane_w, x0, y0, w, cr, cg, cb, ca, i))
}

/// Every piece of the patch has its size.
pub open spec fn nine_wf(p: NinePatch) -> bool {
    &&& p.top_left@.len() == p.c * p.c
    &&& p.top_right@.len() == p.c * p.c
    &&& p.bottom_left@.len() == p.c * p.c
    &&& p.bottom_right@.len() == p.c * p.c
    &&& p.top@.len() == p.c
    &&& p.bottom@.len() == p.c
    &&& p.left@.len() == p.c
    &&& p.right@.len() == p.c
}

/// The colour (`cr`, `cg`, `cb`, `ca`) at edge alpha `av`: coverage
/// `av * ca / 255`, colour premultiplied by it.
pub open spec fn edge_px(av: u8, cr: u32, cg: u32, cb: u32, ca: u32) -> u32 {
    let a = av as int * ca / 255;
    pack((cr * a / 255) as u32, (cg * a / 255) as u32, (cb * a / 255) as u32, a as u32)
}

/// Pixel (`x`, `y`) of a `tw` by `th` shadow box drawn from a nine-patch.
pub open spec fn nine_px(
    p: NinePatch,
    tw: int,
    th: int,
    cr: u32,
    cg: u32,
    cb: u32,
    ca: u32,
    x: int,
    y: int,
) -> u32 {
    let c = p.c as int;
    if y < c {
        if x < c {
            p.top_left@[y * c + x]
        } else if x >= tw - c {
            p.top_right@[y * c + (x - (tw - c))]
        } else {
            edge_px(p.top@[y], cr, cg, cb, ca)
        }
    } else if y >= th - c {
        if x < c {
            p.bottom_left@[(y - (th - c)) * c + x]
        } else if x >= tw - c {
            p.bottom_right@[(y - (th - c)) * c + (x - (tw - c))]
        } else {
            edge_px(p.bottom@[y - (th - c)], cr, cg, cb, ca)
        }
    } else {
        if x < c {
            edge_px(p.left@[x], cr, cg, cb, ca)
        } else if x >= tw - c {
            edge_px(p.right@[x - (tw - c)], cr, cg, cb, ca)
        } else {
            edge_px(255u8, cr, cg, cb, ca)
        }
    }
}

/// `nine_px` as a function of the box position.
pub open spec fn nine_px_fn(
    p: NinePatch,
    tw: int,
    th: int,
    cr: u32,
    cg: u32,
    cb: u32,
    ca: u32,
) -> spec_fn(int, int) -> u32 {
    |x: int, y: int| nine_px(p, tw, th, cr, cg, cb, ca, x, y)
}

/// The positions of a `tw` by `th` box.
pub open spec fn box_fn(tw: int, th: int) -> spec_fn(int, int) -> bool {
    |x: int, y: int| 0 <= x < tw && 0 <= y < th
}

/// The frame (`pw` by `ph`) after compositing, over every pixel whose
/// position relative to (`dx`, `dy`) is in `region` and which the clip
/// allows, the pixel `px` gives there, scaled by the mask's coverage.
pub open spec fn patched(
    frame: Seq<u32>,
    pw: int,
    ph: int,
    dx: int,
    dy: int,
    px: spec_fn(int, int) -> u32,
    region: spec_fn(int, int) -> bool,
    mask: Option<Seq<u8>>,
    clip: Option<(i32, i32, i32, i32)>,
) -> Seq<u32> {
    Seq::new(
        frame.len(),
        |i: int|
            if i < pw * ph && region(i % pw - dx, i / pw - dy) && clip_allows(clip, i % pw, i / pw) {
                composite_px(frame[i], px(i % pw - dx, i / pw - dy), mask_factor(mask, i))
            } else {
                frame[i]
            },
    )
}

proof fn lemma_patched_empty(
    f0: Seq<u32>,
    pw: int,
    ph: int,
    dx: int,
    dy: int,
    px: spec_fn(int, int) -> u32,
    region: spec_fn(int, int) -> bool,
    mask: Option<Seq<u8>>,
    clip: Option<(i32, i32, i32, i32)>,
)
    requires
        forall|x: int, y: int| !#[trigger] region(x, y),
    ensures
        patched(f0, pw, ph, dx, dy, px, region, mask, clip) == f0,
{
    let a = patched(f0, pw, ph, dx, dy, px, region, mask, clip);
    assert forall|i: int| 0 <= i < a.len() implies a[i] == f0[i] by {
        assert(!region(i % pw - dx, i / pw - dy));
    }
    assert(a =~= f0);
}

proof fn lemma_patched_same_region(
    f0: Seq<u32>,
    pw: int,
    ph: int,
    dx: int,
    dy: int,
    px: spec_fn(int, int) -> u32,
    r1: spec_fn(int, int) -> bool,
    r2: spec_fn(int, int) -> bool,
    mask: Option<Seq<u8>>,
    clip: Option<(i32, i32, i32, i32)>,
)
    requires
        forall|x: int, y: int| #[trigger] r1(x, y) == r2(x, y),
    ensures
        patched(f0, pw, ph, dx, dy, px, r1, mask, clip) == patched(
            f0,
            pw,
            ph,
            dx,
            dy,
            px,
            r2,
            mask,
            clip,
        ),
{
    let a = patched(f0, pw, ph, dx, dy, px, r1, mask, clip);
    let b = patched(f0, pw, ph, dx, dy, px, r2, mask, clip);
    assert forall|i: int| 0 <= i < a.len() implies a[i] == b[i] by {
        assert(r1(i % pw - dx, i / pw - dy) == r2(i % pw - dx, i / pw - dy));
    }
    assert(a =~= b);
}

/// A constant-colour span over fresh positions of the region adds them
/// to the region.
proof fn lemma_span_extends(
    f0: Seq<u32>,
    pw: int,
    ph: int,
    dx: int,
    dy: int,
    px: spec_fn(int, int) -> u32,
    region: spec_fn(int, int) -> bool,
    region_new: spec_fn(int, int) -> bool,
    mask: Option<Seq<u8>>,
    clip: Option<(i32, i32, i32, i32)>,
    x0: int,
    x1: int,
    y: int,
    color: u32,
)
    requires
        forall|x: int|
            x0 - dx <= x < x1 - dx ==> !#[trigger] region(x, y - dy) && px(x, y - dy) == color,
        forall|x: int, yy: int|
            #[trigger] region_new(x, yy) == (region(x, yy) || (yy == y - dy && x0 - dx <= x < x1
                - dx)),
    ensures
        spanned_frame(
            patched(f0, pw, ph, dx, dy, px, region, mask, clip),
            pw,
            ph,
            x0,
            x1,
            y,
            color,
            mask,
            clip,
        ) == patched(f0, pw, ph, dx, dy, px, region_new, mask, clip),
{
    let cur = patched(f0, pw, ph, dx, dy, px, region, mask, clip);
    let a = spanned_frame(cur, pw, ph, x0, x1, y, color, mask, clip);
    let b = patched(f0, pw, ph, dx, dy, px, region_new, mask, clip);
    assert forall|i: int| 0 <= i < a.len() implies a[i] == b[i] by {
        let xx = i % pw - dx;
        let yy = i / pw - dy;
        assert(region_new(xx, yy) == (region(xx, yy) || (yy == y - dy && x0 - dx <= xx < x1
            - dx)));
        if i < pw * ph && i / pw == y && x0 <= i % pw < x1 {
            assert(!region(xx, y - dy) && px(xx, y - dy) == color);
        }
    }
    assert(a =~= b);
}

/// Blitting an `s` by `s` pixmap over a fresh block of the region, whose
/// pixels are what `px` gives there, adds the block to the region.
proof fn lemma_blit_extends(
    f0: Seq<u32>,
    pw: int,
    ph: int,
    dx: int,
    dy: int,
    px: spec_fn(int, int) -> u32,
    region: spec_fn(int, int) -> bool,
    region_new: spec_fn(int, int) -> bool,
    mask: Option<Seq<u8>>,
    clip: Option<(i32, i32, i32, i32)>,
    src: Seq<u32>,
    s: int,
    ox: int,
    oy: int,
)
    requires
        0 <= pw,
        0 <= ph,
        forall|x: int, y: int|
            ox <= x < ox + s && oy <= y < oy + s ==> !#[trigger] region(x, y) && px(x, y) == src[(y
                - oy) * s + (x - ox)],
        forall|x: int, y: int|
            #[trigger] region_new(x, y) == (region(x, y) || (ox <= x < ox + s && oy <= y < oy
                + s)),
    ensures
        blitted_masked(
            patched(f0, pw, ph, dx, dy, px, region, mask, clip),
            pw,
            ph,
            src,
            s,
            s,
            dx + ox,
            dy + oy,
            mask,
            clip,
        ) == patched(f0, pw, ph, dx, dy, px, region_new, mask, clip),
{
    let cur = patched(f0, pw, ph, dx, dy, px, region, mask, clip);
    let a = blitted_masked(cur, pw, ph, src, s, s, dx + ox, dy + oy, mask, clip);
    let b = patched(f0, pw, ph, dx, dy, px, region_new, mask, clip);
    assert forall|i: int| 0 <= i < a.len() implies a[i] == b[i] by {
        let xx = i % pw - dx;
        let yy = i / pw - dy;
        assert(region_new(xx, yy) == (region(xx, yy) || (ox <= xx < ox + s && oy <= yy < oy + s)));
        if i < pw * ph {
            assert(pw > 0) by {
                if pw == 0 {
                    assert(pw * ph == 0);
                }
            }
            lemma_index_cell(pw, ph, i);
            if ox <= xx < ox + s && oy <= yy < oy + s {
                assert(!region(xx, yy) && px(xx, yy) == src[(yy - oy) * s + (xx - ox)]);
            }
        }
    }
    assert(a =~= b);
}

/// The part of the box drawn so far: `cd` corners, the first `tr` top and
/// `br` bottom edge rows, `mr` full middle rows, and on the next middle
/// row the first `lk` left and `rk` right edge columns and, if `centre`,
/// the centre span.
spec fn nine_drawn(
    c: int,
    tw: int,
    th: int,
    cd: int,
    tr: int,
    br: int,
    mr: int,
    lk: int,
    rk: int,
    centre: bool,
    x: int,
    y: int,
) -> bool {
    ||| cd >= 1 && 0 <= x < c && 0 <= y < c
    ||| cd >= 2 && tw - c <= x < tw && 0 <= y < c
    ||| cd >= 3 && 0 <= x < c && th - c <= y < th
    ||| cd >= 4 && tw - c <= x < tw && th - c <= y < th
    ||| c <= x < tw - c && 0 <= y < tr
    ||| c <= x < tw - c && th - c <= y < th - c + br
    ||| 0 <= x < tw && c <= y < c + mr
    ||| 0 <= x < lk && y == c + mr
    ||| tw - c <= x < tw - c + rk && y == c + mr
    ||| centre && c <= x < tw - c && y == c + mr
}

spec fn drawn_fn(
    c: int,
    tw: int,
    th: int,
    cd: int,
    tr: int,
    br: int,
    mr: int,
    lk: int,
    rk: int,
    centre: bool,
) -> spec_fn(int, int) -> bool {
    |x: int, y: int| nine_drawn(c, tw, th, cd, tr, br, mr, lk, rk, centre, x, y)
}

proof fn lemma_scaled_byte(v: u32, a: u32)
    requires
        v <= 255,
        a <= 255,
    ensures
        v * a <= 255 * 255,
        v * a / 255 <= 255,
{
    assert(v * a <= 255 * 255) by (nonlinear_arith)
        requires
            v <= 255,
            a <= 255,
    ;
}

fn colorize_block(
    alpha: &[u8],
    plane_w: usize,
    x0: usize,
    y0: usize,
    n: usize,
    cr: u32,
    cg: u32,
    cb: u32,
    ca: u32,
) -> (r: Vec<u32>)
    requires
        0 < n,
        (y0 + n - 1) * plane_w + x0 + n - 1 < alpha@.len(),
        n * n <= usize::MAX,
        y0 + n <= usize::MAX,
        cr <= 255 && cg <= 255 && cb <= 255 && ca <= 255,
    ensures
        r@ == colorized_region(alpha@, plane_w as int, x0 as int, y0 as int, n as int, n as int, cr, cg, cb, ca),
{
    let v = colorize_region(alpha, plane_w, x0, y0, n, n, cr, cg, cb, ca);
    match v {
        Some(v) => {
            proof {
                assert(v@ =~= colorized_region(alpha@, plane_w as int, x0 as int, y0 as int, n as int, n as int, cr, cg, cb, ca));
            }
            v
        },
        None => {
            proof {
                assert(false);
            }
            Vec::new()
        },
    }
}

/// Cut a nine-patch with corner span `ct` out of a `w` by `h` blurred alpha
/// template: the four `ct` by `ct` corners colourised in (`cr`, `cg`, `cb`,
/// `ca`), the top and bottom profiles down the middle column, and the left
/// and right profiles along the middle row. A zero span gives `None`.
pub fn nine_patch_from_plane(
    alpha: &[u8],
    w: usize,
    h: usize,
    ct: usize,
    cr: u32,
    cg: u32,
    cb: u32,
    ca: u32,
) -> (r: Option<NinePatch>)
    requires
        ct <= w,
        ct <= h,
        w / 2 < h,
        w * h <= alpha@.len(),
        cr <= 255 && cg <= 255 && cb <= 255 && ca <= 255,
    ensures
        ct == 0 <==> r is None,
        r matches Some(p) ==> {
            let (wi, hi, c, mid) = (w as int, h as int, ct as int, (w / 2) as int);
            &&& nine_wf(p)
            &&& p.c == ct
            &&& p.top_left@ == colorized_region(alpha@, wi, 0, 0, c, c, cr, cg, cb, ca)
            &&& p.top_right@ == colorized_region(alpha@, wi, wi - c, 0, c, c, cr, cg, cb, ca)
            &&& p.bottom_left@ == colorized_region(alpha@, wi, 0, hi - c, c, c, cr, cg, cb, ca)
            &&& p.bottom_right@ == colorized_region(alpha@, wi, wi - c, hi - c, c, c, cr, cg, cb, ca)
            &&& p.top@ == Seq::new(ct as nat, |y: int| alpha@[y * wi + mid])
            &&& p.bottom@ == Seq::new(ct as nat, |y: int| alpha@[(hi - c + y) * wi + mid])
            &&& p.left@ == Seq::new(ct as nat, |x: int| alpha@[mid * wi + x])
            &&& p.right@ == Seq::new(ct as nat, |x: int| alpha@[mid * wi + (wi - c + x)])
        },
{
    if ct == 0 {
        return None;
    }
    let alen = alpha.len();
    assert(w * h <= alen);
    let ghost (wi, hi, c) = (w as int, h as int, ct as int);
    proof {
        assert(ct * ct <= w * h) by (nonlinear_arith)
            requires
                ct <= w,
                ct <= h,
        ;
        assert((c - 1) * wi + wi - 1 < wi * hi) by (nonlinear_arith)
            requires
                0 < c <= hi,
                0 < wi,
        ;
        assert((hi - 1) * wi + wi - 1 < wi * hi) by (nonlinear_arith)
            requires
                0 < hi,
                0 < wi,
        ;
    }
    let top_left = colorize_block(alpha, w, 0, 0, ct, cr, cg, cb, ca);
    let top_right = colorize_block(alpha, w, w - ct, 0, ct, cr, cg, cb, ca);
    let bottom_left = colorize_block(alpha, w, 0, h - ct, ct, cr, cg, cb, ca);
    let bottom_right = colorize_block(alpha, w, w - ct, h - ct, ct, cr, cg, cb, ca);
    let mid = w / 2;
    let mut top: Vec<u8> = Vec::new();
    let mut bottom: Vec<u8> = Vec::new();
    let mut left: Vec<u8> = Vec::new();
    let mut right: Vec<u8> = Vec::new();
    let mut k: usize = 0;
    while k < ct
        invariant
            0 < ct <= w,
            ct <= h,
            mid == w / 2,
            mid < h,
            w * h <= alpha@.len(),
            w * h <= usize::MAX,
            k <= ct,
            top@.len() == k && bottom@.len() == k && left@.len() == k && right@.len() == k,
            forall|y: int| 0 <= y < k ==> #[trigger] top@[y] == alpha@[y * w + mid],
            forall|y: int| 0 <= y < k ==> #[trigger] bottom@[y] == alpha@[(h - ct + y) * w + mid],
            forall|x: int| 0 <= x < k ==> #[trigger] left@[x] == alpha@[mid * w + x],
            forall|x: int| 0 <= x < k ==> #[trigger] right@[x] == alpha@[mid * w + (w - ct + x)],
        decreases ct - k,
    {
        proof {
            crate::grid::lemma_cell_bound(w as int, h as int, mid as int, k as int);
            crate::grid::lemma_cell_bound(w as int, h as int, mid as int, (h - ct + k) as int);
            crate::grid::lemma_cell_bound(w as int, h as int, k as int, mid as int);
            crate::grid::lemma_cell_bound(w as int, h as int, (w - ct + k) as int, mid as int);
        }
        top.push(alpha[k * w + mid]);
        bottom.push(alpha[(h - ct + k) * w + mid]);
        left.push(alpha[mid * w + k]);
        right.push(alpha[mid * w + (w - ct + k)]);
        k = k + 1;
    }
    proof {
        let mi = mid as int;
        assert(top@ =~= Seq::new(ct as nat, |y: int| alpha@[y * wi + mi]));
        assert(bottom@ =~= Seq::new(ct as nat, |y: int| alpha@[(hi - c + y) * wi + mi]));
        assert(left@ =~= Seq::new(ct as nat, |x: int| alpha@[mi * wi + x]));
        assert(right@ =~= Seq::new(ct as nat, |x: int| alpha@[mi * wi + (wi - c + x)]));
    }
    Some(
        NinePatch {
            c: ct,
            top_left,
            top_right,
            bottom_left,
            bottom_right,
            top,
            bottom,
            left,
            right,
        },
    )
}

/// The full colourised shadow of a small element: the whole `w` by `h`
/// alpha template colourised in (`cr`, `cg`, `cb`, `ca`). An empty template
/// gives `None`.
pub fn exact_patch_from_plane(
    alpha: &[u8],
    w: usize,
    h: usize,
    cr: u32,
    cg: u32,
    cb: u32,
    ca: u32,
) -> (r: Option<ShadowPatch>)
    requires
        w * h <= alpha@.len(),
        w <= u32::MAX,
        h <= u32::MAX,
        cr <= 255 && cg <= 255 && cb <= 255 && ca <= 255,
    ensures
        (w == 0 || h == 0) <==> r is None,
        r matches Some(p) ==> p matches ShadowPatch::Exact { pixmap, w: pw, h: ph } && pw == w
            && ph == h && pixmap@ == colorized_region(alpha@, w as int, 0, 0, w as int, h as int, cr, cg, cb, ca),
{
    if w == 0 || h == 0 {
        return None;
    }
    let alen = alpha.len();
    assert(w * h <= alen);
    proof {
        assert((h - 1) * w + w - 1 < w * h) by (nonlinear_arith)
            requires
                0 < h,
                0 < w,
        ;
    }
    match colorize_region(alpha, w, 0, 0, w, h, cr, cg, cb, ca) {
        Some(pixmap) => {
            proof {
                assert(pixmap@ =~= colorized_region(alpha@, w as int, 0, 0, w as int, h as int, cr, cg, cb, ca));
            }
            Some(ShadowPatch::Exact { pixmap, w: w as u32, h: h as u32 })
        },
        None => None,
    }
}

/// Composite a nine-patch over the `tw` by `th` shadow box whose top-left
/// pixel is (`dev_x`, `dev_y`), in colour (`cr`, `cg`, `cb`, `ca`), scaled
/// by the coverage mask and clipped to `clip_dev`: the corners are
/// blitted, the edge profiles drawn as spans in the colour at each
/// profile alpha, and the centre filled with the full colour.
pub fn blit_nine_patch(
    pixels: &mut [u32],
    pw: usize,
    ph: usize,
    p: &NinePatch,
    dev_x: i32,
    dev_y: i32,
    tw: usize,
    th: usize,
    cr: u32,
    cg: u32,
    cb: u32,
    ca: u32,
    mask: Option<&[u8]>,
    clip_dev: Option<(i32, i32, i32, i32)>,
)
    requires
        old(pixels)@.len() >= pw * ph,
        mask matches Some(m) ==> m@.len() >= pw * ph,
        nine_wf(*p),
        2 * p.c <= tw <= i32::MAX,
        2 * p.c <= th <= i32::MAX,
        dev_x + tw <= i32::MAX,
        dev_y + th <= i32::MAX,
        cr <= 255,
        cg <= 255,
        cb <= 255,
        ca <= 255,
    ensures
        final(pixels)@ == patched(
            old(pixels)@,
            pw as int,
            ph as int,
            dev_x as int,
            dev_y as int,
            nine_px_fn(*p, tw as int, th as int, cr, cg, cb, ca),
            box_fn(tw as int, th as int),
            mask_view(mask),
            clip_dev,
        ),
{
    let ghost p0 = pixels@;
    let ghost mv = mask_view(mask);
    let ghost pxf = nine_px_fn(*p, tw as int, th as int, cr, cg, cb, ca);
    let ghost (c_, tw_, th_, dx_, dy_) = (p.c as int, tw as int, th as int, dev_x as int, dev_y as int);
    let ghost (pwi, phi) = (pw as int, ph as int);
    let c = p.c;
    let ci = c as i32;
    let twi = tw as i32;
    let thi = th as i32;
    proof {
        lemma_patched_empty(p0, pwi, phi, dx_, dy_, pxf, drawn_fn(c_, tw_, th_, 0, 0, 0, 0, 0, 0, false), mv, clip_dev);
    }
    // Corners.
    blit_pixmap(pixels, pw, ph, p.top_left.as_slice(), c as u32, c as u32, dev_x, dev_y, mask, clip_dev);
    proof {
        lemma_blit_extends(p0, pwi, phi, dx_, dy_, pxf, drawn_fn(c_, tw_, th_, 0, 0, 0, 0, 0, 0, false),
            drawn_fn(c_, tw_, th_, 1, 0, 0, 0, 0, 0, false), mv, clip_dev, p.top_left@, c_, 0, 0);
    }
    blit_pixmap(pixels, pw, ph, p.top_right.as_slice(), c as u32, c as u32, dev_x + (twi - ci), dev_y, mask, clip_dev);
    proof {
        lemma_blit_extends(p0, pwi, phi, dx_, dy_, pxf, drawn_fn(c_, tw_, th_, 1, 0, 0, 0, 0, 0, false),
            drawn_fn(c_, tw_, th_, 2, 0, 0, 0, 0, 0, false), mv, clip_dev, p.top_right@, c_, tw_ - c_, 0);
    }
    blit_pixmap(pixels, pw, ph, p.bottom_left.as_slice(), c as u32, c as u32, dev_x, dev_y + (thi - ci), mask, clip_dev);
    proof {
        lemma_blit_extends(p0, pwi, phi, dx_, dy_, pxf, drawn_fn(c_, tw_, th_, 2, 0, 0, 0, 0, 0, false),
            drawn_fn(c_, tw_, th_, 3, 0, 0, 0, 0, 0, false), mv, clip_dev, p.bottom_left@, c_, 0, th_ - c_);
    }
    blit_pixmap(pixels, pw, ph, p.bottom_right.as_slice(), c as u32, c as u32, dev_x + (twi - ci), dev_y + (thi - ci), mask, clip_dev);
    proof {
        lemma_blit_extends(p0, pwi, phi, dx_, dy_, pxf, drawn_fn(c_, tw_, th_, 3, 0, 0, 0, 0, 0, false),
            drawn_fn(c_, tw_, th_, 4, 0, 0, 0, 0, 0, false), mv, clip_dev, p.bottom_right@, c_, tw_ - c_, th_ - c_);
    }
    // Top and bottom edge strips.
    let ex0 = dev_x + ci;
    let ex1 = dev_x + (twi - ci);
    let mut r: usize = 0;
    while r < c
        invariant
            nine_wf(*p),
            c == p.c,
            c_ == c,
            tw_ == tw,
            th_ == th,
            dx_ == dev_x,
            dy_ == dev_y,
            pwi == pw,
            phi == ph,
            mv == mask_view(mask),
            pxf == nine_px_fn(*p, tw as int, th as int, cr, cg, cb, ca),
            2 * c <= tw <= i32::MAX,
            2 * c <= th <= i32::MAX,
            dev_x + tw <= i32::MAX,
            dev_y + th <= i32::MAX,
            ex0 == dev_x + c,
            ex1 == dev_x + tw - c,
            cr <= 255 && cg <= 255 && cb <= 255 && ca <= 255,
            r <= c,
            pixels@.len() == p0.len(),
            p0.len() >= pw * ph,
            mask matches Some(m) ==> m@.len() >= pw * ph,
            pixels@ == patched(p0, pwi, phi, dx_, dy_, pxf, drawn_fn(c_, tw_, th_, 4, r as int, 0, 0, 0, 0, false), mv, clip_dev),
        decreases c - r,
    {
        let av = p.top[r];
        proof {
            lemma_scaled_byte(av as u32, ca);
        }
        let a = av as u32 * ca / 255;
        proof {
            lemma_scaled_byte(cr, a);
            lemma_scaled_byte(cg, a);
            lemma_scaled_byte(cb, a);
            let ry = r as int;
            let color = pack((cr * a / 255) as u32, (cg * a / 255) as u32, (cb * a / 255) as u32, a);
            assert forall|x: int| ex0 - dx_ <= x < ex1 - dx_ implies !#[trigger] drawn_fn(c_, tw_, th_, 4, ry, 0, 0, 0, 0, false)(x, dev_y + ry - dy_)
                && pxf(x, dev_y + ry - dy_) == color by {}
            lemma_span_extends(p0, pwi, phi, dx_, dy_, pxf, drawn_fn(c_, tw_, th_, 4, ry, 0, 0, 0, 0, false),
                drawn_fn(c_, tw_, th_, 4, ry + 1, 0, 0, 0, 0, false), mv, clip_dev, ex0 as int, ex1 as int, dev_y + ry, color);
        }
        blend_span(pixels, pw, ph, ex0, ex1, dev_y + r as i32, cr * a / 255, cg * a / 255, cb * a / 255, a, mask, clip_dev);
        r = r + 1;
    }
    let by0 = dev_y + (thi - ci);
    let mut r: usize = 0;
    while r < c
        invariant
            nine_wf(*p),
            c == p.c,
            c_ == c,
            tw_ == tw,
            th_ == th,
            dx_ == dev_x,
            dy_ == dev_y,
            pwi == pw,
            phi == ph,
            mv == mask_view(mask),
            pxf == nine_px_fn(*p, tw as int, th as int, cr, cg, cb, ca),
            2 * c <= tw <= i32::MAX,
            2 * c <= th <= i32::MAX,
            dev_x + tw <= i32::MAX,
            dev_y + th <= i32::MAX,
            ex0 == dev_x + c,
            ex1 == dev_x + tw - c,
            by0 == dev_y + th - c,
            cr <= 255 && cg <= 255 && cb <= 255 && ca <= 255,
            r <= c,
            pixels@.len() == p0.len(),
            p0.len() >= pw * ph,
            mask matches Some(m) ==> m@.len() >= pw * ph,
            pixels@ == patched(p0, pwi, phi, dx_, dy_, pxf, drawn_fn(c_, tw_, th_, 4, c_, r as int, 0, 0, 0, false), mv, clip_dev),
        decreases c - r,
    {
        let av = p.bottom[r];
        proof {
            lemma_scaled_byte(av as u32, ca);
        }
        let a = av as u32 * ca / 255;
        proof {
            lemma_scaled_byte(cr, a);
            lemma_scaled_byte(cg, a);
            lemma_scaled_byte(cb, a);
            let ry = r as int;
            let color = pack((cr * a / 255) as u32, (cg * a / 255) as u32, (cb * a / 255) as u32, a);
            assert forall|x: int| ex0 - dx_ <= x < ex1 - dx_ implies !#[trigger] drawn_fn(c_, tw_, th_, 4, c_, ry, 0, 0, 0, false)(x, by0 + ry - dy_)
                && pxf(x, by0 + ry - dy_) == color by {}
            lemma_span_extends(p0, pwi, phi, dx_, dy_, pxf, drawn_fn(c_, tw_, th_, 4, c_, ry, 0, 0, 0, false),
                drawn_fn(c_, tw_, th_, 4, c_, ry + 1, 0, 0, 0, false), mv, clip_dev, ex0 as int, ex1 as int, by0 + ry, color);
        }
        blend_span(pixels, pw, ph, ex0, ex1, by0 + r as i32, cr * a / 255, cg * a / 255, cb * a / 255, a, mask, clip_dev);
        r = r + 1;
    }
    // Middle rows: left and right edge columns, then the centre span.
    let rx0 = dev_x + (twi - ci);
    proof {
        lemma_scaled_byte(cr, ca);
        lemma_scaled_byte(cg, ca);
        lemma_scaled_byte(cb, ca);
    }
    let fr = cr * ca / 255;
    let fg = cg * ca / 255;
    let fb = cb * ca / 255;
    let rows = th - 2 * c;
    let mut m: usize = 0;
    while m < rows
        invariant
            nine_wf(*p),
            c == p.c,
            c_ == c,
            tw_ == tw,
            th_ == th,
            dx_ == dev_x,
            dy_ == dev_y,
            pwi == pw,
            phi == ph,
            mv == mask_view(mask),
            pxf == nine_px_fn(*p, tw as int, th as int, cr, cg, cb, ca),
            2 * c <= tw <= i32::MAX,
            2 * c <= th <= i32::MAX,
            dev_x + tw <= i32::MAX,
            dev_y + th <= i32::MAX,
            ex0 == dev_x + c,
            ex1 == dev_x + tw - c,
            rx0 == dev_x + tw - c,
            rows == th - 2 * c,
            ci == c,
            cr <= 255 && cg <= 255 && cb <= 255 && ca <= 255,
            fr == cr * ca / 255 && fg == cg * ca / 255 && fb == cb * ca / 255,
            m <= rows,
            pixels@.len() == p0.len(),
            p0.len() >= pw * ph,
            mask matches Some(m) ==> m@.len() >= pw * ph,
            pixels@ == patched(p0, pwi, phi, dx_, dy_, pxf, drawn_fn(c_, tw_, th_, 4, c_, c_, m as int, 0, 0, false), mv, clip_dev),
        decreases rows - m,
    {
        let y = dev_y + ci + m as i32;
        let ghost mi = m as int;
        let mut k: usize = 0;
        while k < c
            invariant
                nine_wf(*p),
                c == p.c,
                c_ == c,
                tw_ == tw,
                th_ == th,
                dx_ == dev_x,
                dy_ == dev_y,
                pwi == pw,
                phi == ph,
                mv == mask_view(mask),
                pxf == nine_px_fn(*p, tw as int, th as int, cr, cg, cb, ca),
                2 * c <= tw <= i32::MAX,
                2 * c <= th <= i32::MAX,
                dev_x + tw <= i32::MAX,
                dev_y + th <= i32::MAX,
                0 <= mi < rows,
                rows == th - 2 * c,
                y == dev_y + c + mi,
                cr <= 255 && cg <= 255 && cb <= 255 && ca <= 255,
                k <= c,
                pixels@.len() == p0.len(),
                p0.len() >= pw * ph,
                mask matches Some(m) ==> m@.len() >= pw * ph,
                pixels@ == patched(p0, pwi, phi, dx_, dy_, pxf, drawn_fn(c_, tw_, th_, 4, c_, c_, mi, k as int, 0, false), mv, clip_dev),
            decreases c - k,
        {
            let av = p.left[k];
            proof {
                lemma_scaled_byte(av as u32, ca);
            }
            let a = av as u32 * ca / 255;
            proof {
                lemma_scaled_byte(cr, a);
                lemma_scaled_byte(cg, a);
                lemma_scaled_byte(cb, a);
                let kx = k as int;
                let color = pack((cr * a / 255) as u32, (cg * a / 255) as u32, (cb * a / 255) as u32, a);
                assert forall|x: int| dev_x + kx - dx_ <= x < dev_x + kx + 1 - dx_ implies !#[trigger] drawn_fn(c_, tw_, th_, 4, c_, c_, mi, kx, 0, false)(x, y - dy_)
                    && pxf(x, y - dy_) == color by {}
                lemma_span_extends(p0, pwi, phi, dx_, dy_, pxf, drawn_fn(c_, tw_, th_, 4, c_, c_, mi, kx, 0, false),
                    drawn_fn(c_, tw_, th_, 4, c_, c_, mi, kx + 1, 0, false), mv, clip_dev, dev_x + kx, dev_x + kx + 1, y as int, color);
            }
            blend_span(pixels, pw, ph, dev_x + k as i32, dev_x + k as i32 + 1, y, cr * a / 255, cg * a / 255, cb * a / 255, a, mask, clip_dev);
            k = k + 1;
        }
        let mut k: usize = 0;
        while k < c
            invariant
                nine_wf(*p),
                c == p.c,
                c_ == c,
                tw_ == tw,
                th_ == th,
                dx_ == dev_x,
                dy_ == dev_y,
                pwi == pw,
                phi == ph,
                mv == mask_view(mask),
                pxf == nine_px_fn(*p, tw as int, th as int, cr, cg, cb, ca),
                2 * c <= tw <= i32::MAX,
                2 * c <= th <= i32::MAX,
                dev_x + tw <= i32::MAX,
                dev_y + th <= i32::MAX,
                0 <= mi < rows,
                rows == th - 2 * c,
                y == dev_y + c + mi,
                rx0 == dev_x + tw - c,
                cr <= 255 && cg <= 255 && cb <= 255 && ca <= 255,
                k <= c,
                pixels@.len() == p0.len(),
                p0.len() >= pw * ph,
                mask matches Some(m) ==> m@.len() >= pw * ph,
                pixels@ == patched(p0, pwi, phi, dx_, dy_, pxf, drawn_fn(c_, tw_, th_, 4, c_, c_, mi, c_, k as int, false), mv, clip_dev),
            decreases c - k,
        {
            let av = p.right[k];
            proof {
                lemma_scaled_byte(av as u32, ca);
            }
            let a = av as u32 * ca / 255;
            let x = rx0 + k as i32;
            proof {
                lemma_scaled_byte(cr, a);
                lemma_scaled_byte(cg, a);
                lemma_scaled_byte(cb, a);
                let kx = k as int;
                let color = pack((cr * a / 255) as u32, (cg * a / 255) as u32, (cb * a / 255) as u32, a);
                assert forall|xx: int| x - dx_ <= xx < x + 1 - dx_ implies !#[trigger] drawn_fn(c_, tw_, th_, 4, c_, c_, mi, c_, kx, false)(xx, y - dy_)
                    && pxf(xx, y - dy_) == color by {}
                lemma_span_extends(p0, pwi, phi, dx_, dy_, pxf, drawn_fn(c_, tw_, th_, 4, c_, c_, mi, c_, kx, false),
                    drawn_fn(c_, tw_, th_, 4, c_, c_, mi, c_, kx + 1, false), mv, clip_dev, x as int, x + 1, y as int, color);
            }
            blend_span(pixels, pw, ph, x, x + 1, y, cr * a / 255, cg * a / 255, cb * a / 255, a, mask, clip_dev);
            k = k + 1;
        }
        proof {
            lemma_scaled_byte(cr, ca);
            lemma_scaled_byte(cg, ca);
            lemma_scaled_byte(cb, ca);
            let color = pack(fr, fg, fb, ca);
            assert(edge_px(255u8, cr, cg, cb, ca) == color);
            assert forall|x: int| ex0 - dx_ <= x < ex1 - dx_ implies !#[trigger] drawn_fn(c_, tw_, th_, 4, c_, c_, mi, c_, c_, false)(x, y - dy_)
                && pxf(x, y - dy_) == color by {}
            lemma_span_extends(p0, pwi, phi, dx_, dy_, pxf, drawn_fn(c_, tw_, th_, 4, c_, c_, mi, c_, c_, false),
                drawn_fn(c_, tw_, th_, 4, c_, c_, mi + 1, 0, 0, false), mv, clip_dev, ex0 as int, ex1 as int, y as int, color);
        }
        blend_span(pixels, pw, ph, ex0, ex1, y, fr, fg, fb, ca, mask, clip_dev);
        m = m + 1;
    }
    proof {
        lemma_patched_same_region(p0, pwi, phi, dx_, dy_, pxf, drawn_fn(c_, tw_, th_, 4, c_, c_, th_ - 2 * c_, 0, 0, false),
            box_fn(tw_, th_), mv, clip_dev);
    }
}

/// Composite a cached shadow with its box's top-left pixel at (`dev_x`,
/// `dev_y`): an exact shadow is blitted as it is, a nine-patch is drawn over
/// the `tw` by `th` box in colour (`cr`, `cg`, `cb`, `ca`); either way
/// scaled by the coverage mask and clipped to `clip_dev`.
pub fn draw_shadow_patch(
    pixels: &mut [u32],
    pw: usize,
    ph: usize,
    patch: &ShadowPatch,
    dev_x: i32,
    dev_y: i32,
    tw: usize,
    th: usize,
    cr: u32,
    cg: u32,
    cb: u32,
    ca: u32,
    mask: Option<&[u8]>,
    clip_dev: Option<(i32, i32, i32, i32)>,
)
    requires
        old(pixels)@.len() >= pw * ph,
        mask matches Some(m) ==> m@.len() >= pw * ph,
        *patch matches ShadowPatch::Exact { pixmap, w, h } ==> pixmap@.len() >= w * h,
        *patch matches ShadowPatch::Nine(p) ==> {
            &&& nine_wf(p)
            &&& 2 * p.c <= tw <= i32::MAX
            &&& 2 * p.c <= th <= i32::MAX
            &&& dev_x + tw <= i32::MAX
            &&& dev_y + th <= i32::MAX
            &&& cr <= 255 && cg <= 255 && cb <= 255 && ca <= 255
        },
    ensures
        match *patch {
            ShadowPatch::Exact { pixmap, w, h } => final(pixels)@ == blitted_masked(
                old(pixels)@,
                pw as int,
                ph as int,
                pixmap@,
                w as int,
                h as int,
                dev_x as int,
                dev_y as int,
                mask_view(mask),
                clip_dev,
            ),
            ShadowPatch::Nine(p) => final(pixels)@ == patched(
                old(pixels)@,
                pw as int,
                ph as int,
                dev_x as int,
                dev_y as int,
                nine_px_fn(p, tw as int, th as int, cr, cg, cb, ca),
                box_fn(tw as int, th as int),
                mask_view(mask),
                clip_dev,
            ),
        },
{
    match patch {
        ShadowPatch::Exact { pixmap, w, h } => {
            blit_pixmap(pixels, pw, ph, pixmap.as_slice(), *w, *h, dev_x, dev_y, mask, clip_dev);
        },
        ShadowPatch::Nine(p) => {
            blit_nine_patch(pixels, pw, ph, p, dev_x, dev_y, tw, th, cr, cg, cb, ca, mask, clip_dev);
        },
    }
}

/// Corner span of a nine-patch for blur reach `pad` and largest corner
/// radius `max_r` (rounded up): the reach outside the element, and inside
/// it the reach, the radius and one pixel.
pub open spec fn corner_span(pad: int, max_r: int) -> int {
    pad + (pad + max_r + 1)
}

/// A `ew` by `eh` element (device pixels) with blur reach `pad` fits a
/// nine-patch when its shadow box is wider and taller than two corner
/// spans.
pub open spec fn nine_fits(ew: int, eh: int, pad: int, max_r: int) -> bool {
    &&& ew + 2 * pad > 2 * corner_span(pad, max_r)
    &&& eh + 2 * pad > 2 * corner_span(pad, max_r)
}

/// The cache key of an element's shadow: without the element size when
/// it fits a nine-patch, with it otherwise.
pub open spec fn key_for(
    ew: u32,
    eh: u32,
    pad: int,
    max_r: int,
    radii: [u32; 4],
    blur: u32,
    color: [u8; 4],
) -> ShadowKey {
    let nine = nine_fits(ew as int, eh as int, pad, max_r);
    ShadowKey { ew: if nine { 0 } else { ew }, eh: if nine { 0 } else { eh }, radii, blur, color }
}

/// The cache key of an element's shadow, and whether it is drawn as a
/// nine-patch.
pub fn shadow_key(
    ew: u32,
    eh: u32,
    pad: usize,
    max_r: usize,
    radii: [u32; 4],
    blur: u32,
    color: [u8; 4],
) -> (r: (ShadowKey, bool))
    requires
        ew + 2 * pad <= usize::MAX,
        eh + 2 * pad <= usize::MAX,
        2 * corner_span(pad as int, max_r as int) <= usize::MAX,
    ensures
        r.1 == nine_fits(ew as int, eh as int, pad as int, max_r as int),
        r.0 == key_for(ew, eh, pad as int, max_r as int, radii, blur, color),
{
    let ct = pad + (pad + max_r + 1);
    let nine_ok = ew as usize + 2 * pad > 2 * ct && eh as usize + 2 * pad > 2 * ct;
    if nine_ok {
        (ShadowKey { ew: 0, eh: 0, radii, blur, color }, true)
    } else {
        (ShadowKey { ew, eh, radii, blur, color }, false)
    }
}

/// The nine-patch entry does not depend on the element size: two elements
/// that both fit a nine-patch, with the same blur reach, radii, blur and
/// colour, share one cache key.
pub proof fn lemma_nine_key_size_independent(
    ew1: u32,
    eh1: u32,
    ew2: u32,
    eh2: u32,
    pad: int,
    max_r: int,
    radii: [u32; 4],
    blur: u32,
    color: [u8; 4],
)
    requires
        nine_fits(ew1 as int, eh1 as int, pad, max_r),
        nine_fits(ew2 as int, eh2 as int, pad, max_r),
    ensures
        key_for(ew1, eh1, pad, max_r, radii, blur, color) == key_for(
            ew2,
            eh2,
            pad,
            max_r,
            radii,
            blur,
            color,
        ),
{
}

/// The nine-patch decision: a shadow is drawn as a nine-patch, keyed
/// without the element size, exactly when its shadow box (the element grown
/// by the blur reach on every side) is both wider and taller than two
/// corners of `2 * pad + max_r + 1` pixels; otherwise it is drawn exactly
/// and keyed by the element's width and height.
pub proof fn lemma_nine_patch_decision(
    ew: u32,
    eh: u32,
    pad: int,
    max_r: int,
    radii: [u32; 4],
    blur: u32,
    color: [u8; 4],
)
    ensures
        nine_fits(ew as int, eh as int, pad, max_r) <==> (ew + 2 * pad > 2 * (2 * pad + max_r + 1)
            && eh + 2 * pad > 2 * (2 * pad + max_r + 1)),
        nine_fits(ew as int, eh as int, pad, max_r) ==> key_for(ew, eh, pad, max_r, radii, blur, color)
            == (ShadowKey { ew: 0, eh: 0, radii, blur, color }),
        !nine_fits(ew as int, eh as int, pad, max_r) ==> key_for(ew, eh, pad, max_r, radii, blur, color)
            == (ShadowKey { ew, eh, radii, blur, color }),
{
}

} // verus!
