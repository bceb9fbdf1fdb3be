//! Glyph atlas of the CPU text path.
//!
//! One alpha texture holds monochrome glyph masks, packed shelf by shelf:
//! glyphs are placed left to right along the current row, a glyph that no
//! longer fits starts a new row below the tallest glyph of the current one,
//! and a glyph that no longer fits below restarts the atlas from empty.
//! Rendering reads coverage from the atlas and composites it onto the frame
//! buffer with the text colour.

use vstd::prelude::*;
use std::collections::HashMap;
use crate::pixel::{blend_over, blend_word, pack};
use crate::grid::{lemma_cell, lemma_cell_bound, lemma_index_cell};

verus! {

broadcast use vstd::std_specs::hash::group_hash_axioms;

/// Identifies one rasterised glyph: font, glyph and size.
#[derive(Clone, Copy, Debug, PartialEq, Eq, Structural, Hash)]
pub struct AtlasKey {
    pub font_id: u64,
    pub glyph_id: u16,
    pub font_size_bits: u32,
}

/// The integer under which a key is stored: the three fields side by side.
pub open spec fn key_code(k: AtlasKey) -> u128 {
    (k.font_id as int * 0x1_0000_0000_0000 + k.glyph_id as int * 0x1_0000_0000
        + k.font_size_bits as int) as u128
}

/// Distinct keys are stored under distinct codes.
pub proof fn lemma_key_code_injective(a: AtlasKey, b: AtlasKey)
    requires
        key_code(a) == key_code(b),
    ensures
        a == b,
{
    let ca = a.font_id as int * 0x1_0000_0000_0000 + a.glyph_id as int * 0x1_0000_0000
        + a.font_size_bits as int;
    let cb = b.font_id as int * 0x1_0000_0000_0000 + b.glyph_id as int * 0x1_0000_0000
        + b.font_size_bits as int;
    assert(ca < 0x1_0000_0000_0000_0000_0000_0000_0000);
    assert(cb < 0x1_0000_0000_0000_0000_0000_0000_0000);
    assert(ca == cb);
    if a.font_id != b.font_id {
        assert(false);
    }
    if a.glyph_id != b.glyph_id {
        assert(false);
    }
}

impl AtlasKey {
    fn code(&self) -> (c: u128)
        ensures
            c == key_code(*self),
    {
        (self.font_id as u128) * 0x1_0000_0000_0000u128 + (self.glyph_id as u128) * 0x1_0000_0000u128
            + (self.font_size_bits as u128)
    }
}

/// Where a glyph sits in the atlas, with its bearings at the rasterised
/// size.
#[derive(Clone, Copy, Debug, PartialEq, Eq, Structural)]
pub struct AtlasEntry {
    pub x: u32,
    pub y: u32,
    pub width: u32,
    pub height: u32,
    /// Glyph left bearing (pixels, at the rasterised size).
    pub left: i32,
    /// Glyph top bearing (pixels).
    pub top: i32,
}

/// Two placements share no texel.
pub open spec fn disjoint(a: AtlasEntry, b: AtlasEntry) -> bool {
    ||| a.x + a.width <= b.x
    ||| b.x + b.width <= a.x
    ||| a.y + a.height <= b.y
    ||| b.y + b.height <= a.y
}

/// The abstract state of an atlas.
pub struct AtlasView {
    /// Coverage texels, row-major, `width` per row.
    pub alpha: Seq<u8>,
    pub width: u32,
    pub height: u32,
    pub cursor_x: u32,
    pub cursor_y: u32,
    pub row_height: u32,
    /// Placement of every live glyph, by key code.
    pub entries: Map<u128, AtlasEntry>,
    /// Mask of every live glyph (`width * height` texels, row-major).
    pub glyphs: Map<u128, Seq<u8>>,
}

impl AtlasView {
    /// The texel at column `x`, row `y`.
    pub open spec fn texel(self, x: int, y: int) -> u8 {
        self.alpha[y * self.width + x]
    }

    /// A non-empty placement inside the texture.
    pub open spec fn inside(self, e: AtlasEntry) -> bool {
        &&& 0 < e.width
        &&& 0 < e.height
        &&& e.x + e.width <= self.width
        &&& e.y + e.height <= self.height
    }

    /// A placement in a finished row (above the cursor), or in the current
    /// row left of the cursor and no taller than the row.
    pub open spec fn on_shelf(self, e: AtlasEntry) -> bool {
        ||| e.y + e.height <= self.cursor_y
        ||| (e.y == self.cursor_y && e.x + e.width <= self.cursor_x && e.height <= self.row_height)
    }

    /// Texel (`c`, `r`) of the glyph stored under `k` is its mask's texel.
    pub open spec fn holds_texel(self, k: u128, r: int, c: int) -> bool {
        self.texel(self.entries[k].x + c, self.entries[k].y + r) == self.glyphs[k][r
            * self.entries[k].width + c]
    }

    /// The glyph stored under `k` is in place and its texels are its mask.
    pub open spec fn holds_glyph(self, k: u128) -> bool {
        &&& self.inside(self.entries[k])
        &&& self.on_shelf(self.entries[k])
        &&& self.glyphs[k].len() == self.entries[k].width * self.entries[k].height
        &&& forall|r: int, c: int|
            0 <= r < self.entries[k].height && 0 <= c < self.entries[k].width
                ==> #[trigger] self.holds_texel(k, r, c)
    }

    /// The atlas invariant: the cursor stays inside the texture, every live
    /// glyph lies inside it, left of or above the cursor, holds its own
    /// mask, and no two live glyphs overlap.
    pub open spec fn wf(self) -> bool {
        &&& self.width * self.height <= u32::MAX
        &&& self.alpha.len() == self.width * self.height
        &&& self.cursor_x <= self.width
        &&& self.cursor_y + self.row_height <= self.height
        &&& self.entries.dom() == self.glyphs.dom()
        &&& forall|k: u128| #[trigger] self.entries.contains_key(k) ==> self.holds_glyph(k)
        &&& forall|k1: u128, k2: u128|
            #[trigger] self.entries.contains_key(k1) && #[trigger] self.entries.contains_key(k2)
                && k1 != k2 ==> disjoint(self.entries[k1], self.entries[k2])
    }
}

/// Cursor after the row break that a `w`-wide glyph may force:
/// `(x, y, row height)`.
pub open spec fn row_start(v: AtlasView, w: u32) -> (u32, u32, u32) {
    if v.cursor_x + w > v.width {
        (0u32, (v.cursor_y + v.row_height) as u32, 0u32)
    } else {
        (v.cursor_x, v.cursor_y, v.row_height)
    }
}

/// A `w` by `h` glyph no longer fits below the last row: the atlas restarts.
pub open spec fn needs_reset(v: AtlasView, w: u32, h: u32) -> bool {
    row_start(v, w).1 + h > v.height
}

/// Where a `w` by `h` glyph is placed.
pub open spec fn slot(v: AtlasView, w: u32, h: u32) -> (u32, u32) {
    if needs_reset(v, w, h) {
        (0u32, 0u32)
    } else {
        (row_start(v, w).0, row_start(v, w).1)
    }
}

/// The atlas after room for a `w` by `h` glyph has been taken (the glyph
/// itself not yet stored).
pub open spec fn after_alloc(v: AtlasView, w: u32, h: u32) -> AtlasView {
    let rh: u32 = if needs_reset(v, w, h) {
        0u32
    } else {
        row_start(v, w).2
    };
    AtlasView {
        alpha: v.alpha,
        width: v.width,
        height: v.height,
        cursor_x: (slot(v, w, h).0 + w) as u32,
        cursor_y: slot(v, w, h).1,
        row_height: if rh >= h {
            rh
        } else {
            h
        },
        entries: if needs_reset(v, w, h) {
            Map::empty()
        } else {
            v.entries
        },
        glyphs: if needs_reset(v, w, h) {
            Map::empty()
        } else {
            v.glyphs
        },
    }
}

/// Flat texel index `i` of a `w`-wide texture lies in the rectangle of `e`.
pub open spec fn in_rect(w: int, e: AtlasEntry, i: int) -> bool {
    &&& e.x <= i % w < e.x + e.width
    &&& e.y <= i / w < e.y + e.height
}

/// Position of flat texel index `i` inside the rectangle of `e`, counted
/// row-major over the rectangle.
pub open spec fn rect_index(w: int, e: AtlasEntry, i: int) -> int {
    (i / w - e.y) * e.width + (i % w - e.x)
}

/// The texture with the rectangle of `e` overwritten by mask `g`.
pub open spec fn painted(v: AtlasView, e: AtlasEntry, g: Seq<u8>) -> Seq<u8> {
    Seq::new(
        v.alpha.len(),
        |i: int|
            if in_rect(v.width as int, e, i) {
                g[rect_index(v.width as int, e, i)]
            } else {
                v.alpha[i]
            },
    )
}

/// A rasterised glyph: mask (one coverage byte per texel, row-major),
/// width, height, left and top bearing; `None` when there is nothing to
/// draw.
pub type Raster = Option<(Vec<u8>, u32, u32, i32, i32)>;

/// The mask of a raster is long enough for what the atlas copies out of it
/// (nothing is copied from an empty or oversized glyph).
pub open spec fn raster_fits(v: AtlasView, g: Raster) -> bool {
    match g {
        Some((data, w, h, _, _)) => w == 0 || h == 0 || w > v.width || h > v.height || data@.len()
            >= w * h,
        None => true,
    }
}

/// The atlas, and the entry handed back, once raster `g` of a glyph that
/// the atlas did not hold has been stored under key code `kc`: nothing
/// changes for a missing, empty or oversized glyph; otherwise room is taken
/// and the mask copied in.
pub open spec fn inserted(v: AtlasView, kc: u128, g: Raster) -> (AtlasView, Option<AtlasEntry>) {
    match g {
        None => (v, None),
        Some((data, w, h, left, top)) => {
            if w == 0 || h == 0 || w > v.width || h > v.height {
                (v, None)
            } else {
                let a = after_alloc(v, w, h);
                let e = AtlasEntry {
                    x: slot(v, w, h).0,
                    y: slot(v, w, h).1,
                    width: w,
                    height: h,
                    left,
                    top,
                };
                let m = data@.take(w * h);
                (
                    AtlasView {
                        alpha: painted(a, e, m),
                        entries: a.entries.insert(kc, e),
                        glyphs: a.glyphs.insert(kc, m),
                        ..a
                    },
                    Some(e),
                )
            }
        },
    }
}

/// A glyph stored under `kc` is then held there: the next lookup of `kc`
/// hits and hands back the same entry (and, by `get_or_insert`, changes
/// nothing).
pub proof fn lemma_insert_then_hit(v: AtlasView, kc: u128, g: Raster)
    ensures
        inserted(v, kc, g).1 matches Some(e) ==> inserted(v, kc, g).0.entries.contains_key(kc)
            && inserted(v, kc, g).0.entries[kc] == e,
        inserted(v, kc, g).1 is None ==> inserted(v, kc, g).0 == v,
{
}

/// Storing another glyph keeps a held glyph's entry and mask, unless the
/// new glyph no longer fits and the atlas restarts empty.
pub proof fn lemma_other_insert_keeps(v: AtlasView, kc: u128, kc2: u128, g: Raster)
    requires
        v.entries.contains_key(kc),
        v.glyphs.contains_key(kc),
        kc2 != kc,
        g matches Some((data, w, h, left, top)) ==> !needs_reset(v, w, h),
    ensures
        inserted(v, kc2, g).0.entries.contains_key(kc),
        inserted(v, kc2, g).0.entries[kc] == v.entries[kc],
        inserted(v, kc2, g).0.glyphs[kc] == v.glyphs[kc],
{
}

/// Coverage of a glyph texel `t` drawn in colour alpha `ca`.
pub open spec fn glyph_alpha(t: u8, ca: u8) -> u32 {
    (t as int * ca as int / 255) as u32
}

/// Frame-buffer pixel `d` after glyph texel `t` has been drawn over it in
/// colour `color` (`[r, g, b, a]`, each 0-255): the colour, premultiplied
/// by the coverage, composited source-over.
pub open spec fn glyph_over(d: u32, t: u8, color: Seq<u8>) -> u32 {
    let a = glyph_alpha(t, color[3]);
    blend_over(
        d,
        pack(
            (color[0] as int * a / 255) as u32,
            (color[1] as int * a / 255) as u32,
            (color[2] as int * a / 255) as u32,
            a,
        ),
        a,
    )
}

/// Destination pixel (`px`, `py`) lies under a glyph placed at `e` and
/// drawn with its top-left texel at (`dx`, `dy`), and inside the clip
/// rectangle `(x0, y0, x1, y1)` (right and bottom edges excluded), if any.
pub open spec fn blit_hits(
    e: AtlasEntry,
    dx: i32,
    dy: i32,
    clip: Option<(i32, i32, i32, i32)>,
    px: int,
    py: int,
) -> bool {
    &&& 0 <= px - dx < e.width
    &&& 0 <= py - dy < e.height
    &&& match clip {
        Some((x0, y0, x1, y1)) => x0 <= px < x1 && y0 <= py < y1,
        None => true,
    }
}

/// The frame buffer (`w` pixels per row, `h` rows) after a glyph blit:
/// every pixel under the glyph and inside the clip has the glyph texel
/// drawn over it; every other pixel, and anything past `w * h`, is kept.
pub open spec fn blitted(
    v: AtlasView,
    e: AtlasEntry,
    dx: i32,
    dy: i32,
    dst: Seq<u32>,
    w: u32,
    h: u32,
    color: Seq<u8>,
    clip: Option<(i32, i32, i32, i32)>,
) -> Seq<u32> {
    Seq::new(
        dst.len(),
        |i: int|
            if i < w * h && blit_hits(e, dx, dy, clip, i % (w as int), i / (w as int)) {
                glyph_over(
                    dst[i],
                    v.texel(e.x + i % (w as int) - dx, e.y + i / (w as int) - dy),
                    color,
                )
            } else {
                dst[i]
            },
    )
}

/// What was stored is what is read back: in a well-formed atlas every
/// texel of a live glyph's placement is the texel of its mask.
pub proof fn lemma_glyph_readback(v: AtlasView, k: u128, r: int, c: int)
    requires
        v.wf(),
        v.entries.contains_key(k),
        0 <= r < v.entries[k].height,
        0 <= c < v.entries[k].width,
    ensures
        v.texel(v.entries[k].x + c, v.entries[k].y + r) == v.glyphs[k][r * v.entries[k].width
            + c],
{
    assert(v.holds_glyph(k));
    assert(v.holds_texel(k, r, c));
}

/// Live glyphs never overlap and never leave the texture.
pub proof fn lemma_placements_disjoint(v: AtlasView, k1: u128, k2: u128)
    requires
        v.wf(),
        v.entries.contains_key(k1),
        v.entries.contains_key(k2),
        k1 != k2,
    ensures
        disjoint(v.entries[k1], v.entries[k2]),
        v.inside(v.entries[k1]),
{
    assert(v.holds_glyph(k1));
}

/// Blitting a live glyph draws its own mask: every destination pixel it
/// hits gets the mask texel under it composited over it.
pub proof fn lemma_blit_draws_mask(
    v: AtlasView,
    k: u128,
    dx: i32,
    dy: i32,
    dst: Seq<u32>,
    w: u32,
    h: u32,
    color: Seq<u8>,
    clip: Option<(i32, i32, i32, i32)>,
    i: int,
)
    requires
        v.wf(),
        v.entries.contains_key(k),
        0 <= i < dst.len(),
        i < w * h,
        blit_hits(v.entries[k], dx, dy, clip, i % (w as int), i / (w as int)),
    ensures
        blitted(v, v.entries[k], dx, dy, dst, w, h, color, clip)[i] == glyph_over(
            dst[i],
            v.glyphs[k][(i / (w as int) - dy) * v.entries[k].width + (i % (w as int) - dx)],
            color,
        ),
{
    lemma_glyph_readback(v, k, i / (w as int) - dy, i % (w as int) - dx);
}

/// A fixed-size alpha texture holding packed glyph masks.
pub struct GlyphAtlas {
    alpha: Vec<u8>,
    width: u32,
    height: u32,
    cursor_x: u32,
    cursor_y: u32,
    row_height: u32,
    entries: HashMap<u128, AtlasEntry>,
    glyphs: Ghost<Map<u128, Seq<u8>>>,
}

impl View for GlyphAtlas {
    type V = AtlasView;

    closed spec fn view(&self) -> AtlasView {
        AtlasView {
            alpha: self.alpha@,
            width: self.width,
            height: self.height,
            cursor_x: self.cursor_x,
            cursor_y: self.cursor_y,
            row_height: self.row_height,
            entries: self.entries@,
            glyphs: self.glyphs@,
        }
    }
}

impl GlyphAtlas {
    /// Create an empty atlas with the given dimensions.
    pub fn new(width: u32, height: u32) -> (a: GlyphAtlas)
        requires
            width * height <= u32::MAX,
        ensures
            a@.wf(),
            a@.width == width,
            a@.height == height,
            a@.alpha.len() == width * height,
            a@.entries == Map::<u128, AtlasEntry>::empty(),
            a@.cursor_x == 0 && a@.cursor_y == 0 && a@.row_height == 0,
    {
        let n: usize = (width as usize) * (height as usize);
        GlyphAtlas {
            alpha: vec![0u8; n],
            width,
            height,
            cursor_x: 0,
            cursor_y: 0,
            row_height: 0,
            entries: HashMap::new(),
            glyphs: Ghost(Map::empty()),
        }
    }

    /// Width of the texture in texels.
    pub fn width(&self) -> (w: u32)
        ensures
            w == self@.width,
    {
        self.width
    }

    /// Height of the texture in texels.
    pub fn height(&self) -> (h: u32)
        ensures
            h == self@.height,
    {
        self.height
    }

    /// Clear all atlas entries and reset the allocation cursor. The texels
    /// are left as they are: they are overwritten when glyphs are stored
    /// again.
    pub fn clear(&mut self)
        requires
            old(self)@.wf(),
        ensures
            final(self)@ == (AtlasView {
                entries: Map::empty(),
                glyphs: Map::empty(),
                cursor_x: 0,
                cursor_y: 0,
                row_height: 0,
                ..old(self)@
            }),
            final(self)@.wf(),
    {
        self.entries.clear();
        self.glyphs = Ghost(Map::empty());
        self.cursor_x = 0;
        self.cursor_y = 0;
        self.row_height = 0;
    }

    /// Take room for a `w` by `h` glyph. `None` (and nothing changes) when
    /// the glyph is larger than the texture; when it no longer fits below
    /// the last row the atlas is cleared first.
    fn allocate(&mut self, w: u32, h: u32, left: i32, top: i32) -> (r: Option<AtlasEntry>)
        requires
            old(self)@.wf(),
            0 < w,
            0 < h,
        ensures
            (w > old(self)@.width || h > old(self)@.height) ==> r is None && final(self)@ == old(
                self,
            )@,
            !(w > old(self)@.width || h > old(self)@.height) ==> {
                &&& r == Some(
                    AtlasEntry {
                        x: slot(old(self)@, w, h).0,
                        y: slot(old(self)@, w, h).1,
                        width: w,
                        height: h,
                        left,
                        top,
                    },
                )
                &&& final(self)@ == after_alloc(old(self)@, w, h)
                &&& final(self)@.wf()
                &&& final(self)@.inside(r->0)
                &&& final(self)@.on_shelf(r->0)
                &&& forall|k: u128| #[trigger]
                    final(self)@.entries.contains_key(k) ==> disjoint(
                        final(self)@.entries[k],
                        r->0,
                    )
            },
    {
        if w > self.width || h > self.height {
            return None;
        }
        let ghost v0 = self@;
        if self.cursor_x as u64 + w as u64 > self.width as u64 {
            self.cursor_x = 0;
            self.cursor_y = self.cursor_y + self.row_height;
            self.row_height = 0;
        }
        let ghost v1 = self@;
        proof {
            assert(v1.cursor_x == row_start(v0, w).0);
            assert(v1.cursor_y == row_start(v0, w).1);
            assert(v1.row_height == row_start(v0, w).2);
            assert forall|k: u128| #[trigger] v1.entries.contains_key(k) implies v1.holds_glyph(k)
                by {
                assert(v0.holds_glyph(k));
                assert forall|r: int, c: int|
                    0 <= r < v1.entries[k].height && 0 <= c < v1.entries[k].width
                        implies #[trigger] v1.holds_texel(k, r, c) by {
                    assert(v0.holds_texel(k, r, c));
                }
            }
            assert(v1.wf());
        }
        if self.cursor_y as u64 + h as u64 > self.height as u64 {
            self.clear();
        }
        let entry = AtlasEntry { x: self.cursor_x, y: self.cursor_y, width: w, height: h, left, top };
        let ghost v2 = self@;
        self.cursor_x = self.cursor_x + w;
        if h > self.row_height {
            self.row_height = h;
        }
        proof {
            let v3 = self@;
            assert(v3 == after_alloc(v0, w, h));
            assert forall|k: u128| #[trigger] v3.entries.contains_key(k) implies v3.holds_glyph(
                k,
            ) && disjoint(v3.entries[k], entry) by {
                assert(v0.holds_glyph(k));
                assert(v2.on_shelf(v2.entries[k]));
                assert forall|r: int, c: int|
                    0 <= r < v3.entries[k].height && 0 <= c < v3.entries[k].width
                        implies #[trigger] v3.holds_texel(k, r, c) by {
                    assert(v0.holds_texel(k, r, c));
                }
            }
        }
        Some(entry)
    }

    /// Return the atlas entry for a glyph, rasterising and storing it if
    /// the atlas does not hold it yet. `rasterize` is called only then.
    pub fn get_or_insert<F>(&mut self, key: AtlasKey, rasterize: F) -> (r: Option<AtlasEntry>) where
        F: FnOnce() -> Raster,

        requires
            old(self)@.wf(),
            !old(self)@.entries.contains_key(key_code(key)) ==> call_requires(rasterize, ()),
            !old(self)@.entries.contains_key(key_code(key)) ==> forall|g: Raster|
                #[trigger] call_ensures(rasterize, (), g) ==> raster_fits(old(self)@, g),
        ensures
            final(self)@.wf(),
            old(self)@.entries.contains_key(key_code(key)) ==> r == Some(
                old(self)@.entries[key_code(key)],
            ) && final(self)@ == old(self)@,
            !old(self)@.entries.contains_key(key_code(key)) ==> exists|g: Raster|
                #[trigger] call_ensures(rasterize, (), g) && (final(self)@, r) == inserted(
                    old(self)@,
                    key_code(key),
                    g,
                ),
    {
        let kc = key.code();
        match self.entries.get(&kc) {
            Some(e) => {
                return Some(*e);
            },
            None => {},
        }
        let raster = rasterize();
        let ghost g = raster;
        let ghost v0 = self@;
        match raster {
            None => None,
            Some((data, w, h, left, top)) => {
                if w == 0 || h == 0 {
                    return None;
                }
                match self.allocate(w, h, left, top) {
                    None => None,
                    Some(entry) => {
                        self.store(kc, entry, &data);
                        proof {
                            assert((self@, Some(entry)) == inserted(v0, kc, g));
                        }
                        Some(entry)
                    },
                }
            },
        }
    }

    /// Composite a glyph from the atlas onto a frame buffer.
    ///
    /// `dst` holds canonical pixels (premultiplied RGBA read as a
    /// little-endian `u32`, `A << 24 | B << 16 | G << 8 | R`), row-major,
    /// `dst_w` by `dst_h`. The glyph's top-left texel lands on (`dx`, `dy`).
    /// `color_rgba` is `[r, g, b, a]`, each 0-255. `clip`, if given, is a
    /// device-pixel rectangle `(x0, y0, x1, y1)` outside which nothing is
    /// written.
    pub fn blit_to(
        &self,
        entry: &AtlasEntry,
        dx: i32,
        dy: i32,
        dst: &mut [u32],
        dst_w: u32,
        dst_h: u32,
        color_rgba: [u8; 4],
        clip: Option<(i32, i32, i32, i32)>,
    )
        requires
            self@.wf(),
            entry.x + entry.width <= self@.width,
            entry.y + entry.height <= self@.height,
            old(dst)@.len() >= dst_w * dst_h,
        ensures
            final(dst)@ == blitted(
                self@,
                *entry,
                dx,
                dy,
                old(dst)@,
                dst_w,
                dst_h,
                color_rgba@,
                clip,
            ),
    {
        let ghost d0 = dst@;
        let ghost ww = dst_w as int;
        let ghost target = blitted(self@, *entry, dx, dy, d0, dst_w, dst_h, color_rgba@, clip);
        let dst_w_i = dst_w as i64;
        let dst_h_i = dst_h as i64;
        let dxi = dx as i64;
        let dyi = dy as i64;
        if dxi >= dst_w_i || dyi >= dst_h_i {
            proof {
                assert forall|i: int| 0 <= i < d0.len() implies #[trigger] target[i] == d0[i] by {
                    if i < dst_w * dst_h {
                        lemma_index_cell(ww, dst_h as int, i);
                    }
                }
                assert(dst@ =~= target);
            }
            return ;
        }
        let aw = entry.width as i64;
        let ah = entry.height as i64;
        let mut x1: i64 = if dxi < 0 {
            -dxi
        } else {
            0
        };
        let mut y1: i64 = if dyi < 0 {
            -dyi
        } else {
            0
        };
        let mut x2: i64 = if aw < dst_w_i - dxi {
            aw
        } else {
            dst_w_i - dxi
        };
        let mut y2: i64 = if ah < dst_h_i - dyi {
            ah
        } else {
            dst_h_i - dyi
        };
        match clip {
            Some((cx0, cy0, cx1, cy1)) => {
                if x1 < cx0 as i64 - dxi {
                    x1 = cx0 as i64 - dxi;
                }
                if y1 < cy0 as i64 - dyi {
                    y1 = cy0 as i64 - dyi;
                }
                if x2 > cx1 as i64 - dxi {
                    x2 = cx1 as i64 - dxi;
                }
                if y2 > cy1 as i64 - dyi {
                    y2 = cy1 as i64 - dyi;
                }
            },
            None => {},
        }
        proof {
            // The window [x1, x2) x [y1, y2) is exactly where the blit hits.
            assert forall|i: int| 0 <= i < dst_w * dst_h implies (#[trigger] blit_hits(
                *entry,
                dx,
                dy,
                clip,
                i % ww,
                i / ww,
            ) <==> (x1 <= i % ww - dx < x2 && y1 <= i / ww - dy < y2)) by {
                lemma_index_cell(ww, dst_h as int, i);
            }
        }
        if x2 <= x1 || y2 <= y1 {
            proof {
                assert forall|i: int| 0 <= i < d0.len() implies #[trigger] target[i] == d0[i] by {
                    if i < dst_w * dst_h {
                        lemma_index_cell(ww, dst_h as int, i);
                    }
                }
                assert(dst@ =~= target);
            }
            return ;
        }
        let stride = self.width as usize;
        let ca = color_rgba[3] as u32;
        let mut row: i64 = y1;
        while row < y2
            invariant
                self@.wf(),
                entry.x + entry.width <= self@.width,
                entry.y + entry.height <= self@.height,
                stride == self@.width,
                ca == color_rgba@[3],
                ww == dst_w,
                dst_w_i == dst_w,
                dst_h_i == dst_h,
                dxi == dx,
                dyi == dy,
                0 <= x1 < x2 <= entry.width,
                0 <= y1 < y2 <= entry.height,
                0 <= x1 + dx,
                x2 + dx <= dst_w,
                0 <= y1 + dy,
                y2 + dy <= dst_h,
                y1 <= row <= y2,
                d0.len() >= dst_w * dst_h,
                target == blitted(self@, *entry, dx, dy, d0, dst_w, dst_h, color_rgba@, clip),
                forall|i: int|
                    0 <= i < dst_w * dst_h ==> (#[trigger] blit_hits(*entry, dx, dy, clip, i % ww, i / ww) <==> (
                    x1 <= i % ww - dx < x2 && y1 <= i / ww - dy < y2)),
                dst@.len() == d0.len(),
                forall|i: int|
                    0 <= i < d0.len() ==> #[trigger] dst@[i] == if i < dst_w * dst_h && x1 <= i % ww
                        - dx < x2 && y1 <= i / ww - dy < row {
                        target[i]
                    } else {
                        d0[i]
                    },
            decreases y2 - row,
        {
            let mut col: i64 = x1;
            while col < x2
                invariant
                    self@.wf(),
                    entry.x + entry.width <= self@.width,
                    entry.y + entry.height <= self@.height,
                    stride == self@.width,
                    ca == color_rgba@[3],
                    ww == dst_w,
                    dxi == dx,
                    dyi == dy,
                    0 <= x1 < x2 <= entry.width,
                    0 <= y1 < y2 <= entry.height,
                    0 <= x1 + dx,
                    x2 + dx <= dst_w,
                    0 <= y1 + dy,
                    y2 + dy <= dst_h,
                    y1 <= row < y2,
                    x1 <= col <= x2,
                    d0.len() >= dst_w * dst_h,
                    target == blitted(self@, *entry, dx, dy, d0, dst_w, dst_h, color_rgba@, clip),
                    forall|i: int|
                        0 <= i < dst_w * dst_h ==> (#[trigger] blit_hits(*entry, dx, dy, clip, i % ww, i / ww)
                            <==> (x1 <= i % ww - dx < x2 && y1 <= i / ww - dy < y2)),
                    dst@.len() == d0.len(),
                    forall|i: int|
                        0 <= i < d0.len() ==> #[trigger] dst@[i] == if i < dst_w * dst_h && x1 <= i
                            % ww - dx < x2 && y1 <= i / ww - dy && (i / ww - dy < row || (i / ww
                            - dy == row && i % ww - dx < col)) {
                            target[i]
                        } else {
                            d0[i]
                        },
                decreases x2 - col,
            {
                let ghost px = col + dx;
                let ghost py = row + dy;
                proof {
                    lemma_cell_bound(
                        self@.width as int,
                        self@.height as int,
                        entry.x + col,
                        entry.y + row,
                    );
                    lemma_cell_bound(ww, dst_h as int, px, py);
                    lemma_cell(ww, px, py);
                    assert(py * ww + px < dst@.len());
                    assert(dst@.len() == dst.len());
                }
                let t = self.alpha[(entry.y as usize + row as usize) * stride + (entry.x as usize
                    + col as usize)];
                let di = ((dyi + row) as usize) * (dst_w as usize) + ((dxi + col) as usize);
                proof {
                    assert(t == self@.texel(entry.x + col, entry.y + row));
                    assert(di == py * ww + px);
                    assert(blit_hits(*entry, dx, dy, clip, px, py));
                }
                let ghost before = dst@;
                proof {
                    assert((t as u32) * ca <= 255 * 255) by (nonlinear_arith)
                        requires
                            t <= 255,
                            ca <= 255,
                    ;
                }
                let a = (t as u32) * ca / 255;
                if a != 0 {
                    proof {
                        assert(a <= 255);
                        assert(color_rgba@[0] as u32 * a <= 255 * 255) by (nonlinear_arith)
                            requires
                                color_rgba@[0] <= 255,
                                a <= 255,
                        ;
                        assert(color_rgba@[1] as u32 * a <= 255 * 255) by (nonlinear_arith)
                            requires
                                color_rgba@[1] <= 255,
                                a <= 255,
                        ;
                        assert(color_rgba@[2] as u32 * a <= 255 * 255) by (nonlinear_arith)
                            requires
                                color_rgba@[2] <= 255,
                                a <= 255,
                        ;
                    }
                    let sr = color_rgba[0] as u32 * a / 255;
                    let sg = color_rgba[1] as u32 * a / 255;
                    let sb = color_rgba[2] as u32 * a / 255;
                    let src = (a << 24) | (sb << 16) | (sg << 8) | sr;
                    let d = dst[di];
                    let out = if a >= 255 {
                        src
                    } else {
                        blend_word(d, src, a)
                    };
                    dst[di] = out;
                    proof {
                        assert(src == pack(sr, sg, sb, a));
                        assert(out == glyph_over(d, t, color_rgba@));
                    }
                }
                proof {
                    assert(target[di as int] == glyph_over(d0[di as int], t, color_rgba@));
                    assert forall|i: int| 0 <= i < d0.len() implies #[trigger] dst@[i] == if i < dst_w
                        * dst_h && x1 <= i % ww - dx < x2 && y1 <= i / ww - dy && (i / ww - dy < row
                        || (i / ww - dy == row && i % ww - dx < col + 1)) {
                        target[i]
                    } else {
                        d0[i]
                    } by {
                        if i != di {
                            assert(dst@[i] == before[i]);
                            if i < dst_w * dst_h && i / ww - dy == row && i % ww - dx == col {
                                lemma_index_cell(ww, dst_h as int, i);
                                assert(false);
                            }
                        }
                    }
                }
                col = col + 1;
            }
            proof {
                assert forall|i: int| 0 <= i < d0.len() implies #[trigger] dst@[i] == if i < dst_w
                    * dst_h && x1 <= i % ww - dx < x2 && y1 <= i / ww - dy < row + 1 {
                    target[i]
                } else {
                    d0[i]
                } by {}
            }
            row = row + 1;
        }
        proof {
            assert forall|i: int| 0 <= i < d0.len() implies #[trigger] dst@[i] == target[i] by {
                if i < dst_w * dst_h {
                    lemma_index_cell(ww, dst_h as int, i);
                }
            }
            assert(dst@ =~= target);
        }
    }

    /// Copy mask `data` (row-major, `e.width` texels per row) into the
    /// rectangle of `e` and record the glyph under key code `kc`.
    fn store(&mut self, kc: u128, e: AtlasEntry, data: &Vec<u8>)
        requires
            old(self)@.wf(),
            old(self)@.inside(e),
            old(self)@.on_shelf(e),
            !old(self)@.entries.contains_key(kc),
            forall|k: u128| #[trigger]
                old(self)@.entries.contains_key(k) ==> disjoint(old(self)@.entries[k], e),
            data@.len() >= e.width * e.height,
        ensures
            final(self)@ == (AtlasView {
                alpha: painted(old(self)@, e, data@.take(e.width * e.height)),
                entries: old(self)@.entries.insert(kc, e),
                glyphs: old(self)@.glyphs.insert(kc, data@.take(e.width * e.height)),
                ..old(self)@
            }),
            final(self)@.wf(),
    {
        let ghost v0 = self@;
        let ghost ww = self.width as int;
        let ghost a0 = self.alpha@;
        proof {
            lemma_cell_bound(e.width as int, e.height as int, 0, 0);
            assert(e.width * e.height <= self.width * self.height) by (nonlinear_arith)
                requires
                    e.width <= self.width,
                    e.height <= self.height,
            ;
        }
        let w = e.width as usize;
        let n: usize = w * (e.height as usize);
        let stride = self.width as usize;
        let mut k: usize = 0;
        while k < n
            invariant
                self.width == v0.width,
                self.height == v0.height,
                self.cursor_x == v0.cursor_x,
                self.cursor_y == v0.cursor_y,
                self.row_height == v0.row_height,
                self.entries@ == v0.entries,
                self.glyphs@ == v0.glyphs,
                v0.wf(),
                v0.inside(e),
                ww == v0.width,
                a0 == v0.alpha,
                stride == v0.width,
                w == e.width,
                n == e.width * e.height,
                data@.len() >= n,
                k <= n,
                self.alpha@.len() == a0.len(),
                forall|i: int|
                    0 <= i < a0.len() ==> #[trigger] self.alpha@[i] == if in_rect(ww, e, i)
                        && rect_index(ww, e, i) < k {
                        data@[rect_index(ww, e, i)]
                    } else {
                        a0[i]
                    },
            decreases n - k,
        {
            let r = k / w;
            let c = k % w;
            proof {
                vstd::arithmetic::div_mod::lemma_fundamental_div_mod(k as int, w as int);
                vstd::arithmetic::div_mod::lemma_multiply_divide_lt(
                    k as int,
                    w as int,
                    e.height as int,
                );
                assert(w as int * (k as int / w as int) == (k as int / w as int) * w as int)
                    by (nonlinear_arith);
                lemma_cell_bound(ww, v0.height as int, e.x + c, e.y + r);
                lemma_cell(ww, e.x + c, e.y + r);
            }
            let idx = (e.y as usize + r) * stride + (e.x as usize + c);
            let ghost before = self.alpha@;
            self.alpha.set(idx, data[k]);
            proof {
                assert(rect_index(ww, e, idx as int) == k);
                assert forall|i: int| 0 <= i < a0.len() implies #[trigger] self.alpha@[i] == if in_rect(
                    ww,
                    e,
                    i,
                ) && rect_index(ww, e, i) < k + 1 {
                    data@[rect_index(ww, e, i)]
                } else {
                    a0[i]
                } by {
                    if i != idx {
                        assert(self.alpha@[i] == before[i]);
                        if in_rect(ww, e, i) && rect_index(ww, e, i) == k {
                            vstd::arithmetic::div_mod::lemma_fundamental_div_mod_converse(
                                k as int,
                                w as int,
                                i / ww - e.y,
                                i % ww - e.x,
                            );
                            vstd::arithmetic::div_mod::lemma_fundamental_div_mod(i, ww);
                            assert(i == (i / ww) * ww + i % ww) by (nonlinear_arith)
                                requires
                                    i == ww * (i / ww) + i % ww,
                            ;
                            assert(false);
                        }
                    }
                }
            }
            k = k + 1;
        }
        let ghost g = data@.take(n as int);
        proof {
            assert forall|i: int| 0 <= i < a0.len() && in_rect(ww, e, i) implies rect_index(
                ww,
                e,
                i,
            ) < n by {
                lemma_cell_bound(e.width as int, e.height as int, i % ww - e.x, i / ww - e.y);
            }
            assert(self.alpha@ =~= painted(v0, e, g));
        }
        self.entries.insert(kc, e);
        self.glyphs = Ghost(self.glyphs@.insert(kc, g));
        proof {
            let v1 = self@;
            assert forall|k2: u128| #[trigger] v1.entries.contains_key(k2) implies v1.holds_glyph(
                k2,
            ) by {
                let e2 = v1.entries[k2];
                assert forall|r: int, c: int|
                    0 <= r < e2.height && 0 <= c < e2.width implies #[trigger] v1.holds_texel(
                    k2,
                    r,
                    c,
                ) by {
                    lemma_cell(ww, e2.x + c, e2.y + r);
                    lemma_cell_bound(ww, v0.height as int, e2.x + c, e2.y + r);
                    if k2 == kc {
                        lemma_cell_bound(e.width as int, e.height as int, c, r);
                    } else {
                        assert(v0.holds_glyph(k2));
                        assert(v0.holds_texel(k2, r, c));
                        assert(!in_rect(ww, e, (e2.y + r) * ww + e2.x + c));
                    }
                }
                if k2 != kc {
                    assert(v0.holds_glyph(k2));
                }
            }
            assert(v1.wf());
        }
    }
}

} // verus!
