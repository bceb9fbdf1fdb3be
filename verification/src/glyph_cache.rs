//! Per-glyph caches of the CPU text path: advance metrics by (font, glyph,
//! size) and coloured glyph bitmaps by (font, glyph, size, colour), the
//! latter under a byte budget.
//!
//! Sizes are keyed in tenths of a pixel (`size_bits`). The bitmap byte
//! counter grows with every bitmap stored and is reset only by
//! `clear_bitmaps`; once it is past the budget, storing a bitmap (and each
//! `trim`) drops half of the cached bitmaps.

use vstd::prelude::*;
use std::collections::HashMap;
use std::rc::Rc;

verus! {

broadcast use vstd::std_specs::hash::group_hash_axioms;

/// Byte budget of the bitmap cache (4 MiB).
pub const MAX_BITMAP_BYTES: u64 = 4194304;

/// Key of the metrics cache: font, glyph, and size in tenths of a pixel.
#[derive(Clone, Copy, Debug, PartialEq, Eq, Structural)]
pub struct WidthKey {
    pub font_id: u64,
    pub glyph_id: u16,
    pub size_bits: u16,
}

/// Key of the bitmap cache: font, glyph, size in tenths of a pixel, and the
/// colour the bitmap was rendered in.
#[derive(Clone, Copy, Debug)]
pub struct BitmapKey {
    pub font_id: u64,
    pub glyph_id: u16,
    pub size_bits: u16,
    pub color_rgb: [u8; 3],
}

/// The map key a metrics key is stored under.
pub open spec fn width_code(k: WidthKey) -> u128 {
    (k.font_id as int * 0x1_0000_0000 + k.glyph_id as int * 0x1_0000 + k.size_bits as int) as u128
}

/// The map key a bitmap key is stored under.
pub open spec fn bitmap_code(k: BitmapKey) -> u128 {
    (k.font_id as int * 0x100_0000_0000_0000 + k.glyph_id as int * 0x100_0000_0000
        + k.size_bits as int * 0x100_0000 + k.color_rgb[0] as int * 0x1_0000
        + k.color_rgb[1] as int * 0x100 + k.color_rgb[2] as int) as u128
}

/// Distinct metrics keys are stored under distinct map keys.
pub proof fn lemma_width_code_injective(a: WidthKey, b: WidthKey)
    requires
        width_code(a) == width_code(b),
    ensures
        a == b,
{
    if a.font_id != b.font_id {
        assert(false);
    }
    if a.glyph_id != b.glyph_id {
        assert(false);
    }
}

/// Distinct bitmap keys are stored under distinct map keys.
pub proof fn lemma_bitmap_code_injective(a: BitmapKey, b: BitmapKey)
    requires
        bitmap_code(a) == bitmap_code(b),
    ensures
        a.font_id == b.font_id,
        a.glyph_id == b.glyph_id,
        a.size_bits == b.size_bits,
        a.color_rgb == b.color_rgb,
{
    if a.font_id != b.font_id {
        assert(false);
    }
    if a.glyph_id != b.glyph_id {
        assert(false);
    }
    if a.size_bits != b.size_bits {
        assert(false);
    }
    if a.color_rgb[0] != b.color_rgb[0] {
        assert(false);
    }
    if a.color_rgb[1] != b.color_rgb[1] {
        assert(false);
    }
    assert(a.color_rgb =~= b.color_rgb);
}

impl WidthKey {
    pub fn new(font_id: u64, glyph_id: u16, size_bits: u16) -> (k: WidthKey)
        ensures
            k == (WidthKey { font_id, glyph_id, size_bits }),
    {
        WidthKey { font_id, glyph_id, size_bits }
    }

    fn code(&self) -> (c: u128)
        ensures
            c == width_code(*self),
    {
        (self.font_id as u128) * 0x1_0000_0000u128 + (self.glyph_id as u128) * 0x1_0000u128
            + (self.size_bits as u128)
    }
}

impl BitmapKey {
    pub fn new(font_id: u64, glyph_id: u16, size_bits: u16, color_rgb: [u8; 3]) -> (k: BitmapKey)
        ensures
            k == (BitmapKey { font_id, glyph_id, size_bits, color_rgb }),
    {
        BitmapKey { font_id, glyph_id, size_bits, color_rgb }
    }

    fn code(&self) -> (c: u128)
        ensures
            c == bitmap_code(*self),
    {
        (self.font_id as u128) * 0x100_0000_0000_0000u128 + (self.glyph_id as u128)
            * 0x100_0000_0000u128 + (self.size_bits as u128) * 0x100_0000u128
            + (self.color_rgb[0] as u128) * 0x1_0000u128 + (self.color_rgb[1] as u128) * 0x100u128
            + (self.color_rgb[2] as u128)
    }
}

/// A rendered glyph bitmap (`width` × `height` pixels) with its bearings
/// and the colour it was rendered in.
pub struct CachedGlyph<G> {
    pub pixmap: Rc<G>,
    pub width: u32,
    pub height: u32,
    pub left: i32,
    pub top: i32,
    pub color_rgb: [u8; 3],
}

/// Bytes a glyph bitmap takes (four per pixel).
pub open spec fn glyph_bytes<G>(g: CachedGlyph<G>) -> int {
    g.width * g.height * 4
}

/// A render result whose byte size fits `u32` and, added to a counter of
/// `bytes`, fits `u64`.
pub open spec fn glyph_fits<G>(g: Option<CachedGlyph<G>>, bytes: u64) -> bool {
    match g {
        Some(gl) => glyph_bytes(gl) <= u32::MAX && bytes + glyph_bytes(gl) <= u64::MAX,
        None => true,
    }
}

/// `kept` is `pre` with half of its entries (rounded down) dropped; the
/// others are kept unchanged.
pub open spec fn purged_half<V>(pre: Map<u128, V>, kept: Map<u128, V>) -> bool {
    &&& kept.submap_of(pre)
    &&& kept.dom().len() == pre.dom().len() - pre.dom().len() / 2
}

/// The metrics and bitmap caches of the CPU text path.
pub struct GlyphCache<M, G> {
    width_cache: HashMap<u128, M>,
    bitmap_cache: HashMap<u128, CachedGlyph<G>>,
    bitmap_bytes: u64,
}

impl<M: Copy, G> GlyphCache<M, G> {
    /// Cached metrics by metrics key code.
    pub closed spec fn widths(&self) -> Map<u128, M> {
        self.width_cache@
    }

    /// Cached bitmaps by bitmap key code.
    pub closed spec fn bitmaps(&self) -> Map<u128, CachedGlyph<G>> {
        self.bitmap_cache@
    }

    /// Bytes counted since the bitmaps were last cleared.
    pub closed spec fn bitmap_bytes(&self) -> u64 {
        self.bitmap_bytes
    }

    pub fn new() -> (c: GlyphCache<M, G>)
        ensures
            c.widths() == Map::<u128, M>::empty(),
            c.bitmaps() == Map::<u128, CachedGlyph<G>>::empty(),
            c.bitmap_bytes() == 0,
    {
        GlyphCache { width_cache: HashMap::new(), bitmap_cache: HashMap::new(), bitmap_bytes: 0 }
    }

    /// The metrics of a glyph: the cached ones, or else those `compute`
    /// gives, which are then cached (nothing is cached when it gives none).
    pub fn measure<F>(&mut self, font_id: u64, glyph_id: u16, size_bits: u16, compute: F) -> (r:
        Option<M>) where F: FnOnce() -> Option<M>
        requires
            !old(self).widths().contains_key(width_code(WidthKey { font_id, glyph_id, size_bits }))
                ==> call_requires(compute, ()),
        ensures
            ({
                let code = width_code(WidthKey { font_id, glyph_id, size_bits });
                &&& old(self).widths().contains_key(code) ==> r == Some(old(self).widths()[code])
                    && final(self).widths() == old(self).widths()
                &&& !old(self).widths().contains_key(code) ==> call_ensures(compute, (), r)
                    && final(self).widths() == match r {
                    Some(m) => old(self).widths().insert(code, m),
                    None => old(self).widths(),
                }
            }),
            final(self).bitmaps() == old(self).bitmaps(),
            final(self).bitmap_bytes() == old(self).bitmap_bytes(),
    {
        let key = WidthKey::new(font_id, glyph_id, size_bits);
        let code = key.code();
        match self.width_cache.get(&code) {
            Some(m) => {
                return Some(*m);
            },
            None => {},
        }
        let m = compute();
        match m {
            Some(v) => {
                self.width_cache.insert(code, v);
            },
            None => {},
        }
        m
    }

    /// Drop half of the cached bitmaps (rounded down), whichever the map
    /// yields first. The byte counter is left as it is.
    fn purge_half(&mut self)
        ensures
            purged_half(old(self).bitmaps(), final(self).bitmaps()),
            final(self).widths() == old(self).widths(),
            final(self).bitmap_bytes() == old(self).bitmap_bytes(),
    {
        let target = self.bitmap_cache.len() / 2;
        let ghost pre = self.bitmap_cache@;
        let mut keys: Vec<u128> = Vec::new();
        for item in it: self.bitmap_cache.iter()
            invariant
                keys@.len() == it.index(),
                it.seq().len() == pre.dom().len(),
                it.seq().no_duplicates(),
                forall|j: int|
                    0 <= j < it.seq().len() ==> pre.contains_key(*(#[trigger] it.seq()[j]).0)
                        && pre[*it.seq()[j].0] == *it.seq()[j].1,
                forall|j: int| 0 <= j < it.index() ==> keys@[j] == *(#[trigger] it.seq()[j]).0,
                forall|a: int, b: int| 0 <= a < b < keys@.len() ==> keys@[a] != keys@[b],
                forall|j: int| 0 <= j < keys@.len() ==> pre.contains_key(#[trigger] keys@[j]),
        {
            let (k, _) = item;
            let ghost idx = it.index();
            proof {
                assert forall|a: int| 0 <= a < idx implies keys@[a] != *k by {
                    assert(keys@[a] == *it.seq()[a].0);
                    if keys@[a] == *k {
                        assert(it.seq()[a] == it.seq()[idx]);
                    }
                }
            }
            keys.push(*k);
            proof {
                assert forall|j: int| 0 <= j < idx + 1 implies keys@[j] == *(
                #[trigger] it.seq()[j]).0 by {}
                assert(pre.contains_key(*it.seq()[idx].0));
            }
        }
        let mut i: usize = 0;
        while i < target
            invariant
                target == pre.dom().len() / 2,
                keys@.len() == pre.dom().len(),
                i <= target,
                forall|a: int, b: int| 0 <= a < b < keys@.len() ==> keys@[a] != keys@[b],
                forall|j: int| 0 <= j < keys@.len() ==> pre.contains_key(#[trigger] keys@[j]),
                self.bitmap_cache@.submap_of(pre),
                self.bitmap_cache@.dom().len() == pre.dom().len() - i,
                forall|j: int| i <= j < keys@.len() ==> self.bitmap_cache@.contains_key(#[trigger] keys@[j]),
                self.width_cache@ == old(self).widths(),
                self.bitmap_bytes == old(self).bitmap_bytes(),
            decreases target - i,
        {
            let k = keys[i];
            self.bitmap_cache.remove(&k);
            proof {
                assert forall|j: int| i + 1 <= j < keys@.len() implies self.bitmap_cache@.contains_key(
                    #[trigger] keys@[j],
                ) by {
                    assert(keys@[j] != keys@[i as int]);
                }
            }
            i = i + 1;
        }
    }

    /// The bitmap of a glyph in a colour: the cached one, or else the one
    /// `render` gives, which is then cached and counted, after half of the
    /// cached bitmaps are dropped if the count would pass the budget.
    /// `None` when `render` gives nothing.
    pub fn rasterize<F>(
        &mut self,
        font_id: u64,
        glyph_id: u16,
        size_bits: u16,
        color_rgb: [u8; 3],
        render: F,
    ) -> (r: Option<CachedGlyph<G>>) where F: FnOnce() -> Option<CachedGlyph<G>>
        requires
            !old(self).bitmaps().contains_key(
                bitmap_code(BitmapKey { font_id, glyph_id, size_bits, color_rgb }),
            ) ==> call_requires(render, ()),
            forall|g: Option<CachedGlyph<G>>| #[trigger]
                call_ensures(render, (), g) ==> glyph_fits(g, old(self).bitmap_bytes()),
        ensures
            final(self).widths() == old(self).widths(),
            ({
                let code = bitmap_code(BitmapKey { font_id, glyph_id, size_bits, color_rgb });
                &&& old(self).bitmaps().contains_key(code) ==> r == Some(old(self).bitmaps()[code])
                    && final(self).bitmaps() == old(self).bitmaps() && final(self).bitmap_bytes()
                    == old(self).bitmap_bytes()
                &&& !old(self).bitmaps().contains_key(code) ==> call_ensures(render, (), r) && match r {
                    None => final(self).bitmaps() == old(self).bitmaps() && final(self).bitmap_bytes()
                        == old(self).bitmap_bytes(),
                    Some(g) => {
                        &&& final(self).bitmap_bytes() == old(self).bitmap_bytes() + glyph_bytes(g)
                        &&& final(self).bitmaps().contains_key(code)
                        &&& final(self).bitmaps()[code] == g
                        &&& if old(self).bitmap_bytes() + glyph_bytes(g) > MAX_BITMAP_BYTES {
                            purged_half(old(self).bitmaps(), final(self).bitmaps().remove(code))
                        } else {
                            final(self).bitmaps().remove(code) == old(self).bitmaps()
                        }
                    },
                }
            }),
    {
        let key = BitmapKey::new(font_id, glyph_id, size_bits, color_rgb);
        let code = key.code();
        match self.bitmap_cache.get(&code) {
            Some(g) => {
                return Some(
                    CachedGlyph {
                        pixmap: Rc::clone(&g.pixmap),
                        width: g.width,
                        height: g.height,
                        left: g.left,
                        top: g.top,
                        color_rgb: g.color_rgb,
                    },
                );
            },
            None => {},
        }
        let rendered = render();
        let g = match rendered {
            Some(g) => g,
            None => {
                return None;
            },
        };
        let byte_count = (g.width * g.height * 4) as u64;
        if self.bitmap_bytes + byte_count > MAX_BITMAP_BYTES {
            self.purge_half();
        }
        let ghost kept = self.bitmap_cache@;
        self.bitmap_bytes = self.bitmap_bytes + byte_count;
        let result = CachedGlyph {
            pixmap: Rc::clone(&g.pixmap),
            width: g.width,
            height: g.height,
            left: g.left,
            top: g.top,
            color_rgb: g.color_rgb,
        };
        self.bitmap_cache.insert(code, g);
        proof {
            assert(!kept.contains_key(code));
            assert(self.bitmap_cache@.remove(code) =~= kept);
        }
        Some(result)
    }

    /// Drop half of the cached bitmaps when the byte counter is past the
    /// budget; otherwise nothing changes.
    pub fn trim(&mut self, _frame_count: u64)
        ensures
            final(self).widths() == old(self).widths(),
            final(self).bitmap_bytes() == old(self).bitmap_bytes(),
            old(self).bitmap_bytes() > MAX_BITMAP_BYTES ==> purged_half(
                old(self).bitmaps(),
                final(self).bitmaps(),
            ),
            old(self).bitmap_bytes() <= MAX_BITMAP_BYTES ==> final(self).bitmaps()
                == old(self).bitmaps(),
    {
        if self.bitmap_bytes > MAX_BITMAP_BYTES {
            self.purge_half();
        }
    }

    /// Drop every cached bitmap and reset the byte counter; metrics stay.
    pub fn clear_bitmaps(&mut self)
        ensures
            final(self).widths() == old(self).widths(),
            final(self).bitmaps() == Map::<u128, CachedGlyph<G>>::empty(),
            final(self).bitmap_bytes() == 0,
    {
        self.bitmap_cache.clear();
        self.bitmap_bytes = 0;
    }
}

} // verus!
