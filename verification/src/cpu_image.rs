//! Per-renderer cache of premultiplied mip chains for the CPU backend.
//!
//! Images come from the shared registry as straight-alpha RGBA mip chains;
//! the cache converts each chain once to premultiplied canonical pixels and
//! hands out the level that best fits the requested output size. At most
//! `MAX_CACHED_IMAGES` chains are kept; when full, the least recently used
//! one is dropped.

use vstd::prelude::*;
use std::collections::HashMap;
use std::rc::Rc;
use vstd::arithmetic::power2::pow2;

use crate::image_registry::{is_mip_chain, levels_view, lookup_image_mips, ImageRegistry};
use crate::mipmap::{chosen_mip, floor_log2, level_dim, mip_levels, select_mip};
use crate::pixel::{chan, pack};

verus! {

broadcast use vstd::std_specs::hash::group_hash_axioms;

pub const MAX_CACHED_IMAGES: usize = 32;

/// A straight-alpha RGBA texel as a premultiplied canonical pixel.
pub open spec fn premultiply(r: u8, g: u8, b: u8, a: u8) -> u32 {
    pack((r * a / 255) as u32, (g * a / 255) as u32, (b * a / 255) as u32, a as u32)
}

/// A `w` by `h` straight-alpha RGBA level as premultiplied canonical
/// pixels; pixels missing from a short buffer stay zero.
pub open spec fn premultiplied_level(data: Seq<u8>, w: int, h: int) -> Seq<u32> {
    Seq::new(
        (w * h) as nat,
        |i: int|
            if i * 4 + 4 <= data.len() {
                premultiply(data[i * 4], data[i * 4 + 1], data[i * 4 + 2], data[i * 4 + 3])
            } else {
                0u32
            },
    )
}

/// Premultiplying a level: pixel `i` of a level whose bytes cover it has
/// its red, green and blue channels (bytes 0, 1, 2 of the canonical word)
/// equal to the source's bytes `4i`, `4i + 1`, `4i + 2` times the source
/// alpha over 255, and its alpha channel (byte 3) equal to the source
/// alpha.
pub proof fn lemma_premultiplied_channels(data: Seq<u8>, w: int, h: int, i: int)
    requires
        0 <= i < w * h,
        i * 4 + 4 <= data.len(),
    ensures
        chan(premultiplied_level(data, w, h)[i], 0) as int == data[i * 4] * data[i * 4 + 3] / 255,
        chan(premultiplied_level(data, w, h)[i], 1) as int == data[i * 4 + 1] * data[i * 4 + 3]
            / 255,
        chan(premultiplied_level(data, w, h)[i], 2) as int == data[i * 4 + 2] * data[i * 4 + 3]
            / 255,
        chan(premultiplied_level(data, w, h)[i], 3) as int == data[i * 4 + 3] as int,
{
    let (r, g, b, a) = (data[i * 4], data[i * 4 + 1], data[i * 4 + 2], data[i * 4 + 3]);
    assert(r * a / 255 <= 255 && g * a / 255 <= 255 && b * a / 255 <= 255) by (nonlinear_arith)
        requires
            r <= 255,
            g <= 255,
            b <= 255,
            a <= 255,
    ;
    assert(0 <= r * a / 255 && 0 <= g * a / 255 && 0 <= b * a / 255) by (nonlinear_arith)
        requires
            r >= 0,
            g >= 0,
            b >= 0,
            a >= 0,
    ;
    crate::pixel::lemma_pack_chan(
        (r * a / 255) as u32,
        (g * a / 255) as u32,
        (b * a / 255) as u32,
        a as u32,
    );
}

/// Every level of a `w` by `h` mip chain, premultiplied.
pub open spec fn premultiplied_chain(levels: Seq<Seq<u8>>, w: u32, h: u32) -> Seq<Seq<u32>> {
    Seq::new(
        levels.len(),
        |i: int|
            premultiplied_level(
                levels[i],
                level_dim(w, i as nat) as int,
                level_dim(h, i as nat) as int,
            ),
    )
}

/// A cached chain: full size, premultiplied levels, frame of last use.
pub type CachedChain = (u32, u32, Seq<Seq<u32>>, u64);

/// `after` is `before` with room made for one more chain: unchanged below
/// the capacity, otherwise without one least recently used chain.
pub open spec fn makes_room(before: Map<u64, CachedChain>, after: Map<u64, CachedChain>) -> bool {
    if before.dom().len() < MAX_CACHED_IMAGES {
        after == before
    } else {
        exists|v: u64|
            #[trigger] before.contains_key(v) && (forall|k: u64|
                #[trigger] before.contains_key(k) ==> before[v].3 <= before[k].3) && after
                == before.remove(v)
    }
}

struct CachedImage {
    pixmaps: Vec<Rc<Vec<u32>>>,
    full_w: u32,
    full_h: u32,
    last_frame: u64,
}

/// Premultiplied mip chains by image hash.
pub struct ImageCache {
    images: HashMap<u64, CachedImage>,
    frame: u64,
}

proof fn lemma_floor_log2_bound(m: nat, k: nat)
    requires
        m < pow2(k),
        k >= 1,
    ensures
        floor_log2(m) < k,
    decreases k,
{
    if m >= 2 {
        vstd::arithmetic::power2::lemma_pow2_unfold(k);
        if k == 1 {
            vstd::arithmetic::power2::lemma2_to64();
        } else {
            lemma_floor_log2_bound(m / 2, (k - 1) as nat);
        }
    }
}

/// A chain of a `u32`-sized image has at most 32 levels.
proof fn lemma_mip_levels_bound(w: u32, h: u32)
    ensures
        1 <= mip_levels(w, h) <= 32,
{
    vstd::arithmetic::power2::lemma2_to64();
    let m = if w >= h {
        w
    } else {
        h
    };
    lemma_floor_log2_bound(m as nat, 32);
}

impl ImageCache {
    /// Cached chains by hash.
    pub closed spec fn images(&self) -> Map<u64, CachedChain> {
        Map::new(
            |k: u64| self.images@.contains_key(k),
            |k: u64|
                (
                    self.images@[k].full_w,
                    self.images@[k].full_h,
                    Seq::new(
                        self.images@[k].pixmaps@.len(),
                        |i: int| self.images@[k].pixmaps@[i]@,
                    ),
                    self.images@[k].last_frame,
                ),
        )
    }

    /// Frames counted so far (one per lookup).
    pub closed spec fn frame(&self) -> u64 {
        self.frame
    }

    /// Every cached chain has as many levels as its image has mip levels,
    /// and no more than `MAX_CACHED_IMAGES` chains are kept.
    pub open spec fn wf(&self) -> bool {
        &&& self.images().dom().len() <= MAX_CACHED_IMAGES
        &&& forall|k: u64| #[trigger]
            self.images().contains_key(k) ==> self.images()[k].2.len() == mip_levels(
                self.images()[k].0,
                self.images()[k].1,
            )
    }

    pub fn new() -> (c: ImageCache)
        ensures
            c.wf(),
            c.images() == Map::<u64, CachedChain>::empty(),
            c.frame() == 0,
    {
        let c = ImageCache { images: HashMap::new(), frame: 0 };
        proof {
            assert(c.images() =~= Map::<u64, CachedChain>::empty());
        }
        c
    }

    /// The least recently used cached hash.
    fn oldest(&self) -> (r: Option<u64>)
        ensures
            r matches Some(k) ==> self.images().contains_key(k) && forall|j: u64|
                #[trigger] self.images().contains_key(j) ==> self.images()[k].3 <= self.images()[j].3,
            r is None ==> self.images().dom().len() == 0,
    {
        let mut best: Option<u64> = None;
        let mut best_frame: u64 = 0;
        for item in it: self.images.iter()
            invariant
                best matches Some(k) ==> self.images@.contains_key(k)
                    && self.images@[k].last_frame == best_frame,
                best is None <==> it.index() == 0,
                it.seq().len() == self.images@.dom().len(),
                forall|j: int|
                    0 <= j < it.index() ==> best_frame <= (#[trigger] it.seq()[j]).1.last_frame,
                forall|j: int|
                    0 <= j < it.seq().len() ==> self.images@.contains_key(
                        *(#[trigger] it.seq()[j]).0,
                    ) && self.images@[*it.seq()[j].0] == *it.seq()[j].1,
                forall|k: u64| #[trigger]
                    self.images@.contains_key(k) ==> exists|j: int|
                        0 <= j < it.seq().len() && *it.seq()[j].0 == k,
        {
            let (k, c) = item;
            if best.is_none() || c.last_frame < best_frame {
                best = Some(*k);
                best_frame = c.last_frame;
            }
        }
        proof {
            assert(self.images().dom() =~= self.images@.dom());
        }
        best
    }

    /// Return the mip level of image `hash` best fitting a `target_w` by
    /// `target_h` output (the smallest level still covering it), building
    /// and caching the image's premultiplied chain from the registry on
    /// first use. `None` when the registry does not hold the image.
    pub fn ensure_mip(&mut self, reg: &mut ImageRegistry, hash: u64, target_w: u32, target_h: u32) -> (r:
        Option<Rc<Vec<u32>>>)
        requires
            old(self).wf(),
            old(reg).wf(),
            old(self).frame() < u64::MAX,
        ensures
            final(self).wf(),
            final(reg).wf(),
            final(reg).images() == old(reg).images(),
            final(reg).refs() == old(reg).refs(),
            final(reg).links() == old(reg).links(),
            final(self).frame() == old(self).frame() + 1,
            old(self).images().contains_key(hash) ==> {
                let e = old(self).images()[hash];
                &&& r matches Some(p) && p@ == e.2[chosen_mip(
                    e.2.len(),
                    e.0,
                    e.1,
                    target_w,
                    target_h,
                ) as int]
                &&& final(self).images() == old(self).images().insert(
                    hash,
                    (e.0, e.1, e.2, final(self).frame()),
                )
            },
            !old(self).images().contains_key(hash) ==> exists|base: Map<u64, CachedChain>|
                #[trigger] makes_room(old(self).images(), base) && if old(reg).images().contains_key(
                    hash,
                ) {
                    let (w, h, px) = old(reg).images()[hash];
                    exists|levels: Seq<Seq<u8>>|
                        #[trigger] is_mip_chain(levels, px, w, h) && {
                            let chain = premultiplied_chain(levels, w, h);
                            &&& r matches Some(p) && p@ == chain[chosen_mip(
                                chain.len(),
                                w,
                                h,
                                target_w,
                                target_h,
                            ) as int]
                            &&& final(self).images() == base.insert(
                                hash,
                                (w, h, chain, final(self).frame()),
                            )
                        }
                } else {
                    r is None && final(self).images() == base
                },
    {
        self.frame = self.frame + 1;
        let frame = self.frame;
        proof {
            assert(self.images() =~= old(self).images());
        }
        match self.images.remove(&hash) {
            Some(img) => {
                let CachedImage { pixmaps, full_w, full_h, last_frame } = img;
                proof {
                    assert(old(self).images().contains_key(hash));
                    lemma_mip_levels_bound(full_w, full_h);
                }
                let idx = select_mip(pixmaps.len(), full_w, full_h, target_w, target_h);
                let p = Rc::clone(&pixmaps[idx]);
                self.images.insert(hash, CachedImage { pixmaps, full_w, full_h, last_frame: frame });
                proof {
                    assert(self.images() =~= old(self).images().insert(
                        hash,
                        (
                            old(self).images()[hash].0,
                            old(self).images()[hash].1,
                            old(self).images()[hash].2,
                            frame,
                        ),
                    ));
                }
                return Some(p);
            },
            None => {},
        }
        proof {
            assert(self.images() =~= old(self).images());
        }
        let ghost before = self.images();
        if self.images.len() >= MAX_CACHED_IMAGES {
            proof {
                assert(self.images().dom() =~= self.images@.dom());
            }
            match self.oldest() {
                Some(k) => {
                    self.images.remove(&k);
                    proof {
                        assert(self.images() =~= before.remove(k));
                        assert(makes_room(before, self.images()));
                    }
                },
                None => {},
            }
        } else {
            proof {
                assert(self.images().dom() =~= self.images@.dom());
            }
        }
        let ghost base = self.images();
        proof {
            assert(makes_room(before, base));
            assert(self.images().dom().len() < MAX_CACHED_IMAGES) by {
                assert(self.images().dom() =~= self.images@.dom());
            }
        }
        let mips = match lookup_image_mips(reg, hash) {
            Some(m) => m,
            None => {
                return None;
            },
        };
        let full_w = mips.width;
        let full_h = mips.height;
        let ghost levels = levels_view(mips.levels@);
        proof {
            lemma_mip_levels_bound(full_w, full_h);
            assert(old(reg).images().contains_key(hash));
            assert(is_mip_chain(levels, old(reg).images()[hash].2, full_w, full_h));
        }
        let n = mips.levels.len();
        let mut pixmaps: Vec<Rc<Vec<u32>>> = Vec::with_capacity(n);
        let mut lw: u32 = full_w;
        let mut lh: u32 = full_h;
        let mut i: usize = 0;
        while i < n
            invariant
                n == mips.levels@.len(),
                levels == levels_view(mips.levels@),
                i <= n,
                lw == level_dim(full_w, i as nat),
                lh == level_dim(full_h, i as nat),
                lw <= 4096,
                lh <= 4096,
                pixmaps@.len() == i,
                forall|j: int|
                    0 <= j < i ==> (#[trigger] pixmaps@[j])@ == premultiplied_level(
                        levels[j],
                        level_dim(full_w, j as nat) as int,
                        level_dim(full_h, j as nat) as int,
                    ),
            decreases n - i,
        {
            proof {
                assert(lw as int * lh as int <= 4096 * 4096) by (nonlinear_arith)
                    requires
                        lw <= 4096,
                        lh <= 4096,
                ;
            }
            let level = premultiply_level(mips.levels[i].as_slice(), lw, lh);
            pixmaps.push(Rc::new(level));
            lw = if lw / 2 >= 1 {
                lw / 2
            } else {
                1
            };
            lh = if lh / 2 >= 1 {
                lh / 2
            } else {
                1
            };
            i = i + 1;
        }
        let ghost chain = premultiplied_chain(levels, full_w, full_h);
        proof {
            assert(Seq::new(pixmaps@.len(), |j: int| pixmaps@[j]@) =~= chain);
        }
        let idx = select_mip(pixmaps.len(), full_w, full_h, target_w, target_h);
        let p = Rc::clone(&pixmaps[idx]);
        self.images.insert(hash, CachedImage { pixmaps, full_w, full_h, last_frame: frame });
        proof {
            assert(self.images() =~= base.insert(hash, (full_w, full_h, chain, frame)));
            assert(self.images().dom().len() <= MAX_CACHED_IMAGES);
        }
        Some(p)
    }
}

/// Premultiply one `w` by `h` straight-alpha RGBA level.
fn premultiply_level(data: &[u8], w: u32, h: u32) -> (out: Vec<u32>)
    requires
        w as int * h as int <= usize::MAX,
    ensures
        out@ == premultiplied_level(data@, w as int, h as int),
{
    let n = (w as usize) * (h as usize);
    let mut out: Vec<u32> = Vec::with_capacity(n);
    let mut i: usize = 0;
    while i < n
        invariant
            n == w * h,
            i <= n,
            out@.len() == i,
            forall|j: int|
                0 <= j < i ==> #[trigger] out@[j] == premultiplied_level(
                    data@,
                    w as int,
                    h as int,
                )[j],
        decreases n - i,
    {
        let px: u32 = if i < data.len() / 4 {
            let r = data[i * 4] as u32;
            let g = data[i * 4 + 1] as u32;
            let b = data[i * 4 + 2] as u32;
            let a = data[i * 4 + 3] as u32;
            proof {
                assert(r * a <= 255 * 255) by (nonlinear_arith)
                    requires
                        r <= 255,
                        a <= 255,
                ;
                assert(g * a <= 255 * 255) by (nonlinear_arith)
                    requires
                        g <= 255,
                        a <= 255,
                ;
                assert(b * a <= 255 * 255) by (nonlinear_arith)
                    requires
                        b <= 255,
                        a <= 255,
                ;
            }
            (a << 24) | ((b * a / 255) << 16) | ((g * a / 255) << 8) | (r * a / 255)
        } else {
            0
        };
        out.push(px);
        i = i + 1;
    }
    proof {
        assert(out@ =~= premultiplied_level(data@, w as int, h as int));
    }
    out
}

} // verus!
