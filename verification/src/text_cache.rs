//! Cache of rendered text surfaces for the CPU backend, one per element,
//! within a byte budget.
//!
//! A surface is reused while the element's text generation and colour are
//! unchanged; otherwise it is rendered again. When a new surface would push
//! the cached bytes past the budget, the least recently used surfaces are
//! dropped first.

use vstd::prelude::*;
use std::collections::HashMap;
use std::rc::Rc;

verus! {

broadcast use vstd::std_specs::hash::group_hash_axioms;

/// Byte budget of the cache (8 MiB).
pub const MAX_SURFACE_BYTES: u64 = 8388608;

// ── Byte accounting ──────────────────────────────────────────────────

/// The (key, bytes) pairs of a map from keys to byte counts.
pub open spec fn byte_pairs(m: Map<u64, u64>) -> Set<(u64, u64)> {
    Set::new(|p: (u64, u64)| m.contains_key(p.0) && m[p.0] == p.1)
}

/// Adds the byte count of a pair to a running total.
pub open spec fn add_bytes() -> spec_fn(int, (u64, u64)) -> int {
    |acc: int, p: (u64, u64)| acc + p.1
}

/// Total bytes of all entries of `m`.
pub open spec fn bytes_total(m: Map<u64, u64>) -> int {
    byte_pairs(m).fold(0int, add_bytes())
}

proof fn lemma_pairs_finite(m: Map<u64, u64>)
    requires
        m.dom().finite(),
    ensures
        byte_pairs(m).finite(),
{
    let f = |k: u64| (k, m[k]);
    m.dom().lemma_map_finite(f);
    assert forall|p: (u64, u64)| byte_pairs(m).contains(p) implies #[trigger] m.dom().map(f).contains(
        p,
    ) by {
        assert(m.dom().contains(p.0) && p == f(p.0));
    }
    vstd::set_lib::lemma_set_subset_finite(m.dom().map(f), byte_pairs(m));
}

proof fn lemma_add_bytes_commutative()
    ensures
        vstd::set::fold::is_fun_commutative(add_bytes()),
{
}

proof fn lemma_total_empty()
    ensures
        bytes_total(Map::<u64, u64>::empty()) == 0,
{
    assert(byte_pairs(Map::<u64, u64>::empty()) =~= Set::<(u64, u64)>::empty());
    vstd::set::fold::lemma_fold_empty(0int, add_bytes());
}

proof fn lemma_total_insert(m: Map<u64, u64>, k: u64, b: u64)
    requires
        m.dom().finite(),
        !m.contains_key(k),
    ensures
        bytes_total(m.insert(k, b)) == bytes_total(m) + b,
{
    lemma_pairs_finite(m);
    lemma_add_bytes_commutative();
    assert(byte_pairs(m.insert(k, b)) =~= byte_pairs(m).insert((k, b)));
    assert(!byte_pairs(m).contains((k, b)));
    vstd::set::fold::lemma_fold_insert(byte_pairs(m), 0int, add_bytes(), (k, b));
}

proof fn lemma_total_remove(m: Map<u64, u64>, k: u64)
    requires
        m.dom().finite(),
        m.contains_key(k),
    ensures
        bytes_total(m.remove(k)) == bytes_total(m) - m[k],
{
    lemma_total_insert(m.remove(k), k, m[k]);
    assert(m.remove(k).insert(k, m[k]) =~= m);
}

proof fn lemma_total_nonneg(m: Map<u64, u64>)
    requires
        m.dom().finite(),
    ensures
        bytes_total(m) >= 0,
    decreases m.dom().len(),
{
    if m.dom().len() == 0 {
        assert(m =~= Map::<u64, u64>::empty());
        lemma_total_empty();
    } else {
        let k = m.dom().choose();
        lemma_total_remove(m, k);
        lemma_total_nonneg(m.remove(k));
    }
}

// ── The cache ────────────────────────────────────────────────────────

/// A cached surface: the surface, its size in bytes, the text generation
/// and colour it was rendered for, and the frame it was last used in.
pub type SurfaceRecord<S> = (Rc<S>, u64, u64, [u8; 4], u64);

/// Byte count of every cached surface.
pub open spec fn bytes_of<S>(m: Map<u64, SurfaceRecord<S>>) -> Map<u64, u64> {
    Map::new(|k: u64| m.contains_key(k), |k: u64| m[k].1)
}

/// `base` is `pre` with least recently used surfaces dropped until `bytes`
/// more fit in the budget (or nothing is left): every dropped surface was
/// used no later than every kept one, and putting back some dropped surface
/// would not fit.
pub open spec fn lru_trimmed<S>(
    pre: Map<u64, SurfaceRecord<S>>,
    base: Map<u64, SurfaceRecord<S>>,
    bytes: u64,
) -> bool {
    &&& base.submap_of(pre)
    &&& forall|d: u64, k: u64|
        pre.contains_key(d) && !base.contains_key(d) && #[trigger] base.contains_key(k)
            ==> #[trigger] pre[d].4 <= base[k].4
    &&& bytes_total(bytes_of(base)) + bytes <= MAX_SURFACE_BYTES || base.dom().len() == 0
    &&& base != pre ==> exists|d: u64|
        pre.contains_key(d) && !base.contains_key(d) && bytes_total(bytes_of(base)) + pre[d].1
            + bytes > MAX_SURFACE_BYTES
}

/// The cache keeps to its byte budget: after a surface of `bytes` bytes is
/// stored over a trimmed cache, the cached bytes are within the budget,
/// unless that surface alone exceeds it and is all the cache holds.
pub proof fn lemma_budget_kept<S>(
    pre: Map<u64, SurfaceRecord<S>>,
    base: Map<u64, SurfaceRecord<S>>,
    bytes: u64,
    eid: u64,
    rec: SurfaceRecord<S>,
)
    requires
        lru_trimmed(pre, base, bytes),
        pre.dom().finite(),
        !base.contains_key(eid),
        rec.1 == bytes,
    ensures
        bytes_total(bytes_of(base.insert(eid, rec))) <= MAX_SURFACE_BYTES || base.insert(
            eid,
            rec,
        ).dom().len() == 1,
{
    assert(base.dom().subset_of(pre.dom()));
    vstd::set_lib::lemma_set_subset_finite(pre.dom(), base.dom());
    assert(bytes_of(base).dom() =~= base.dom());
    assert(bytes_of(base.insert(eid, rec)) =~= bytes_of(base).insert(eid, bytes));
    lemma_total_insert(bytes_of(base), eid, bytes);
    if bytes_total(bytes_of(base)) + bytes > MAX_SURFACE_BYTES {
        assert(base.dom().len() == 0);
        assert(base.insert(eid, rec).dom() =~= set![eid]);
    }
}

/// A render result whose byte size fits the `u32` arithmetic of the budget.
pub open spec fn render_fits<S>(g: Option<(S, u32, u32)>) -> bool {
    match g {
        Some((_, w, h)) => w * h * 4 <= u32::MAX,
        None => true,
    }
}

fn same_color(a: &[u8; 4], b: &[u8; 4]) -> (r: bool)
    ensures
        r == (*a == *b),
{
    let r = a[0] == b[0] && a[1] == b[1] && a[2] == b[2] && a[3] == b[3];
    proof {
        if r {
            assert(*a =~= *b);
        }
    }
    r
}

struct CachedSurface<S> {
    surface: Rc<S>,
    bytes: u64,
    generation: u64,
    color: [u8; 4],
    last_used_frame: u64,
}

/// Rendered text surfaces by element id.
pub struct TextSurfaceCache<S> {
    entries: HashMap<u64, CachedSurface<S>>,
    total_bytes: u64,
    frame_count: u64,
}

impl<S> TextSurfaceCache<S> {
    /// The cached surfaces by element id.
    pub closed spec fn entries(&self) -> Map<u64, SurfaceRecord<S>> {
        Map::new(
            |k: u64| self.entries@.contains_key(k),
            |k: u64|
                (
                    self.entries@[k].surface,
                    self.entries@[k].bytes,
                    self.entries@[k].generation,
                    self.entries@[k].color,
                    self.entries@[k].last_used_frame,
                ),
        )
    }

    /// Bytes the cache counts as held.
    pub closed spec fn total_bytes(&self) -> u64 {
        self.total_bytes
    }

    /// The current frame number.
    pub closed spec fn frame(&self) -> u64 {
        self.frame_count
    }

    /// The byte count is the sum of the surfaces' sizes.
    pub open spec fn wf(&self) -> bool {
        &&& self.total_bytes() == bytes_total(bytes_of(self.entries()))
        &&& self.total_bytes() <= u32::MAX
    }

    proof fn lemma_views(&self)
        ensures
            self.entries().dom() == self.entries@.dom(),
            self.entries().dom().finite(),
            bytes_of(self.entries()).dom() == self.entries@.dom(),
    {
        assert(self.entries().dom() =~= self.entries@.dom());
        assert(bytes_of(self.entries()).dom() =~= self.entries@.dom());
    }

    pub fn new() -> (c: TextSurfaceCache<S>)
        ensures
            c.wf(),
            c.entries() == Map::<u64, SurfaceRecord<S>>::empty(),
            c.total_bytes() == 0,
            c.frame() == 0,
    {
        let c = TextSurfaceCache { entries: HashMap::new(), total_bytes: 0, frame_count: 0 };
        proof {
            assert(c.entries() =~= Map::<u64, SurfaceRecord<S>>::empty());
            assert(bytes_of(c.entries()) =~= Map::<u64, u64>::empty());
            lemma_total_empty();
        }
        c
    }

    /// Drop the surface of `eid`, if cached, and its bytes.
    fn evict(&mut self, eid: u64)
        requires
            old(self).wf(),
        ensures
            final(self).wf(),
            final(self).entries() == old(self).entries().remove(eid),
            final(self).frame() == old(self).frame(),
    {
        proof {
            self.lemma_views();
        }
        match self.entries.remove(&eid) {
            Some(entry) => {
                proof {
                    let m = bytes_of(old(self).entries());
                    lemma_total_remove(m, eid);
                    lemma_total_nonneg(m.remove(eid));
                    assert(bytes_of(old(self).entries().remove(eid)) =~= m.remove(eid));
                }
                self.total_bytes = self.total_bytes.saturating_sub(entry.bytes);
                proof {
                    let m = bytes_of(old(self).entries());
                    assert(entry.bytes == m[eid]);
                    assert(self.total_bytes == bytes_total(m.remove(eid)));
                    assert(self.entries() =~= old(self).entries().remove(eid));
                    assert(bytes_of(self.entries()) == m.remove(eid));
                }
            },
            None => {
                proof {
                    assert(self.entries() =~= old(self).entries().remove(eid));
                    assert(self.entries() =~= old(self).entries());
                }
            },
        }
    }

    /// The least recently used element id.
    fn oldest(&self) -> (r: Option<u64>)
        ensures
            r matches Some(k) ==> self.entries().contains_key(k) && forall|j: u64|
                #[trigger] self.entries().contains_key(j) ==> self.entries()[k].4
                    <= self.entries()[j].4,
            r is None ==> self.entries().dom().len() == 0,
    {
        let mut best: Option<u64> = None;
        let mut best_frame: u64 = 0;
        for item in it: self.entries.iter()
            invariant
                best matches Some(k) ==> self.entries@.contains_key(k)
                    && self.entries@[k].last_used_frame == best_frame,
                best is None <==> it.index() == 0,
                it.seq().len() == self.entries@.dom().len(),
                forall|j: int|
                    0 <= j < it.index() ==> best_frame <= (#[trigger] it.seq()[j]).1.last_used_frame,
                forall|j: int|
                    0 <= j < it.seq().len() ==> self.entries@.contains_key(
                        *(#[trigger] it.seq()[j]).0,
                    ) && self.entries@[*it.seq()[j].0] == *it.seq()[j].1,
                forall|k: u64| #[trigger]
                    self.entries@.contains_key(k) ==> exists|j: int|
                        0 <= j < it.seq().len() && *it.seq()[j].0 == k,
        {
            let (k, c) = item;
            if best.is_none() || c.last_used_frame < best_frame {
                best = Some(*k);
                best_frame = c.last_used_frame;
            }
        }
        proof {
            self.lemma_views();
        }
        best
    }

    /// The surface for element `eid` at text generation `generation` in
    /// colour `color` (red, green, blue; alpha is applied when blitting and
    /// is not part of the key): the cached one while both match, otherwise
    /// rendered by `render` (a surface and its width and height in pixels)
    /// and cached, dropping least recently used surfaces to stay within the
    /// byte budget. `None` when `render` gives nothing.
    pub fn get_or_render<F>(&mut self, eid: u64, generation: u64, color: [u8; 4], render: F) -> (r:
        Option<Rc<S>>) where F: FnOnce() -> Option<(S, u32, u32)>
        requires
            old(self).wf(),
            !(old(self).entries().contains_key(eid) && old(self).entries()[eid].2 == generation
                && old(self).entries()[eid].3 == color) ==> call_requires(render, ()),
            forall|g: Option<(S, u32, u32)>| #[trigger] call_ensures(render, (), g) ==> render_fits(g),
        ensures
            final(self).wf(),
            final(self).frame() == old(self).frame(),
            old(self).entries().contains_key(eid) && old(self).entries()[eid].2 == generation
                && old(self).entries()[eid].3 == color ==> {
                let e = old(self).entries()[eid];
                &&& r == Some(e.0)
                &&& final(self).entries() == old(self).entries().insert(
                    eid,
                    (e.0, e.1, e.2, e.3, old(self).frame()),
                )
            },
            !(old(self).entries().contains_key(eid) && old(self).entries()[eid].2 == generation
                && old(self).entries()[eid].3 == color) ==> exists|g: Option<(S, u32, u32)>|
                #[trigger] call_ensures(render, (), g) && match g {
                    None => r is None && final(self).entries() == old(self).entries().remove(eid),
                    Some((s, w, h)) => exists|base: Map<u64, SurfaceRecord<S>>|
                        #[trigger] lru_trimmed(
                            old(self).entries().remove(eid),
                            base,
                            (w * h * 4) as u64,
                        ) && (r matches Some(rc) && *rc == s && final(self).entries() == base.insert(
                            eid,
                            (rc, (w * h * 4) as u64, generation, color, old(self).frame()),
                        )),
                },
    {
        proof {
            self.lemma_views();
        }
        let frame = self.frame_count;
        match self.entries.remove(&eid) {
            Some(cached) => {
                if cached.generation == generation && same_color(&cached.color, &color) {
                    let rc = Rc::clone(&cached.surface);
                    let CachedSurface { surface, bytes, generation: g, color: c, last_used_frame } =
                        cached;
                    self.entries.insert(
                        eid,
                        CachedSurface { surface, bytes, generation: g, color: c, last_used_frame: frame },
                    );
                    proof {
                        assert(self.entries() =~= old(self).entries().insert(
                            eid,
                            (rc, bytes, g, c, frame),
                        ));
                        assert(bytes_of(self.entries()) =~= bytes_of(old(self).entries()));
                    }
                    return Some(rc);
                }
                self.entries.insert(eid, cached);
                proof {
                    assert(self.entries() =~= old(self).entries());
                }
                self.evict(eid);
            },
            None => {
                proof {
                    assert(self.entries() =~= old(self).entries());
                    assert(old(self).entries().remove(eid) =~= old(self).entries());
                }
            },
        }
        let ghost pre = self.entries();
        let rendered = render();
        let ghost g = rendered;
        let (surface, w, h) = match rendered {
            Some(x) => x,
            None => {
                return None;
            },
        };
        let byte_count: u64 = (w as u64) * (h as u64) * 4;
        proof {
            assert(render_fits(g));
        }
        loop
            invariant
                self.wf(),
                self.frame() == frame,
                byte_count <= u32::MAX,
                byte_count == w * h * 4,
                !self.entries().contains_key(eid),
                self.entries().submap_of(pre),
                forall|d: u64, k: u64|
                    pre.contains_key(d) && !self.entries().contains_key(d)
                        && #[trigger] self.entries().contains_key(k) ==> #[trigger] pre[d].4
                        <= self.entries()[k].4,
                self.entries() != pre ==> exists|d: u64|
                    pre.contains_key(d) && !self.entries().contains_key(d) && bytes_total(
                        bytes_of(self.entries()),
                    ) + pre[d].1 + byte_count > MAX_SURFACE_BYTES,
            ensures
                self.wf(),
                self.frame() == frame,
                !self.entries().contains_key(eid),
                lru_trimmed(pre, self.entries(), byte_count),
            decreases self.entries().dom().len(),
        {
            proof {
                self.lemma_views();
            }
            if self.total_bytes + byte_count <= MAX_SURFACE_BYTES || self.entries.is_empty() {
                break;
            }
            let ghost before = self.entries();
            match self.oldest() {
                Some(k) => {
                    proof {
                        lemma_total_remove(bytes_of(before), k);
                        assert(bytes_of(before.remove(k)) =~= bytes_of(before).remove(k));
                    }
                    self.evict(k);
                    proof {
                        assert(self.entries().dom().len() < before.dom().len());
                        assert forall|d: u64, j: u64|
                            pre.contains_key(d) && !self.entries().contains_key(d)
                                && #[trigger] self.entries().contains_key(j) implies #[trigger] pre[d].4
                            <= self.entries()[j].4 by {
                            if d == k {
                                assert(before.contains_key(j));
                            } else {
                                assert(before.contains_key(j));
                            }
                        }
                        assert(pre.contains_key(k) && !self.entries().contains_key(k));
                    }
                },
                None => {
                    break;
                },
            }
        }
        let rc = Rc::new(surface);
        let ghost base = self.entries();
        proof {
            self.lemma_views();
            lemma_total_insert(bytes_of(base), eid, byte_count);
            lemma_total_nonneg(bytes_of(base));
        }
        self.entries.insert(
            eid,
            CachedSurface {
                surface: Rc::clone(&rc),
                bytes: byte_count,
                generation,
                color,
                last_used_frame: frame,
            },
        );
        self.total_bytes = self.total_bytes + byte_count;
        proof {
            assert(self.entries() =~= base.insert(eid, (rc, byte_count, generation, color, frame)));
            assert(bytes_of(self.entries()) =~= bytes_of(base).insert(eid, byte_count));
            if base.dom().len() == 0 {
                assert(bytes_of(base) =~= Map::<u64, u64>::empty());
                lemma_total_empty();
            }
        }
        Some(rc)
    }

    /// Advance the frame counter (wrapping).
    pub fn end_frame(&mut self)
        requires
            old(self).wf(),
        ensures
            final(self).wf(),
            final(self).entries() == old(self).entries(),
            final(self).frame() == old(self).frame().wrapping_add(1),
    {
        self.frame_count = self.frame_count.wrapping_add(1);
        proof {
            assert(self.entries() =~= old(self).entries());
        }
    }
}

} // verus!
