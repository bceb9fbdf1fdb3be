//! Content-addressed registry of decoded images shared by the renderers.
//!
//! Images are keyed by a content hash. An image registered without an
//! owning element is *pinned* and never evicted; an image registered for an
//! element is reference counted per element and freed when the last element
//! that registered it is torn down. Oversized images are box-filtered down
//! to at most `MAX_IMAGE_DIM` on registration; mip chains are built lazily
//! on first lookup.

use vstd::prelude::*;
use crate::downscale::{binary64_scale, binary64_scaled};

use crate::mipmap::{box_filter, box_filtered, build_mip_chain, level_dim, mip_levels};
use std::collections::HashMap;
use std::rc::Rc;

verus! {

broadcast use vstd::std_specs::hash::group_hash_axioms;

pub const MAX_IMAGE_DIM: u32 = 4096;

/// Shares the value behind an `Rc` (std `Rc::clone`): the clone points to
/// the same value.
#[verifier::external_body]
fn rc_share<T>(rc: &Rc<T>) -> (r: Rc<T>)
    ensures
        r == *rc,
{
    Rc::clone(rc)
}

/// Pre-computed mip chain for a single image.
pub struct CpuImageMips {
    pub width: u32,
    pub height: u32,
    /// Level 0 is the full resolution; each further level halves both sizes.
    pub levels: Vec<Rc<Vec<u8>>>,
}

/// `levels` is the mip chain of the `w`×`h` image `pixels`.
pub open spec fn is_mip_chain(levels: Seq<Seq<u8>>, pixels: Seq<u8>, w: u32, h: u32) -> bool {
    &&& levels.len() == mip_levels(w, h)
    &&& levels[0] == pixels
    &&& forall|i: int|
        1 <= i < levels.len() ==> #[trigger] levels[i] == box_filtered(
            levels[i - 1],
            level_dim(w, (i - 1) as nat) as int,
            level_dim(h, (i - 1) as nat) as int,
            level_dim(w, i as nat) as int,
            level_dim(h, i as nat) as int,
        )
}

pub open spec fn levels_view(levels: Seq<Rc<Vec<u8>>>) -> Seq<Seq<u8>> {
    Seq::new(levels.len(), |i: int| levels[i]@)
}

struct ImageEntry {
    width: u32,
    height: u32,
    full_res: Rc<Vec<u8>>,
    mips: Option<Rc<CpuImageMips>>,
}

/// The stored size of an image registered at `w`×`h`: unchanged within
/// `MAX_IMAGE_DIM`, otherwise each side times `MAX_IMAGE_DIM` over the
/// larger side, computed in binary64 and truncated.
pub open spec fn stored_dims(w: u32, h: u32) -> (u32, u32) {
    if w > MAX_IMAGE_DIM || h > MAX_IMAGE_DIM {
        let m = if w >= h {
            w
        } else {
            h
        };
        (binary64_scaled(w, m), binary64_scaled(h, m))
    } else {
        (w, h)
    }
}

/// The stored pixels of an image registered at `w`×`h`.
pub open spec fn stored_pixels(w: u32, h: u32, pixels: Seq<u8>) -> Seq<u8> {
    if w > MAX_IMAGE_DIM || h > MAX_IMAGE_DIM {
        box_filtered(pixels, w as int, h as int, stored_dims(w, h).0 as int, stored_dims(w, h).1 as int)
    } else {
        pixels
    }
}

/// Registering content: the first registration of a hash wins.
pub open spec fn registered(
    images: Map<u64, (u32, u32, Seq<u8>)>,
    hash: u64,
    w: u32,
    h: u32,
    pixels: Seq<u8>,
) -> Map<u64, (u32, u32, Seq<u8>)> {
    if images.contains_key(hash) {
        images
    } else {
        images.insert(
            hash,
            (stored_dims(w, h).0, stored_dims(w, h).1, stored_pixels(w, h, pixels)),
        )
    }
}

/// One element stops referencing `hash`: its count drops (not below zero)
/// and an unpinned image nobody references is evicted.
pub open spec fn release_hash(
    st: (Map<u64, (nat, bool)>, Map<u64, (u32, u32, Seq<u8>)>),
    hash: u64,
) -> (Map<u64, (nat, bool)>, Map<u64, (u32, u32, Seq<u8>)>) {
    let refs = st.0;
    if refs.contains_key(hash) {
        let c: nat = if refs[hash].0 >= 1 {
            (refs[hash].0 - 1) as nat
        } else {
            0
        };
        if c == 0 && !refs[hash].1 {
            (refs.remove(hash), st.1.remove(hash))
        } else {
            (refs.insert(hash, (c, refs[hash].1)), st.1)
        }
    } else {
        st
    }
}

pub open spec fn release_all(
    st: (Map<u64, (nat, bool)>, Map<u64, (u32, u32, Seq<u8>)>),
    hashes: Seq<u64>,
) -> (Map<u64, (nat, bool)>, Map<u64, (u32, u32, Seq<u8>)>)
    decreases hashes.len(),
{
    if hashes.len() == 0 {
        st
    } else {
        release_hash(release_all(st, hashes.drop_last()), hashes.last())
    }
}

/// The elements whose registrations include `h`.
pub open spec fn linking(links: Map<u64, Seq<u64>>, h: u64) -> Set<u64> {
    Set::new(|e: u64| links.contains_key(e) && links[e].contains(h))
}

/// The element count of `h`; zero where it has no entry.
pub open spec fn count_of(refs: Map<u64, (nat, bool)>, h: u64) -> nat {
    if refs.contains_key(h) {
        refs[h].0
    } else {
        0
    }
}

/// Every hash's element count is the number of elements whose
/// registrations include it.
pub open spec fn counts_match(refs: Map<u64, (nat, bool)>, links: Map<u64, Seq<u64>>) -> bool {
    forall|h: u64| #[trigger] count_of(refs, h) == linking(links, h).len()
}

proof fn lemma_linking_finite(links: Map<u64, Seq<u64>>, h: u64)
    requires
        links.dom().finite(),
    ensures
        linking(links, h).finite(),
{
    assert(linking(links, h).subset_of(links.dom()));
    vstd::set_lib::lemma_len_subset(linking(links, h), links.dom());
}

/// Adding `hash` to element `eid`'s registrations adds `eid` to the
/// elements linking `hash` and to no other hash's.
proof fn lemma_link_added(links: Map<u64, Seq<u64>>, eid: u64, hash: u64, before: Seq<u64>, h: u64)
    requires
        links.dom().finite(),
        !(links.contains_key(eid) && links[eid].contains(hash)),
        before == (if links.contains_key(eid) {
            links[eid]
        } else {
            Seq::<u64>::empty()
        }),
    ensures
        h == hash ==> linking(links.insert(eid, before.push(hash)), h) == linking(links, h).insert(eid)
            && !linking(links, h).contains(eid),
        h != hash ==> linking(links.insert(eid, before.push(hash)), h) == linking(links, h),
{
    let nl = links.insert(eid, before.push(hash));
    assert forall|e: u64| #[trigger] linking(nl, h).contains(e) == (if h == hash {
        linking(links, h).insert(eid)
    } else {
        linking(links, h)
    }).contains(e) by {
        if e == eid {
            assert(before.push(hash).contains(h) == (before.contains(h) || h == hash)) by {
                if before.push(hash).contains(h) {
                    let j = choose|j: int| 0 <= j < before.push(hash).len() && before.push(hash)[j] == h;
                    if j < before.len() {
                        assert(before[j] == h);
                    }
                }
                if before.contains(h) {
                    let j = choose|j: int| 0 <= j < before.len() && before[j] == h;
                    assert(before.push(hash)[j] == h);
                }
                if h == hash {
                    assert(before.push(hash)[before.len() as int] == h);
                }
            }
        }
    }
    if h == hash {
        assert(linking(nl, h) =~= linking(links, h).insert(eid));
    } else {
        assert(linking(nl, h) =~= linking(links, h));
    }
}

/// Releasing the hashes `l` (each once) takes one from the count of each
/// hash in `l` and evicts an unpinned hash whose count reaches zero; a hash
/// not in `l` keeps its entry and its image.
proof fn lemma_release_all_at(
    st: (Map<u64, (nat, bool)>, Map<u64, (u32, u32, Seq<u8>)>),
    l: Seq<u64>,
    h: u64,
)
    requires
        l.no_duplicates(),
        l.contains(h) ==> st.0.contains_key(h) && st.0[h].0 >= 1,
    ensures
        !l.contains(h) ==> {
            &&& release_all(st, l).0.contains_key(h) == st.0.contains_key(h)
            &&& st.0.contains_key(h) ==> release_all(st, l).0[h] == st.0[h]
            &&& release_all(st, l).1.contains_key(h) == st.1.contains_key(h)
            &&& st.1.contains_key(h) ==> release_all(st, l).1[h] == st.1[h]
        },
        l.contains(h) ==> if st.0[h].0 == 1 && !st.0[h].1 {
            !release_all(st, l).0.contains_key(h) && !release_all(st, l).1.contains_key(h)
        } else {
            &&& release_all(st, l).0.contains_key(h)
            &&& release_all(st, l).0[h] == ((st.0[h].0 - 1) as nat, st.0[h].1)
            &&& release_all(st, l).1.contains_key(h) == st.1.contains_key(h)
            &&& st.1.contains_key(h) ==> release_all(st, l).1[h] == st.1[h]
        },
    decreases l.len(),
{
    if l.len() > 0 {
        let d = l.drop_last();
        assert(d.no_duplicates());
        assert(l.contains(h) == (d.contains(h) || l.last() == h)) by {
            if l.contains(h) {
                let j = choose|j: int| 0 <= j < l.len() && l[j] == h;
                if j < d.len() {
                    assert(d[j] == h);
                }
            }
            if d.contains(h) {
                let j = choose|j: int| 0 <= j < d.len() && d[j] == h;
                assert(l[j] == h);
            }
        }
        if l.last() == h {
            assert(!d.contains(h)) by {
                if d.contains(h) {
                    let j = choose|j: int| 0 <= j < d.len() && d[j] == h;
                    assert(l[j] == l[l.len() - 1]);
                }
            }
        }
        lemma_release_all_at(st, d, h);
    }
}

/// The elements linking `h` once `id` is gone.
proof fn lemma_link_removed(links: Map<u64, Seq<u64>>, id: u64, h: u64)
    ensures
        linking(links.remove(id), h) == linking(links, h).remove(id),
        linking(links, h).contains(id) == (links.contains_key(id) && links[id].contains(h)),
{
    assert(linking(links.remove(id), h) =~= linking(links, h).remove(id));
}

/// The registry: images by hash, reference counts and pins by hash, and the
/// hashes each element registered.
pub struct ImageRegistry {
    images: HashMap<u64, ImageEntry>,
    refs: HashMap<u64, (usize, bool)>,
    element_images: HashMap<u64, Vec<u64>>,
}

impl ImageRegistry {
    /// Stored images: `(width, height, pixels)` by hash.
    pub closed spec fn images(&self) -> Map<u64, (u32, u32, Seq<u8>)> {
        Map::new(
            |k: u64| self.images@.contains_key(k),
            |k: u64|
                (self.images@[k].width, self.images@[k].height, self.images@[k].full_res@),
        )
    }

    /// `(element count, pinned)` by hash.
    pub closed spec fn refs(&self) -> Map<u64, (nat, bool)> {
        Map::new(
            |k: u64| self.refs@.contains_key(k),
            |k: u64| (self.refs@[k].0 as nat, self.refs@[k].1),
        )
    }

    /// The hashes each element registered.
    pub closed spec fn links(&self) -> Map<u64, Seq<u64>> {
        Map::new(|e: u64| self.element_images@.contains_key(e), |e: u64| self.element_images@[e]@)
    }

    /// Cached mip chains agree with their images.
    closed spec fn mips_consistent(&self) -> bool {
        forall|k: u64|
            #[trigger] self.images@.contains_key(k) ==> match self.images@[k].mips {
                Some(m) => m.width == self.images@[k].width && m.height == self.images@[k].height
                    && is_mip_chain(
                    levels_view(m.levels@),
                    self.images@[k].full_res@,
                    m.width,
                    m.height,
                ),
                None => true,
            }
    }

    /// Stored images fit `MAX_IMAGE_DIM`, no element lists a hash twice,
    /// and cached mip chains agree with their images.
    pub open spec fn shape_ok(&self) -> bool {
        &&& forall|k: u64|
            #[trigger] self.images().contains_key(k) ==> self.images()[k].0 <= MAX_IMAGE_DIM
                && self.images()[k].1 <= MAX_IMAGE_DIM
        &&& forall|e: u64| #[trigger] self.links().contains_key(e) ==> self.links()[e].no_duplicates()
        &&& self.mips_ok()
    }

    /// The registry's invariant: its shape, finitely many elements, and
    /// each hash's element count equal to the number of elements whose
    /// registrations include it.
    pub open spec fn wf(&self) -> bool {
        &&& self.shape_ok()
        &&& self.links().dom().finite()
        &&& counts_match(self.refs(), self.links())
    }

    pub closed spec fn mips_ok(&self) -> bool {
        self.mips_consistent()
    }

    pub fn new() -> (r: ImageRegistry)
        ensures
            r.wf(),
            r.images() == Map::<u64, (u32, u32, Seq<u8>)>::empty(),
            r.refs() == Map::<u64, (nat, bool)>::empty(),
            r.links() == Map::<u64, Seq<u64>>::empty(),
    {
        let r = ImageRegistry {
            images: HashMap::new(),
            refs: HashMap::new(),
            element_images: HashMap::new(),
        };
        proof {
            assert(r.images() =~= Map::<u64, (u32, u32, Seq<u8>)>::empty());
            assert(r.refs() =~= Map::<u64, (nat, bool)>::empty());
            assert(r.links() =~= Map::<u64, Seq<u64>>::empty());
            assert(r.links().dom() =~= Set::<u64>::empty());
            assert forall|h: u64| #[trigger] count_of(r.refs(), h) == linking(r.links(), h).len() by {
                assert(linking(r.links(), h) =~= Set::<u64>::empty());
            }
        }
        r
    }
}

fn register_image_inner(reg: &mut ImageRegistry, hash: u64, width: u32, height: u32, pixels: Rc<
    Vec<u8>,
>)
    requires
        old(reg).wf(),
    ensures
        final(reg).wf(),
        final(reg).images() == registered(old(reg).images(), hash, width, height, pixels@),
        final(reg).refs() == old(reg).refs(),
        final(reg).links() == old(reg).links(),
{
    if reg.images.contains_key(&hash) {
        return ;
    }
    let (w, h, data) = if width > MAX_IMAGE_DIM || height > MAX_IMAGE_DIM {
        let m = if width >= height {
            width
        } else {
            height
        };
        let nw = binary64_scale(width, m);
        let nh = binary64_scale(height, m);
        proof {
            assert(nw as int * nh as int * 4 <= u32::MAX) by (nonlinear_arith)
                requires
                    nw <= 4096,
                    nh <= 4096,
            ;
        }
        let filtered = box_filter(pixels.as_slice(), width, height, nw, nh);
        (nw, nh, Rc::new(filtered))
    } else {
        (width, height, pixels)
    };
    reg.images.insert(hash, ImageEntry { width: w, height: h, full_res: data, mips: None });
    proof {
        assert(reg.images() =~= registered(old(reg).images(), hash, width, height, pixels@));
        assert(reg.refs() =~= old(reg).refs());
        assert(reg.links() =~= old(reg).links());
    }
}

/// Register image data for rendering. An existing entry for the hash is
/// kept as it is (content addressing); images larger than `MAX_IMAGE_DIM`
/// are box-filtered down. Entries registered this way are pinned: never
/// evicted.
pub fn register_image(reg: &mut ImageRegistry, hash: u64, width: u32, height: u32, pixels: Rc<
    Vec<u8>,
>)
    requires
        old(reg).wf(),
    ensures
        final(reg).wf(),
        final(reg).images() == registered(old(reg).images(), hash, width, height, pixels@),
        final(reg).refs() == old(reg).refs().insert(
            hash,
            (
                if old(reg).refs().contains_key(hash) {
                    old(reg).refs()[hash].0
                } else {
                    0
                },
                true,
            ),
        ),
        final(reg).links() == old(reg).links(),
{
    let count: usize = match reg.refs.get(&hash) {
        Some(e) => e.0,
        None => 0,
    };
    reg.refs.insert(hash, (count, true));
    proof {
        assert(reg.refs() =~= old(reg).refs().insert(hash, (count as nat, true)));
        assert(reg.images() =~= old(reg).images());
        assert(reg.links() =~= old(reg).links());
        assert forall|h: u64| #[trigger] count_of(reg.refs(), h) == linking(reg.links(), h).len() by {
            assert(count_of(reg.refs(), h) == count_of(old(reg).refs(), h));
        }
    }
    register_image_inner(reg, hash, width, height, pixels);
}

/// Register image data owned by element `eid`: the first registration of a
/// hash by an element adds one to the hash's element count.
pub fn register_image_for(
    reg: &mut ImageRegistry,
    eid: u64,
    hash: u64,
    width: u32,
    height: u32,
    pixels: Rc<Vec<u8>>,
)
    requires
        old(reg).wf(),
        old(reg).refs().contains_key(hash) ==> old(reg).refs()[hash].0 < usize::MAX,
    ensures
        final(reg).wf(),
        final(reg).images() == registered(old(reg).images(), hash, width, height, pixels@),
        ({
            let had = old(reg).links().contains_key(eid) && old(reg).links()[eid].contains(hash);
            let before: Seq<u64> = if old(reg).links().contains_key(eid) {
                old(reg).links()[eid]
            } else {
                Seq::empty()
            };
            let count: nat = if old(reg).refs().contains_key(hash) {
                old(reg).refs()[hash].0
            } else {
                0
            };
            let pinned = old(reg).refs().contains_key(hash) && old(reg).refs()[hash].1;
            &&& had ==> final(reg).refs() == old(reg).refs()
            &&& had ==> final(reg).links() == old(reg).links()
            &&& !had ==> final(reg).links() == old(reg).links().insert(eid, before.push(hash))
            &&& !had ==> final(reg).refs() == old(reg).refs().insert(hash, (count + 1, pinned))
        }),
{
    let ghost old_links = reg.links();
    let mut hashes: Vec<u64> = match reg.element_images.remove(&eid) {
        Some(v) => v,
        None => Vec::new(),
    };
    let ghost before = hashes@;
    let mut found = false;
    let mut k: usize = 0;
    while k < hashes.len()
        invariant
            k <= hashes.len(),
            hashes@ == before,
            found <==> exists|j: int| 0 <= j < k && hashes@[j] == hash,
        decreases hashes.len() - k,
    {
        if hashes[k] == hash {
            found = true;
        }
        k = k + 1;
    }
    let newly = !found;
    if newly {
        hashes.push(hash);
    }
    reg.element_images.insert(eid, hashes);
    if newly {
        let (count, pinned) = match reg.refs.get(&hash) {
            Some(e) => *e,
            None => (0usize, false),
        };
        reg.refs.insert(hash, (count + 1, pinned));
    }
    proof {
        if old(reg).links().contains_key(eid) {
            assert(before == old_links[eid]);
        }
        if !newly {
            assert(before.contains(hash));
            assert(reg.links() =~= old(reg).links());
            assert(reg.refs() =~= old(reg).refs());
        } else {
            assert(!before.contains(hash));
            assert(reg.links() =~= old(reg).links().insert(eid, before.push(hash)));
            let b0: Seq<u64> = if old(reg).links().contains_key(eid) {
                old(reg).links()[eid]
            } else {
                Seq::<u64>::empty()
            };
            assert(before == b0);
            assert(reg.links().dom() =~= old(reg).links().dom().insert(eid));
            assert forall|h: u64| #[trigger] count_of(reg.refs(), h) == linking(reg.links(), h).len() by {
                lemma_link_added(old(reg).links(), eid, hash, before, h);
                lemma_linking_finite(old(reg).links(), h);
                assert(count_of(old(reg).refs(), h) == linking(old(reg).links(), h).len());
            }
            assert forall|e: u64| #[trigger] reg.links().contains_key(e) implies reg.links()[
                e
            ].no_duplicates() by {
                if e == eid {
                    assert(old(reg).links().contains_key(eid) ==> before.no_duplicates());
                }
            }
        }
        assert(reg.images() =~= old(reg).images());
    }
    register_image_inner(reg, hash, width, height, pixels);
}

/// Element `id` is torn down: every hash it registered loses one
/// reference; unpinned images nobody references any more are evicted.
pub fn image_teardown_cleanup(reg: &mut ImageRegistry, id: u64)
    requires
        old(reg).wf(),
    ensures
        final(reg).wf(),
        final(reg).links() == old(reg).links().remove(id),
        (final(reg).refs(), final(reg).images()) == if old(reg).links().contains_key(id) {
            release_all((old(reg).refs(), old(reg).images()), old(reg).links()[id])
        } else {
            (old(reg).refs(), old(reg).images())
        },
{
    let hashes = match reg.element_images.remove(&id) {
        Some(v) => v,
        None => {
            proof {
                assert(reg.element_images@ =~= old(reg).element_images@);
                assert(reg.links() =~= old(reg).links().remove(id));
                assert(reg.images() == old(reg).images());
            }
            return ;
        },
    };
    proof {
        assert(reg.links() =~= old(reg).links().remove(id));
        assert(hashes@ == old(reg).links()[id]);
        assert(hashes@.take(0) =~= Seq::<u64>::empty());
    }
    let ghost st0 = (old(reg).refs(), old(reg).images());
    let n = hashes.len();
    let mut k: usize = 0;
    while k < n
        invariant
            n == hashes.len(),
            k <= n,
            reg.shape_ok(),
            old(reg).wf(),
            reg.links() == old(reg).links().remove(id),
            (reg.refs(), reg.images()) == release_all(st0, hashes@.take(k as int)),
        decreases n - k,
    {
        let hash = hashes[k];
        let ghost before = (reg.refs(), reg.images());
        proof {
            assert(hashes@.take(k + 1).drop_last() =~= hashes@.take(k as int));
            assert(hashes@.take(k + 1).last() == hash);
        }
        match reg.refs.remove(&hash) {
            Some(entry) => {
                let (count, pinned) = entry;
                let c = if count >= 1 {
                    count - 1
                } else {
                    0
                };
                if c == 0 && !pinned {
                    reg.images.remove(&hash);
                } else {
                    reg.refs.insert(hash, (c, pinned));
                }
            },
            None => {},
        }
        proof {
            let after = release_hash(before, hash);
            assert(reg.refs() =~= after.0);
            assert(reg.images() =~= after.1);
            assert(reg.links() =~= old(reg).links().remove(id));
        }
        k = k + 1;
    }
    proof {
        assert(hashes@.take(n as int) =~= hashes@);
        let l = old(reg).links()[id];
        assert(reg.links().dom() =~= old(reg).links().dom().remove(id));
        assert forall|h: u64| #[trigger] count_of(reg.refs(), h) == linking(reg.links(), h).len() by {
            lemma_link_removed(old(reg).links(), id, h);
            lemma_linking_finite(old(reg).links(), h);
            assert(count_of(old(reg).refs(), h) == linking(old(reg).links(), h).len());
            if l.contains(h) {
                assert(linking(old(reg).links(), h).contains(id));
            }
            lemma_release_all_at((old(reg).refs(), old(reg).images()), l, h);
        }
    }
}

/// How many live elements reference `hash` (zero when none does).
pub fn image_ref_count(reg: &ImageRegistry, hash: u64) -> (c: usize)
    ensures
        c == count_of(reg.refs(), hash),
{
    match reg.refs.get(&hash) {
        Some(e) => e.0,
        None => 0,
    }
}

/// Sizes of the registry's three tables: (images, reference entries,
/// element links).
pub fn debug_image_registry_sizes(reg: &ImageRegistry) -> (r: (usize, usize, usize))
    ensures
        r.0 == reg.images().len(),
        r.1 == reg.refs().len(),
        r.2 == reg.links().len(),
{
    proof {
        assert(reg.images().dom() =~= reg.images@.dom());
        assert(reg.refs().dom() =~= reg.refs@.dom());
        assert(reg.links().dom() =~= reg.element_images@.dom());
    }
    (reg.images.len(), reg.refs.len(), reg.element_images.len())
}

/// Full-resolution image data by hash.
pub fn lookup_image(reg: &ImageRegistry, hash: u64) -> (r: Option<(u32, u32, Rc<Vec<u8>>)>)
    ensures
        match r {
            Some((w, h, p)) => reg.images().contains_key(hash) && reg.images()[hash] == (
                w,
                h,
                p@,
            ),
            None => !reg.images().contains_key(hash),
        },
{
    match reg.images.get(&hash) {
        Some(e) => Some((e.width, e.height, rc_share(&e.full_res))),
        None => None,
    }
}

/// The mip chain of an image, built on first use and cached.
pub fn lookup_image_mips(reg: &mut ImageRegistry, hash: u64) -> (r: Option<Rc<CpuImageMips>>)
    requires
        old(reg).wf(),
    ensures
        final(reg).wf(),
        final(reg).images() == old(reg).images(),
        final(reg).refs() == old(reg).refs(),
        final(reg).links() == old(reg).links(),
        match r {
            Some(m) => old(reg).images().contains_key(hash) && m.width == old(reg).images()[hash].0
                && m.height == old(reg).images()[hash].1 && is_mip_chain(
                levels_view(m.levels@),
                old(reg).images()[hash].2,
                m.width,
                m.height,
            ),
            None => !old(reg).images().contains_key(hash),
        },
{
    let entry = match reg.images.remove(&hash) {
        Some(e) => e,
        None => {
            proof {
                assert(reg.images@ =~= old(reg).images@);
                assert(reg.images() =~= old(reg).images());
                assert(reg.mips_consistent());
                assert(reg.refs() == old(reg).refs());
                assert(reg.links() == old(reg).links());
            }
            return None;
        },
    };
    proof {
        assert(reg.mips_consistent() ==> true);
        assert(old(reg).images@.contains_key(hash));
    }
    let ImageEntry { width, height, full_res, mips } = entry;
    let result = match mips {
        Some(m) => m,
        None => {
            proof {
                assert(old(reg).images().contains_key(hash));
                assert(old(reg).images()[hash].0 <= MAX_IMAGE_DIM);
                assert(old(reg).images()[hash].1 <= MAX_IMAGE_DIM);
                assert((if width >= 1 {
                    width as int
                } else {
                    1
                }) * (if height >= 1 {
                    height as int
                } else {
                    1
                }) * 4 <= u32::MAX) by (nonlinear_arith)
                    requires
                        width <= 4096,
                        height <= 4096,
                ;
            }
            let levels = build_mip_chain(full_res.as_slice(), width, height);
            proof {
                let lv = levels_view(levels@);
                assert(lv.len() == levels@.len());
                assert forall|i: int| 1 <= i < lv.len() implies #[trigger] lv[i] == box_filtered(
                    lv[i - 1],
                    level_dim(width, (i - 1) as nat) as int,
                    level_dim(height, (i - 1) as nat) as int,
                    level_dim(width, i as nat) as int,
                    level_dim(height, i as nat) as int,
                ) by {
                    assert(lv[i] == levels@[i]@);
                }
            }
            Rc::new(CpuImageMips { width, height, levels })
        },
    };
    let shared = rc_share(&result);
    reg.images.insert(hash, ImageEntry { width, height, full_res, mips: Some(result) });
    proof {
        assert(reg.images() =~= old(reg).images());
        assert(reg.images@.dom() =~= old(reg).images@.dom());
        assert forall|k: u64| #[trigger] reg.images@.contains_key(k) implies match reg.images@[
            k
        ].mips {
            Some(m) => m.width == reg.images@[k].width && m.height == reg.images@[k].height
                && is_mip_chain(levels_view(m.levels@), reg.images@[k].full_res@, m.width, m.height),
            None => true,
        } by {
            if k != hash {
                assert(reg.images@[k] == old(reg).images@[k]);
                assert(old(reg).images@.contains_key(k));
            }
        }
        assert(reg.mips_consistent());
        assert(reg.refs() == old(reg).refs());
        assert(reg.links() == old(reg).links());
    }
    Some(shared)
}

// ── Laws ─────────────────────────────────────────────────────────────

/// A read gives back what a write stored: after registering a new hash
/// with an image within `MAX_IMAGE_DIM`, looking the hash up yields that
/// image unchanged.
pub proof fn lemma_register_then_lookup(
    images: Map<u64, (u32, u32, Seq<u8>)>,
    hash: u64,
    w: u32,
    h: u32,
    pixels: Seq<u8>,
)
    requires
        !images.contains_key(hash),
        w <= MAX_IMAGE_DIM,
        h <= MAX_IMAGE_DIM,
    ensures
        registered(images, hash, w, h, pixels).contains_key(hash),
        registered(images, hash, w, h, pixels)[hash] == (w, h, pixels),
{
}

/// Content addressing: registering a hash that is already present changes
/// nothing.
pub proof fn lemma_register_existing(
    images: Map<u64, (u32, u32, Seq<u8>)>,
    hash: u64,
    w: u32,
    h: u32,
    pixels: Seq<u8>,
)
    requires
        images.contains_key(hash),
    ensures
        registered(images, hash, w, h, pixels) == images,
{
}

/// Pinned images survive teardown: releasing any hashes never evicts an
/// image whose hash is pinned.
pub proof fn lemma_pinned_survive(
    st: (Map<u64, (nat, bool)>, Map<u64, (u32, u32, Seq<u8>)>),
    hashes: Seq<u64>,
    p: u64,
)
    requires
        st.0.contains_key(p),
        st.0[p].1,
        st.1.contains_key(p),
    ensures
        release_all(st, hashes).0.contains_key(p),
        release_all(st, hashes).0[p].1,
        release_all(st, hashes).1.contains_key(p),
        release_all(st, hashes).1[p] == st.1[p],
    decreases hashes.len(),
{
    if hashes.len() > 0 {
        lemma_pinned_survive(st, hashes.drop_last(), p);
    }
}

/// The last reference frees the image: an unpinned hash referenced by
/// exactly one element, torn down once, is evicted with its pixels.
pub proof fn lemma_last_release_evicts(
    st: (Map<u64, (nat, bool)>, Map<u64, (u32, u32, Seq<u8>)>),
    hash: u64,
)
    requires
        st.0.contains_key(hash),
        st.0[hash] == (1nat, false),
    ensures
        !release_hash(st, hash).0.contains_key(hash),
        !release_hash(st, hash).1.contains_key(hash),
{
}

/// Reference counting: in a registry, each hash's element count is the
/// number of live elements whose registrations include it.
pub proof fn lemma_count_is_linking_elements(reg: &ImageRegistry, h: u64)
    requires
        reg.wf(),
    ensures
        count_of(reg.refs(), h) == linking(reg.links(), h).len(),
{
}

/// Tearing down element `id` frees an unpinned image exactly when `id` was
/// the last element whose registrations include it; an image that is
/// pinned, or that another element still references, or that `id` never
/// registered, stays with its pixels.
pub proof fn lemma_teardown_frees_with_last_element(
    refs: Map<u64, (nat, bool)>,
    images: Map<u64, (u32, u32, Seq<u8>)>,
    links: Map<u64, Seq<u64>>,
    id: u64,
    h: u64,
)
    requires
        links.dom().finite(),
        counts_match(refs, links),
        links.contains_key(id),
        links[id].no_duplicates(),
        refs.contains_key(h),
    ensures
        links[id].contains(h) && linking(links, h) == set![id] && !refs[h].1 ==> {
            &&& !release_all((refs, images), links[id]).0.contains_key(h)
            &&& !release_all((refs, images), links[id]).1.contains_key(h)
        },
        !links[id].contains(h) || linking(links, h).remove(id).len() > 0 || refs[h].1 ==> {
            &&& release_all((refs, images), links[id]).1.contains_key(h) == images.contains_key(h)
            &&& images.contains_key(h) ==> release_all((refs, images), links[id]).1[h] == images[h]
        },
{
    let l = links[id];
    lemma_linking_finite(links, h);
    assert(count_of(refs, h) == linking(links, h).len());
    if l.contains(h) {
        assert(linking(links, h).contains(id));
        assert(linking(links, h).len() == linking(links, h).remove(id).len() + 1);
        if linking(links, h) == set![id] {
            assert(set![id].len() == 1) by {
                assert(set![id] =~= Set::<u64>::empty().insert(id));
            }
        }
    }
    lemma_release_all_at((refs, images), l, h);
}

} // verus!
