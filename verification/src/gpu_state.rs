//! Bookkeeping decisions of the GPU renderer: when the persistent frame
//! targets must be (re)built, how far a vertex or index buffer grows, which
//! cached path meshes are dropped at the end of a frame, which image
//! texture makes room for a new one, and how texture rows are padded for
//! upload.

use vstd::prelude::*;
use std::collections::HashMap;
use vstd::arithmetic::power2::pow2;

verus! {

broadcast use vstd::std_specs::hash::group_hash_axioms;

/// Size at which the persistent targets must be (re)built: the configured
/// surface size, unless there is no surface, it is empty, or the targets
/// already have that size.
pub open spec fn rebuild_size(config: Option<(u32, u32)>, current: Option<(u32, u32)>) -> Option<
    (u32, u32),
> {
    match config {
        None => None,
        Some((w, h)) => if w == 0 || h == 0 || current == Some((w, h)) {
            None
        } else {
            Some((w, h))
        },
    }
}

/// Decide whether the persistent frame targets (multisampled target,
/// resolve target, effect snapshot and blur ping-pong textures) must be
/// rebuilt, given the configured surface size and the size they have.
pub fn persistent_target_size(config: Option<(u32, u32)>, current: Option<(u32, u32)>) -> (r: Option<
    (u32, u32),
>)
    ensures
        r == rebuild_size(config, current),
{
    match config {
        None => None,
        Some((w, h)) => {
            if w == 0 || h == 0 {
                return None;
            }
            match current {
                Some((cw, ch)) => if cw == w && ch == h {
                    None
                } else {
                    Some((w, h))
                },
                None => Some((w, h)),
            }
        },
    }
}

/// `x` is a power of two.
pub open spec fn is_pow2(x: nat) -> bool {
    exists|k: nat| x == pow2(k)
}

/// Smallest power of two at least `x` (what std's
/// `u64::next_power_of_two` returns).
fn next_pow2(x: u64) -> (r: u64)
    requires
        x <= 0x8000_0000_0000_0000,
    ensures
        is_pow2(r as nat),
        r >= x,
        r >= 1,
        x >= 1 ==> r < 2 * x,
{
    let mut p: u64 = 1;
    let ghost mut k: nat = 0;
    proof {
        vstd::arithmetic::power2::lemma2_to64();
    }
    while p < x
        invariant
            x <= 0x8000_0000_0000_0000,
            p >= 1,
            p == pow2(k),
            p > 1 ==> p < 2 * x,
        decreases 0x1_0000_0000_0000_0000 - p,
    {
        proof {
            vstd::arithmetic::power2::lemma_pow2_unfold(k + 1);
        }
        p = p * 2;
        proof {
            k = k + 1;
        }
    }
    p
}

/// Capacity a buffer of capacity `cap` must be re-created with to hold
/// `required` bytes: `None` when it already fits; otherwise the next power
/// of two, at least 256.
pub fn grown_capacity(cap: u64, required: u64) -> (r: Option<u64>)
    requires
        required <= 0x8000_0000_0000_0000,
    ensures
        cap >= required ==> r is None,
        cap < required ==> (r matches Some(n) && n >= required && n >= 256 && is_pow2(n as nat)
            && (n == 256 || n < 2 * required)),
{
    if cap >= required {
        return None;
    }
    let p = next_pow2(required);
    if p >= 256 {
        Some(p)
    } else {
        proof {
            vstd::arithmetic::power2::lemma2_to64();
            assert(256 == pow2(8));
        }
        Some(256)
    }
}

/// Entries to be dropped below this frame at a trim.
pub open spec fn kept_since<V>(m: Map<u64, (V, u64)>, threshold: u64) -> Map<u64, (V, u64)> {
    Map::new(|k: u64| m.contains_key(k) && m[k].1 >= threshold, |k: u64| m[k])
}

/// The cache after the end-of-frame trim at frame `frame` (already
/// advanced): every 30th frame, entries unused for more than 60 frames go;
/// then, while more than 256 entries remain, entries unused for more than
/// 30 frames go.
pub open spec fn trimmed<V>(m: Map<u64, (V, u64)>, frame: u64) -> Map<u64, (V, u64)> {
    let a = if frame % 30 == 0 {
        kept_since(m, if frame >= 60 { (frame - 60) as u64 } else { 0 })
    } else {
        m
    };
    if a.dom().len() > MAX_PATH_MESHES {
        kept_since(a, if frame >= 30 { (frame - 30) as u64 } else { 0 })
    } else {
        a
    }
}

/// Hard limit on cached path meshes before the stricter trim.
pub const MAX_PATH_MESHES: usize = 256;

/// Tessellated path meshes by content hash, with the frame each was last
/// used in.
pub struct PathMeshCache<V> {
    entries: HashMap<u64, (V, u64)>,
    frame: u64,
}

impl<V> PathMeshCache<V> {
    /// Cached meshes with their last-used frame.
    pub closed spec fn entries(&self) -> Map<u64, (V, u64)> {
        self.entries@
    }

    /// The current frame number.
    pub closed spec fn frame(&self) -> u64 {
        self.frame
    }

    pub fn new() -> (c: PathMeshCache<V>)
        ensures
            c.entries() == Map::<u64, (V, u64)>::empty(),
            c.frame() == 0,
    {
        PathMeshCache { entries: HashMap::new(), frame: 0 }
    }

    /// The mesh cached for `key`, marked as used this frame.
    pub fn get(&mut self, key: u64) -> (r: Option<&V>)
        ensures
            final(self).frame() == old(self).frame(),
            old(self).entries().contains_key(key) ==> final(self).entries() == old(
                self,
            ).entries().insert(key, (old(self).entries()[key].0, old(self).frame())) && r
                == Some(&old(self).entries()[key].0),
            !old(self).entries().contains_key(key) ==> final(self).entries() == old(
                self,
            ).entries() && r is None,
    {
        match self.entries.remove(&key) {
            Some((v, _)) => {
                self.entries.insert(key, (v, self.frame));
                match self.entries.get(&key) {
                    Some(e) => Some(&e.0),
                    None => None,
                }
            },
            None => None,
        }
    }

    /// Cache `mesh` for `key`, used this frame.
    pub fn insert(&mut self, key: u64, mesh: V)
        ensures
            final(self).frame() == old(self).frame(),
            final(self).entries() == old(self).entries().insert(key, (mesh, old(self).frame())),
    {
        self.entries.insert(key, (mesh, self.frame));
    }

    /// Drop every entry last used before `threshold`.
    fn retain_since(&mut self, threshold: u64)
        ensures
            final(self).frame() == old(self).frame(),
            final(self).entries() == kept_since(old(self).entries(), threshold),
    {
        let ghost f0 = self.frame;
        let mut stale: Vec<u64> = Vec::new();
        for item in it: self.entries.iter()
            invariant
                forall|j: int|
                    0 <= j < it.seq().len() ==> self.entries@.contains_key(
                        *(#[trigger] it.seq()[j]).0,
                    ) && self.entries@[*it.seq()[j].0] == *it.seq()[j].1,
                forall|k: u64| #[trigger]
                    self.entries@.contains_key(k) ==> exists|j: int|
                        0 <= j < it.seq().len() && *it.seq()[j].0 == k,
                forall|q: int|
                    0 <= q < stale@.len() ==> self.entries@.contains_key(#[trigger] stale@[q])
                        && self.entries@[stale@[q]].1 < threshold,
                forall|j: int|
                    0 <= j < it.index() && (#[trigger] it.seq()[j]).1.1 < threshold
                        ==> stale@.contains(*it.seq()[j].0),
        {
            let (k, e) = item;
            let ghost s0 = stale@;
            if e.1 < threshold {
                stale.push(*k);
                proof {
                    assert(stale@[stale@.len() - 1] == *k);
                }
            }
            proof {
                assert forall|x: u64| s0.contains(x) implies stale@.contains(x) by {
                    let q = choose|q: int| 0 <= q < s0.len() && s0[q] == x;
                    assert(stale@[q] == x);
                }
            }
        }
        let ghost m0 = self.entries@;
        proof {
            assert forall|k: u64| m0.contains_key(k) && m0[k].1 < threshold implies stale@.contains(
                k,
            ) by {
                assert(m0.contains_key(k));
            }
        }
        let n = stale.len();
        let mut i: usize = 0;
        while i < n
            invariant
                n == stale@.len(),
                i <= n,
                forall|q: int|
                    0 <= q < n ==> m0.contains_key(#[trigger] stale@[q]) && m0[stale@[q]].1
                        < threshold,
                forall|k: u64| m0.contains_key(k) && m0[k].1 < threshold ==> stale@.contains(k),
                forall|k: u64|
                    #[trigger] self.entries@.contains_key(k) <==> (m0.contains_key(k) && forall|q: int|
                        0 <= q < i ==> stale@[q] != k),
                forall|k: u64| #[trigger] self.entries@.contains_key(k) ==> self.entries@[k] == m0[k],
                self.frame == f0,
            decreases n - i,
        {
            let k = stale[i];
            self.entries.remove(&k);
            i = i + 1;
        }
        proof {
            assert forall|k: u64| #[trigger] self.entries@.contains_key(k) <==> kept_since(
                m0,
                threshold,
            ).contains_key(k) by {
                if m0.contains_key(k) && m0[k].1 < threshold {
                    assert(stale@.contains(k));
                    let q = choose|q: int| 0 <= q < stale@.len() && stale@[q] == k;
                    assert(stale@[q] == k);
                }
            }
            assert(self.entries@ =~= kept_since(m0, threshold));
        }
    }

    /// End-of-frame trim: advance the frame; every 30th frame drop meshes
    /// unused for more than 60 frames; then, above 256 meshes, drop those
    /// unused for more than 30 frames.
    pub fn end_frame(&mut self)
        requires
            old(self).frame() < u64::MAX,
        ensures
            final(self).frame() == old(self).frame() + 1,
            final(self).entries() == trimmed(old(self).entries(), final(self).frame()),
    {
        self.frame = self.frame + 1;
        if self.frame % 30 == 0 {
            let t = self.frame.saturating_sub(60);
            self.retain_since(t);
        }
        proof {
            assert(self.entries@.dom() =~= self.entries@.dom());
        }
        if self.entries.len() > MAX_PATH_MESHES {
            let t = self.frame.saturating_sub(30);
            self.retain_since(t);
        }
    }
}


// ── Image textures ───────────────────────────────────────────────────

/// Most image textures kept on the GPU.
pub const MAX_GPU_IMAGES: usize = 64;

/// `base` is `pre` when `pre` is not full; otherwise `pre` without one of
/// its least recently used entries.
pub open spec fn made_room<T>(pre: Map<u64, (T, u64)>, base: Map<u64, (T, u64)>) -> bool {
    if pre.dom().len() < MAX_GPU_IMAGES {
        base == pre
    } else {
        exists|d: u64|
            #![trigger pre.remove(d)]
            pre.contains_key(d) && base == pre.remove(d) && forall|k: u64|
                #[trigger] pre.contains_key(k) ==> pre[d].1 <= pre[k].1
    }
}

/// `m` with every entry whose key is in `keys` marked as used in `frame`.
pub open spec fn touched<T>(m: Map<u64, (T, u64)>, keys: Seq<u64>, frame: u64) -> Map<u64, (T, u64)> {
    Map::new(
        |k: u64| m.contains_key(k),
        |k: u64|
            if keys.contains(k) {
                (m[k].0, frame)
            } else {
                m[k]
            },
    )
}

/// Uploaded image textures by image hash, with the frame each was last
/// drawn in.
pub struct TextureCache<T> {
    entries: HashMap<u64, (T, u64)>,
    frame: u64,
}

impl<T> TextureCache<T> {
    /// Cached textures with their last-used frame.
    pub closed spec fn entries(&self) -> Map<u64, (T, u64)> {
        self.entries@
    }

    /// The current frame number.
    pub closed spec fn frame(&self) -> u64 {
        self.frame
    }

    /// At most `MAX_GPU_IMAGES` textures.
    pub open spec fn wf(&self) -> bool {
        self.entries().dom().len() <= MAX_GPU_IMAGES
    }

    pub fn new() -> (c: TextureCache<T>)
        ensures
            c.wf(),
            c.entries() == Map::<u64, (T, u64)>::empty(),
            c.frame() == 0,
    {
        TextureCache { entries: HashMap::new(), frame: 0 }
    }

    /// Start a frame.
    pub fn begin_frame(&mut self)
        requires
            old(self).frame() < u64::MAX,
        ensures
            final(self).frame() == old(self).frame() + 1,
            final(self).entries() == old(self).entries(),
    {
        self.frame = self.frame + 1;
    }

    /// The key of a least recently used entry.
    fn oldest(&self) -> (r: Option<u64>)
        ensures
            r matches Some(k) ==> self.entries().contains_key(k) && forall|j: u64|
                #[trigger] self.entries().contains_key(j) ==> self.entries()[k].1
                    <= self.entries()[j].1,
            r is None ==> self.entries().dom().len() == 0,
    {
        let mut best: Option<u64> = None;
        let mut best_frame: u64 = 0;
        for item in it: self.entries.iter()
            invariant
                best matches Some(k) ==> self.entries@.contains_key(k) && self.entries@[k].1
                    == best_frame,
                best is None <==> it.index() == 0,
                it.seq().len() == self.entries@.dom().len(),
                forall|j: int| 0 <= j < it.index() ==> best_frame <= (#[trigger] it.seq()[j]).1.1,
                forall|j: int|
                    0 <= j < it.seq().len() ==> self.entries@.contains_key(
                        *(#[trigger] it.seq()[j]).0,
                    ) && self.entries@[*it.seq()[j].0] == *it.seq()[j].1,
                forall|k: u64| #[trigger]
                    self.entries@.contains_key(k) ==> exists|j: int|
                        0 <= j < it.seq().len() && *it.seq()[j].0 == k,
        {
            let (k, e) = item;
            if best.is_none() || e.1 < best_frame {
                best = Some(*k);
                best_frame = e.1;
            }
        }
        best
    }

    /// Make sure the image `hash` has a texture: a missing one is uploaded
    /// by `upload` and marked as used this frame, after a least recently
    /// used texture is dropped from a full cache (the drop happens even
    /// when `upload` gives nothing). A cached one is left as it is.
    pub fn ensure<F>(&mut self, hash: u64, upload: F) where F: FnOnce() -> Option<T>
        requires
            old(self).wf(),
            !old(self).entries().contains_key(hash) ==> call_requires(upload, ()),
        ensures
            final(self).wf(),
            final(self).frame() == old(self).frame(),
            old(self).entries().contains_key(hash) ==> final(self).entries() == old(self).entries(),
            !old(self).entries().contains_key(hash) ==> exists|g: Option<T>|
                #[trigger] call_ensures(upload, (), g) && match g {
                    None => made_room(old(self).entries(), final(self).entries()),
                    Some(t) => exists|base: Map<u64, (T, u64)>|
                        made_room(old(self).entries(), base) && #[trigger] base.insert(
                            hash,
                            (t, old(self).frame()),
                        ) == final(self).entries(),
                },
    {
        if self.entries.contains_key(&hash) {
            return ;
        }
        let ghost pre = self.entries@;
        if self.entries.len() >= MAX_GPU_IMAGES {
            match self.oldest() {
                Some(k) => {
                    self.entries.remove(&k);
                    proof {
                        assert(made_room(pre, self.entries@));
                    }
                },
                None => {},
            }
        }
        let ghost base = self.entries@;
        proof {
            assert(made_room(pre, base));
            assert(base.dom().len() < MAX_GPU_IMAGES);
        }
        let uploaded = upload();
        match uploaded {
            Some(t) => {
                self.entries.insert(hash, (t, self.frame));
                proof {
                    assert(!base.contains_key(hash));
                    assert(self.entries@.dom() =~= base.dom().insert(hash));
                }
            },
            None => {},
        }
    }

    /// The texture of image `hash`, if cached.
    pub fn get(&self, hash: u64) -> (r: Option<&T>)
        ensures
            r == if self.entries().contains_key(hash) {
                Some(&self.entries()[hash].0)
            } else {
                None
            },
    {
        match self.entries.get(&hash) {
            Some(e) => Some(&e.0),
            None => None,
        }
    }

    /// Mark the cached textures of the images drawn this frame as used now.
    pub fn touch(&mut self, hashes: &[u64])
        ensures
            final(self).frame() == old(self).frame(),
            final(self).entries() == touched(old(self).entries(), hashes@, old(self).frame()),
    {
        let ghost m0 = self.entries@;
        let mut i: usize = 0;
        while i < hashes.len()
            invariant
                i <= hashes@.len(),
                self.frame == old(self).frame(),
                m0 == old(self).entries(),
                self.entries@ == touched(m0, hashes@.subrange(0, i as int), self.frame),
            decreases hashes@.len() - i,
        {
            let h = hashes[i];
            let ghost before = self.entries@;
            match self.entries.remove(&h) {
                Some((t, _)) => {
                    self.entries.insert(h, (t, self.frame));
                },
                None => {},
            }
            proof {
                let done = hashes@.subrange(0, i + 1);
                assert(done =~= hashes@.subrange(0, i as int).push(h));
                assert forall|k: u64| done.contains(k) <==> (hashes@.subrange(0, i as int).contains(
                    k,
                ) || k == h) by {
                    if done.contains(k) && k != h {
                        let q = choose|q: int| 0 <= q < done.len() && done[q] == k;
                        assert(hashes@.subrange(0, i as int)[q] == k);
                    }
                    if hashes@.subrange(0, i as int).contains(k) {
                        let q = choose|q: int|
                            0 <= q < i && hashes@.subrange(0, i as int)[q] == k;
                        assert(done[q] == k);
                    }
                    if k == h {
                        assert(done[i as int] == k);
                    }
                }
                assert(self.entries@ =~= touched(m0, done, self.frame));
            }
            i = i + 1;
        }
        proof {
            assert(hashes@.subrange(0, hashes@.len() as int) =~= hashes@);
        }
    }
}

// ── Texture upload layout ────────────────────────────────────────────

/// Bytes per row of a `width`-texel RGBA8 row, rounded up to the 256-byte
/// row alignment that texture copies require.
pub open spec fn padded_row_bytes(width: int) -> int {
    (width * 4 + 255) / 256 * 256
}

/// Bytes per row of a `width`-texel RGBA8 row padded to 256 bytes.
pub fn padded_bpr(width: u32) -> (r: u32)
    requires
        width * 4 + 255 <= u32::MAX,
    ensures
        r == padded_row_bytes(width as int),
        r % 256 == 0,
        width * 4 <= r < width * 4 + 256,
{
    let bpr = width * 4;
    let v = bpr + 255;
    let r = v & !255u32;
    proof {
        assert(v & !255u32 == v - v % 256) by (bit_vector);
        assert((v - v % 256) == v / 256 * 256);
    }
    r
}

/// Byte `k` of an `lh`-row upload with rows of `src_bpr` bytes padded to
/// `dst_bpr`: the level's bytes row by row, each row followed by zeros.
pub open spec fn padded_byte(level: Seq<u8>, src_bpr: int, dst_bpr: int, k: int) -> u8 {
    if k % dst_bpr < src_bpr {
        level[(k / dst_bpr) * src_bpr + k % dst_bpr]
    } else {
        0
    }
}

/// Copy `lh` rows of `src_bpr` bytes into rows of `dst_bpr` bytes, padding
/// each row with zeros.
pub fn pad_rows(level: &[u8], src_bpr: u32, dst_bpr: u32, lh: u32) -> (r: Vec<u8>)
    requires
        src_bpr <= dst_bpr,
        0 < dst_bpr,
        src_bpr * lh <= level@.len(),
        dst_bpr * lh <= usize::MAX,
    ensures
        r@.len() == dst_bpr * lh,
        forall|k: int| 0 <= k < r@.len() ==> #[trigger] r@[k] == padded_byte(
            level@,
            src_bpr as int,
            dst_bpr as int,
            k,
        ),
{
    let mut padded: Vec<u8> = Vec::with_capacity((dst_bpr as usize) * (lh as usize));
    let llen = level.len();
    let mut row: u32 = 0;
    while row < lh
        invariant
            llen == level@.len(),
            row <= lh,
            src_bpr <= dst_bpr,
            0 < dst_bpr,
            src_bpr * lh <= level@.len(),
            dst_bpr * lh <= usize::MAX,
            padded@.len() == dst_bpr * row,
            forall|k: int| 0 <= k < padded@.len() ==> #[trigger] padded@[k] == padded_byte(
                level@,
                src_bpr as int,
                dst_bpr as int,
                k,
            ),
        decreases lh - row,
    {
        proof {
            assert(dst_bpr * row + dst_bpr <= dst_bpr * lh) by (nonlinear_arith)
                requires
                    row < lh,
            ;
            assert(src_bpr * row + src_bpr <= src_bpr * lh) by (nonlinear_arith)
                requires
                    row < lh,
            ;
            assert((row as int) * (src_bpr as int) == src_bpr * row) by (nonlinear_arith);
        }
        let start = (row as usize) * (src_bpr as usize);
        let base = padded.len();
        let mut j: usize = 0;
        while j < dst_bpr as usize
            invariant
                j <= dst_bpr,
                src_bpr <= dst_bpr,
                0 < dst_bpr,
                base == dst_bpr * row,
                start == src_bpr * row,
                start + src_bpr <= level@.len(),
                llen == level@.len(),
                padded@.len() == base + j,
                forall|k: int| 0 <= k < padded@.len() ==> #[trigger] padded@[k] == padded_byte(
                    level@,
                    src_bpr as int,
                    dst_bpr as int,
                    k,
                ),
            decreases dst_bpr - j,
        {
            let b = if j < src_bpr as usize {
                level[start + j]
            } else {
                0u8
            };
            proof {
                let k = base + j;
                crate::grid::lemma_cell(dst_bpr as int, j as int, row as int);
                assert(k == row * dst_bpr + j) by (nonlinear_arith)
                    requires
                        k == base + j,
                        base == dst_bpr * row,
                ;
                assert(start + j == row * src_bpr + j) by (nonlinear_arith)
                    requires
                        start == src_bpr * row,
                ;
            }
            padded.push(b);
            j = j + 1;
        }
        row = row + 1;
        proof {
            assert(padded@.len() == dst_bpr * row) by (nonlinear_arith)
                requires
                    padded@.len() == base + dst_bpr,
                    base == dst_bpr * (row - 1),
            ;
        }
    }
    padded
}

} // verus!
