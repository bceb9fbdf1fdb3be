//! Cache of drop-shadow templates for the CPU backend.
//!
//! A template is built once per key (element size or the size-independent
//! nine-patch marker, corner radii, blur and colour) and reused; at most
//! `MAX_ENTRIES` templates are kept, and when a new one is needed in a full
//! cache the least recently used one is dropped first.

use vstd::prelude::*;
use std::rc::Rc;

verus! {

/// Most templates the cache holds.
pub const MAX_ENTRIES: usize = 32;

/// What a shadow template is built for: the exact device size (or `0, 0`
/// for the nine-patch entry), the corner radii and blur as raw bits, and the
/// colour.
#[derive(Clone, Copy, Debug)]
pub struct ShadowKey {
    pub ew: u32,
    pub eh: u32,
    pub radii: [u32; 4],
    pub blur: u32,
    pub color: [u8; 4],
}

fn same_key(a: &ShadowKey, b: &ShadowKey) -> (r: bool)
    ensures
        r == (*a == *b),
{
    let r = a.ew == b.ew && a.eh == b.eh && a.blur == b.blur && a.radii[0] == b.radii[0]
        && a.radii[1] == b.radii[1] && a.radii[2] == b.radii[2] && a.radii[3] == b.radii[3]
        && a.color[0] == b.color[0] && a.color[1] == b.color[1] && a.color[2] == b.color[2]
        && a.color[3] == b.color[3];
    proof {
        if r {
            assert(a.radii =~= b.radii);
            assert(a.color =~= b.color);
        }
    }
    r
}

struct ShadowEntry<P> {
    key: ShadowKey,
    patch: Rc<P>,
    last_used: u64,
}

/// A cached template and the tick it was last used at.
pub type ShadowRecord<P> = (Rc<P>, u64);

spec fn has_key<P>(s: Seq<ShadowEntry<P>>, k: ShadowKey) -> bool {
    exists|i: int| 0 <= i < s.len() && #[trigger] s[i].key == k
}

spec fn key_index<P>(s: Seq<ShadowEntry<P>>, k: ShadowKey) -> int {
    choose|i: int| 0 <= i < s.len() && #[trigger] s[i].key == k
}

spec fn record_map<P>(s: Seq<ShadowEntry<P>>) -> Map<ShadowKey, ShadowRecord<P>> {
    Map::new(
        |k: ShadowKey| has_key(s, k),
        |k: ShadowKey| (s[key_index(s, k)].patch, s[key_index(s, k)].last_used),
    )
}

spec fn keys_distinct<P>(s: Seq<ShadowEntry<P>>) -> bool {
    forall|i: int, j: int| 0 <= i < j < s.len() ==> s[i].key != s[j].key
}

proof fn lemma_record_at<P>(s: Seq<ShadowEntry<P>>, i: int)
    requires
        keys_distinct(s),
        0 <= i < s.len(),
    ensures
        record_map(s).contains_key(s[i].key),
        record_map(s)[s[i].key] == (s[i].patch, s[i].last_used),
{
    assert(has_key(s, s[i].key));
    let j = key_index(s, s[i].key);
    assert(0 <= j < s.len() && s[j].key == s[i].key);
    if j < i {
        assert(s[j].key != s[i].key);
    }
    if i < j {
        assert(s[i].key != s[j].key);
    }
}

proof fn lemma_record_count<P>(s: Seq<ShadowEntry<P>>)
    requires
        keys_distinct(s),
    ensures
        record_map(s).dom().finite(),
        record_map(s).dom().len() == s.len(),
{
    let ks = s.map_values(|e: ShadowEntry<P>| e.key);
    assert(ks.no_duplicates()) by {
        assert forall|i: int, j: int| 0 <= i < ks.len() && 0 <= j < ks.len() && i != j implies ks[i]
            != ks[j] by {
            if i < j {
                assert(s[i].key != s[j].key);
            } else {
                assert(s[j].key != s[i].key);
            }
        }
    }
    ks.unique_seq_to_set();
    assert(record_map(s).dom() =~= ks.to_set()) by {
        assert forall|k: ShadowKey| record_map(s).dom().contains(k) implies ks.to_set().contains(k) by {
            let i = key_index(s, k);
            assert(ks[i] == k);
        }
        assert forall|k: ShadowKey| ks.to_set().contains(k) implies record_map(s).dom().contains(k) by {
            let i = choose|i: int| 0 <= i < ks.len() && ks[i] == k;
            assert(s[i].key == k);
        }
    }
}

proof fn lemma_record_update<P>(s: Seq<ShadowEntry<P>>, i: int, e: ShadowEntry<P>)
    requires
        keys_distinct(s),
        0 <= i < s.len(),
        e.key == s[i].key,
    ensures
        keys_distinct(s.update(i, e)),
        record_map(s.update(i, e)) == record_map(s).insert(e.key, (e.patch, e.last_used)),
{
    let t = s.update(i, e);
    assert(keys_distinct(t)) by {
        assert forall|a: int, b: int| 0 <= a < b < t.len() implies t[a].key != t[b].key by {
            assert(s[a].key != s[b].key);
        }
    }
    assert forall|k: ShadowKey| #[trigger] record_map(t).contains_key(k) == record_map(s).insert(
        e.key,
        (e.patch, e.last_used),
    ).contains_key(k) by {
        if has_key(t, k) {
            let j = key_index(t, k);
            assert(s[j].key == k);
        }
        if has_key(s, k) {
            let j = key_index(s, k);
            assert(t[j].key == k);
        }
    }
    assert forall|k: ShadowKey| #[trigger] record_map(t).contains_key(k) implies record_map(t)[k]
        == record_map(s).insert(e.key, (e.patch, e.last_used))[k] by {
        let j = key_index(t, k);
        lemma_record_at(t, j);
        if k != e.key {
            assert(j != i);
            lemma_record_at(s, j);
        }
    }
    assert(record_map(t) =~= record_map(s).insert(e.key, (e.patch, e.last_used)));
}

proof fn lemma_record_remove<P>(s: Seq<ShadowEntry<P>>, i: int)
    requires
        keys_distinct(s),
        0 <= i < s.len(),
    ensures
        keys_distinct(s.remove(i)),
        record_map(s.remove(i)) == record_map(s).remove(s[i].key),
{
    let t = s.remove(i);
    let d = s[i].key;
    assert(keys_distinct(t)) by {
        assert forall|a: int, b: int| 0 <= a < b < t.len() implies t[a].key != t[b].key by {
            let a2 = if a < i { a } else { a + 1 };
            let b2 = if b < i { b } else { b + 1 };
            assert(t[a] == s[a2] && t[b] == s[b2]);
            assert(s[a2].key != s[b2].key);
        }
    }
    assert forall|k: ShadowKey| #[trigger] record_map(t).contains_key(k) == record_map(s).remove(
        d,
    ).contains_key(k) by {
        if has_key(t, k) {
            let j = key_index(t, k);
            let j2 = if j < i { j } else { j + 1 };
            assert(s[j2].key == k);
            assert(j2 != i);
            if k == d {
                if j2 < i {
                    assert(s[j2].key != s[i].key);
                } else {
                    assert(s[i].key != s[j2].key);
                }
            }
        }
        if has_key(s, k) && k != d {
            let j = key_index(s, k);
            assert(j != i);
            let j1 = if j < i { j } else { j - 1 };
            assert(t[j1].key == k);
        }
    }
    assert forall|k: ShadowKey| #[trigger] record_map(t).contains_key(k) implies record_map(t)[k]
        == record_map(s).remove(d)[k] by {
        let j = key_index(t, k);
        lemma_record_at(t, j);
        let j2 = if j < i { j } else { j + 1 };
        assert(t[j] == s[j2]);
        lemma_record_at(s, j2);
    }
    assert(record_map(t) =~= record_map(s).remove(d));
}

proof fn lemma_record_push<P>(s: Seq<ShadowEntry<P>>, e: ShadowEntry<P>)
    requires
        keys_distinct(s),
        !has_key(s, e.key),
    ensures
        keys_distinct(s.push(e)),
        record_map(s.push(e)) == record_map(s).insert(e.key, (e.patch, e.last_used)),
{
    let t = s.push(e);
    assert(keys_distinct(t)) by {
        assert forall|a: int, b: int| 0 <= a < b < t.len() implies t[a].key != t[b].key by {
            if b == s.len() {
                assert(t[a] == s[a]);
            } else {
                assert(s[a].key != s[b].key);
            }
        }
    }
    assert forall|k: ShadowKey| #[trigger] record_map(t).contains_key(k) == record_map(s).insert(
        e.key,
        (e.patch, e.last_used),
    ).contains_key(k) by {
        if has_key(t, k) {
            let j = key_index(t, k);
            if j < s.len() {
                assert(s[j].key == k);
            }
        }
        if has_key(s, k) {
            let j = key_index(s, k);
            assert(t[j].key == k);
        }
        if k == e.key {
            assert(t[s.len() as int].key == k);
        }
    }
    assert forall|k: ShadowKey| #[trigger] record_map(t).contains_key(k) implies record_map(t)[k]
        == record_map(s).insert(e.key, (e.patch, e.last_used))[k] by {
        let j = key_index(t, k);
        lemma_record_at(t, j);
        if j < s.len() {
            assert(t[j] == s[j]);
            lemma_record_at(s, j);
        }
    }
    assert(record_map(t) =~= record_map(s).insert(e.key, (e.patch, e.last_used)));
}

/// `base` is `pre` when `pre` is not full; otherwise `pre` without one of
/// its least recently used templates.
pub open spec fn made_room<P>(
    pre: Map<ShadowKey, ShadowRecord<P>>,
    base: Map<ShadowKey, ShadowRecord<P>>,
) -> bool {
    if pre.dom().len() < MAX_ENTRIES {
        base == pre
    } else {
        exists|d: ShadowKey|
            #![trigger pre.remove(d)]
            pre.contains_key(d) && base == pre.remove(d) && forall|k: ShadowKey|
                #[trigger] pre.contains_key(k) ==> pre[d].1 <= pre[k].1
    }
}

/// Shadow templates by key, with a use counter.
pub struct ShadowCache<P> {
    entries: Vec<ShadowEntry<P>>,
    tick: u64,
}

impl<P> ShadowCache<P> {
    /// The cached templates with the tick each was last used at.
    pub closed spec fn entries(&self) -> Map<ShadowKey, ShadowRecord<P>> {
        record_map(self.entries@)
    }

    /// The use counter.
    pub closed spec fn tick(&self) -> u64 {
        self.tick
    }

    /// At most `MAX_ENTRIES` templates, each key once.
    pub closed spec fn wf(&self) -> bool {
        &&& keys_distinct(self.entries@)
        &&& self.entries@.len() <= MAX_ENTRIES
    }

    /// A well-formed cache holds at most `MAX_ENTRIES` templates.
    pub proof fn lemma_bounded(&self)
        requires
            self.wf(),
        ensures
            self.entries().dom().finite(),
            self.entries().dom().len() <= MAX_ENTRIES,
    {
        lemma_record_count(self.entries@);
    }

    pub fn new() -> (c: ShadowCache<P>)
        ensures
            c.wf(),
            c.entries() == Map::<ShadowKey, ShadowRecord<P>>::empty(),
            c.tick() == 0,
    {
        let c = ShadowCache { entries: Vec::new(), tick: 0 };
        proof {
            assert(c.entries() =~= Map::<ShadowKey, ShadowRecord<P>>::empty());
        }
        c
    }

    fn find(&self, key: &ShadowKey) -> (r: Option<usize>)
        ensures
            r matches Some(i) ==> i < self.entries@.len() && self.entries@[i as int].key == *key,
            r is None ==> !has_key(self.entries@, *key),
    {
        let mut i: usize = 0;
        while i < self.entries.len()
            invariant
                i <= self.entries@.len(),
                forall|j: int| 0 <= j < i ==> #[trigger] self.entries@[j].key != *key,
            decreases self.entries@.len() - i,
        {
            if same_key(&self.entries[i].key, key) {
                return Some(i);
            }
            i = i + 1;
        }
        None
    }

    /// Index of a least recently used template.
    fn oldest(&self) -> (r: usize)
        requires
            self.entries@.len() > 0,
        ensures
            r < self.entries@.len(),
            forall|j: int|
                0 <= j < self.entries@.len() ==> self.entries@[r as int].last_used
                    <= #[trigger] self.entries@[j].last_used,
    {
        let mut best: usize = 0;
        let mut i: usize = 1;
        while i < self.entries.len()
            invariant
                1 <= i <= self.entries@.len(),
                best < i,
                forall|j: int|
                    0 <= j < i ==> self.entries@[best as int].last_used
                        <= #[trigger] self.entries@[j].last_used,
            decreases self.entries@.len() - i,
        {
            if self.entries[i].last_used < self.entries[best].last_used {
                best = i;
            }
            i = i + 1;
        }
        best
    }

    /// The template for `key`: the cached one, or else the one `build`
    /// gives, cached after a least recently used template is dropped from
    /// a full cache (the drop happens even when `build` gives nothing). The
    /// use counter advances by one, and the template returned is marked as
    /// used at the new count.
    pub fn get_or_build<F>(&mut self, key: ShadowKey, build: F) -> (r: Option<Rc<P>>) where
        F: FnOnce() -> Option<P>,
        requires
            old(self).wf(),
            old(self).tick() < u64::MAX,
            !old(self).entries().contains_key(key) ==> call_requires(build, ()),
        ensures
            final(self).wf(),
            final(self).tick() == old(self).tick() + 1,
            old(self).entries().contains_key(key) ==> r == Some(old(self).entries()[key].0)
                && final(self).entries() == old(self).entries().insert(
                key,
                (old(self).entries()[key].0, final(self).tick()),
            ),
            !old(self).entries().contains_key(key) ==> exists|g: Option<P>|
                #[trigger] call_ensures(build, (), g) && match g {
                    None => r is None && made_room(old(self).entries(), final(self).entries()),
                    Some(p) => r matches Some(rc) && *rc == p && final(self).entries().contains_key(
                        key,
                    ) && final(self).entries()[key] == (rc, final(self).tick()) && made_room(
                        old(self).entries(),
                        final(self).entries().remove(key),
                    ),
                },
    {
        self.tick = self.tick + 1;
        let tick = self.tick;
        proof {
            lemma_record_count(self.entries@);
        }
        match self.find(&key) {
            Some(i) => {
                let patch = Rc::clone(&self.entries[i].patch);
                let e = ShadowEntry { key, patch: Rc::clone(&patch), last_used: tick };
                proof {
                    lemma_record_at(self.entries@, i as int);
                    lemma_record_update(self.entries@, i as int, e);
                }
                self.entries.set(i, e);
                return Some(patch);
            },
            None => {},
        }
        let ghost pre = self.entries@;
        if self.entries.len() >= MAX_ENTRIES {
            let d = self.oldest();
            proof {
                lemma_record_remove(pre, d as int);
                lemma_record_at(pre, d as int);
                let dk = pre[d as int].key;
                assert forall|k: ShadowKey| #[trigger] record_map(pre).contains_key(k) implies record_map(
                    pre,
                )[dk].1 <= record_map(pre)[k].1 by {
                    let j = key_index(pre, k);
                    lemma_record_at(pre, j);
                }
                assert(record_map(pre.remove(d as int)) == record_map(pre).remove(dk));
            }
            self.entries.remove(d);
        }
        let ghost base = self.entries@;
        proof {
            assert(made_room(record_map(pre), record_map(base)));
            assert(!has_key(base, key)) by {
                if has_key(base, key) {
                    let j = key_index(base, key);
                    assert(record_map(base).contains_key(key));
                }
            }
        }
        let built = build();
        let p = match built {
            Some(p) => p,
            None => {
                return None;
            },
        };
        let patch = Rc::new(p);
        let e = ShadowEntry { key, patch: Rc::clone(&patch), last_used: tick };
        proof {
            lemma_record_push(base, e);
            lemma_record_count(base);
            assert(record_map(base.push(e)).remove(key) =~= record_map(base));
        }
        self.entries.push(e);
        Some(patch)
    }
}

} // verus!
