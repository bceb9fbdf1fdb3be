//! Paint order of an element's children: by z-index, lowest first, children
//! with equal z-index in document order.

use vstd::prelude::*;

verus! {

/// A child element and its z-index.
pub type ZChild = (u64, i32);

/// Position just after the last entry of `s` whose z-index is at most `z`,
/// found by stepping back from the end past entries with a larger z-index.
pub open spec fn insert_pos(s: Seq<ZChild>, z: i32) -> nat
    decreases s.len(),
{
    if s.len() == 0 {
        0
    } else if s.last().1 > z {
        insert_pos(s.drop_last(), z)
    } else {
        s.len()
    }
}

/// `e` placed into the z-ordered `s` after every entry with z-index at most
/// its own.
pub open spec fn insert_by_z(s: Seq<ZChild>, e: ZChild) -> Seq<ZChild> {
    s.take(insert_pos(s, e.1) as int).push(e) + s.skip(insert_pos(s, e.1) as int)
}

/// Children in paint order: each child in document order is placed after
/// every earlier child whose z-index is at most its own.
pub open spec fn z_order(s: Seq<ZChild>) -> Seq<ZChild>
    decreases s.len(),
{
    if s.len() == 0 {
        s
    } else {
        insert_by_z(z_order(s.drop_last()), s.last())
    }
}

/// z-indices never decrease along `s`.
pub open spec fn z_nondecreasing(s: Seq<ZChild>) -> bool {
    forall|i: int, j: int| 0 <= i <= j < s.len() ==> s[i].1 <= s[j].1
}

/// The entry has z-index `c`.
pub open spec fn z_is(c: i32) -> spec_fn(ZChild) -> bool {
    |e: ZChild| e.1 == c
}

/// The entries of `s` with z-index `c`, in their order in `s`.
pub open spec fn with_z(s: Seq<ZChild>, c: i32) -> Seq<ZChild> {
    s.filter(z_is(c))
}

proof fn lemma_insert_pos(s: Seq<ZChild>, z: i32)
    requires
        z_nondecreasing(s),
    ensures
        insert_pos(s, z) <= s.len(),
        forall|i: int| 0 <= i < insert_pos(s, z) ==> s[i].1 <= z,
        forall|i: int| insert_pos(s, z) <= i < s.len() ==> s[i].1 > z,
    decreases s.len(),
{
    if s.len() > 0 {
        if s.last().1 > z {
            let d = s.drop_last();
            assert(z_nondecreasing(d));
            lemma_insert_pos(d, z);
            assert forall|i: int| 0 <= i < insert_pos(s, z) implies s[i].1 <= z by {
                assert(s[i] == d[i]);
            }
            assert forall|i: int| insert_pos(s, z) <= i < s.len() implies s[i].1 > z by {
                if i < s.len() - 1 {
                    assert(s[i] == d[i]);
                }
            }
        } else {
            assert forall|i: int| 0 <= i < insert_pos(s, z) implies s[i].1 <= z by {
                assert(s[i].1 <= s[s.len() - 1].1);
            }
        }
    }
}

proof fn lemma_filter_none(s: Seq<ZChild>, pred: spec_fn(ZChild) -> bool)
    requires
        forall|i: int| 0 <= i < s.len() ==> !pred(s[i]),
    ensures
        s.filter(pred) == Seq::<ZChild>::empty(),
    decreases s.len(),
{
    reveal_with_fuel(Seq::filter, 1);
    if s.len() > 0 {
        lemma_filter_none(s.drop_last(), pred);
    }
}

proof fn lemma_insert_by_z(s: Seq<ZChild>, e: ZChild, c: i32)
    requires
        z_nondecreasing(s),
    ensures
        z_nondecreasing(insert_by_z(s, e)),
        insert_by_z(s, e).len() == s.len() + 1,
        with_z(insert_by_z(s, e), c) == with_z(s.push(e), c),
{
    let k = insert_pos(s, e.1) as int;
    lemma_insert_pos(s, e.1);
    let pre = s.take(k);
    let post = s.skip(k);
    let r = insert_by_z(s, e);
    assert(r =~= pre.push(e) + post);
    assert forall|i: int, j: int| 0 <= i <= j < r.len() implies r[i].1 <= r[j].1 by {
        if j < k {
            assert(r[i] == s[i] && r[j] == s[j]);
        } else if j == k {
            if i < k {
                assert(r[i] == s[i]);
            }
        } else {
            assert(r[j] == s[j - 1]);
            if i < k {
                assert(r[i] == s[i]);
            } else if i > k {
                assert(r[i] == s[i - 1]);
            }
        }
    }
    let pred = z_is(c);
    assert(s =~= pre + post);
    Seq::filter_distributes_over_add(pre.push(e), post, pred);
    Seq::filter_distributes_over_add(pre, post, pred);
    reveal_with_fuel(Seq::filter, 1);
    assert((pre.push(e)).drop_last() =~= pre);
    assert(s.push(e).drop_last() =~= s);
    if e.1 == c {
        assert forall|i: int| 0 <= i < post.len() implies !pred(post[i]) by {
            assert(post[i] == s[k + i]);
        }
        lemma_filter_none(post, pred);
        assert(post.filter(pred) + Seq::<ZChild>::empty() =~= post.filter(pred));
        assert(pre.filter(pred).push(e) + Seq::<ZChild>::empty() =~= pre.filter(pred).push(e));
        assert(s.filter(pred) == pre.filter(pred) + post.filter(pred));
        assert(pre.filter(pred) + Seq::<ZChild>::empty() =~= pre.filter(pred));
    }
}

/// Paint order has non-decreasing z-indices.
pub proof fn lemma_z_order_sorted(s: Seq<ZChild>)
    ensures
        z_nondecreasing(z_order(s)),
        z_order(s).len() == s.len(),
    decreases s.len(),
{
    if s.len() > 0 {
        lemma_z_order_sorted(s.drop_last());
        lemma_insert_by_z(z_order(s.drop_last()), s.last(), 0);
    }
}

/// Paint order keeps document order among children of equal z-index: for
/// every z-index, the children with it come in the same order as in the
/// document (so paint order is a stable reordering of the children).
pub proof fn lemma_z_order_stable(s: Seq<ZChild>, c: i32)
    ensures
        with_z(z_order(s), c) == with_z(s, c),
    decreases s.len(),
{
    if s.len() > 0 {
        let d = s.drop_last();
        let e = s.last();
        lemma_z_order_stable(d, c);
        lemma_z_order_sorted(d);
        lemma_insert_by_z(z_order(d), e, c);
        assert(z_order(s) == insert_by_z(z_order(d), e));
        reveal_with_fuel(Seq::filter, 1);
        assert(z_order(d).push(e).drop_last() =~= z_order(d));
        assert(z_order(d).push(e).last() == e);
        assert(with_z(z_order(d).push(e), c) == if z_is(c)(e) {
            with_z(z_order(d), c).push(e)
        } else {
            with_z(z_order(d), c)
        });
        assert(with_z(s, c) == if z_is(c)(e) {
            with_z(d, c).push(e)
        } else {
            with_z(d, c)
        });
    }
}

proof fn lemma_insert_pos_suffix(s: Seq<ZChild>, k: int, z: i32)
    requires
        0 <= k <= s.len(),
        forall|j: int| k <= j < s.len() ==> s[j].1 > z,
    ensures
        insert_pos(s, z) == insert_pos(s.take(k), z),
    decreases s.len() - k,
{
    if k < s.len() {
        assert(s.drop_last().take(k) =~= s.take(k));
        lemma_insert_pos_suffix(s.drop_last(), k, z);
    } else {
        assert(s.take(k) =~= s);
    }
}

/// Order children for painting: by z-index, lowest first, children with
/// equal z-index in document order. Returns the child ids.
pub fn z_sorted_children(children: &[ZChild]) -> (ids: Vec<u64>)
    ensures
        ids@ == z_order(children@).map_values(|e: ZChild| e.0),
{
    let mut out: Vec<ZChild> = Vec::new();
    let n = children.len();
    let mut i: usize = 0;
    while i < n
        invariant
            n == children@.len(),
            i <= n,
            out@ == z_order(children@.take(i as int)),
            z_nondecreasing(out@),
            out@.len() == i,
        decreases n - i,
    {
        let e = children[i];
        let mut k = out.len();
        while k > 0 && out[k - 1].1 > e.1
            invariant
                k <= out@.len(),
                forall|j: int| k <= j < out@.len() ==> out@[j].1 > e.1,
            decreases k,
        {
            k = k - 1;
        }
        proof {
            lemma_insert_pos_suffix(out@, k as int, e.1);
            if k > 0 {
                assert(out@.take(k as int).drop_last() =~= out@.take(k - 1));
            }
            assert(insert_pos(out@, e.1) == k);
            let s = children@.take(i + 1);
            assert(s.drop_last() =~= children@.take(i as int));
            assert(s.last() == e);
            lemma_insert_by_z(out@, e, 0);
        }
        let ghost before = out@;
        out.insert(k, e);
        proof {
            assert(out@ =~= insert_by_z(before, e));
        }
        i = i + 1;
    }
    proof {
        assert(children@.take(n as int) =~= children@);
    }
    let mut ids: Vec<u64> = Vec::new();
    let mut j: usize = 0;
    while j < n
        invariant
            n == out@.len(),
            j <= n,
            ids@.len() == j,
            forall|q: int| 0 <= q < j ==> #[trigger] ids@[q] == out@[q].0,
        decreases n - j,
    {
        ids.push(out[j].0);
        j = j + 1;
    }
    proof {
        assert(ids@ =~= out@.map_values(|e: ZChild| e.0));
    }
    ids
}

/// A cached child order is reused only while it lists exactly the current
/// children, in the same order.
pub fn sorted_cache_matches(cached: &[u64], children: &[u64]) -> (b: bool)
    ensures
        b == (cached@ == children@),
{
    if cached.len() != children.len() {
        return false;
    }
    let mut i: usize = 0;
    while i < cached.len()
        invariant
            cached@.len() == children@.len(),
            i <= cached@.len(),
            forall|q: int| 0 <= q < i ==> cached@[q] == children@[q],
        decreases cached@.len() - i,
    {
        if cached[i] != children[i] {
            return false;
        }
        i = i + 1;
    }
    proof {
        assert(cached@ =~= children@);
    }
    true
}

} // verus!
