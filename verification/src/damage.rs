//! Damage-rectangle computation for the CPU backend.
//!
//! [`DamageTracker`] remembers the visual rectangle each element last
//! painted. For every dirty element it damages the area the element paints
//! now and the area it painted before (so moves leave no ghosts), then
//! reduces the set of rectangles: rectangles inside another are dropped,
//! the cheapest pairs are merged until at most `max_rects` remain, a safety
//! margin is added, everything is clamped to the viewport, and overlapping
//! rectangles are merged until the result is pairwise disjoint (overlapping
//! damage would composite translucent commands twice).

use vstd::prelude::*;

use crate::geometry::Rect;
use std::collections::HashMap;

verus! {

broadcast use vstd::std_specs::hash::group_hash_axioms;

/// Anti-aliasing / rounding safety margin, in the unit of the tracked
/// rectangles (logical pixels).
pub const MARGIN: i64 = 3;

// ── Sets of rectangles ───────────────────────────────────────────────

pub open spec fn all_wf(rs: Seq<Rect>) -> bool {
    forall|i: int| 0 <= i < rs.len() ==> (#[trigger] rs[i]).wf()
}

/// Some rectangle of `rs` encloses `r`.
#[verifier::opaque]
pub open spec fn some_encloses(rs: Seq<Rect>, r: Rect) -> bool {
    exists|k: int| 0 <= k < rs.len() && (#[trigger] rs[k]).encloses(r)
}

/// Every rectangle of `inner` lies inside some rectangle of `outer`.
pub open spec fn each_enclosed_by(inner: Seq<Rect>, outer: Seq<Rect>) -> bool {
    forall|j: int| 0 <= j < inner.len() ==> some_encloses(outer, #[trigger] inner[j])
}

/// `r` is one of the rectangles of `rs`.
#[verifier::opaque]
pub open spec fn appears_in(rs: Seq<Rect>, r: Rect) -> bool {
    exists|k: int| 0 <= k < rs.len() && rs[k] == r
}

/// Every rectangle of `out` is one of the rectangles of `src`.
pub open spec fn drawn_from(out: Seq<Rect>, src: Seq<Rect>) -> bool {
    forall|i: int| 0 <= i < out.len() ==> appears_in(src, #[trigger] out[i])
}

/// No rectangle of `rs` lies inside another one of `rs`.
pub open spec fn no_nested(rs: Seq<Rect>) -> bool {
    forall|i: int, j: int|
        0 <= i < rs.len() && 0 <= j < rs.len() && i != j ==> !(#[trigger] rs[j]).encloses(
            #[trigger] rs[i],
        )
}

/// No two rectangles of `rs` share interior area.
pub open spec fn pairwise_disjoint(rs: Seq<Rect>) -> bool {
    forall|i: int, j: int|
        0 <= i < j < rs.len() ==> !(#[trigger] rs[i]).overlaps(#[trigger] rs[j])
}

/// Every rectangle of `rs` lies inside `frame`.
pub open spec fn all_within(rs: Seq<Rect>, frame: Rect) -> bool {
    forall|i: int| 0 <= i < rs.len() ==> frame.encloses(#[trigger] rs[i])
}

/// The pixel lies in some rectangle of `rs`.
pub open spec fn covers_point(rs: Seq<Rect>, px: int, py: int) -> bool {
    exists|i: int| 0 <= i < rs.len() && (#[trigger] rs[i]).has_point(px, py)
}

/// Area added by replacing `a` and `b` with their bounding union.
pub open spec fn merge_increase(a: Rect, b: Rect) -> int {
    a.bounding_union(b).spec_area() - a.spec_area() - b.spec_area() + a.spec_intersection_area(b)
}

// ── The passes, step by step ─────────────────────────────────────────

/// Rectangle `i` of `s` lies inside another one of `s`.
pub open spec fn enclosed_elsewhere(s: Seq<Rect>, i: int) -> bool {
    exists|k: int| 0 <= k < s.len() && k != i && (#[trigger] s[k]).encloses(s[i])
}

/// The containment pass from position `i` on: a rectangle inside another
/// one is replaced by the last rectangle (the list shrinking by one) and
/// its position examined again; otherwise the pass moves on.
pub open spec fn dedup_from(s: Seq<Rect>, i: int) -> Seq<Rect>
    decreases s.len() - i,
{
    if 0 <= i < s.len() {
        if enclosed_elsewhere(s, i) {
            dedup_from(s.update(i, s.last()).drop_last(), i)
        } else {
            dedup_from(s, i + 1)
        }
    } else {
        s
    }
}

/// `p` is the first pair `(i, j)`, `i < j`, whose merge adds the least
/// area.
pub open spec fn is_best_pair(s: Seq<Rect>, p: (int, int)) -> bool {
    &&& 0 <= p.0 < p.1 < s.len()
    &&& forall|a: int, b: int|
        0 <= a < b < s.len() ==> merge_increase(s[p.0], s[p.1]) <= merge_increase(
            #[trigger] s[a],
            #[trigger] s[b],
        )
    &&& forall|a: int, b: int|
        0 <= a < b < s.len() && (a < p.0 || (a == p.0 && b < p.1)) ==> merge_increase(
            s[p.0],
            s[p.1],
        ) < merge_increase(#[trigger] s[a], #[trigger] s[b])
}

/// `s` with rectangles `p.0` and `p.1` replaced by their union, appended.
pub open spec fn merged_pair(s: Seq<Rect>, p: (int, int)) -> Seq<Rect> {
    s.remove(p.1).remove(p.0).push(s[p.0].bounding_union(s[p.1]))
}

/// The merge pass: while more than `max` rectangles remain, merge the
/// first pair whose union adds the least area.
pub open spec fn greedy(s: Seq<Rect>, max: int) -> Seq<Rect>
    decreases s.len(),
{
    if s.len() <= max || s.len() < 2 {
        s
    } else {
        let p = choose|p: (int, int)| is_best_pair(s, p);
        if is_best_pair(s, p) {
            greedy(merged_pair(s, p), max)
        } else {
            s
        }
    }
}

/// `p` is the first pair `(i, j)`, `i < j`, of overlapping rectangles.
pub open spec fn is_first_overlap(s: Seq<Rect>, p: (int, int)) -> bool {
    &&& 0 <= p.0 < p.1 < s.len()
    &&& s[p.0].overlaps(s[p.1])
    &&& forall|a: int, b: int|
        0 <= a < b < s.len() && (a < p.0 || (a == p.0 && b < p.1)) ==> !(#[trigger] s[a]).overlaps(
            #[trigger] s[b],
        )
}

/// The disjointness pass: while two rectangles overlap, the first such pair
/// becomes their union (at the first one's place).
pub open spec fn disjoint_pass(s: Seq<Rect>) -> Seq<Rect>
    decreases s.len(),
{
    if exists|p: (int, int)| is_first_overlap(s, p) {
        let p = choose|p: (int, int)| is_first_overlap(s, p);
        disjoint_pass(s.remove(p.1).update(p.0, s[p.0].bounding_union(s[p.1])))
    } else {
        s
    }
}

/// Rectangle `r` grown by the margin and cut to the viewport, if anything
/// is left.
pub open spec fn margin_clamped(r: Rect, vp: Rect) -> Option<Rect> {
    let x0: int = if r.x - MARGIN >= vp.x {
        r.x - MARGIN
    } else {
        vp.x as int
    };
    let y0: int = if r.y - MARGIN >= vp.y {
        r.y - MARGIN
    } else {
        vp.y as int
    };
    let x1: int = if r.x + r.width + MARGIN <= vp.x + vp.width {
        r.x + r.width + MARGIN
    } else {
        vp.x + vp.width
    };
    let y1: int = if r.y + r.height + MARGIN <= vp.y + vp.height {
        r.y + r.height + MARGIN
    } else {
        vp.y + vp.height
    };
    if x1 > x0 && y1 > y0 {
        Some(Rect { x: x0 as i64, y: y0 as i64, width: (x1 - x0) as i64, height: (y1 - y0) as i64 })
    } else {
        None
    }
}

/// Every rectangle of `s`, in order, grown by the margin and cut to the
/// viewport; those with nothing left are dropped.
pub open spec fn clamp_all(s: Seq<Rect>, vp: Rect) -> Seq<Rect>
    decreases s.len(),
{
    if s.len() == 0 {
        Seq::empty()
    } else {
        clamp_all(s.drop_last(), vp) + match margin_clamped(s.last(), vp) {
            Some(c) => seq![c],
            None => Seq::empty(),
        }
    }
}

/// The damage rectangles reported for the source rectangles: containment
/// pass, merge pass down to `max`, margin and viewport clamp, disjointness
/// pass.
pub open spec fn damage_rects(sources: Seq<Rect>, max: int, vp: Rect) -> Seq<Rect> {
    disjoint_pass(clamp_all(greedy(dedup_from(sources, 0), max), vp))
}

// ── Lemmas ───────────────────────────────────────────────────────────

proof fn lemma_union_within(a: Rect, b: Rect, frame: Rect)
    requires
        frame.encloses(a),
        frame.encloses(b),
    ensures
        frame.encloses(a.bounding_union(b)),
{
}

/// Clipping preserves enclosure.
proof fn lemma_clip_mono(outer: Rect, inner: Rect, clip: Rect)
    requires
        outer.encloses(inner),
        !inner.clipped_to(clip).is_empty_area(),
    ensures
        !outer.clipped_to(clip).is_empty_area(),
        outer.clipped_to(clip).encloses(inner.clipped_to(clip)),
{
}

/// Enclosure by a set of rectangles carries pixel coverage.
pub proof fn lemma_enclosed_points_covered(rs: Seq<Rect>, r: Rect, px: int, py: int)
    requires
        some_encloses(rs, r),
        r.has_point(px, py),
    ensures
        covers_point(rs, px, py),
{
    reveal(some_encloses);
    let k = choose|k: int| 0 <= k < rs.len() && (#[trigger] rs[k]).encloses(r);
    assert(rs[k].has_point(px, py));
}

/// Pairwise disjoint rectangles never cover a pixel twice.
pub proof fn lemma_disjoint_single_cover(rs: Seq<Rect>, i: int, j: int, px: int, py: int)
    requires
        pairwise_disjoint(rs),
        0 <= i < rs.len(),
        0 <= j < rs.len(),
        i != j,
    ensures
        !(rs[i].has_point(px, py) && rs[j].has_point(px, py)),
{
    if i < j {
        assert(!rs[i].overlaps(rs[j]));
    } else {
        assert(!rs[j].overlaps(rs[i]));
    }
}

// ── Reduction steps ──────────────────────────────────────────────────

/// Whether some rectangle other than `rects[i]` encloses `rects[i]`.
pub fn enclosed_by_other(rects: &Vec<Rect>, i: usize) -> (b: bool)
    requires
        i < rects.len(),
    ensures
        b == exists|k: int|
            0 <= k < rects.len() && k != i && (#[trigger] rects@[k]).encloses(rects@[i as int]),
{
    let r = rects[i];
    let mut j: usize = 0;
    while j < rects.len()
        invariant
            j <= rects.len(),
            i < rects.len(),
            r == rects@[i as int],
            forall|k: int| 0 <= k < j && k != i ==> !(#[trigger] rects@[k]).encloses(r),
        decreases rects.len() - j,
    {
        if j != i && rects[j].contains_rect(&r) {
            return true;
        }
        j = j + 1;
    }
    false
}

/// Remove rectangles that lie inside another rectangle of the list.
pub fn deduplicate_contained(rects: Vec<Rect>) -> (out: Vec<Rect>)
    ensures
        out@ == dedup_from(rects@, 0),
        out.len() <= rects.len(),
        drawn_from(out@, rects@),
        each_enclosed_by(rects@, out@),
        no_nested(out@),
{
    let ghost orig = rects@;
    let mut rects = rects;
    proof {
        assert forall|j: int| 0 <= j < orig.len() implies some_encloses(
            rects@,
            #[trigger] orig[j],
        ) by {
            reveal(some_encloses);
            reveal(appears_in);
            assert(rects@[j].encloses(orig[j]));
        }
        assert forall|i: int| 0 <= i < rects@.len() implies appears_in(orig, #[trigger] rects@[i]) by {
            reveal(some_encloses);
            reveal(appears_in);
            assert(rects@[i] == orig[i]);
        }
    }
    let mut i: usize = 0;
    while i < rects.len()
        invariant
            i <= rects.len() <= orig.len(),
            dedup_from(rects@, i as int) == dedup_from(orig, 0),
            drawn_from(rects@, orig),
            each_enclosed_by(orig, rects@),
            forall|a: int, b: int|
                0 <= a < i && 0 <= b < rects.len() && a != b ==> !(#[trigger] rects@[b]).encloses(
                    #[trigger] rects@[a],
                ),
        decreases rects.len() - i,
    {
        let contained = enclosed_by_other(&rects, i);
        if contained {
            let ghost old_v = rects@;
            let ghost last = (old_v.len() - 1) as int;
            let ghost k = choose|k: int|
                0 <= k < old_v.len() && k != i && (#[trigger] old_v[k]).encloses(old_v[i as int]);
            rects.swap_remove(i);
            proof {
                lemma_dedup_step_drawn(orig, old_v, rects@, i as int);
                lemma_dedup_step_cover(orig, old_v, rects@, i as int, k);
                lemma_dedup_step_nested(old_v, rects@, i as int);
            }
        } else {
            i = i + 1;
        }
    }
    rects
}


/// Where the elements go when `swap_remove(i)` turns `old_v` into `new_v`.
proof fn lemma_swap_remove_keeps(old_v: Seq<Rect>, new_v: Seq<Rect>, i: int, m: int)
    requires
        0 <= i < old_v.len(),
        0 <= m < old_v.len(),
        m != i,
        new_v == old_v.update(i, old_v.last()).drop_last(),
    ensures
        appears_in(new_v, old_v[m]),
{
    reveal(appears_in);
    if m < old_v.len() - 1 {
        assert(new_v[m] == old_v[m]);
    } else {
        assert(new_v[i] == old_v[m]);
    }
}

proof fn lemma_dedup_step_drawn(orig: Seq<Rect>, old_v: Seq<Rect>, new_v: Seq<Rect>, i: int)
    requires
        0 <= i < old_v.len(),
        new_v == old_v.update(i, old_v.last()).drop_last(),
        drawn_from(old_v, orig),
    ensures
        drawn_from(new_v, orig),
{
    assert forall|q: int| 0 <= q < new_v.len() implies appears_in(orig, #[trigger] new_v[q]) by {
        reveal(some_encloses);
        reveal(appears_in);
        if q == i {
            assert(new_v[q] == old_v[old_v.len() - 1]);
            assert(appears_in(orig, old_v[old_v.len() - 1]));
        } else {
            assert(new_v[q] == old_v[q]);
            assert(appears_in(orig, old_v[q]));
        }
    }
}

proof fn lemma_dedup_step_cover(orig: Seq<Rect>, old_v: Seq<Rect>, new_v: Seq<Rect>, i: int, k: int)
    requires
        0 <= i < old_v.len(),
        0 <= k < old_v.len(),
        k != i,
        old_v[k].encloses(old_v[i]),
        new_v == old_v.update(i, old_v.last()).drop_last(),
        each_enclosed_by(orig, old_v),
    ensures
        each_enclosed_by(orig, new_v),
{
    assert forall|j: int| 0 <= j < orig.len() implies some_encloses(new_v, #[trigger] orig[j]) by {
        reveal(some_encloses);
        reveal(appears_in);
        assert(some_encloses(old_v, orig[j]));
        let kk = choose|kk: int| 0 <= kk < old_v.len() && (#[trigger] old_v[kk]).encloses(orig[j]);
        let m = if kk == i {
            k
        } else {
            kk
        };
        assert(old_v[m].encloses(orig[j]));
        lemma_swap_remove_keeps(old_v, new_v, i, m);
        let p = choose|p: int| 0 <= p < new_v.len() && new_v[p] == old_v[m];
        assert(new_v[p].encloses(orig[j]));
    }
}

proof fn lemma_dedup_step_nested(old_v: Seq<Rect>, new_v: Seq<Rect>, i: int)
    requires
        0 <= i < old_v.len(),
        new_v == old_v.update(i, old_v.last()).drop_last(),
        forall|a: int, b: int|
            0 <= a < i && 0 <= b < old_v.len() && a != b ==> !(#[trigger] old_v[b]).encloses(
                #[trigger] old_v[a],
            ),
    ensures
        forall|a: int, b: int|
            0 <= a < i && 0 <= b < new_v.len() && a != b ==> !(#[trigger] new_v[b]).encloses(
                #[trigger] new_v[a],
            ),
{
    let last = old_v.len() - 1;
    assert forall|a: int, b: int|
        0 <= a < i && 0 <= b < new_v.len() && a != b implies !(#[trigger] new_v[b]).encloses(
        #[trigger] new_v[a],
    ) by {
        reveal(some_encloses);
        reveal(appears_in);
        assert(new_v[a] == old_v[a]);
        if b == i {
            assert(new_v[b] == old_v[last]);
            assert(!old_v[last].encloses(old_v[a]));
        } else {
            assert(new_v[b] == old_v[b]);
            assert(!old_v[b].encloses(old_v[a]));
        }
    }
}

/// The first pair `(i, j)`, `i < j`, whose merge adds the least area.
pub fn best_merge_pair(rects: &Vec<Rect>) -> (p: (usize, usize))
    requires
        rects.len() >= 2,
        all_wf(rects@),
    ensures
        p.0 < p.1 < rects.len(),
        forall|a: int, b: int|
            0 <= a < b < rects.len() ==> merge_increase(rects@[p.0 as int], rects@[p.1 as int])
                <= merge_increase(#[trigger] rects@[a], #[trigger] rects@[b]),
        forall|a: int, b: int|
            0 <= a < b < rects.len() && (a < p.0 || (a == p.0 && b < p.1)) ==> merge_increase(
                rects@[p.0 as int],
                rects@[p.1 as int],
            ) < merge_increase(#[trigger] rects@[a], #[trigger] rects@[b]),
{
    let n = rects.len();
    let mut best: (usize, usize) = (0, 1);
    let mut best_inc: i128 = merge_increase_exec(&rects[0], &rects[1]);
    let mut i: usize = 0;
    while i < n
        invariant
            n == rects.len(),
            n >= 2,
            all_wf(rects@),
            i <= n,
            best.0 < best.1 < n,
            best_inc == merge_increase(rects@[best.0 as int], rects@[best.1 as int]),
            best.0 < i || (best.0 == 0 && best.1 == 1),
            forall|a: int, b: int|
                0 <= a < b < n && a < i ==> best_inc <= merge_increase(
                    #[trigger] rects@[a],
                    #[trigger] rects@[b],
                ),
            forall|a: int, b: int|
                0 <= a < b < n && a < i && (a < best.0 || (a == best.0 && b < best.1))
                    ==> best_inc < merge_increase(#[trigger] rects@[a], #[trigger] rects@[b]),
        decreases n - i,
    {
        let mut j: usize = i + 1;
        while j < n
            invariant
                n == rects.len(),
                n >= 2,
                all_wf(rects@),
                i < n,
                i + 1 <= j <= n,
                best.0 < best.1 < n,
                best_inc == merge_increase(rects@[best.0 as int], rects@[best.1 as int]),
                best.0 < i || (best.0 == i && best.1 < j) || (best.0 == 0 && best.1 == 1),
                forall|a: int, b: int|
                    0 <= a < b < n && (a < i || (a == i && b < j)) ==> best_inc
                        <= merge_increase(#[trigger] rects@[a], #[trigger] rects@[b]),
                forall|a: int, b: int|
                    0 <= a < b < n && (a < i || (a == i && b < j)) && (a < best.0 || (a == best.0
                        && b < best.1)) ==> best_inc < merge_increase(
                        #[trigger] rects@[a],
                        #[trigger] rects@[b],
                    ),
            decreases n - j,
        {
            let inc = merge_increase_exec(&rects[i], &rects[j]);
            if inc < best_inc {
                best_inc = inc;
                best = (i, j);
            }
            j = j + 1;
        }
        i = i + 1;
    }
    best
}

fn merge_increase_exec(a: &Rect, b: &Rect) -> (inc: i128)
    requires
        a.wf(),
        b.wf(),
    ensures
        inc == merge_increase(*a, *b),
{
    let merged = a.union(b);
    let ma = merged.area();
    let aa = a.area();
    let ba = b.area();
    let ia = a.intersection_area(b);
    proof {
        assert(0 <= a.width * a.height <= 0x1_0000_0000 * 0x1_0000_0000) by (nonlinear_arith)
            requires
                0 <= a.width <= 0x1_0000_0000,
                0 <= a.height <= 0x1_0000_0000,
        ;
        assert(0 <= b.width * b.height <= 0x1_0000_0000 * 0x1_0000_0000) by (nonlinear_arith)
            requires
                0 <= b.width <= 0x1_0000_0000,
                0 <= b.height <= 0x1_0000_0000,
        ;
        assert(0 <= merged.width * merged.height <= 0x1_0000_0000 * 0x1_0000_0000)
            by (nonlinear_arith)
            requires
                0 <= merged.width <= 0x1_0000_0000,
                0 <= merged.height <= 0x1_0000_0000,
        ;
    }
    ma - aa - ba + ia
}

/// There is only one first pair of least merge cost.
proof fn lemma_best_pair_unique(s: Seq<Rect>, p: (int, int), q: (int, int))
    requires
        is_best_pair(s, p),
        is_best_pair(s, q),
    ensures
        p == q,
{
    if p.0 < q.0 || (p.0 == q.0 && p.1 < q.1) {
        assert(merge_increase(s[q.0], s[q.1]) < merge_increase(s[p.0], s[p.1]));
        assert(merge_increase(s[p.0], s[p.1]) <= merge_increase(s[q.0], s[q.1]));
    } else if q.0 < p.0 || (q.0 == p.0 && q.1 < p.1) {
        assert(merge_increase(s[p.0], s[p.1]) < merge_increase(s[q.0], s[q.1]));
        assert(merge_increase(s[q.0], s[q.1]) <= merge_increase(s[p.0], s[p.1]));
    }
}

/// Greedily merge rectangles until at most `max` remain: each step merges
/// the pair whose union adds the least area.
pub fn greedy_merge(rects: &mut Vec<Rect>, max: usize)
    requires
        all_wf(old(rects)@),
        max > 0 || old(rects).len() == 0,
    ensures
        final(rects)@ == greedy(old(rects)@, max as int),
        final(rects).len() == if old(rects).len() > max {
            max as int
        } else {
            old(rects).len() as int
        },
        all_wf(final(rects)@),
        each_enclosed_by(old(rects)@, final(rects)@),
        forall|frame: Rect|
            all_within(old(rects)@, frame) ==> all_within(final(rects)@, frame),
        old(rects).len() <= max ==> final(rects)@ == old(rects)@,
{
    let ghost orig = rects@;
    proof {
        assert forall|j: int| 0 <= j < orig.len() implies some_encloses(
            rects@,
            #[trigger] orig[j],
        ) by {
            reveal(some_encloses);
            reveal(appears_in);
            assert(rects@[j].encloses(orig[j]));
        }
    }
    while rects.len() > max
        invariant
            greedy(rects@, max as int) == greedy(orig, max as int),
            all_wf(rects@),
            max > 0 || orig.len() == 0,
            rects.len() <= orig.len(),
            orig.len() > max ==> rects.len() >= max,
            orig.len() <= max ==> rects@ == orig,
            each_enclosed_by(orig, rects@),
            forall|frame: Rect| all_within(orig, frame) ==> all_within(rects@, frame),
        decreases rects.len(),
    {
        let (i, j) = best_merge_pair(rects);
        let merged = rects[i].union(&rects[j]);
        let ghost old_v = rects@;
        rects.remove(j);
        rects.remove(i);
        rects.push(merged);
        proof {
            lemma_merge_step(orig, old_v, rects@, i as int, j as int, merged);
            let p = choose|p: (int, int)| is_best_pair(old_v, p);
            assert(is_best_pair(old_v, (i as int, j as int)));
            lemma_best_pair_unique(old_v, p, (i as int, j as int));
            assert(rects@ == merged_pair(old_v, (i as int, j as int)));
        }
    }
}

/// Where the elements go when `remove(j)`, `remove(i)` and `push(merged)`
/// turn `old_v` into `new_v`.
proof fn lemma_merge_index(old_v: Seq<Rect>, new_v: Seq<Rect>, i: int, j: int, merged: Rect, q: int)
    requires
        0 <= i < j < old_v.len(),
        new_v == old_v.remove(j).remove(i).push(merged),
        0 <= q < new_v.len(),
    ensures
        new_v.len() == old_v.len() - 1,
        q == old_v.len() - 2 ==> new_v[q] == merged,
        q < old_v.len() - 2 && q < i ==> new_v[q] == old_v[q],
        q < old_v.len() - 2 && i <= q && q + 1 < j ==> new_v[q] == old_v[q + 1],
        q < old_v.len() - 2 && i <= q && q + 1 >= j ==> new_v[q] == old_v[q + 2],
{
}

proof fn lemma_merge_step_keeps(old_v: Seq<Rect>, new_v: Seq<Rect>, i: int, j: int, merged: Rect)
    requires
        0 <= i < j < old_v.len(),
        merged.encloses(old_v[i]),
        merged.encloses(old_v[j]),
        new_v == old_v.remove(j).remove(i).push(merged),
    ensures
        each_enclosed_by(old_v, new_v),
{
    reveal(some_encloses);
    let n = old_v.len();
    assert forall|m: int| 0 <= m < n implies some_encloses(new_v, #[trigger] old_v[m]) by {
        if m == i || m == j {
            lemma_merge_index(old_v, new_v, i, j, merged, n - 2);
            assert(new_v[n - 2].encloses(old_v[m]));
        } else if m < i {
            lemma_merge_index(old_v, new_v, i, j, merged, m);
            assert(new_v[m].encloses(old_v[m]));
        } else if m < j {
            lemma_merge_index(old_v, new_v, i, j, merged, m - 1);
            assert(new_v[m - 1].encloses(old_v[m]));
        } else {
            lemma_merge_index(old_v, new_v, i, j, merged, m - 2);
            assert(new_v[m - 2].encloses(old_v[m]));
        }
    }
}

proof fn lemma_merge_step_within(
    old_v: Seq<Rect>,
    new_v: Seq<Rect>,
    i: int,
    j: int,
    merged: Rect,
    frame: Rect,
)
    requires
        0 <= i < j < old_v.len(),
        merged == old_v[i].bounding_union(old_v[j]),
        new_v == old_v.remove(j).remove(i).push(merged),
        all_within(old_v, frame),
    ensures
        all_within(new_v, frame),
{
    let n = old_v.len();
    assert(frame.encloses(old_v[i]));
    assert(frame.encloses(old_v[j]));
    lemma_union_within(old_v[i], old_v[j], frame);
    assert forall|q: int| 0 <= q < new_v.len() implies frame.encloses(#[trigger] new_v[q]) by {
        lemma_merge_index(old_v, new_v, i, j, merged, q);
    }
}

proof fn lemma_merge_step_wf(old_v: Seq<Rect>, new_v: Seq<Rect>, i: int, j: int, merged: Rect)
    requires
        0 <= i < j < old_v.len(),
        merged.wf(),
        new_v == old_v.remove(j).remove(i).push(merged),
        all_wf(old_v),
    ensures
        all_wf(new_v),
{
    assert forall|q: int| 0 <= q < new_v.len() implies (#[trigger] new_v[q]).wf() by {
        lemma_merge_index(old_v, new_v, i, j, merged, q);
    }
}

/// One merge step of [`greedy_merge`] keeps its loop invariant.
proof fn lemma_merge_step(
    orig: Seq<Rect>,
    old_v: Seq<Rect>,
    new_v: Seq<Rect>,
    i: int,
    j: int,
    merged: Rect,
)
    requires
        0 <= i < j < old_v.len(),
        merged == old_v[i].bounding_union(old_v[j]),
        merged.wf(),
        merged.encloses(old_v[i]),
        merged.encloses(old_v[j]),
        new_v == old_v.remove(j).remove(i).push(merged),
        all_wf(old_v),
        each_enclosed_by(orig, old_v),
        forall|frame: Rect| all_within(orig, frame) ==> all_within(old_v, frame),
    ensures
        new_v.len() == old_v.len() - 1,
        all_wf(new_v),
        each_enclosed_by(orig, new_v),
        forall|frame: Rect| all_within(orig, frame) ==> all_within(new_v, frame),
{
    lemma_merge_step_wf(old_v, new_v, i, j, merged);
    lemma_merge_step_keeps(old_v, new_v, i, j, merged);
    lemma_each_enclosed_trans(orig, old_v, new_v);
    assert forall|frame: Rect| all_within(orig, frame) implies all_within(new_v, frame) by {
        lemma_merge_step_within(old_v, new_v, i, j, merged, frame);
    }
}

/// The first pair `(i, j)`, `i < j`, of rectangles that overlap, if any.
pub fn first_overlapping_pair(rects: &Vec<Rect>) -> (p: Option<(usize, usize)>)
    ensures
        match p {
            Some((i, j)) => {
                &&& i < j < rects.len()
                &&& rects@[i as int].overlaps(rects@[j as int])
                &&& forall|a: int, b: int|
                    0 <= a < b < rects.len() && (a < i || (a == i && b < j)) ==> !(
                    #[trigger] rects@[a]).overlaps(#[trigger] rects@[b])
            },
            None => pairwise_disjoint(rects@),
        },
{
    let n = rects.len();
    let mut i: usize = 0;
    while i < n
        invariant
            n == rects.len(),
            i <= n,
            forall|a: int, b: int|
                0 <= a < b < n && a < i ==> !(#[trigger] rects@[a]).overlaps(
                    #[trigger] rects@[b],
                ),
        decreases n - i,
    {
        let mut j: usize = i + 1;
        while j < n
            invariant
                n == rects.len(),
                i < n,
                i + 1 <= j <= n,
                forall|a: int, b: int|
                    0 <= a < b < n && (a < i || (a == i && b < j)) ==> !(
                    #[trigger] rects@[a]).overlaps(#[trigger] rects@[b]),
            decreases n - j,
        {
            if rects[i].intersects(&rects[j]) {
                return Some((i, j));
            }
            j = j + 1;
        }
        i = i + 1;
    }
    None
}

/// There is only one first overlapping pair.
proof fn lemma_first_overlap_unique(s: Seq<Rect>, p: (int, int), q: (int, int))
    requires
        is_first_overlap(s, p),
        is_first_overlap(s, q),
    ensures
        p == q,
{
    if p.0 < q.0 || (p.0 == q.0 && p.1 < q.1) {
        assert(!s[p.0].overlaps(s[p.1]));
    } else if q.0 < p.0 || (q.0 == p.0 && q.1 < p.1) {
        assert(!s[q.0].overlaps(s[q.1]));
    }
}

/// Merge overlapping pairs until all rectangles are pairwise disjoint.
pub fn make_disjoint(rects: &mut Vec<Rect>)
    requires
        all_wf(old(rects)@),
    ensures
        final(rects)@ == disjoint_pass(old(rects)@),
        pairwise_disjoint(final(rects)@),
        all_wf(final(rects)@),
        final(rects).len() <= old(rects).len(),
        each_enclosed_by(old(rects)@, final(rects)@),
        forall|frame: Rect|
            all_within(old(rects)@, frame) ==> all_within(final(rects)@, frame),
        pairwise_disjoint(old(rects)@) ==> final(rects)@ == old(rects)@,
{
    let ghost orig = rects@;
    proof {
        assert forall|j: int| 0 <= j < orig.len() implies some_encloses(
            rects@,
            #[trigger] orig[j],
        ) by {
            reveal(some_encloses);
            reveal(appears_in);
            assert(rects@[j].encloses(orig[j]));
        }
    }
    loop
        invariant
            disjoint_pass(rects@) == disjoint_pass(orig),
            all_wf(rects@),
            rects.len() <= orig.len(),
            each_enclosed_by(orig, rects@),
            forall|frame: Rect| all_within(orig, frame) ==> all_within(rects@, frame),
            pairwise_disjoint(orig) ==> rects@ == orig,
        ensures
            rects@ == disjoint_pass(orig),
            pairwise_disjoint(rects@),
            all_wf(rects@),
            rects.len() <= orig.len(),
            each_enclosed_by(orig, rects@),
            forall|frame: Rect| all_within(orig, frame) ==> all_within(rects@, frame),
            pairwise_disjoint(orig) ==> rects@ == orig,
        decreases rects.len(),
    {
        match first_overlapping_pair(rects) {
            None => {
                proof {
                    assert(!exists|p: (int, int)| is_first_overlap(rects@, p));
                }
                break ;
            },
            Some((i, j)) => {
                let u = rects[i].union(&rects[j]);
                let ghost old_v = rects@;
                rects.remove(j);
                rects.set(i, u);
                proof {
                    assert(is_first_overlap(old_v, (i as int, j as int)));
                    let p = choose|p: (int, int)| is_first_overlap(old_v, p);
                    lemma_first_overlap_unique(old_v, p, (i as int, j as int));
                    assert(rects@ == old_v.remove(j as int).update(i as int, old_v[i as int].bounding_union(old_v[j as int])));
                    let new_v = rects@;
                    let n = old_v.len();
                    assert(new_v == old_v.remove(j as int).update(i as int, u));
                    assert forall|m: int| 0 <= m < n implies some_encloses(
                        new_v,
                        #[trigger] old_v[m],
                    ) by {
                        reveal(some_encloses);
                        reveal(appears_in);
                        if m == i || m == j {
                            assert(new_v[i as int].encloses(old_v[m]));
                        } else if m < j {
                            assert(new_v[m] == old_v[m]);
                        } else {
                            assert(new_v[m - 1] == old_v[m]);
                        }
                    }
                    assert forall|q: int| 0 <= q < new_v.len() implies (
                    #[trigger] new_v[q]).wf() by {
                        reveal(some_encloses);
                        reveal(appears_in);
                        if q == i {
                        } else if q < j {
                            assert(new_v[q] == old_v[q]);
                        } else {
                            assert(new_v[q] == old_v[q + 1]);
                        }
                    }
                    assert forall|jj: int| 0 <= jj < orig.len() implies some_encloses(
                        new_v,
                        #[trigger] orig[jj],
                    ) by {
                        reveal(some_encloses);
                        reveal(appears_in);
                        assert(some_encloses(old_v, orig[jj]));
                        let kk = choose|kk: int|
                            0 <= kk < old_v.len() && (#[trigger] old_v[kk]).encloses(orig[jj]);
                        assert(some_encloses(new_v, old_v[kk]));
                        let p = choose|p: int|
                            0 <= p < new_v.len() && (#[trigger] new_v[p]).encloses(old_v[kk]);
                        assert(new_v[p].encloses(orig[jj]));
                    }
                    assert forall|frame: Rect| all_within(orig, frame) implies all_within(
                        new_v,
                        frame,
                    ) by {
                        reveal(some_encloses);
                        reveal(appears_in);
                        assert(all_within(old_v, frame));
                        assert(frame.encloses(old_v[i as int]));
                        assert(frame.encloses(old_v[j as int]));
                        lemma_union_within(old_v[i as int], old_v[j as int], frame);
                        assert forall|q: int| 0 <= q < new_v.len() implies frame.encloses(
                            #[trigger] new_v[q],
                        ) by {
                            reveal(some_encloses);
                            reveal(appears_in);
                            if q == i {
                            } else if q < j {
                                assert(new_v[q] == old_v[q]);
                            } else {
                                assert(new_v[q] == old_v[q + 1]);
                            }
                        }
                    }
                    if pairwise_disjoint(orig) {
                        assert(old_v == orig);
                        assert(!old_v[i as int].overlaps(old_v[j as int]));
                    }
                }
            },
        }
    }
}

} // verus!

verus! {

/// The visual footprint an element paints this frame, or `None` when the
/// element is gone.
#[derive(Clone, Copy, Debug, PartialEq, Eq)]
pub struct DirtyVisual {
    pub id: u64,
    pub visual: Option<Rect>,
}

pub open spec fn dirty_wf(d: DirtyVisual) -> bool {
    match d.visual {
        Some(v) => v.wf(),
        None => true,
    }
}

pub open spec fn has_area(r: Rect) -> bool {
    r.width > 0 && r.height > 0
}

/// One dirty element: the rectangles it damages and the updated record of
/// last-painted rectangles. A changed element damages its previous and its
/// current rectangle; a vanished element damages its previous one.
pub open spec fn damage_step(prev: Map<u64, Rect>, d: DirtyVisual) -> (Map<u64, Rect>, Seq<Rect>) {
    match d.visual {
        Some(v) => {
            let from_prev = if prev.contains_key(d.id) && prev[d.id] != v && has_area(prev[d.id]) {
                seq![prev[d.id]]
            } else {
                Seq::<Rect>::empty()
            };
            let from_now = if has_area(v) {
                seq![v]
            } else {
                Seq::<Rect>::empty()
            };
            (prev.insert(d.id, v), from_prev + from_now)
        },
        None => {
            if prev.contains_key(d.id) {
                (
                    prev.remove(d.id),
                    if has_area(prev[d.id]) {
                        seq![prev[d.id]]
                    } else {
                        Seq::<Rect>::empty()
                    },
                )
            } else {
                (prev, Seq::<Rect>::empty())
            }
        },
    }
}

/// All dirty elements in order: the final record and every damaged
/// rectangle.
pub open spec fn damage_sources(prev: Map<u64, Rect>, dirty: Seq<DirtyVisual>) -> (
    Map<u64, Rect>,
    Seq<Rect>,
)
    decreases dirty.len(),
{
    if dirty.len() == 0 {
        (prev, Seq::<Rect>::empty())
    } else {
        let before = damage_sources(prev, dirty.drop_last());
        let step = damage_step(before.0, dirty.last());
        (step.0, before.1 + step.1)
    }
}

/// Remembers the last visual rectangle of every element it has seen.
pub struct DamageTracker {
    prev_visual: HashMap<u64, Rect>,
}

impl View for DamageTracker {
    type V = Map<u64, Rect>;

    closed spec fn view(&self) -> Map<u64, Rect> {
        self.prev_visual@
    }
}

impl Default for DamageTracker {
    fn default() -> (t: DamageTracker)
        ensures
            t@ == Map::<u64, Rect>::empty(),
    {
        DamageTracker::new()
    }
}

impl DamageTracker {
    /// Every remembered rectangle is well formed.
    pub open spec fn wf(&self) -> bool {
        forall|k: u64| self@.contains_key(k) ==> (#[trigger] self@[k]).wf()
    }

    pub fn new() -> (t: DamageTracker)
        ensures
            t@ == Map::<u64, Rect>::empty(),
            t.wf(),
    {
        DamageTracker { prev_visual: HashMap::new() }
    }

    /// Forget tracked state (e.g. after a full-tree rebuild).
    pub fn clear(&mut self)
        ensures
            final(self)@ == Map::<u64, Rect>::empty(),
            final(self).wf(),
    {
        self.prev_visual.clear();
    }

    /// Compute merged, pairwise disjoint damage rectangles for the dirty
    /// elements, clamped to `viewport`. An empty result means nothing needs
    /// repainting.
    pub fn compute(&mut self, dirty: &[DirtyVisual], max_rects: usize, viewport: Rect) -> (out: Vec<
        Rect,
    >)
        requires
            old(self).wf(),
            viewport.wf(),
            forall|k: int| 0 <= k < dirty@.len() ==> dirty_wf(#[trigger] dirty@[k]),
            max_rects > 0 || damage_sources(old(self)@, dirty@).1.len() == 0,
        ensures
            final(self).wf(),
            final(self)@ == damage_sources(old(self)@, dirty@).0,
            out@ == damage_rects(damage_sources(old(self)@, dirty@).1, max_rects as int, viewport),
            pairwise_disjoint(out@),
            all_wf(out@),
            all_within(out@, viewport),
            out.len() <= max_rects,
            damage_sources(old(self)@, dirty@).1.len() == 0 ==> out.len() == 0,
            forall|k: int|
                0 <= k < damage_sources(old(self)@, dirty@).1.len() && !(
                #[trigger] damage_sources(old(self)@, dirty@).1[k]).clipped_to(
                    viewport,
                ).is_empty_area() ==> some_encloses(
                    out@,
                    damage_sources(old(self)@, dirty@).1[k].clipped_to(viewport),
                ),
    {
        let ghost m0 = self@;
        let ghost ds = dirty@;
        let mut rects: Vec<Rect> = Vec::new();
        let n = dirty.len();
        let mut idx: usize = 0;
        proof {
            assert(ds.take(0) =~= Seq::<DirtyVisual>::empty());
        }
        while idx < n
            invariant
                n == dirty.len(),
                ds == dirty@,
                idx <= n,
                forall|k: int| 0 <= k < ds.len() ==> dirty_wf(#[trigger] ds[k]),
                self.wf(),
                all_wf(rects@),
                self@ == damage_sources(m0, ds.take(idx as int)).0,
                rects@ == damage_sources(m0, ds.take(idx as int)).1,
            decreases n - idx,
        {
            let d = dirty[idx];
            let ghost before_map = self@;
            let ghost before_rects = rects@;
            proof {
                assert(ds.take(idx + 1).drop_last() =~= ds.take(idx as int));
                assert(ds.take(idx + 1).last() == d);
                assert(dirty_wf(ds[idx as int]));
            }
            match d.visual {
                Some(visual) => {
                    let prev_opt = self.prev_visual.insert(d.id, visual);
                    match prev_opt {
                        Some(prev) => {
                            if prev != visual && prev.width > 0 && prev.height > 0 {
                                rects.push(prev);
                            }
                        },
                        None => {},
                    }
                    if visual.width > 0 && visual.height > 0 {
                        rects.push(visual);
                    }
                    proof {
                        let step = damage_step(before_map, d);
                        assert(rects@ =~= before_rects + step.1);
                    }
                },
                None => {
                    let prev_opt = self.prev_visual.remove(&d.id);
                    match prev_opt {
                        Some(prev) => {
                            if prev.width > 0 && prev.height > 0 {
                                rects.push(prev);
                            }
                        },
                        None => {},
                    }
                    proof {
                        let step = damage_step(before_map, d);
                        assert(rects@ =~= before_rects + step.1);
                    }
                },
            }
            idx = idx + 1;
        }
        proof {
            assert(ds.take(n as int) =~= ds);
        }
        let ghost src = rects@;
        let mut rects = deduplicate_contained(rects);
        let ghost deduped = rects@;
        proof {
            lemma_drawn_wf(deduped, src);
        }
        greedy_merge(&mut rects, max_rects);
        let ghost merged = rects@;
        let mut out: Vec<Rect> = Vec::new();
        let mut q: usize = 0;
        while q < rects.len()
            invariant
                viewport.wf(),
                all_wf(rects@),
                q <= rects.len(),
                out@ == clamp_all(rects@.take(q as int), viewport),
                out.len() <= q,
                all_wf(out@),
                all_within(out@, viewport),
                forall|p: int|
                    0 <= p < q && !(#[trigger] rects@[p]).clipped_to(viewport).is_empty_area()
                        ==> some_encloses(out@, rects@[p].clipped_to(viewport)),
            decreases rects.len() - q,
        {
            let r = rects[q];
            let x0 = if r.x - MARGIN >= viewport.x {
                r.x - MARGIN
            } else {
                viewport.x
            };
            let y0 = if r.y - MARGIN >= viewport.y {
                r.y - MARGIN
            } else {
                viewport.y
            };
            let x1 = if r.x + r.width + MARGIN <= viewport.x + viewport.width {
                r.x + r.width + MARGIN
            } else {
                viewport.x + viewport.width
            };
            let y1 = if r.y + r.height + MARGIN <= viewport.y + viewport.height {
                r.y + r.height + MARGIN
            } else {
                viewport.y + viewport.height
            };
            let ghost before = out@;
            proof {
                assert(rects@.take(q + 1).drop_last() =~= rects@.take(q as int));
                assert(rects@.take(q + 1).last() == r);
            }
            if x1 > x0 && y1 > y0 {
                let c = Rect::new(x0, y0, x1 - x0, y1 - y0);
                out.push(c);
                proof {
                    lemma_push_keeps_enclosing(before, c);
                    if !r.clipped_to(viewport).is_empty_area() {
                        assert(c.encloses(r.clipped_to(viewport)));
                        lemma_push_encloses(before, c, r.clipped_to(viewport));
                    }
                    assert(margin_clamped(r, viewport) == Some(c));
                    assert(out@ =~= clamp_all(rects@.take(q + 1), viewport));
                }
            } else {
                proof {
                    assert(margin_clamped(r, viewport) is None);
                    assert(out@ =~= clamp_all(rects@.take(q + 1), viewport));
                }
            }
            q = q + 1;
        }
        proof {
            assert(rects@.take(rects@.len() as int) =~= rects@);
        }
        let ghost clamped = out@;
        make_disjoint(&mut out);
        proof {
            lemma_damage_chain(src, deduped, merged, clamped, out@, viewport);
        }
        out
    }
}

/// Well-formedness carries over to rectangles drawn from a well-formed set.
proof fn lemma_drawn_wf(out: Seq<Rect>, src: Seq<Rect>)
    requires
        drawn_from(out, src),
        all_wf(src),
    ensures
        all_wf(out),
{
    reveal(appears_in);
    assert forall|i: int| 0 <= i < out.len() implies (#[trigger] out[i]).wf() by {
        assert(appears_in(src, out[i]));
    }
}

proof fn lemma_push_keeps_enclosing(rs: Seq<Rect>, c: Rect)
    ensures
        forall|r: Rect| some_encloses(rs, r) ==> #[trigger] some_encloses(rs.push(c), r),
{
    reveal(some_encloses);
    assert forall|r: Rect| some_encloses(rs, r) implies #[trigger] some_encloses(rs.push(c), r) by {
        let k = choose|k: int| 0 <= k < rs.len() && (#[trigger] rs[k]).encloses(r);
        assert(rs.push(c)[k] == rs[k]);
    }
}

proof fn lemma_push_encloses(rs: Seq<Rect>, c: Rect, r: Rect)
    requires
        c.encloses(r),
    ensures
        some_encloses(rs.push(c), r),
{
    reveal(some_encloses);
    assert(rs.push(c)[rs.len() as int] == c);
}

/// Enclosure between sets of rectangles is transitive.
pub proof fn lemma_each_enclosed_trans(a: Seq<Rect>, b: Seq<Rect>, c: Seq<Rect>)
    requires
        each_enclosed_by(a, b),
        each_enclosed_by(b, c),
    ensures
        each_enclosed_by(a, c),
{
    reveal(some_encloses);
    assert forall|j: int| 0 <= j < a.len() implies some_encloses(c, #[trigger] a[j]) by {
        assert(some_encloses(b, a[j]));
        let k = choose|k: int| 0 <= k < b.len() && (#[trigger] b[k]).encloses(a[j]);
        assert(some_encloses(c, b[k]));
        let p = choose|p: int| 0 <= p < c.len() && (#[trigger] c[p]).encloses(b[k]);
        assert(c[p].encloses(a[j]));
    }
}

proof fn lemma_damage_chain(
    src: Seq<Rect>,
    deduped: Seq<Rect>,
    merged: Seq<Rect>,
    clamped: Seq<Rect>,
    out: Seq<Rect>,
    viewport: Rect,
)
    requires
        each_enclosed_by(src, deduped),
        each_enclosed_by(deduped, merged),
        forall|p: int|
            0 <= p < merged.len() && !(#[trigger] merged[p]).clipped_to(viewport).is_empty_area()
                ==> some_encloses(clamped, merged[p].clipped_to(viewport)),
        each_enclosed_by(clamped, out),
    ensures
        forall|k: int|
            0 <= k < src.len() && !(#[trigger] src[k]).clipped_to(viewport).is_empty_area()
                ==> some_encloses(out, src[k].clipped_to(viewport)),
{
    lemma_each_enclosed_trans(src, deduped, merged);
    reveal(some_encloses);
    assert forall|k: int|
        0 <= k < src.len() && !(#[trigger] src[k]).clipped_to(viewport).is_empty_area() implies some_encloses(
        out,
        src[k].clipped_to(viewport),
    ) by {
        let s = src[k];
        assert(some_encloses(merged, s));
        let g = choose|g: int| 0 <= g < merged.len() && (#[trigger] merged[g]).encloses(s);
        lemma_clip_mono(merged[g], s, viewport);
        assert(some_encloses(clamped, merged[g].clipped_to(viewport)));
        let c = choose|c: int|
            0 <= c < clamped.len() && (#[trigger] clamped[c]).encloses(
                merged[g].clipped_to(viewport),
            );
        assert(some_encloses(out, clamped[c]));
        let o = choose|o: int| 0 <= o < out.len() && (#[trigger] out[o]).encloses(clamped[c]);
        assert(out[o].encloses(s.clipped_to(viewport)));
    }
}

} // verus!
