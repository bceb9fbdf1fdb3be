//! Pass schedule of the GPU renderer's persistent frame.
//!
//! Surfaces are drawn as z layers (ascending z), each with the text areas of
//! its z. Backdrop-blur regions and blend effects need a snapshot of what is
//! below them, so they split the layers into segments: the layers up to the
//! next backdrop or effect z are drawn, then the backdrops at that z (one
//! pass each), then the effects at that z (one pass), and so on.

use vstd::prelude::*;

verus! {

/// One step of the persistent-frame schedule.
#[derive(Clone, Copy, Debug, PartialEq, Eq, Structural)]
pub enum GpuPass {
    /// Draw surface layers `start .. end`, each with its text areas.
    Layers { start: usize, end: usize },
    /// Snapshot and blur the backdrop, then composite backdrop region `index`.
    Backdrop { index: usize },
    /// Snapshot the target and draw blend effects `start .. end`.
    Effects { start: usize, end: usize },
}

/// The first index from `i` on whose value is not `z` (or the length).
pub open spec fn run_end(s: Seq<i32>, i: int, z: i32) -> int
    decreases s.len() - i,
{
    if 0 <= i < s.len() && s[i] == z {
        run_end(s, i + 1, z)
    } else {
        i
    }
}

/// The z of the next backdrop or effect: the smaller of the two heads.
pub open spec fn boundary(ez: Seq<i32>, bz: Seq<i32>, ei: int, bi: int) -> Option<i32> {
    if 0 <= ei < ez.len() && 0 <= bi < bz.len() {
        if ez[ei] <= bz[bi] {
            Some(ez[ei])
        } else {
            Some(bz[bi])
        }
    } else if 0 <= ei < ez.len() {
        Some(ez[ei])
    } else if 0 <= bi < bz.len() {
        Some(bz[bi])
    } else {
        None
    }
}

/// The end of the segment of layers from `li`: the first layer above the
/// boundary, or all remaining layers when there is no boundary.
pub open spec fn seg_end(lz: Seq<i32>, li: int, bound: Option<i32>) -> int
    decreases lz.len() - li,
{
    if 0 <= li < lz.len() {
        match bound {
            Some(z) => if lz[li] > z {
                li
            } else {
                seg_end(lz, li + 1, bound)
            },
            None => seg_end(lz, li + 1, bound),
        }
    } else {
        li
    }
}

/// A run ends within the sequence, past its first element when that has
/// the value, and covers only that value.
pub proof fn lemma_run_end_bounds(s: Seq<i32>, i: int, z: i32)
    requires
        0 <= i <= s.len(),
    ensures
        i <= run_end(s, i, z) <= s.len(),
        i < s.len() && s[i] == z ==> run_end(s, i, z) > i,
        forall|k: int| i <= k < run_end(s, i, z) ==> #[trigger] s[k] == z,
        run_end(s, i, z) < s.len() ==> s[run_end(s, i, z)] != z,
    decreases s.len() - i,
{
    if i < s.len() && s[i] == z {
        lemma_run_end_bounds(s, i + 1, z);
    }
}

/// A segment ends within the layers, covers only layers at or below the
/// boundary, and stops at the first layer above it.
pub proof fn lemma_seg_end_bounds(lz: Seq<i32>, li: int, bound: Option<i32>)
    requires
        0 <= li <= lz.len(),
    ensures
        li <= seg_end(lz, li, bound) <= lz.len(),
        bound is None ==> seg_end(lz, li, bound) == lz.len(),
        forall|k: int|
            li <= k < seg_end(lz, li, bound) ==> (bound matches Some(z) ==> #[trigger] lz[k] <= z),
        seg_end(lz, li, bound) < lz.len() ==> (bound matches Some(z) && lz[seg_end(lz, li, bound)]
            > z),
    decreases lz.len() - li,
{
    if li < lz.len() {
        match bound {
            Some(z) => if lz[li] <= z {
                lemma_seg_end_bounds(lz, li + 1, bound);
            },
            None => lemma_seg_end_bounds(lz, li + 1, bound),
        }
    }
}

/// The pass drawing layers `li .. se`, if there are any.
pub open spec fn layers_part(li: int, se: int) -> Seq<GpuPass> {
    if se > li {
        seq![GpuPass::Layers { start: li as usize, end: se as usize }]
    } else {
        Seq::empty()
    }
}

/// One pass for each backdrop `bi .. be`.
pub open spec fn backs_part(bi: int, be: int) -> Seq<GpuPass> {
    Seq::new((be - bi) as nat, |k: int| GpuPass::Backdrop { index: (bi + k) as usize })
}

/// The pass drawing effects `ei .. ee`, if there are any.
pub open spec fn effs_part(ei: int, ee: int) -> Seq<GpuPass> {
    if ee > ei {
        seq![GpuPass::Effects { start: ei as usize, end: ee as usize }]
    } else {
        Seq::empty()
    }
}

/// What remains to be done from layer `li`, effect `ei`, backdrop `bi`.
pub open spec fn schedule_from(
    lz: Seq<i32>,
    ez: Seq<i32>,
    bz: Seq<i32>,
    li: int,
    ei: int,
    bi: int,
) -> Seq<GpuPass>
    decreases (lz.len() - li) + (ez.len() - ei) + (bz.len() - bi),
{
    if !(0 <= li <= lz.len() && 0 <= ei <= ez.len() && 0 <= bi <= bz.len()) {
        Seq::empty()
    } else {
        let b = boundary(ez, bz, ei, bi);
        let se = seg_end(lz, li, b);
        match b {
            None => layers_part(li, se),
            Some(z) => {
                let be = run_end(bz, bi, z);
                let ee = run_end(ez, ei, z);
                proof {
                    lemma_seg_end_bounds(lz, li, b);
                    lemma_run_end_bounds(bz, bi, z);
                    lemma_run_end_bounds(ez, ei, z);
                }
                layers_part(li, se) + backs_part(bi, be) + effs_part(ei, ee) + schedule_from(
                    lz,
                    ez,
                    bz,
                    se,
                    ee,
                    be,
                )
            },
        }
    }
}

/// The whole schedule for layers at `lz`, effects at `ez` and backdrops at
/// `bz` (in the order they were collected).
pub open spec fn schedule(lz: Seq<i32>, ez: Seq<i32>, bz: Seq<i32>) -> Seq<GpuPass> {
    schedule_from(lz, ez, bz, 0, 0, 0)
}

fn run_end_exec(s: &[i32], i: usize, z: i32) -> (r: usize)
    requires
        i <= s@.len(),
    ensures
        r == run_end(s@, i as int, z),
{
    let mut k = i;
    while k < s.len() && s[k] == z
        invariant
            i <= k <= s@.len(),
            run_end(s@, i as int, z) == run_end(s@, k as int, z),
        decreases s@.len() - k,
    {
        k = k + 1;
    }
    k
}

/// Interleave the surface layers (z of each, ascending), blend effects and
/// backdrop regions (z of each) into the pass schedule of one frame.
#[verifier::spinoff_prover]
pub fn schedule_passes(layer_z: &[i32], effect_z: &[i32], backdrop_z: &[i32]) -> (r: Vec<GpuPass>)
    ensures
        r@ == schedule(layer_z@, effect_z@, backdrop_z@),
{
    let ghost (lz, ez, bz) = (layer_z@, effect_z@, backdrop_z@);
    let mut out: Vec<GpuPass> = Vec::new();
    let mut li: usize = 0;
    let mut ei: usize = 0;
    let mut bi: usize = 0;
    loop
        invariant_except_break
            out@ + schedule_from(lz, ez, bz, li as int, ei as int, bi as int) == schedule(lz, ez, bz),
        invariant
            li <= lz.len(),
            ei <= ez.len(),
            bi <= bz.len(),
            lz == layer_z@,
            ez == effect_z@,
            bz == backdrop_z@,
        ensures
            out@ == schedule(lz, ez, bz),
        decreases (lz.len() - li) + (ez.len() - ei) + (bz.len() - bi),
    {
        let ghost rest = schedule_from(lz, ez, bz, li as int, ei as int, bi as int);
        let bound: Option<i32> = if ei < effect_z.len() && bi < backdrop_z.len() {
            if effect_z[ei] <= backdrop_z[bi] {
                Some(effect_z[ei])
            } else {
                Some(backdrop_z[bi])
            }
        } else if ei < effect_z.len() {
            Some(effect_z[ei])
        } else if bi < backdrop_z.len() {
            Some(backdrop_z[bi])
        } else {
            None
        };
        assert(bound == boundary(ez, bz, ei as int, bi as int));
        if bound.is_none() && li >= layer_z.len() {
            proof {
                assert(rest =~= Seq::<GpuPass>::empty());
                assert(out@ + rest =~= out@);
            }
            break;
        }
        let mut se = li;
        while se < layer_z.len()
            invariant
                li <= se <= lz.len(),
                lz == layer_z@,
                seg_end(lz, li as int, bound) == seg_end(lz, se as int, bound),
            ensures
                li <= se <= lz.len(),
                seg_end(lz, li as int, bound) == se,
            decreases lz.len() - se,
        {
            match bound {
                Some(z) => {
                    if layer_z[se] > z {
                        break;
                    }
                },
                None => {},
            }
            se = se + 1;
        }
        let ghost before = out@;
        if se > li {
            out.push(GpuPass::Layers { start: li, end: se });
        }
        assert(out@ =~= before + layers_part(li as int, se as int));
        match bound {
            None => {
                assert(out@ =~= before + rest);
                break;
            },
            Some(z) => {
                let be = run_end_exec(backdrop_z, bi, z);
                let ee = run_end_exec(effect_z, ei, z);
                proof {
                    lemma_seg_end_bounds(lz, li as int, bound);
                    lemma_run_end_bounds(bz, bi as int, z);
                    lemma_run_end_bounds(ez, ei as int, z);
                }
                let ghost after_layers = out@;
                let mut k = bi;
                while k < be
                    invariant
                        bi <= k <= be,
                        out@ == after_layers + backs_part(bi as int, k as int),
                    decreases be - k,
                {
                    out.push(GpuPass::Backdrop { index: k });
                    proof {
                        assert(out@ =~= after_layers + backs_part(bi as int, k + 1));
                    }
                    k = k + 1;
                }
                if ee > ei {
                    out.push(GpuPass::Effects { start: ei, end: ee });
                }
                proof {
                    let tail = schedule_from(lz, ez, bz, se as int, ee as int, be as int);
                    assert(out@ =~= before + layers_part(li as int, se as int) + backs_part(
                        bi as int,
                        be as int,
                    ) + effs_part(ei as int, ee as int));
                    assert(rest == layers_part(li as int, se as int) + backs_part(bi as int, be as int)
                        + effs_part(ei as int, ee as int) + tail);
                    assert(out@ + tail =~= before + rest);
                }
                li = se;
                ei = ee;
                bi = be;
            },
        }
    }
    out
}

/// Where the text cursor stands once `li` layers are drawn: each layer
/// takes, from the cursor, the run of text areas at its z.
pub open spec fn text_cursor(lz: Seq<i32>, tz: Seq<i32>, li: int) -> int
    decreases li,
{
    if li <= 0 {
        0
    } else {
        run_end(tz, text_cursor(lz, tz, li - 1), lz[li - 1])
    }
}

proof fn lemma_text_cursor_bounds(lz: Seq<i32>, tz: Seq<i32>, li: int)
    requires
        0 <= li <= lz.len(),
    ensures
        0 <= text_cursor(lz, tz, li) <= tz.len(),
    decreases li,
{
    if li > 0 {
        lemma_text_cursor_bounds(lz, tz, li - 1);
        lemma_run_end_bounds(tz, text_cursor(lz, tz, li - 1), lz[li - 1]);
    }
}

/// The text areas (by index into the z-sorted list `text_z`) drawn with
/// each surface layer (z of each in `layer_z`): from a cursor that starts at
/// the first text area, each layer takes the run of text areas at its z.
pub fn layer_text_ranges(layer_z: &[i32], text_z: &[i32]) -> (r: Vec<(usize, usize)>)
    ensures
        r@.len() == layer_z@.len(),
        forall|li: int|
            0 <= li < layer_z@.len() ==> #[trigger] r@[li] == (
                text_cursor(layer_z@, text_z@, li) as usize,
                text_cursor(layer_z@, text_z@, li + 1) as usize,
            ),
{
    let mut out: Vec<(usize, usize)> = Vec::new();
    let mut cursor: usize = 0;
    let mut li: usize = 0;
    while li < layer_z.len()
        invariant
            li <= layer_z@.len(),
            out@.len() == li,
            cursor == text_cursor(layer_z@, text_z@, li as int),
            cursor <= text_z@.len(),
            forall|k: int|
                0 <= k < li ==> #[trigger] out@[k] == (
                    text_cursor(layer_z@, text_z@, k) as usize,
                    text_cursor(layer_z@, text_z@, k + 1) as usize,
                ),
        decreases layer_z@.len() - li,
    {
        let end = run_end_exec(text_z, cursor, layer_z[li]);
        proof {
            lemma_run_end_bounds(text_z@, cursor as int, layer_z@[li as int]);
            lemma_text_cursor_bounds(layer_z@, text_z@, li as int);
            assert(text_cursor(layer_z@, text_z@, li + 1) == end);
        }
        out.push((cursor, end));
        cursor = end;
        li = li + 1;
    }
    out
}

// ── Laws ─────────────────────────────────────────────────────────────

/// The three kinds of drawn items.
pub enum PassKind {
    Layer,
    Backdrop,
    Effect,
}

/// The indices `a .. b`.
pub open spec fn range(a: int, b: int) -> Seq<int> {
    Seq::new((b - a) as nat, |k: int| a + k)
}

/// The items of `kind` that a pass draws.
pub open spec fn pass_items(p: GpuPass, kind: PassKind) -> Seq<int> {
    match (p, kind) {
        (GpuPass::Layers { start, end }, PassKind::Layer) => range(start as int, end as int),
        (GpuPass::Backdrop { index }, PassKind::Backdrop) => seq![index as int],
        (GpuPass::Effects { start, end }, PassKind::Effect) => range(start as int, end as int),
        _ => Seq::empty(),
    }
}

/// The items of `kind` that a list of passes draws, in order.
pub open spec fn drawn(ps: Seq<GpuPass>, kind: PassKind) -> Seq<int>
    decreases ps.len(),
{
    if ps.len() == 0 {
        Seq::empty()
    } else {
        pass_items(ps[0], kind) + drawn(ps.drop_first(), kind)
    }
}

/// What two lists of passes draw one after the other.
pub proof fn lemma_drawn_concat(a: Seq<GpuPass>, b: Seq<GpuPass>, kind: PassKind)
    ensures
        drawn(a + b, kind) == drawn(a, kind) + drawn(b, kind),
    decreases a.len(),
{
    if a.len() == 0 {
        assert(a + b =~= b);
        assert(drawn(a, kind) + drawn(b, kind) =~= drawn(b, kind));
    } else {
        assert((a + b).drop_first() =~= a.drop_first() + b);
        lemma_drawn_concat(a.drop_first(), b, kind);
        assert(drawn(a, kind) + drawn(b, kind) =~= pass_items(a[0], kind) + (drawn(
            a.drop_first(),
            kind,
        ) + drawn(b, kind)));
    }
}

proof fn lemma_drawn_single(p: GpuPass, kind: PassKind)
    ensures
        drawn(seq![p], kind) == pass_items(p, kind),
{
    assert(seq![p].drop_first() =~= Seq::<GpuPass>::empty());
    assert(drawn(Seq::<GpuPass>::empty(), kind) == Seq::<int>::empty());
    assert(pass_items(p, kind) + Seq::<int>::empty() =~= pass_items(p, kind));
}

proof fn lemma_drawn_backs(bi: int, be: int, kind: PassKind)
    requires
        0 <= bi <= be <= usize::MAX,
    ensures
        drawn(backs_part(bi, be), kind) == match kind {
            PassKind::Backdrop => range(bi, be),
            _ => Seq::<int>::empty(),
        },
    decreases be - bi,
{
    if bi < be {
        assert(backs_part(bi, be).drop_first() =~= backs_part(bi + 1, be));
        assert(backs_part(bi, be)[0] == GpuPass::Backdrop { index: bi as usize });
        lemma_drawn_backs(bi + 1, be, kind);
        match kind {
            PassKind::Backdrop => {
                assert(range(bi, be) =~= seq![bi] + range(bi + 1, be));
            },
            _ => {},
        }
    } else {
        assert(backs_part(bi, be) =~= Seq::<GpuPass>::empty());
        assert(drawn(Seq::<GpuPass>::empty(), kind) == Seq::<int>::empty());
        assert(range(bi, be) =~= Seq::<int>::empty());
    }
}

/// Everything drawn from layer `li`, effect `ei` and backdrop `bi` on: the
/// remaining layers, backdrops and effects, each once and in order.
pub proof fn lemma_schedule_from_covers(
    lz: Seq<i32>,
    ez: Seq<i32>,
    bz: Seq<i32>,
    li: int,
    ei: int,
    bi: int,
)
    requires
        0 <= li <= lz.len() <= usize::MAX,
        0 <= ei <= ez.len() <= usize::MAX,
        0 <= bi <= bz.len() <= usize::MAX,
    ensures
        drawn(schedule_from(lz, ez, bz, li, ei, bi), PassKind::Layer) == range(li, lz.len() as int),
        drawn(schedule_from(lz, ez, bz, li, ei, bi), PassKind::Backdrop) == range(bi, bz.len() as int),
        drawn(schedule_from(lz, ez, bz, li, ei, bi), PassKind::Effect) == range(ei, ez.len() as int),
    decreases (lz.len() - li) + (ez.len() - ei) + (bz.len() - bi),
{
    let b = boundary(ez, bz, ei, bi);
    let se = seg_end(lz, li, b);
    lemma_seg_end_bounds(lz, li, b);
    let lp = layers_part(li, se);
    if se > li {
        lemma_drawn_single(GpuPass::Layers { start: li as usize, end: se as usize }, PassKind::Layer);
        lemma_drawn_single(GpuPass::Layers { start: li as usize, end: se as usize }, PassKind::Backdrop);
        lemma_drawn_single(GpuPass::Layers { start: li as usize, end: se as usize }, PassKind::Effect);
    }
    assert(drawn(lp, PassKind::Layer) == range(li, se)) by {
        if se <= li {
            assert(range(li, se) =~= Seq::<int>::empty());
        }
    }
    match b {
        None => {
            assert(range(bi, bz.len() as int) =~= Seq::<int>::empty());
            assert(range(ei, ez.len() as int) =~= Seq::<int>::empty());
        },
        Some(z) => {
            let be = run_end(bz, bi, z);
            let ee = run_end(ez, ei, z);
            lemma_run_end_bounds(bz, bi, z);
            lemma_run_end_bounds(ez, ei, z);
            let bp = backs_part(bi, be);
            let ep = effs_part(ei, ee);
            let rest = schedule_from(lz, ez, bz, se, ee, be);
            lemma_schedule_from_covers(lz, ez, bz, se, ee, be);
            if ee > ei {
                lemma_drawn_single(GpuPass::Effects { start: ei as usize, end: ee as usize }, PassKind::Layer);
                lemma_drawn_single(GpuPass::Effects { start: ei as usize, end: ee as usize }, PassKind::Backdrop);
                lemma_drawn_single(GpuPass::Effects { start: ei as usize, end: ee as usize }, PassKind::Effect);
            }
            assert(drawn(ep, PassKind::Effect) == range(ei, ee)) by {
                if ee <= ei {
                    assert(range(ei, ee) =~= Seq::<int>::empty());
                }
            }
            lemma_drawn_backs(bi, be, PassKind::Layer);
            lemma_drawn_backs(bi, be, PassKind::Backdrop);
            lemma_drawn_backs(bi, be, PassKind::Effect);
            lemma_drawn_concat(lp, bp, PassKind::Layer);
            lemma_drawn_concat(lp + bp, ep, PassKind::Layer);
            lemma_drawn_concat(lp + bp + ep, rest, PassKind::Layer);
            lemma_drawn_concat(lp, bp, PassKind::Backdrop);
            lemma_drawn_concat(lp + bp, ep, PassKind::Backdrop);
            lemma_drawn_concat(lp + bp + ep, rest, PassKind::Backdrop);
            lemma_drawn_concat(lp, bp, PassKind::Effect);
            lemma_drawn_concat(lp + bp, ep, PassKind::Effect);
            lemma_drawn_concat(lp + bp + ep, rest, PassKind::Effect);
            assert(range(li, se) + Seq::<int>::empty() + Seq::<int>::empty() + range(se, lz.len() as int)
                =~= range(li, lz.len() as int));
            assert(Seq::<int>::empty() + range(bi, be) + Seq::<int>::empty() + range(be, bz.len() as int)
                =~= range(bi, bz.len() as int));
            assert(Seq::<int>::empty() + Seq::<int>::empty() + range(ei, ee) + range(ee, ez.len() as int)
                =~= range(ei, ez.len() as int));
        },
    }
}

/// Every surface layer, backdrop region and blend effect is drawn exactly
/// once, in index order.
pub proof fn lemma_schedule_draws_each_once(lz: Seq<i32>, ez: Seq<i32>, bz: Seq<i32>)
    requires
        lz.len() <= usize::MAX,
        ez.len() <= usize::MAX,
        bz.len() <= usize::MAX,
    ensures
        drawn(schedule(lz, ez, bz), PassKind::Layer) == range(0, lz.len() as int),
        drawn(schedule(lz, ez, bz), PassKind::Backdrop) == range(0, bz.len() as int),
        drawn(schedule(lz, ez, bz), PassKind::Effect) == range(0, ez.len() as int),
{
    lemma_schedule_from_covers(lz, ez, bz, 0, 0, 0);
}

/// The values never decrease along the sequence.
pub open spec fn nondecreasing(s: Seq<i32>) -> bool {
    forall|a: int, b: int| 0 <= a <= b < s.len() ==> s[a] <= s[b]
}

proof fn lemma_seg_end_skip(lz: Seq<i32>, li: int, se: int, z: i32)
    requires
        0 <= li <= se <= lz.len(),
        forall|k: int| li <= k < se ==> #[trigger] lz[k] <= z,
    ensures
        seg_end(lz, li, Some(z)) == seg_end(lz, se, Some(z)),
    decreases se - li,
{
    if li < se {
        lemma_seg_end_skip(lz, li + 1, se, z);
    }
}

proof fn lemma_pass_drawn(ps: Seq<GpuPass>, q: int, kind: PassKind, x: int)
    requires
        0 <= q < ps.len(),
        pass_items(ps[q], kind).contains(x),
    ensures
        drawn(ps, kind).contains(x),
    decreases q,
{
    if q == 0 {
        let i = choose|i: int| 0 <= i < pass_items(ps[0], kind).len() && pass_items(ps[0], kind)[i] == x;
        assert(drawn(ps, kind)[i] == x);
    } else {
        lemma_pass_drawn(ps.drop_first(), q - 1, kind, x);
        let rest = drawn(ps.drop_first(), kind);
        let i = choose|i: int| 0 <= i < rest.len() && rest[i] == x;
        assert(drawn(ps, kind)[pass_items(ps[0], kind).len() + i] == x);
    }
}

proof fn lemma_take_after(a: Seq<GpuPass>, r: Seq<GpuPass>, p: int)
    requires
        a.len() <= p <= a.len() + r.len(),
    ensures
        (a + r).take(p) == a + r.take(p - a.len()),
{
    assert((a + r).take(p) =~= a + r.take(p - a.len()));
}

/// Before a backdrop or effect pass at `z` come, from layer `li` on, exactly
/// the layers up to the first one above `z`; the effects of one pass share
/// one z.
#[verifier::spinoff_prover]
#[verifier::rlimit(30)]
proof fn lemma_layers_before(
    lz: Seq<i32>,
    ez: Seq<i32>,
    bz: Seq<i32>,
    li: int,
    ei: int,
    bi: int,
    p: int,
)
    requires
        0 <= li <= lz.len() <= usize::MAX,
        0 <= ei <= ez.len() <= usize::MAX,
        0 <= bi <= bz.len() <= usize::MAX,
        nondecreasing(ez),
        nondecreasing(bz),
        0 <= p < schedule_from(lz, ez, bz, li, ei, bi).len(),
    ensures
        ({
            let sf = schedule_from(lz, ez, bz, li, ei, bi);
            &&& sf[p] matches GpuPass::Backdrop { index } ==> index < bz.len() && drawn(
                sf.take(p),
                PassKind::Layer,
            ) == range(li, seg_end(lz, li, Some(bz[index as int])))
            &&& sf[p] matches GpuPass::Effects { start, end } ==> start < end <= ez.len() && drawn(
                sf.take(p),
                PassKind::Layer,
            ) == range(li, seg_end(lz, li, Some(ez[start as int]))) && forall|k: int|
                start <= k < end ==> #[trigger] ez[k] == ez[start as int]
        }),
    decreases (lz.len() - li) + (ez.len() - ei) + (bz.len() - bi),
{
    let sf = schedule_from(lz, ez, bz, li, ei, bi);
    let b = boundary(ez, bz, ei, bi);
    let se = seg_end(lz, li, b);
    lemma_seg_end_bounds(lz, li, b);
    let lp = layers_part(li, se);
    match b {
        None => {
            assert(sf == lp);
        },
        Some(z) => {
            let be = run_end(bz, bi, z);
            let ee = run_end(ez, ei, z);
            lemma_run_end_bounds(bz, bi, z);
            lemma_run_end_bounds(ez, ei, z);
            let bp = backs_part(bi, be);
            let ep = effs_part(ei, ee);
            let rest = schedule_from(lz, ez, bz, se, ee, be);
            assert(sf == lp + bp + ep + rest);
            let nl = lp.len() as int;
            let nb = bp.len() as int;
            let ne = ep.len() as int;
            if se > li {
                lemma_drawn_single(GpuPass::Layers { start: li as usize, end: se as usize }, PassKind::Layer);
            }
            assert(drawn(lp, PassKind::Layer) == range(li, se)) by {
                if se <= li {
                    assert(range(li, se) =~= Seq::<int>::empty());
                }
            }
            if p < nl {
                assert(sf[p] == lp[p]);
            } else if p < nl + nb {
                let k = p - nl;
                assert(sf[p] == bp[k]);
                assert(sf.take(p) =~= lp + bp.take(k));
                lemma_drawn_concat(lp, bp.take(k), PassKind::Layer);
                assert(bp.take(k) =~= backs_part(bi, bi + k));
                lemma_drawn_backs(bi, bi + k, PassKind::Layer);
                assert(bz[bi + k] == z);
                assert(range(li, se) + Seq::<int>::empty() =~= range(li, se));
            } else if p < nl + nb + ne {
                assert(sf[p] == ep[0]);
                assert(sf.take(p) =~= lp + bp);
                lemma_drawn_concat(lp, bp, PassKind::Layer);
                lemma_drawn_backs(bi, be, PassKind::Layer);
                assert(range(li, se) + Seq::<int>::empty() =~= range(li, se));
            } else {
                let q = p - (nl + nb + ne);
                lemma_layers_before(lz, ez, bz, se, ee, be, q);
                assert(sf[p] == rest[q]);
                lemma_take_after(lp + bp + ep, rest, p);
                lemma_drawn_concat(lp + bp + ep, rest.take(q), PassKind::Layer);
                lemma_drawn_concat(lp + bp, ep, PassKind::Layer);
                lemma_drawn_concat(lp, bp, PassKind::Layer);
                lemma_drawn_backs(bi, be, PassKind::Layer);
                if ee > ei {
                    lemma_drawn_single(GpuPass::Effects { start: ei as usize, end: ee as usize }, PassKind::Layer);
                }
                assert(drawn(ep, PassKind::Layer) =~= Seq::<int>::empty());
                lemma_schedule_from_covers(lz, ez, bz, se, ee, be);
                match rest[q] {
                    GpuPass::Backdrop { index } => {
                        assert(pass_items(rest[q], PassKind::Backdrop)[0] == index as int);
                        lemma_pass_drawn(rest, q, PassKind::Backdrop, index as int);
                        let rb = range(be, bz.len() as int);
                        let i = choose|i: int| 0 <= i < rb.len() && rb[i] == index as int;
                        assert(be <= index);
                        assert(bz[bi] <= bz[index as int]);
                        assert(forall|k: int| li <= k < se ==> #[trigger] lz[k] <= bz[index as int]);
                        lemma_seg_end_skip(lz, li, se, bz[index as int]);
                        lemma_seg_end_bounds(lz, se, Some(bz[index as int]));
                        assert(range(li, se) + Seq::<int>::empty() + Seq::<int>::empty() + range(
                            se,
                            seg_end(lz, se, Some(bz[index as int])),
                        ) =~= range(li, seg_end(lz, li, Some(bz[index as int]))));
                    },
                    GpuPass::Effects { start, end } => {
                        assert(pass_items(rest[q], PassKind::Effect)[0] == start as int);
                        lemma_pass_drawn(rest, q, PassKind::Effect, start as int);
                        let re = range(ee, ez.len() as int);
                        let i = choose|i: int| 0 <= i < re.len() && re[i] == start as int;
                        assert(ee <= start);
                        assert(ez[ei] <= ez[start as int]);
                        assert(forall|k: int| li <= k < se ==> #[trigger] lz[k] <= ez[start as int]);
                        lemma_seg_end_skip(lz, li, se, ez[start as int]);
                        lemma_seg_end_bounds(lz, se, Some(ez[start as int]));
                        assert(range(li, se) + Seq::<int>::empty() + Seq::<int>::empty() + range(
                            se,
                            seg_end(lz, se, Some(ez[start as int])),
                        ) =~= range(li, seg_end(lz, li, Some(ez[start as int]))));
                    },
                    _ => {},
                }
            }
        },
    }
}

/// With layers, effects and backdrops in z order, a backdrop or effect pass
/// at z comes after exactly the surface layers at or below z (all others
/// are drawn after it), and the effects of one pass share one z.
pub proof fn lemma_schedule_z_order(lz: Seq<i32>, ez: Seq<i32>, bz: Seq<i32>, p: int, j: int)
    requires
        lz.len() <= usize::MAX,
        ez.len() <= usize::MAX,
        bz.len() <= usize::MAX,
        nondecreasing(lz),
        nondecreasing(ez),
        nondecreasing(bz),
        0 <= p < schedule(lz, ez, bz).len(),
        0 <= j < lz.len(),
    ensures
        ({
            let s = schedule(lz, ez, bz);
            &&& s[p] matches GpuPass::Backdrop { index } ==> (drawn(s.take(p), PassKind::Layer).contains(j)
                <==> lz[j] <= bz[index as int])
            &&& s[p] matches GpuPass::Effects { start, end } ==> (drawn(
                s.take(p),
                PassKind::Layer,
            ).contains(j) <==> lz[j] <= ez[start as int]) && forall|k: int|
                start <= k < end ==> #[trigger] ez[k] == ez[start as int]
        }),
{
    let s = schedule(lz, ez, bz);
    lemma_layers_before(lz, ez, bz, 0, 0, 0, p);
    let zz = match s[p] {
        GpuPass::Backdrop { index } => Some(bz[index as int]),
        GpuPass::Effects { start, end } => Some(ez[start as int]),
        _ => None,
    };
    match zz {
        Some(z) => {
            let t = seg_end(lz, 0, Some(z));
            lemma_seg_end_bounds(lz, 0, Some(z));
            let r = range(0, t);
            if r.contains(j) {
                let i = choose|i: int| 0 <= i < r.len() && r[i] == j;
                assert(j < t);
            }
            if lz[j] <= z {
                if j >= t {
                    assert(lz[t] <= lz[j]);
                }
                assert(r[j] == j);
            }
        },
        None => {},
    }
}

/// Every text area is at the z of some layer.
pub open spec fn texts_have_layers(lz: Seq<i32>, tz: Seq<i32>) -> bool {
    forall|t: int| 0 <= t < tz.len() ==> exists|m: int| 0 <= m < lz.len() && lz[m] == #[trigger] tz[t]
}

/// The values strictly increase along the sequence.
pub open spec fn increasing(s: Seq<i32>) -> bool {
    forall|a: int, b: int| 0 <= a < b < s.len() ==> s[a] < s[b]
}

proof fn lemma_text_cursor_counts(lz: Seq<i32>, tz: Seq<i32>, li: int)
    requires
        increasing(lz),
        nondecreasing(tz),
        texts_have_layers(lz, tz),
        0 <= li <= lz.len(),
    ensures
        forall|t: int|
            0 <= t < tz.len() ==> (t < text_cursor(lz, tz, li) <==> (li > 0 && #[trigger] tz[t]
                <= lz[li - 1])),
    decreases li,
{
    if li > 0 {
        lemma_text_cursor_counts(lz, tz, li - 1);
        lemma_text_cursor_bounds(lz, tz, li - 1);
        let c = text_cursor(lz, tz, li - 1);
        let z = lz[li - 1];
        lemma_run_end_bounds(tz, c, z);
        let c2 = run_end(tz, c, z);
        assert forall|t: int| 0 <= t < tz.len() implies (t < c2 <==> #[trigger] tz[t] <= z) by {
            if t < c2 && t < c {
                assert(li - 1 > 0 && tz[t] <= lz[li - 2]);
                assert(lz[li - 2] < z);
            }
            if tz[t] <= z && t >= c2 {
                assert(tz[c2] <= tz[t]);
                let m = choose|m: int| 0 <= m < lz.len() && lz[m] == tz[c2];
                if li - 1 > 0 {
                    assert(!(tz[c2] <= lz[li - 2]));
                    if m <= li - 2 {
                        assert(lz[m] <= lz[li - 2]);
                    }
                } else {
                    if m < li - 1 {
                        assert(false);
                    }
                }
                if m >= li {
                    assert(lz[li - 1] < lz[m]);
                }
                assert(m == li - 1);
            }
        }
    }
}

/// With layers in strictly increasing z, text areas sorted by z, and every
/// text area at the z of some layer: each text area is drawn with the layer
/// of its z, and all of them are drawn.
pub proof fn lemma_texts_follow_layers(lz: Seq<i32>, tz: Seq<i32>)
    requires
        increasing(lz),
        nondecreasing(tz),
        texts_have_layers(lz, tz),
    ensures
        text_cursor(lz, tz, lz.len() as int) == tz.len(),
        forall|li: int, t: int|
            0 <= li < lz.len() && 0 <= t < tz.len() ==> (text_cursor(lz, tz, li) <= t
                < text_cursor(lz, tz, li + 1) <==> #[trigger] tz[t] == #[trigger] lz[li]),
{
    lemma_text_cursor_counts(lz, tz, lz.len() as int);
    lemma_text_cursor_bounds(lz, tz, lz.len() as int);
    let n = lz.len() as int;
    if text_cursor(lz, tz, n) < tz.len() {
        let t = text_cursor(lz, tz, n);
        let m = choose|m: int| 0 <= m < lz.len() && lz[m] == tz[t];
        if m < n - 1 {
            assert(lz[m] < lz[n - 1]);
        }
        assert(false);
    }
    assert forall|li: int, t: int|
        0 <= li < lz.len() && 0 <= t < tz.len() implies (text_cursor(lz, tz, li) <= t
            < text_cursor(lz, tz, li + 1) <==> #[trigger] tz[t] == #[trigger] lz[li]) by {
        lemma_text_cursor_counts(lz, tz, li);
        lemma_text_cursor_counts(lz, tz, li + 1);
        let m = choose|m: int| 0 <= m < lz.len() && lz[m] == tz[t];
        if li > 0 {
            if m < li - 1 {
                assert(lz[m] < lz[li - 1]);
            }
            if li - 1 < m && m < li {
                assert(false);
            }
        }
        if m > li {
            assert(lz[li] < lz[m]);
        }
        if m < li {
            assert(lz[m] < lz[li]);
            if li > 0 && m < li - 1 {
                assert(lz[m] < lz[li - 1]);
            }
        }
    }
}

} // verus!
