//! Draw order of the CPU renderer within one damage rect.
//!
//! Draw commands and text areas, each list sorted by z, are merged by z (a
//! command goes first on a tie). A backdrop-blur region blurs everything
//! strictly below its z, so it is applied just before the first item at or
//! above its z; regions above every item are not applied.

use vstd::prelude::*;

verus! {

/// One step of the CPU draw order.
#[derive(Clone, Copy, Debug, PartialEq, Eq, Structural)]
pub enum DrawStep {
    Backdrop { index: usize },
    Command { index: usize },
    Text { index: usize },
}

/// The next item is a command: there is one, and no text area comes
/// before it.
pub open spec fn command_next(cz: Seq<i32>, tz: Seq<i32>, ci: int, ti: int) -> bool {
    ci < cz.len() && (ti >= tz.len() || cz[ci] <= tz[ti])
}

/// The draw order from command `ci`, text area `ti` and backdrop `bi` on.
pub open spec fn order_from(
    cz: Seq<i32>,
    tz: Seq<i32>,
    bz: Seq<i32>,
    ci: int,
    ti: int,
    bi: int,
) -> Seq<DrawStep>
    decreases (cz.len() - ci) + (tz.len() - ti) + (bz.len() - bi),
{
    if !(0 <= ci <= cz.len() && 0 <= ti <= tz.len() && 0 <= bi <= bz.len()) {
        Seq::empty()
    } else if ci == cz.len() && ti == tz.len() {
        Seq::empty()
    } else {
        let next_z = if command_next(cz, tz, ci, ti) {
            cz[ci]
        } else {
            tz[ti]
        };
        if bi < bz.len() && bz[bi] <= next_z {
            seq![DrawStep::Backdrop { index: bi as usize }] + order_from(cz, tz, bz, ci, ti, bi + 1)
        } else if command_next(cz, tz, ci, ti) {
            seq![DrawStep::Command { index: ci as usize }] + order_from(cz, tz, bz, ci + 1, ti, bi)
        } else {
            seq![DrawStep::Text { index: ti as usize }] + order_from(cz, tz, bz, ci, ti + 1, bi)
        }
    }
}

/// The whole draw order for commands at `cz`, text areas at `tz` and
/// backdrop regions at `bz`.
pub open spec fn draw_order_spec(cz: Seq<i32>, tz: Seq<i32>, bz: Seq<i32>) -> Seq<DrawStep> {
    order_from(cz, tz, bz, 0, 0, 0)
}

/// Merge draw commands and text areas (z of each, both sorted by z) and
/// place the backdrop-blur regions (z of each, sorted by z) into one draw
/// order.
pub fn draw_order(cmd_z: &[i32], text_z: &[i32], backdrop_z: &[i32]) -> (r: Vec<DrawStep>)
    ensures
        r@ == draw_order_spec(cmd_z@, text_z@, backdrop_z@),
{
    let ghost (cz, tz, bz) = (cmd_z@, text_z@, backdrop_z@);
    let mut out: Vec<DrawStep> = Vec::new();
    let mut ci: usize = 0;
    let mut ti: usize = 0;
    let mut bi: usize = 0;
    while ci < cmd_z.len() || ti < text_z.len()
        invariant
            ci <= cz.len(),
            ti <= tz.len(),
            bi <= bz.len(),
            cz == cmd_z@,
            tz == text_z@,
            bz == backdrop_z@,
            out@ + order_from(cz, tz, bz, ci as int, ti as int, bi as int) == draw_order_spec(
                cz,
                tz,
                bz,
            ),
        decreases (cz.len() - ci) + (tz.len() - ti) + (bz.len() - bi),
    {
        let ghost before = out@;
        let do_cmd = ci < cmd_z.len() && (ti >= text_z.len() || cmd_z[ci] <= text_z[ti]);
        let next_z = if do_cmd {
            cmd_z[ci]
        } else {
            text_z[ti]
        };
        if bi < backdrop_z.len() && backdrop_z[bi] <= next_z {
            out.push(DrawStep::Backdrop { index: bi });
            proof {
                assert(out@ + order_from(cz, tz, bz, ci as int, ti as int, bi + 1) =~= before
                    + order_from(cz, tz, bz, ci as int, ti as int, bi as int));
            }
            bi = bi + 1;
        } else if do_cmd {
            out.push(DrawStep::Command { index: ci });
            proof {
                assert(out@ + order_from(cz, tz, bz, ci + 1, ti as int, bi as int) =~= before
                    + order_from(cz, tz, bz, ci as int, ti as int, bi as int));
            }
            ci = ci + 1;
        } else {
            out.push(DrawStep::Text { index: ti });
            proof {
                assert(out@ + order_from(cz, tz, bz, ci as int, ti + 1, bi as int) =~= before
                    + order_from(cz, tz, bz, ci as int, ti as int, bi as int));
            }
            ti = ti + 1;
        }
    }
    proof {
        assert(out@ + Seq::<DrawStep>::empty() =~= out@);
    }
    out
}

// ── Laws ─────────────────────────────────────────────────────────────

/// The values never decrease along the sequence.
pub open spec fn sorted_z(s: Seq<i32>) -> bool {
    forall|a: int, b: int| 0 <= a <= b < s.len() ==> s[a] <= s[b]
}

/// The z of a drawn item (a command or a text area).
pub open spec fn item_z(cz: Seq<i32>, tz: Seq<i32>, st: DrawStep) -> i32 {
    match st {
        DrawStep::Command { index } => cz[index as int],
        DrawStep::Text { index } => tz[index as int],
        DrawStep::Backdrop { .. } => 0,
    }
}

/// Every step from (`ci`, `ti`, `bi`) on refers to an item or region not
/// yet drawn.
proof fn lemma_order_indices(
    cz: Seq<i32>,
    tz: Seq<i32>,
    bz: Seq<i32>,
    ci: int,
    ti: int,
    bi: int,
    p: int,
)
    requires
        0 <= ci <= cz.len() <= usize::MAX,
        0 <= ti <= tz.len() <= usize::MAX,
        0 <= bi <= bz.len() <= usize::MAX,
        0 <= p < order_from(cz, tz, bz, ci, ti, bi).len(),
    ensures
        ({
            let s = order_from(cz, tz, bz, ci, ti, bi);
            &&& s[p] matches DrawStep::Command { index } ==> ci <= index < cz.len()
            &&& s[p] matches DrawStep::Text { index } ==> ti <= index < tz.len()
            &&& s[p] matches DrawStep::Backdrop { index } ==> bi <= index < bz.len()
        }),
    decreases (cz.len() - ci) + (tz.len() - ti) + (bz.len() - bi),
{
    let next_z = if command_next(cz, tz, ci, ti) {
        cz[ci]
    } else {
        tz[ti]
    };
    if p > 0 {
        if bi < bz.len() && bz[bi] <= next_z {
            lemma_order_indices(cz, tz, bz, ci, ti, bi + 1, p - 1);
        } else if command_next(cz, tz, ci, ti) {
            lemma_order_indices(cz, tz, bz, ci + 1, ti, bi, p - 1);
        } else {
            lemma_order_indices(cz, tz, bz, ci, ti + 1, bi, p - 1);
        }
    }
}

proof fn lemma_backdrop_split(
    cz: Seq<i32>,
    tz: Seq<i32>,
    bz: Seq<i32>,
    ci: int,
    ti: int,
    bi: int,
    p: int,
    q: int,
)
    requires
        0 <= ci <= cz.len() <= usize::MAX,
        0 <= ti <= tz.len() <= usize::MAX,
        0 <= bi <= bz.len() <= usize::MAX,
        sorted_z(cz),
        sorted_z(tz),
        sorted_z(bz),
        0 <= p < order_from(cz, tz, bz, ci, ti, bi).len(),
        0 <= q < order_from(cz, tz, bz, ci, ti, bi).len(),
        order_from(cz, tz, bz, ci, ti, bi)[p] is Backdrop,
        !(order_from(cz, tz, bz, ci, ti, bi)[q] is Backdrop),
    ensures
        ({
            let s = order_from(cz, tz, bz, ci, ti, bi);
            let bzi = bz[s[p]->Backdrop_index as int];
            &&& q < p ==> item_z(cz, tz, s[q]) < bzi
            &&& p < q ==> item_z(cz, tz, s[q]) >= bzi
        }),
    decreases (cz.len() - ci) + (tz.len() - ti) + (bz.len() - bi),
{
    let s = order_from(cz, tz, bz, ci, ti, bi);
    let cmd = command_next(cz, tz, ci, ti);
    let next_z = if cmd {
        cz[ci]
    } else {
        tz[ti]
    };
    lemma_order_indices(cz, tz, bz, ci, ti, bi, p);
    lemma_order_indices(cz, tz, bz, ci, ti, bi, q);
    if bi < bz.len() && bz[bi] <= next_z {
        let rest = order_from(cz, tz, bz, ci, ti, bi + 1);
        assert(s == seq![DrawStep::Backdrop { index: bi as usize }] + rest);
        if p == 0 {
            // Every item still to come lies at or above the next one.
            lemma_order_indices(cz, tz, bz, ci, ti, bi + 1, q - 1);
            assert(s[q] == rest[q - 1]);
            match s[q] {
                DrawStep::Command { index } => {
                    assert(cz[ci] <= cz[index as int]);
                },
                DrawStep::Text { index } => {
                    assert(tz[ti] <= tz[index as int]);
                },
                _ => {},
            }
        } else if q > 0 {
            lemma_backdrop_split(cz, tz, bz, ci, ti, bi + 1, p - 1, q - 1);
            assert(s[p] == rest[p - 1] && s[q] == rest[q - 1]);
        }
    } else {
        let rest = if cmd {
            order_from(cz, tz, bz, ci + 1, ti, bi)
        } else {
            order_from(cz, tz, bz, ci, ti + 1, bi)
        };
        let head = if cmd {
            DrawStep::Command { index: ci as usize }
        } else {
            DrawStep::Text { index: ti as usize }
        };
        assert(s == seq![head] + rest);
        assert(s[p] == rest[p - 1]);
        if q == 0 {
            // The region was not due yet: it lies above this item.
            if cmd {
                lemma_order_indices(cz, tz, bz, ci + 1, ti, bi, p - 1);
            } else {
                lemma_order_indices(cz, tz, bz, ci, ti + 1, bi, p - 1);
            }
            let i = s[p]->Backdrop_index as int;
            assert(bz[bi] <= bz[i]);
        } else {
            assert(s[q] == rest[q - 1]);
            if cmd {
                lemma_backdrop_split(cz, tz, bz, ci + 1, ti, bi, p - 1, q - 1);
            } else {
                lemma_backdrop_split(cz, tz, bz, ci, ti + 1, bi, p - 1, q - 1);
            }
        }
    }
}

/// With commands, text areas and backdrop regions each sorted by z, every
/// item drawn before a backdrop region lies strictly below its z, and every
/// item drawn after it lies at or above its z.
pub proof fn lemma_backdrop_blurs_below(cz: Seq<i32>, tz: Seq<i32>, bz: Seq<i32>, p: int, q: int)
    requires
        cz.len() <= usize::MAX,
        tz.len() <= usize::MAX,
        bz.len() <= usize::MAX,
        sorted_z(cz),
        sorted_z(tz),
        sorted_z(bz),
        0 <= p < draw_order_spec(cz, tz, bz).len(),
        0 <= q < draw_order_spec(cz, tz, bz).len(),
        draw_order_spec(cz, tz, bz)[p] is Backdrop,
        !(draw_order_spec(cz, tz, bz)[q] is Backdrop),
    ensures
        ({
            let s = draw_order_spec(cz, tz, bz);
            let bzi = bz[s[p]->Backdrop_index as int];
            &&& q < p ==> item_z(cz, tz, s[q]) < bzi
            &&& p < q ==> item_z(cz, tz, s[q]) >= bzi
        }),
{
    lemma_backdrop_split(cz, tz, bz, 0, 0, 0, p, q);
}

proof fn lemma_items_ascend_from(
    cz: Seq<i32>,
    tz: Seq<i32>,
    bz: Seq<i32>,
    ci: int,
    ti: int,
    bi: int,
    q1: int,
    q2: int,
)
    requires
        0 <= ci <= cz.len() <= usize::MAX,
        0 <= ti <= tz.len() <= usize::MAX,
        0 <= bi <= bz.len() <= usize::MAX,
        sorted_z(cz),
        sorted_z(tz),
        0 <= q1 < q2 < order_from(cz, tz, bz, ci, ti, bi).len(),
        !(order_from(cz, tz, bz, ci, ti, bi)[q1] is Backdrop),
        !(order_from(cz, tz, bz, ci, ti, bi)[q2] is Backdrop),
    ensures
        item_z(cz, tz, order_from(cz, tz, bz, ci, ti, bi)[q1]) <= item_z(
            cz,
            tz,
            order_from(cz, tz, bz, ci, ti, bi)[q2],
        ),
    decreases (cz.len() - ci) + (tz.len() - ti) + (bz.len() - bi),
{
    let s = order_from(cz, tz, bz, ci, ti, bi);
    let cmd = command_next(cz, tz, ci, ti);
    let next_z = if cmd {
        cz[ci]
    } else {
        tz[ti]
    };
    lemma_order_indices(cz, tz, bz, ci, ti, bi, q2);
    if bi < bz.len() && bz[bi] <= next_z {
        let rest = order_from(cz, tz, bz, ci, ti, bi + 1);
        assert(s == seq![DrawStep::Backdrop { index: bi as usize }] + rest);
        assert(s[q1] == rest[q1 - 1] && s[q2] == rest[q2 - 1]);
        lemma_items_ascend_from(cz, tz, bz, ci, ti, bi + 1, q1 - 1, q2 - 1);
    } else {
        let rest = if cmd {
            order_from(cz, tz, bz, ci + 1, ti, bi)
        } else {
            order_from(cz, tz, bz, ci, ti + 1, bi)
        };
        let head = if cmd {
            DrawStep::Command { index: ci as usize }
        } else {
            DrawStep::Text { index: ti as usize }
        };
        assert(s == seq![head] + rest);
        assert(s[q2] == rest[q2 - 1]);
        if q1 == 0 {
            match s[q2] {
                DrawStep::Command { index } => {
                    assert(cz[ci] <= cz[index as int]);
                },
                DrawStep::Text { index } => {
                    assert(tz[ti] <= tz[index as int]);
                },
                _ => {},
            }
        } else {
            assert(s[q1] == rest[q1 - 1]);
            if cmd {
                lemma_items_ascend_from(cz, tz, bz, ci + 1, ti, bi, q1 - 1, q2 - 1);
            } else {
                lemma_items_ascend_from(cz, tz, bz, ci, ti + 1, bi, q1 - 1, q2 - 1);
            }
        }
    }
}

/// With commands and text areas each sorted by z, the items are drawn in
/// ascending z.
pub proof fn lemma_items_ascend(cz: Seq<i32>, tz: Seq<i32>, bz: Seq<i32>, q1: int, q2: int)
    requires
        cz.len() <= usize::MAX,
        tz.len() <= usize::MAX,
        bz.len() <= usize::MAX,
        sorted_z(cz),
        sorted_z(tz),
        0 <= q1 < q2 < draw_order_spec(cz, tz, bz).len(),
        !(draw_order_spec(cz, tz, bz)[q1] is Backdrop),
        !(draw_order_spec(cz, tz, bz)[q2] is Backdrop),
    ensures
        item_z(cz, tz, draw_order_spec(cz, tz, bz)[q1]) <= item_z(cz, tz, draw_order_spec(cz, tz, bz)[q2]),
{
    lemma_items_ascend_from(cz, tz, bz, 0, 0, 0, q1, q2);
}

/// The indices `a .. b`.
pub open spec fn index_range(a: int, b: int) -> Seq<int> {
    Seq::new((b - a) as nat, |k: int| a + k)
}

/// The commands drawn, in order.
pub open spec fn commands_drawn(s: Seq<DrawStep>) -> Seq<int>
    decreases s.len(),
{
    if s.len() == 0 {
        Seq::empty()
    } else {
        (match s[0] {
            DrawStep::Command { index } => seq![index as int],
            _ => Seq::empty(),
        }) + commands_drawn(s.drop_first())
    }
}

/// The text areas drawn, in order.
pub open spec fn texts_drawn(s: Seq<DrawStep>) -> Seq<int>
    decreases s.len(),
{
    if s.len() == 0 {
        Seq::empty()
    } else {
        (match s[0] {
            DrawStep::Text { index } => seq![index as int],
            _ => Seq::empty(),
        }) + texts_drawn(s.drop_first())
    }
}

proof fn lemma_items_covered_from(
    cz: Seq<i32>,
    tz: Seq<i32>,
    bz: Seq<i32>,
    ci: int,
    ti: int,
    bi: int,
)
    requires
        0 <= ci <= cz.len() <= usize::MAX,
        0 <= ti <= tz.len() <= usize::MAX,
        0 <= bi <= bz.len() <= usize::MAX,
    ensures
        commands_drawn(order_from(cz, tz, bz, ci, ti, bi)) == index_range(ci, cz.len() as int),
        texts_drawn(order_from(cz, tz, bz, ci, ti, bi)) == index_range(ti, tz.len() as int),
    decreases (cz.len() - ci) + (tz.len() - ti) + (bz.len() - bi),
{
    let s = order_from(cz, tz, bz, ci, ti, bi);
    if ci == cz.len() && ti == tz.len() {
        assert(index_range(ci, cz.len() as int) =~= Seq::<int>::empty());
        assert(index_range(ti, tz.len() as int) =~= Seq::<int>::empty());
    } else {
        let cmd = command_next(cz, tz, ci, ti);
        let next_z = if cmd {
            cz[ci]
        } else {
            tz[ti]
        };
        if bi < bz.len() && bz[bi] <= next_z {
            lemma_items_covered_from(cz, tz, bz, ci, ti, bi + 1);
            assert(s.drop_first() =~= order_from(cz, tz, bz, ci, ti, bi + 1));
            assert(Seq::<int>::empty() + index_range(ci, cz.len() as int) =~= index_range(ci, cz.len() as int));
            assert(Seq::<int>::empty() + index_range(ti, tz.len() as int) =~= index_range(ti, tz.len() as int));
        } else if cmd {
            lemma_items_covered_from(cz, tz, bz, ci + 1, ti, bi);
            assert(s.drop_first() =~= order_from(cz, tz, bz, ci + 1, ti, bi));
            assert(seq![ci] + index_range(ci + 1, cz.len() as int) =~= index_range(ci, cz.len() as int));
            assert(Seq::<int>::empty() + index_range(ti, tz.len() as int) =~= index_range(ti, tz.len() as int));
        } else {
            lemma_items_covered_from(cz, tz, bz, ci, ti + 1, bi);
            assert(s.drop_first() =~= order_from(cz, tz, bz, ci, ti + 1, bi));
            assert(Seq::<int>::empty() + index_range(ci, cz.len() as int) =~= index_range(ci, cz.len() as int));
            assert(seq![ti] + index_range(ti + 1, tz.len() as int) =~= index_range(ti, tz.len() as int));
        }
    }
}

/// Every command and every text area is drawn exactly once, each list in
/// its own order.
pub proof fn lemma_items_drawn_once(cz: Seq<i32>, tz: Seq<i32>, bz: Seq<i32>)
    requires
        cz.len() <= usize::MAX,
        tz.len() <= usize::MAX,
        bz.len() <= usize::MAX,
    ensures
        commands_drawn(draw_order_spec(cz, tz, bz)) == index_range(0, cz.len() as int),
        texts_drawn(draw_order_spec(cz, tz, bz)) == index_range(0, tz.len() as int),
{
    lemma_items_covered_from(cz, tz, bz, 0, 0, 0);
}

} // verus!
