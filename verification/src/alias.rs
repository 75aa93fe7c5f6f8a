//! Compilation of one state's transition counts into an alias table
//! (Vose's method), in exact integer arithmetic.
//!
//! For a state with out-degree `d` and total outgoing count `sum`, each
//! destination's count `c` is scaled to `c * d`, a fraction of `sum`.
//! Entries below `sum` are underfull, above it overfull. Repeatedly an
//! underfull entry is finalised: its slot keeps its scaled value as the
//! probability numerator and points its alias at some overfull entry's
//! token, whose scaled value gives up the finalised entry's shortfall.
//! When no underfull/overfull pair remains, every remaining entry holds
//! exactly `sum` and aliases itself. Each slot then sends its token
//! `prob / sum` of one draw and its alias token the rest, and every token
//! ends up with exactly `c * d` of the `d * sum` total mass: drawing a slot
//! uniformly and then primary-or-alias reproduces the counts' proportions.

use vstd::prelude::*;
use vstd::arithmetic::mul::*;
use crate::error::Error;
use crate::markov::TokenType;
use crate::table::{TransitionTable, pair_total, source_total, is_source, source_degree, compilable, lemma_source_degree_pos};

verus! {

/// One compiled slot: with probability `prob / sum` (the row's `sum` is kept
/// beside its slots) the walk moves to the primary token, otherwise to the
/// alias token. Both are catalogue indices.
#[derive(Debug, Clone, Copy, PartialEq, Eq, Structural)]
pub struct AliasSlot {
    /// Probability numerator, at most the row's `sum`.
    pub prob: u128,
    /// The slot's own token.
    pub primary: usize,
    /// The token that takes the slot's remaining mass.
    pub alias: usize,
}

/// A work entry during redistribution.
#[derive(Clone, Copy)]
struct Work {
    tok: usize,
    num: u128,
    done: bool,
    alias: usize,
}

/// The summed count of destination `t` in a row of (token, count) pairs.
pub open spec fn dest_count(dests: Seq<(usize, u64)>, t: usize) -> int
    decreases dests.len(),
{
    if dests.len() == 0 {
        0
    } else {
        dest_count(dests.drop_last(), t) + if dests.last().0 == t {
            dests.last().1 as int
        } else {
            0
        }
    }
}

/// The total outgoing count of a row.
pub open spec fn dest_sum(dests: Seq<(usize, u64)>) -> int
    decreases dests.len(),
{
    if dests.len() == 0 {
        0
    } else {
        dest_sum(dests.drop_last()) + dests.last().1 as int
    }
}

/// How much of the row's total mass a slot sends to token `t`: `prob` if `t`
/// is its primary, `sum - prob` if `t` is its alias (both if it is both).
pub open spec fn slot_piece(s: AliasSlot, sum: int, t: usize) -> int {
    (if s.primary == t {
        s.prob as int
    } else {
        0
    }) + (if s.alias == t {
        sum - s.prob
    } else {
        0
    })
}

/// The total mass a compiled row sends to token `t`.
pub open spec fn slot_mass(slots: Seq<AliasSlot>, sum: int, t: usize) -> int
    decreases slots.len(),
{
    if slots.len() == 0 {
        0
    } else {
        slot_mass(slots.drop_last(), sum, t) + slot_piece(slots.last(), sum, t)
    }
}

/// The mass a work entry sends to token `t`: a finalised entry behaves as
/// its slot will; a pending one still holds all its mass on its own token.
spec fn entry_mass(w: Work, sum: int, t: usize) -> int {
    (if w.tok == t {
        w.num as int
    } else {
        0
    }) + (if w.done && w.alias == t {
        sum - w.num as int
    } else {
        0
    })
}

/// The mass the whole work vector sends to token `t`.
spec fn work_mass(ws: Seq<Work>, sum: int, t: usize) -> int
    decreases ws.len(),
{
    if ws.len() == 0 {
        0
    } else {
        work_mass(ws.drop_last(), sum, t) + entry_mass(ws.last(), sum, t)
    }
}

/// A work entry's share of the row total: `sum` once finalised, else its
/// scaled value.
spec fn entry_share(w: Work, sum: int) -> int {
    if w.done {
        sum
    } else {
        w.num as int
    }
}

/// The whole work vector's share of the row total.
spec fn total_share(ws: Seq<Work>, sum: int) -> int
    decreases ws.len(),
{
    if ws.len() == 0 {
        0
    } else {
        total_share(ws.drop_last(), sum) + entry_share(ws.last(), sum)
    }
}

/// How many entries are still pending.
spec fn pending_count(ws: Seq<Work>) -> int
    decreases ws.len(),
{
    if ws.len() == 0 {
        0
    } else {
        pending_count(ws.drop_last()) + if ws.last().done {
            0int
        } else {
            1int
        }
    }
}

/// Replacing one work entry changes every token's mass by that entry's
/// difference, the total share likewise, and the pending count accordingly.
proof fn lemma_work_update(ws: Seq<Work>, i: int, v: Work, sum: int)
    requires
        0 <= i < ws.len(),
    ensures
        forall|t: usize|
            #[trigger] work_mass(ws.update(i, v), sum, t) == work_mass(ws, sum, t) - entry_mass(
                ws[i],
                sum,
                t,
            ) + entry_mass(v, sum, t),
        total_share(ws.update(i, v), sum) == total_share(ws, sum) - entry_share(ws[i], sum)
            + entry_share(v, sum),
        pending_count(ws.update(i, v)) == pending_count(ws) - (if ws[i].done {
            0int
        } else {
            1int
        }) + (if v.done {
            0int
        } else {
            1int
        }),
    decreases ws.len(),
{
    let u = ws.update(i, v);
    if i == ws.len() - 1 {
        assert(u.drop_last() =~= ws.drop_last());
        assert(u.last() == v);
        assert forall|t: usize| #[trigger] work_mass(u, sum, t) == work_mass(ws, sum, t)
            - entry_mass(ws[i], sum, t) + entry_mass(v, sum, t) by {
            assert(work_mass(u, sum, t) == work_mass(u.drop_last(), sum, t) + entry_mass(
                v,
                sum,
                t,
            ));
        }
    } else {
        assert(u.drop_last() =~= ws.drop_last().update(i, v));
        assert(u.last() == ws.last());
        lemma_work_update(ws.drop_last(), i, v, sum);
        assert forall|t: usize| #[trigger] work_mass(u, sum, t) == work_mass(ws, sum, t)
            - entry_mass(ws[i], sum, t) + entry_mass(v, sum, t) by {
            assert(work_mass(u, sum, t) == work_mass(u.drop_last(), sum, t) + entry_mass(
                u.last(),
                sum,
                t,
            ));
            assert(work_mass(u.drop_last(), sum, t) == work_mass(ws.drop_last(), sum, t)
                - entry_mass(ws[i], sum, t) + entry_mass(v, sum, t));
        }
    }
}

/// When every pending entry holds at least `sum`, the vector's share is at
/// least `sum` per entry.
proof fn lemma_share_lower(ws: Seq<Work>, sum: int)
    requires
        forall|k: int| 0 <= k < ws.len() && !ws[k].done ==> ws[k].num as int >= sum,
    ensures
        total_share(ws, sum) >= sum * ws.len(),
    decreases ws.len(),
{
    if ws.len() == 0 {
    } else {
        lemma_share_lower(ws.drop_last(), sum);
        lemma_mul_is_distributive_add(sum, ws.len() - 1, 1);
    }
}

/// When every pending entry holds at most `sum`, the vector's share is at
/// most `sum` per entry.
proof fn lemma_share_upper(ws: Seq<Work>, sum: int)
    requires
        forall|k: int| 0 <= k < ws.len() && !ws[k].done ==> ws[k].num as int <= sum,
    ensures
        total_share(ws, sum) <= sum * ws.len(),
    decreases ws.len(),
{
    if ws.len() == 0 {
    } else {
        lemma_share_upper(ws.drop_last(), sum);
        lemma_mul_is_distributive_add(sum, ws.len() - 1, 1);
    }
}

/// When the vector's share is exactly `sum` per entry and every pending
/// entry is on one side of `sum`, every pending entry holds exactly `sum`.
proof fn lemma_pending_exact(ws: Seq<Work>, sum: int, lower: bool)
    requires
        total_share(ws, sum) == sum * ws.len(),
        lower ==> forall|k: int| 0 <= k < ws.len() && !ws[k].done ==> ws[k].num as int >= sum,
        !lower ==> forall|k: int| 0 <= k < ws.len() && !ws[k].done ==> ws[k].num as int <= sum,
    ensures
        forall|k: int| 0 <= k < ws.len() && !ws[k].done ==> ws[k].num as int == sum,
    decreases ws.len(),
{
    if ws.len() > 0 {
        lemma_mul_is_distributive_add(sum, ws.len() - 1, 1);
        if lower {
            lemma_share_lower(ws.drop_last(), sum);
        } else {
            lemma_share_upper(ws.drop_last(), sum);
        }
        assert(entry_share(ws.last(), sum) == sum);
        lemma_pending_exact(ws.drop_last(), sum, lower);
        assert forall|k: int| 0 <= k < ws.len() && !ws[k].done implies ws[k].num as int == sum by {
            if k < ws.len() - 1 {
                assert(ws.drop_last()[k] == ws[k]);
            }
        }
    }
}

/// The total count of a row with positive counts is at least its length.
proof fn lemma_dest_sum_lower(dests: Seq<(usize, u64)>)
    requires
        forall|i: int| 0 <= i < dests.len() ==> dests[i].1 >= 1,
    ensures
        dest_sum(dests) >= dests.len(),
    decreases dests.len(),
{
    if dests.len() > 0 {
        lemma_dest_sum_lower(dests.drop_last());
    }
}

/// Find a pending entry below `sum` (`under`), or above it (`!under`).
fn find_pending(ws: &Vec<Work>, sum: u128, under: bool) -> (r: Option<usize>)
    ensures
        match r {
            Some(i) => {
                &&& i < ws@.len()
                &&& !ws@[i as int].done
                &&& (under ==> ws@[i as int].num < sum)
                &&& (!under ==> ws@[i as int].num > sum)
            },
            None => forall|k: int|
                0 <= k < ws@.len() && !ws@[k].done ==> (if under {
                    ws@[k].num >= sum
                } else {
                    ws@[k].num <= sum
                }),
        },
{
    let n = ws.len();
    let mut i: usize = 0;
    while i < n
        invariant
            n == ws@.len(),
            i <= n,
            forall|k: int|
                0 <= k < i && !ws@[k].done ==> (if under {
                    ws@[k].num >= sum
                } else {
                    ws@[k].num <= sum
                }),
        decreases n - i,
    {
        let w = ws[i];
        if !w.done && ((under && w.num < sum) || (!under && w.num > sum)) {
            return Some(i);
        }
        i = i + 1;
    }
    None
}

/// Compile one state's row of (destination token, count) pairs into its
/// alias table. Returns the slots and the row's total count `sum`.
///
/// Slot `k`'s primary is the row's `k`-th destination; every alias is one of
/// the row's destinations; every probability numerator is at most `sum`; and
/// every destination token receives exactly `count * out-degree` of the
/// `sum * out-degree` total mass.
pub fn compile_row(dests: &Vec<(usize, u64)>) -> (r: (Vec<AliasSlot>, u128))
    requires
        dests@.len() >= 1,
        forall|i: int| 0 <= i < dests@.len() ==> dests@[i].1 >= 1,
    ensures
        r.0@.len() == dests@.len(),
        r.1 as int == dest_sum(dests@),
        r.1 >= 1,
        forall|k: int| 0 <= k < r.0@.len() ==> r.0@[k].prob <= r.1,
        forall|k: int| 0 <= k < r.0@.len() ==> r.0@[k].primary == dests@[k].0,
        forall|k: int|
            0 <= k < r.0@.len() ==> exists|i: int|
                0 <= i < dests@.len() && (#[trigger] r.0@[k]).alias == dests@[i].0,
        forall|t: usize|
            #[trigger] slot_mass(r.0@, r.1 as int, t) == dest_count(dests@, t) * dests@.len(),
{
    let d = dests.len();
    let big: u128 = u64::MAX as u128;

    // The row's total outgoing count.
    let mut sum: u128 = 0;
    let mut i: usize = 0;
    proof {
        lemma_mul_inequality(d as int, big as int, big as int);
    }
    while i < d
        invariant
            d == dests@.len(),
            big == u64::MAX as u128,
            d as int <= big as int,
            i <= d,
            sum as int == dest_sum(dests@.take(i as int)),
            sum as int <= (i as int) * (big as int),
        decreases d - i,
    {
        let c = dests[i].1;
        proof {
            assert(dests@.take(i as int + 1).drop_last() =~= dests@.take(i as int));
            lemma_mul_is_distributive_add_other_way(big as int, i as int, 1);
            lemma_mul_inequality(i as int + 1, d as int, big as int);
            lemma_mul_inequality(d as int, big as int, big as int);
            assert((u64::MAX as int) * (u64::MAX as int) < u128::MAX as int) by (nonlinear_arith);
        }
        sum = sum + c as u128;
        i = i + 1;
    }
    proof {
        assert(dests@.take(d as int) =~= dests@);
        lemma_dest_sum_lower(dests@);
    }

    // Scale every count by the out-degree.
    let mut ws: Vec<Work> = Vec::new();
    i = 0;
    while i < d
        invariant
            d == dests@.len(),
            d >= 1,
            big == u64::MAX as u128,
            d as int <= big as int,
            sum as int == dest_sum(dests@),
            sum >= 1,
            i <= d,
            ws@.len() == i,
            forall|k: int|
                0 <= k < i ==> {
                    &&& (#[trigger] ws@[k]).tok == dests@[k].0
                    &&& !ws@[k].done
                    &&& ws@[k].alias == dests@[k].0
                    &&& ws@[k].num as int == dests@[k].1 as int * d as int
                },
            forall|t: usize|
                #[trigger] work_mass(ws@, sum as int, t) == dest_count(dests@.take(i as int), t)
                    * d as int,
            total_share(ws@, sum as int) == dest_sum(dests@.take(i as int)) * d as int,
        decreases d - i,
    {
        let (t, c) = dests[i];
        proof {
            lemma_mul_inequality(c as int, big as int, d as int);
            lemma_mul_inequality(big as int, big as int, big as int);
            lemma_mul_is_commutative(big as int, d as int);
            lemma_mul_inequality(d as int, big as int, big as int);
            lemma_mul_is_commutative(c as int, d as int);
        }
        let num = (c as u128) * (d as u128);
        let w = Work { tok: t, num, done: false, alias: t };
        let ghost pre = ws@;
        ws.push(w);
        i = i + 1;
        proof {
            assert(ws@.drop_last() =~= pre);
            assert(ws@.last() == w);
            assert(dests@.take(i as int).drop_last() =~= dests@.take(i as int - 1));
            assert forall|t2: usize| #[trigger] work_mass(ws@, sum as int, t2) == dest_count(
                dests@.take(i as int),
                t2,
            ) * d as int by {
                assert(work_mass(ws@, sum as int, t2) == work_mass(pre, sum as int, t2)
                    + entry_mass(w, sum as int, t2));
                lemma_mul_is_distributive_add_other_way(
                    d as int,
                    dest_count(dests@.take(i as int - 1), t2),
                    if t == t2 {
                        c as int
                    } else {
                        0
                    },
                );
                lemma_mul_is_commutative(dest_count(dests@.take(i as int - 1), t2), d as int);
                lemma_mul_is_commutative(dest_count(dests@.take(i as int), t2), d as int);
            }
            lemma_mul_is_distributive_add_other_way(
                d as int,
                dest_sum(dests@.take(i as int - 1)),
                c as int,
            );
            lemma_mul_is_commutative(dest_sum(dests@.take(i as int - 1)), d as int);
            lemma_mul_is_commutative(dest_sum(dests@.take(i as int)), d as int);
        }
    }
    proof {
        assert(dests@.take(d as int) =~= dests@);
        lemma_mul_is_commutative(dest_sum(dests@), d as int);
    }

    // Redistribute: finalise one underfull entry per step.
    loop
        invariant
            d == dests@.len(),
            d >= 1,
            sum as int == dest_sum(dests@),
            sum >= 1,
            ws@.len() == d,
            forall|k: int| 0 <= k < d ==> (#[trigger] ws@[k]).tok == dests@[k].0,
            forall|k: int| 0 <= k < d && ws@[k].done ==> ws@[k].num <= sum,
            forall|k: int| 0 <= k < d && !ws@[k].done ==> ws@[k].alias == ws@[k].tok,
            forall|k: int|
                0 <= k < d ==> exists|i2: int|
                    0 <= i2 < d && (#[trigger] ws@[k]).alias == dests@[i2].0,
            forall|t: usize|
                #[trigger] work_mass(ws@, sum as int, t) == dest_count(dests@, t) * d as int,
            total_share(ws@, sum as int) == sum as int * d as int,
        ensures
            ws@.len() == d,
            forall|k: int| 0 <= k < d ==> (#[trigger] ws@[k]).tok == dests@[k].0,
            forall|k: int| 0 <= k < d && ws@[k].done ==> ws@[k].num <= sum,
            forall|k: int| 0 <= k < d && !ws@[k].done ==> ws@[k].num == sum,
            forall|k: int| 0 <= k < d && !ws@[k].done ==> ws@[k].alias == ws@[k].tok,
            forall|k: int|
                0 <= k < d ==> exists|i2: int|
                    0 <= i2 < d && (#[trigger] ws@[k]).alias == dests@[i2].0,
            forall|t: usize|
                #[trigger] work_mass(ws@, sum as int, t) == dest_count(dests@, t) * d as int,
        decreases pending_count(ws@),
    {
        proof {
            lemma_pending_count_nonneg(ws@);
        }
        let ui = find_pending(&ws, sum, true);
        let oj = find_pending(&ws, sum, false);
        match (ui, oj) {
            (Some(i2), Some(j2)) => {
                let wi = ws[i2];
                let wj = ws[j2];
                let new_i = Work { tok: wi.tok, num: wi.num, done: true, alias: wj.tok };
                let ghost ws0 = ws@;
                ws.set(i2, new_i);
                let ghost ws1 = ws@;
                let delta = sum - wi.num;
                let new_j = Work { tok: wj.tok, num: wj.num - delta, done: false, alias: wj.alias };
                ws.set(j2, new_j);
                proof {
                    lemma_work_update(ws0, i2 as int, new_i, sum as int);
                    lemma_work_update(ws1, j2 as int, new_j, sum as int);
                    assert(ws1[j2 as int] == wj);
                    assert forall|t: usize| #[trigger] work_mass(ws@, sum as int, t) == dest_count(
                        dests@,
                        t,
                    ) * d as int by {
                        assert(work_mass(ws1, sum as int, t) == work_mass(ws0, sum as int, t)
                            - entry_mass(wi, sum as int, t) + entry_mass(new_i, sum as int, t));
                        assert(work_mass(ws@, sum as int, t) == work_mass(ws1, sum as int, t)
                            - entry_mass(wj, sum as int, t) + entry_mass(new_j, sum as int, t));
                    }
                    assert(pending_count(ws1) == pending_count(ws0) - 1);
                    assert(pending_count(ws@) == pending_count(ws1));
                    lemma_pending_count_nonneg(ws@);
                    assert forall|k: int|
                        0 <= k < d implies exists|i3: int|
                        0 <= i3 < d && (#[trigger] ws@[k]).alias == dests@[i3].0 by {
                        if k == i2 {
                            assert(ws@[k].alias == dests@[j2 as int].0);
                        } else if k == j2 {
                            assert(ws0[k].alias == wj.alias);
                        } else {
                            assert(ws@[k] == ws0[k]);
                        }
                    }
                }
            },
            _ => {
                proof {
                    lemma_mul_is_commutative(sum as int, d as int);
                    if ui is None {
                        lemma_pending_exact(ws@, sum as int, true);
                    } else {
                        lemma_pending_exact(ws@, sum as int, false);
                    }
                }
                break;
            },
        }
    }

    // Every entry now holds a final probability: pending ones hold exactly
    // `sum` and alias themselves.
    let mut slots: Vec<AliasSlot> = Vec::new();
    i = 0;
    while i < d
        invariant
            d == dests@.len(),
            sum as int == dest_sum(dests@),
            sum >= 1,
            ws@.len() == d,
            i <= d,
            slots@.len() == i,
            forall|k: int| 0 <= k < d ==> (#[trigger] ws@[k]).tok == dests@[k].0,
            forall|k: int| 0 <= k < d && ws@[k].done ==> ws@[k].num <= sum,
            forall|k: int| 0 <= k < d && !ws@[k].done ==> ws@[k].num == sum,
            forall|k: int| 0 <= k < d && !ws@[k].done ==> ws@[k].alias == ws@[k].tok,
            forall|k: int|
                0 <= k < d ==> exists|i2: int|
                    0 <= i2 < d && (#[trigger] ws@[k]).alias == dests@[i2].0,
            forall|t: usize|
                #[trigger] work_mass(ws@, sum as int, t) == dest_count(dests@, t) * d as int,
            forall|k: int| 0 <= k < i ==> (#[trigger] slots@[k]).prob <= sum,
            forall|k: int| 0 <= k < i ==> (#[trigger] slots@[k]).primary == dests@[k].0,
            forall|k: int|
                0 <= k < i ==> exists|i2: int|
                    0 <= i2 < d && (#[trigger] slots@[k]).alias == dests@[i2].0,
            forall|t: usize|
                #[trigger] slot_mass(slots@, sum as int, t) == work_mass(
                    ws@.take(i as int),
                    sum as int,
                    t,
                ),
        decreases d - i,
    {
        let w = ws[i];
        let slot = AliasSlot { prob: w.num, primary: w.tok, alias: w.alias };
        let ghost pre = slots@;
        slots.push(slot);
        i = i + 1;
        proof {
            assert(slots@.drop_last() =~= pre);
            assert(ws@.take(i as int).drop_last() =~= ws@.take(i as int - 1));
            assert(ws@.take(i as int).last() == w);
            assert forall|t: usize| #[trigger] slot_mass(slots@, sum as int, t) == work_mass(
                ws@.take(i as int),
                sum as int,
                t,
            ) by {
                assert(slot_mass(slots@, sum as int, t) == slot_mass(pre, sum as int, t)
                    + slot_piece(slot, sum as int, t));
                assert(slot_piece(slot, sum as int, t) == entry_mass(w, sum as int, t));
            }
        }
    }
    proof {
        assert(ws@.take(d as int) =~= ws@);
    }
    (slots, sum)
}

/// A pending count is never negative.
proof fn lemma_pending_count_nonneg(ws: Seq<Work>)
    ensures
        pending_count(ws) >= 0,
    decreases ws.len(),
{
    if ws.len() > 0 {
        lemma_pending_count_nonneg(ws.drop_last());
    }
}


/// One compiled state: its token, its row's total count, and its alias
/// slots (one per out-edge).
pub struct AliasRow {
    /// The state's own token.
    pub token: TokenType,
    /// The row's total outgoing count: the denominator of every slot
    /// probability.
    pub sum: u128,
    /// The alias slots.
    pub slots: Vec<AliasSlot>,
}

/// The compiled model: the designated start state and one alias row per
/// state, cross-referenced by dense indices.
pub struct Model {
    /// The index of the `Start` state.
    pub start: usize,
    /// All states.
    pub states: Vec<AliasRow>,
}

impl Model {
    /// The start index names the `Start` state; every state has at least one
    /// slot, a positive total, probabilities within it, and slot targets
    /// inside the model.
    pub open spec fn wf(&self) -> bool {
        &&& self.start < self.states@.len()
        &&& self.states@[self.start as int].token == TokenType::Start
        &&& forall|i: int|
            0 <= i < self.states@.len() ==> {
                let st = #[trigger] self.states@[i];
                &&& st.slots@.len() >= 1
                &&& st.sum >= 1
                &&& forall|k: int|
                    0 <= k < st.slots@.len() ==> {
                        let sl = #[trigger] st.slots@[k];
                        &&& sl.prob <= st.sum
                        &&& sl.primary < self.states@.len()
                        &&& sl.alias < self.states@.len()
                    }
            }
    }
}

/// The first index of `t` in the catalogue.
fn index_of(cat: &Vec<TokenType>, t: TokenType) -> (r: Option<usize>)
    ensures
        match r {
            Some(i) => i < cat@.len() && cat@[i as int] == t && forall|j: int|
                0 <= j < i ==> cat@[j] != t,
            None => forall|j: int| 0 <= j < cat@.len() ==> cat@[j] != t,
        },
{
    let n = cat.len();
    let mut i: usize = 0;
    while i < n
        invariant
            n == cat@.len(),
            i <= n,
            forall|j: int| 0 <= j < i ==> cat@[j] != t,
        decreases n - i,
    {
        if cat[i] == t {
            return Some(i);
        }
        i = i + 1;
    }
    None
}

/// Whether the catalogue holds the token.
pub open spec fn has_token(cat: Seq<TokenType>, t: TokenType) -> bool {
    exists|a: int| 0 <= a < cat.len() && #[trigger] cat[a] == t
}

/// Some entry leaving `src` targets a token outside the catalogue.
pub open spec fn missing_target(
    e: Seq<(TokenType, TokenType, u64)>,
    cat: Seq<TokenType>,
    src: TokenType,
) -> bool {
    exists|x: int| 0 <= x < e.len() && (#[trigger] e[x]).0 == src && !has_token(cat, e[x].1)
}

/// Some state carries the token.
pub open spec fn state_for(states: Seq<AliasRow>, t: TokenType) -> bool {
    exists|i: int| 0 <= i < states.len() && (#[trigger] states[i]).token == t
}

/// Collect one state's destinations: for each table entry leaving
/// `cat[ci]`, the destination's catalogue index and its count.
fn collect_row(
    entries: &Vec<(TokenType, TokenType, u64)>,
    cat: &Vec<TokenType>,
    ci: usize,
) -> (r: Result<Vec<(usize, u64)>, Error>)
    requires
        ci < cat@.len(),
        forall|a: int, b: int| 0 <= a < b < cat@.len() ==> cat@[a] != cat@[b],
        forall|x: int| 0 <= x < entries@.len() ==> (#[trigger] entries@[x]).2 >= 1,
        is_source(entries@, cat@[ci as int]),
    ensures
        match r {
            Ok(dests) => {
                &&& dests@.len() >= 1
                &&& dests@.len() == source_degree(entries@, cat@[ci as int])
                &&& dest_sum(dests@) == source_total(entries@, cat@[ci as int])
                &&& (forall|x: int| 0 <= x < dests@.len() ==> (#[trigger] dests@[x]).1 >= 1)
                &&& (forall|x: int| 0 <= x < dests@.len() ==> (#[trigger] dests@[x]).0 < cat@.len())
                &&& (forall|x: int|
                    0 <= x < entries@.len() && (#[trigger] entries@[x]).0 == cat@[ci as int]
                        ==> has_token(cat@, entries@[x].1))
                &&& (forall|j: usize|
                    0 <= j < cat@.len() ==> dest_count(dests@, j) == pair_total(
                        entries@,
                        cat@[ci as int],
                        #[trigger] cat@[j as int],
                    ))
            },
            Err(e) => e == Error::InternerError && missing_target(
                entries@,
                cat@,
                cat@[ci as int],
            ),
        },
{
    let src = cat[ci];
    let n = entries.len();
    let mut dests: Vec<(usize, u64)> = Vec::new();
    let mut e: usize = 0;
    while e < n
        invariant
            n == entries@.len(),
            ci < cat@.len(),
            src == cat@[ci as int],
            forall|a: int, b: int| 0 <= a < b < cat@.len() ==> cat@[a] != cat@[b],
            forall|x: int| 0 <= x < entries@.len() ==> (#[trigger] entries@[x]).2 >= 1,
            e <= n,
            forall|x: int| 0 <= x < dests@.len() ==> (#[trigger] dests@[x]).1 >= 1,
            forall|x: int| 0 <= x < dests@.len() ==> (#[trigger] dests@[x]).0 < cat@.len(),
            dests@.len() == source_degree(entries@.subrange(0, e as int), src),
            dest_sum(dests@) == source_total(entries@.subrange(0, e as int), src),
            forall|x: int|
                0 <= x < e && (#[trigger] entries@[x]).0 == src ==> has_token(
                    cat@,
                    entries@[x].1,
                ),
            forall|j: usize|
                0 <= j < cat@.len() ==> dest_count(dests@, j) == pair_total(
                    entries@.subrange(0, e as int),
                    src,
                    #[trigger] cat@[j as int],
                ),
        decreases n - e,
    {
        let (es, ed, ec) = entries[e];
        let ghost pre = dests@;
        proof {
            assert(entries@.subrange(0, e as int + 1).drop_last() =~= entries@.subrange(
                0,
                e as int,
            ));
            assert(entries@.subrange(0, e as int + 1).last() == entries@[e as int]);
        }
        if es == src {
            match index_of(cat, ed) {
                Some(di) => {
                    dests.push((di, ec));
                    proof {
                        assert(dests@.drop_last() =~= pre);
                        assert(dests@.last() == (di, ec));
                        assert(cat@[di as int] == ed);
                        assert(has_token(cat@, ed));
                        assert(dests@.len() == pre.len() + 1);
                        assert(dest_sum(dests@) == dest_sum(pre) + ec);
                        assert forall|j: usize| 0 <= j < cat@.len() implies dest_count(dests@, j)
                            == pair_total(
                            entries@.subrange(0, e as int + 1),
                            src,
                            #[trigger] cat@[j as int],
                        ) by {
                            assert(dest_count(dests@, j) == dest_count(pre, j) + if di == j {
                                ec as int
                            } else {
                                0int
                            });
                            if di == j {
                                assert(cat@[j as int] == ed);
                            } else {
                                assert(cat@[j as int] != ed);
                            }
                        }
                    }
                },
                None => {
                    return Err(Error::InternerError);
                },
            }
        } else {
            proof {
                assert forall|j: usize| 0 <= j < cat@.len() implies dest_count(dests@, j)
                    == pair_total(
                    entries@.subrange(0, e as int + 1),
                    src,
                    #[trigger] cat@[j as int],
                ) by {}
            }
        }
        e = e + 1;
    }
    proof {
        assert(entries@.subrange(0, n as int) =~= entries@);
        lemma_source_degree_pos(entries@, cat@[ci as int]);
    }
    Ok(dests)
}

/// Compile the finished transition table into the model: a catalogue of the
/// table's source tokens, one alias row per state, and the `Start` state's
/// index. Fails when a destination has no state of its own or the table has
/// no `Start` state: either way an earlier invariant was broken, and the
/// build is abandoned.
#[verifier::rlimit(60)]
pub fn compile_model(table: &TransitionTable) -> (r: Result<Model, Error>)
    requires
        table.wf(),
    ensures
        match r {
            Ok(m) => {
                &&& compilable(table@)
                &&& m.wf()
                &&& (forall|i: int, j: int|
                    0 <= i < j < m.states@.len() ==> (#[trigger] m.states@[i]).token != (
                    #[trigger] m.states@[j]).token)
                &&& (forall|i: int|
                    0 <= i < m.states@.len() ==> (#[trigger] m.states@[i]).sum as int
                        == source_total(table@, m.states@[i].token))
                &&& (forall|i: int|
                    0 <= i < m.states@.len() ==> (#[trigger] m.states@[i]).slots@.len()
                        == source_degree(table@, m.states@[i].token))
                &&& (forall|x: int|
                    0 <= x < table@.len() ==> state_for(m.states@, (#[trigger] table@[x]).0))
                &&& (forall|i: int, j: usize|
                    0 <= i < m.states@.len() && 0 <= j < m.states@.len() ==> slot_mass(
                        (#[trigger] m.states@[i]).slots@,
                        m.states@[i].sum as int,
                        j,
                    ) == pair_total(
                        table@,
                        m.states@[i].token,
                        (#[trigger] m.states@[j as int]).token,
                    ) * m.states@[i].slots@.len())
            },
            Err(e) => e == Error::InternerError && !compilable(table@),
        },
{
    let entries = table.entries();
    let n = entries.len();

    // The catalogue: each distinct source token, in order of appearance.
    let mut cat: Vec<TokenType> = Vec::new();
    let mut k: usize = 0;
    while k < n
        invariant
            n == entries@.len(),
            entries@ == table@,
            k <= n,
            forall|a: int, b: int| 0 <= a < b < cat@.len() ==> cat@[a] != cat@[b],
            forall|x: int| 0 <= x < k ==> has_token(cat@, (#[trigger] entries@[x]).0),
            forall|a: int| 0 <= a < cat@.len() ==> is_source(entries@, #[trigger] cat@[a]),
        decreases n - k,
    {
        let src = entries[k].0;
        let ghost pre_cat = cat@;
        let found = index_of(&cat, src);
        match found {
            Some(_) => {},
            None => {
                cat.push(src);
            },
        }
        proof {
            assert forall|x: int| 0 <= x < k + 1 implies has_token(
                cat@,
                (#[trigger] entries@[x]).0,
            ) by {
                if x < k {
                    let a = choose|a: int|
                        0 <= a < pre_cat.len() && #[trigger] pre_cat[a] == entries@[x].0;
                    assert(cat@[a] == pre_cat[a]);
                } else {
                    if found is Some {
                        assert(cat@[found->0 as int] == src);
                    } else {
                        assert(cat@[cat@.len() - 1] == src);
                    }
                }
            }
            assert forall|a: int| 0 <= a < cat@.len() implies is_source(
                entries@,
                #[trigger] cat@[a],
            ) by {
                if a < pre_cat.len() {
                    assert(cat@[a] == pre_cat[a]);
                } else {
                    assert(cat@[a] == src && entries@[k as int].0 == src);
                }
            }
        }
        k = k + 1;
    }

    // One alias row per catalogue entry.
    let mut states: Vec<AliasRow> = Vec::new();
    let mut ci: usize = 0;
    while ci < cat.len()
        invariant
            table.wf(),
            n == entries@.len(),
            entries@ == table@,
            forall|a: int, b: int| 0 <= a < b < cat@.len() ==> cat@[a] != cat@[b],
            forall|x: int| 0 <= x < entries@.len() ==> (#[trigger] entries@[x]).2 >= 1,
            forall|x: int| 0 <= x < entries@.len() ==> has_token(cat@, (#[trigger] entries@[x]).0),
            forall|a: int| 0 <= a < cat@.len() ==> is_source(entries@, #[trigger] cat@[a]),
            ci <= cat@.len(),
            states@.len() == ci,
            forall|i: int| 0 <= i < ci ==> (#[trigger] states@[i]).token == cat@[i],
            forall|i: int|
                0 <= i < ci ==> (#[trigger] states@[i]).sum as int == source_total(
                    entries@,
                    cat@[i],
                ),
            forall|i: int|
                0 <= i < ci ==> (#[trigger] states@[i]).slots@.len() == source_degree(
                    entries@,
                    cat@[i],
                ),
            forall|x: int|
                0 <= x < entries@.len() && has_token(
                    cat@.subrange(0, ci as int),
                    (#[trigger] entries@[x]).0,
                ) ==> has_token(cat@, entries@[x].1),
            forall|i: int|
                0 <= i < ci ==> {
                    let st = #[trigger] states@[i];
                    &&& st.slots@.len() >= 1
                    &&& st.sum >= 1
                    &&& forall|k2: int|
                        0 <= k2 < st.slots@.len() ==> {
                            let sl = #[trigger] st.slots@[k2];
                            &&& sl.prob <= st.sum
                            &&& sl.primary < cat@.len()
                            &&& sl.alias < cat@.len()
                        }
                },
            forall|i: int, j: usize|
                0 <= i < ci && 0 <= j < cat@.len() ==> slot_mass(
                    (#[trigger] states@[i]).slots@,
                    states@[i].sum as int,
                    j,
                ) == pair_total(entries@, cat@[i], #[trigger] cat@[j as int]) * states@[
                    i
                ].slots@.len(),
        decreases cat@.len() - ci,
    {
        let src = cat[ci];
        let dests = match collect_row(entries, &cat, ci) {
            Ok(d) => d,
            Err(err) => {
                proof {
                    let x = choose|x: int|
                        0 <= x < entries@.len() && (#[trigger] entries@[x]).0 == src && !has_token(
                            cat@,
                            entries@[x].1,
                        );
                    assert(!compilable(table@)) by {
                        if compilable(table@) {
                            assert(is_source(entries@, entries@[x].1));
                            let w = choose|w: int|
                                0 <= w < entries@.len() && (#[trigger] entries@[w]).0 == entries@[
                                    x
                                ].1;
                            assert(has_token(cat@, entries@[w].0));
                        }
                    }
                }
                return Err(err);
            },
        };
        let (slots, sum) = compile_row(&dests);
        let row = AliasRow { token: src, sum, slots };
        let ghost pre_states = states@;
        let ghost dd = dests@;
        states.push(row);
        ci = ci + 1;
        proof {
            assert(states@.drop_last() =~= pre_states);
            assert(states@.last() == row);
            assert forall|i: int|
                0 <= i < ci implies {
                let st = #[trigger] states@[i];
                &&& st.slots@.len() >= 1
                &&& st.sum >= 1
                &&& forall|k2: int|
                    0 <= k2 < st.slots@.len() ==> {
                        let sl = #[trigger] st.slots@[k2];
                        &&& sl.prob <= st.sum
                        &&& sl.primary < cat@.len()
                        &&& sl.alias < cat@.len()
                    }
            } by {
                if i < ci - 1 {
                    assert(states@[i] == pre_states[i]);
                } else {
                    assert(states@[i] == row);
                    assert forall|k2: int| 0 <= k2 < row.slots@.len() implies {
                        let sl = #[trigger] row.slots@[k2];
                        &&& sl.prob <= row.sum
                        &&& sl.primary < cat@.len()
                        &&& sl.alias < cat@.len()
                    } by {
                        assert(row.slots@[k2].primary == dd[k2].0);
                        let w = choose|w: int| 0 <= w < dd.len() && row.slots@[k2].alias == dd[w].0;
                    }
                }
            }
            assert forall|i: int, j: usize|
                0 <= i < ci && 0 <= j < cat@.len() implies slot_mass(
                (#[trigger] states@[i]).slots@,
                states@[i].sum as int,
                j,
            ) == pair_total(entries@, cat@[i], #[trigger] cat@[j as int]) * states@[
                i
            ].slots@.len() by {
                if i < ci - 1 {
                    assert(states@[i] == pre_states[i]);
                } else {
                    assert(states@[i] == row);
                    assert(slot_mass(row.slots@, row.sum as int, j) == dest_count(dd, j)
                        * dd.len());
                    assert(dest_count(dd, j) == pair_total(entries@, src, cat@[j as int]));
                }
            }
            assert forall|i: int|
                0 <= i < ci implies (#[trigger] states@[i]).sum as int == source_total(
                entries@,
                cat@[i],
            ) && states@[i].slots@.len() == source_degree(entries@, cat@[i]) by {
                if i < ci - 1 {
                    assert(states@[i] == pre_states[i]);
                } else {
                    assert(states@[i] == row);
                }
            }
            assert forall|x: int|
                0 <= x < entries@.len() && has_token(
                    cat@.subrange(0, ci as int),
                    (#[trigger] entries@[x]).0,
                ) implies has_token(cat@, entries@[x].1) by {
                let a = choose|a: int|
                    0 <= a < ci && #[trigger] cat@.subrange(0, ci as int)[a] == entries@[x].0;
                assert(cat@[a] == entries@[x].0);
                if a < ci - 1 {
                    assert(cat@.subrange(0, ci as int - 1)[a] == cat@[a]);
                    assert(has_token(cat@.subrange(0, ci as int - 1), entries@[x].0));
                } else {
                    assert(entries@[x].0 == src);
                }
            }
        }
    }

    proof {
        assert(cat@.subrange(0, cat@.len() as int) =~= cat@);
    }
    match index_of(&cat, TokenType::Start) {
        Some(si) => {
            let m = Model { start: si, states };
            proof {
                assert forall|x: int| 0 <= x < table@.len() implies is_source(
                    entries@,
                    (#[trigger] entries@[x]).1,
                ) by {
                    assert(has_token(cat@, entries@[x].0));
                    assert(has_token(cat@, entries@[x].1));
                    let a = choose|a: int|
                        0 <= a < cat@.len() && #[trigger] cat@[a] == entries@[x].1;
                }
                assert(is_source(entries@, TokenType::Start)) by {
                    assert(cat@[si as int] == TokenType::Start);
                }
                assert(compilable(table@));
                assert forall|x: int| 0 <= x < table@.len() implies state_for(
                    m.states@,
                    (#[trigger] table@[x]).0,
                ) by {
                    let a = choose|a: int|
                        0 <= a < cat@.len() && #[trigger] cat@[a] == entries@[x].0;
                    assert(m.states@[a].token == cat@[a]);
                }
            }
            Ok(m)
        },
        None => {
            proof {
                assert(!has_token(cat@, TokenType::Start)) by {
                    if has_token(cat@, TokenType::Start) {
                        let a = choose|a: int|
                            0 <= a < cat@.len() && #[trigger] cat@[a] == TokenType::Start;
                    }
                }
                assert(!compilable(table@)) by {
                    if compilable(table@) {
                        let w = choose|w: int|
                            0 <= w < entries@.len() && (#[trigger] entries@[w]).0
                                == TokenType::Start;
                        assert(has_token(cat@, entries@[w].0));
                    }
                }
            }
            Err(Error::InternerError)
        },
    }
}

} // verus!
