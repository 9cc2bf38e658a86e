//! Facts about the winner of a round and the amounts of its settlement.

use vstd::prelude::*;

use crate::members::{any, count, lemma_count_any, stands, Standing};
use crate::rules::{
    bid_amount, closing_reserve, closing_share, cover, gap, is_winner, net_to_winner, others, pot,
    remainder, share, sound, unbid, winner,
};
use crate::types::{GroupView, Member, BPS};

verus! {

/// A product grows with its first factor, where the second is not negative.
pub proof fn lemma_times_grows(a: int, b: int, c: int)
    by (nonlinear_arith)
    requires
        a <= b,
        c >= 0,
    ensures
        a * c <= b * c,
{
}

/// At most one member wins.
pub proof fn lemma_one_winner(ms: Seq<Member>, a: int, b: int)
    requires
        is_winner(ms, a),
        is_winner(ms, b),
    ensures
        a == b,
{
    assert(ms[a].active && ms[b].active);
}

/// Where some member is eligible, one wins.
pub proof fn lemma_winner_wins(ms: Seq<Member>)
    requires
        any(ms, Standing::Eligible),
    ensures
        is_winner(ms, winner(ms)),
{
    lemma_winner_exists(ms);
}

/// The same, as an existence.
proof fn lemma_winner_exists(ms: Seq<Member>)
    requires
        any(ms, Standing::Eligible),
    ensures
        exists|w: int| is_winner(ms, w),
    decreases ms.len(),
{
    let front = ms.drop_last();
    let last = ms.len() - 1;
    assert(forall|i: int| 0 <= i < front.len() ==> #[trigger] ms[i] == front[i]);
    if any(front, Standing::Eligible) {
        lemma_winner_exists(front);
        let w = choose|w: int| is_winner(front, w);
        assert(front[w] == ms[w]);
        if stands(ms[last], Standing::Eligible) && ms[last].bid_bps > ms[w].bid_bps {
            assert forall|i: int|
                0 <= i < last && (#[trigger] ms[i]).active
                    && !ms[i].won_this_rotation implies ms[i].bid_bps < ms[last].bid_bps by {
                assert(front[i].active);
            }
            assert(is_winner(ms, last));
        } else {
            assert forall|i: int|
                0 <= i < ms.len() && (#[trigger] ms[i]).active && !ms[i].won_this_rotation implies (
            if i < w {
                ms[i].bid_bps < ms[w].bid_bps
            } else {
                ms[i].bid_bps <= ms[w].bid_bps
            }) by {
                if i < last {
                    assert(front[i].active);
                }
            }
            assert(is_winner(ms, w));
        }
    } else {
        let w = choose|w: int| 0 <= w < ms.len() && stands(#[trigger] ms[w], Standing::Eligible);
        assert(w == last) by {
            if w < last {
                assert(stands(front[w], Standing::Eligible));
            }
        }
        assert forall|i: int| 0 <= i < last implies !stands(
            #[trigger] ms[i],
            Standing::Eligible,
        ) by {
            assert(!stands(front[i], Standing::Eligible));
        }
        assert(is_winner(ms, last));
    }
}

/// The amounts of a settlement: nothing is negative, the pot is what the winner and
/// the others receive and the remainder, and the remainder is less than one unit for
/// each of the others.
pub proof fn lemma_amounts(g: GroupView)
    requires
        sound(g),
        any(g.members, Standing::Eligible),
        forall|i: int| 0 <= i < g.members.len() ==> !unbid(#[trigger] g.members[i]),
    ensures
        is_winner(g.members, winner(g.members)),
        0 <= cover(g) <= gap(g),
        cover(g) <= g.reserve,
        pot(g) >= 0,
        others(g) >= 0,
        bid_amount(g) >= 0,
        share(g) >= 0,
        remainder(g) >= 0,
        others(g) > 0 ==> remainder(g) < others(g),
        net_to_winner(g) + share(g) * others(g) + remainder(g) == pot(g),
{
    let w = winner(g.members);
    lemma_winner_wins(g.members);
    assert(!unbid(g.members[w]));
    lemma_count_any(g.members, Standing::Active);
    assert(stands(g.members[w], Standing::Active));
    let n = count(g.members, Standing::Active) as int;
    lemma_times_grows(0, n, g.config.contribution);
    lemma_times_grows(0, pot(g), g.members[w].bid_bps as int);
    vstd::arithmetic::div_mod::lemma_div_pos_is_pos(
        pot(g) * g.members[w].bid_bps,
        BPS as int,
    );
    if others(g) > 0 {
        vstd::arithmetic::div_mod::lemma_fundamental_div_mod(bid_amount(g), others(g));
        vstd::arithmetic::mul::lemma_mul_is_commutative(share(g), others(g));
        vstd::arithmetic::div_mod::lemma_div_pos_is_pos(bid_amount(g), others(g));
        vstd::arithmetic::div_mod::lemma_mod_bound(bid_amount(g), others(g));
    }
}

/// Closing splits the reserve into equal shares and dust, less than one unit for each
/// survivor.
pub proof fn lemma_closing(g: GroupView)
    requires
        sound(g),
    ensures
        closing_reserve(g) >= g.reserve,
        0 <= closing_share(g),
        ({
            let survivors = count(g.members, Standing::Active);
            let dust = closing_reserve(g) - closing_share(g) * survivors;
            0 <= dust && (survivors > 0 ==> dust < survivors)
        }),
{
    lemma_times_grows(0, count(g.members, Standing::Paid) as int, g.config.contribution);
    let survivors = count(g.members, Standing::Active) as int;
    if survivors > 0 {
        vstd::arithmetic::div_mod::lemma_fundamental_div_mod(closing_reserve(g), survivors);
        vstd::arithmetic::mul::lemma_mul_is_commutative(closing_share(g), survivors);
        vstd::arithmetic::div_mod::lemma_div_pos_is_pos(closing_reserve(g), survivors);
        vstd::arithmetic::div_mod::lemma_mod_bound(closing_reserve(g), survivors);
    }
}

} // verus!
