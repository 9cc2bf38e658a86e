//! Why a group that was locked with enough collateral never runs into bad debt.
//!
//! Let `e` be the number of empty seats and `r` the number of members that are still to
//! win, which is the number of rounds to come. Each round the reserve pays one
//! contribution for each empty seat. Promotions fill seats but add rounds, so the most
//! that the reserve can be asked for, over all orders of rounds and promotions, is at
//! most `e * r + e * (e - 1) / 2` contributions.

use vstd::prelude::*;

use crate::members::{count, Standing};
use crate::types::GroupView;

verus! {

/// Twice the number of contributions that the reserve may still be asked for.
pub open spec fn twice_need(e: int, r: int) -> int {
    2 * (e * r) + e * (e - 1)
}

/// How many seats are empty.
pub open spec fn empty_seats(g: GroupView) -> int {
    g.slots - count(g.members, Standing::Active)
}

/// Whether the reserve covers all that it may still be asked for.
pub open spec fn solvent(g: GroupView) -> bool {
    &&& g.config.collateral >= (g.slots - 1) * g.config.contribution
    &&& 2 * g.reserve >= g.config.contribution * twice_need(
        empty_seats(g),
        count(g.members, Standing::Eligible) as int,
    )
}

/// Defaults of `d` members of a group of `n` seats raise the need by no more than the
/// collateral that the lock demanded of them.
pub proof fn lemma_need_default(n: int, e: int, r: int, d: int, r_then: int)
    requires
        0 <= e,
        0 <= d,
        0 <= r_then <= r,
        r_then + e + d <= n,
    ensures
        twice_need(e + d, r_then) <= twice_need(e, r) + 2 * (d * (n - 1)),
{
    assert(twice_need(e + d, r_then) == 2 * (e * r_then) + e * (e - 1) + d * (2 * r_then + 2 * e + d
        - 1)) by (nonlinear_arith);
    assert(e * r_then <= e * r) by (nonlinear_arith)
        requires
            0 <= e,
            r_then <= r,
    ;
    if d > 0 {
        assert(d * (2 * r_then + 2 * e + d - 1) <= d * (2 * (n - 1))) by (nonlinear_arith)
            requires
                d > 0,
                2 * r_then + 2 * e + d - 1 <= 2 * (n - 1),
        ;
        assert(d * (2 * (n - 1)) == 2 * (d * (n - 1))) by (nonlinear_arith);
    } else {
        assert(d * (2 * r_then + 2 * e + d - 1) == 0 && d * (n - 1) == 0) by (nonlinear_arith)
            requires
                d == 0,
        ;
    }
}

/// A promotion into an empty seat does not raise the need.
pub proof fn lemma_need_promotion(e: int, r: int)
    requires
        e >= 1,
        r >= 0,
    ensures
        twice_need(e - 1, r + 1) <= twice_need(e, r),
{
    assert(twice_need(e - 1, r + 1) == twice_need(e, r) - 2 * r) by (nonlinear_arith);
}

/// A round takes what it costs off the need, and the need covers it.
pub proof fn lemma_need_round(e: int, r: int)
    requires
        e >= 0,
        r >= 1,
    ensures
        twice_need(e, r - 1) == twice_need(e, r) - 2 * e,
        twice_need(e, r) >= 2 * e,
{
    assert(twice_need(e, r - 1) == twice_need(e, r) - 2 * e) by (nonlinear_arith);
    assert(twice_need(e, r) >= 2 * e) by (nonlinear_arith)
        requires
            e >= 0,
            r >= 1,
    ;
}

/// A larger need, in contributions.
pub proof fn lemma_need_scaled(c: int, a: int, b: int)
    by (nonlinear_arith)
    requires
        c >= 0,
        a <= b,
    ensures
        c * a <= c * b,
{
}

} // verus!
