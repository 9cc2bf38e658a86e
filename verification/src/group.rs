//! A group's requests, carried out on its state.

use vstd::prelude::*;

use crate::amounts::{lemma_amounts, lemma_closing, lemma_one_winner, lemma_times_grows};
use crate::members::{
    any, count, find, lemma_count_any, lemma_count_le_len, lemma_count_prefix, lemma_count_take,
    lemma_find, lemma_find_is, lemma_find_none, stands, Standing,
};
use crate::rules::{
    after, amounts_fit, any_unbid, called, closed, closing_reserve, cover, credit,
    default_if_straggler, default_member, default_stragglers, fits, gap, is_winner, net_to_winner,
    newcomer, paid_member, paid_out, payment, payments, payout_fits, payout_payments, refusal,
    remainder, rested, settlement_payments, share, share_payments, sound, unbid, winner, with_bid,
    Step,
};
use crate::types::{
    Action, Address, Error, GroupState, GroupView, Member, BPS, MAX_BID_BPS, MAX_MEMBERS, NO_BID,
};
use crate::upkeep::{lemma_called_sound, lemma_sound_kept};

verus! {

/// Whether a member stands as `k` says.
fn has_standing(m: &Member, k: Standing) -> (res: bool)
    ensures
        res == stands(*m, k),
{
    match k {
        Standing::Active => m.active,
        Standing::Straggler => m.active && !m.contributed_this_round,
        Standing::Eligible => m.active && !m.won_this_rotation,
        Standing::Paid => m.active && m.contributed_this_round,
        Standing::Unrefunded => m.active && !m.refunded,
        Standing::Inactive => !m.active,
    }
}

/// How many members stand as `k` says.
fn tally(members: &Vec<Member>, k: Standing) -> (n: u32)
    requires
        members@.len() <= u32::MAX,
    ensures
        n == count(members@, k),
{
    let mut n: u32 = 0;
    let mut i: usize = 0;
    while i < members.len()
        invariant
            i <= members@.len() <= u32::MAX,
            n == count(members@.take(i as int), k),
            n <= i,
        decreases members@.len() - i,
    {
        proof {
            lemma_count_take(members@, i as int, k);
        }
        if has_standing(&members[i], k) {
            n = n + 1;
        }
        i = i + 1;
    }
    assert(members@.take(i as int) =~= members@);
    n
}

/// How many members are active.
pub fn active_count(members: &Vec<Member>) -> (n: u32)
    requires
        members@.len() <= u32::MAX,
    ensures
        n == count(members@, Standing::Active),
{
    tally(members, Standing::Active)
}

/// The index of the first member with this address.
pub fn find_member_idx(members: &Vec<Member>, addr: &Address) -> (res: Option<u32>)
    requires
        members@.len() <= u32::MAX,
    ensures
        match res {
            Some(i) => find(members@, *addr) == Some(i as int),
            None => find(members@, *addr) is None,
        },
{
    let mut i: usize = 0;
    while i < members.len()
        invariant
            i <= members@.len() <= u32::MAX,
            forall|j: int| 0 <= j < i ==> (#[trigger] members@[j]).addr != *addr,
        decreases members@.len() - i,
    {
        if members[i].addr == *addr {
            proof {
                lemma_find_is(members@, *addr, i as int);
            }
            return Some(i as u32);
        }
        i = i + 1;
    }
    proof {
        lemma_find_none(members@, *addr);
    }
    None
}

/// Whether a list holds this address.
pub fn lists(list: &Vec<Address>, addr: &Address) -> (res: bool)
    ensures
        res == list@.contains(*addr),
{
    let mut i: usize = 0;
    while i < list.len()
        invariant
            i <= list@.len(),
            forall|j: int| 0 <= j < i ==> #[trigger] list@[j] != *addr,
        decreases list@.len() - i,
    {
        if list[i] == *addr {
            assert(list@[i as int] == *addr);
            return true;
        }
        i = i + 1;
    }
    false
}

/// Whether a group is sound.
pub fn is_sound(state: &GroupState) -> (res: bool)
    ensures
        res == sound(state@),
{
    state.config.contribution > 0 && state.config.collateral >= 0 && state.config.max_bid_bps
        <= MAX_BID_BPS && state.config.max_members <= MAX_MEMBERS && state.reserve >= 0
        && state.members.len() <= u32::MAX as usize
}

/// A member as it takes its seat.
fn new_member(addr: Address) -> (m: Member)
    ensures
        m == newcomer(addr),
{
    Member {
        addr,
        active: true,
        defaulted: false,
        won_this_rotation: false,
        contributed_this_round: false,
        bid_bps: NO_BID,
        total_wins: 0,
        total_contributed: 0,
        total_received: 0,
        refunded: false,
    }
}

/// Lists a payment, unless there is nothing to pay.
fn pay(actions: &mut Vec<Action>, token: Address, from: Address, to: Address, amount: i128)
    ensures
        final(actions)@ == old(actions)@ + payment(token, from, to, amount as int),
{
    if amount > 0 {
        actions.push(Action::Transfer { token, from, to, amount });
    }
}

/// Whether defaulting the member at `idx` fits the reserve and the open slots.
fn default_fits(state: &GroupState, idx: u32) -> (res: bool)
    requires
        sound(state@),
        idx < state.members@.len(),
    ensures
        res == ({
            let d = default_member(state@, idx as int);
            d.reserve <= i128::MAX && d.open_slots <= u32::MAX
        }),
{
    let seized = if state.members[idx as usize].contributed_this_round {
        match state.config.collateral.checked_add(state.config.contribution) {
            Some(seized) => seized,
            None => {
                return false;
            },
        }
    } else {
        state.config.collateral
    };
    state.reserve.checked_add(seized).is_some() && state.open_slots < u32::MAX
}

/// Defaults the member at `idx`, at the deadline or by the admins. Its collateral
/// moves into the reserve, and so does this round's contribution where it was
/// paid. The reserve then tops up each later pot for the seat.
pub fn auto_default_member(state: &mut GroupState, idx: u32)
    requires
        sound(old(state)@),
        idx < old(state).members@.len(),
        default_member(old(state)@, idx as int).reserve <= i128::MAX,
        default_member(old(state)@, idx as int).open_slots <= u32::MAX,
    ensures
        final(state)@ == default_member(old(state)@, idx as int),
{
    let mut m = state.members[idx as usize];
    if m.contributed_this_round {
        state.reserve = state.reserve + state.config.contribution;
        m.contributed_this_round = false;
    }
    m.active = false;
    m.defaulted = true;
    state.members.set(idx as usize, m);
    state.reserve = state.reserve + state.config.collateral;
    state.open_slots = state.open_slots + 1;
    assert(state@ =~= default_member(old(state)@, idx as int));
}

/// Whether closing fits the reserve.
fn closing_fits(state: &GroupState) -> (res: bool)
    requires
        sound(state@),
    ensures
        res == (closing_reserve(state@) <= i128::MAX),
{
    let paid = tally(&state.members, Standing::Paid);
    assert(paid * state.config.contribution >= 0) by (nonlinear_arith)
        requires
            paid >= 0,
            state.config.contribution > 0,
    ;
    match (paid as i128).checked_mul(state.config.contribution) {
        Some(unspent) => state.reserve.checked_add(unspent).is_some(),
        None => false,
    }
}

/// Ends the cycle: contributions already paid into the current round go to the
/// reserve, the reserve is split equally among surviving members (dust stays in
/// `reserve`), and refunds open.
pub fn close_cycle(state: &mut GroupState)
    requires
        sound(old(state)@),
        closing_reserve(old(state)@) <= i128::MAX,
    ensures
        final(state)@ == closed(old(state)@),
{
    let ghost g = state@;
    let mut survivors: i128 = 0;
    let mut i: usize = 0;
    assert(count(g.members.take(0), Standing::Paid) * g.config.contribution == 0) by {
        assert(0 * g.config.contribution == 0) by (nonlinear_arith);
    }
    while i < state.members.len()
        invariant
            i <= g.members.len() == state.members@.len(),
            sound(g),
            closing_reserve(g) <= i128::MAX,
            survivors == count(g.members.take(i as int), Standing::Active),
            forall|j: int| 0 <= j < i ==> #[trigger] state.members@[j] == rested(g.members[j]),
            forall|j: int|
                i <= j < g.members.len() ==> #[trigger] state.members@[j] == g.members[j],
            state@ == (GroupView {
                members: state.members@,
                reserve: g.reserve + count(g.members.take(i as int), Standing::Paid)
                    * g.config.contribution,
                ..g
            }),
        decreases g.members.len() - i,
    {
        let mut m = state.members[i];
        let ghost paid = count(g.members.take(i as int), Standing::Paid);
        proof {
            lemma_count_take(g.members, i as int, Standing::Active);
            lemma_count_take(g.members, i as int, Standing::Paid);
            lemma_count_le_len(g.members.take(i as int), Standing::Active);
            lemma_count_prefix(g.members, i as int + 1, Standing::Paid);
            lemma_times_grows(
                count(g.members.take(i as int + 1), Standing::Paid) as int,
                count(g.members, Standing::Paid) as int,
                g.config.contribution,
            );
            assert((paid + 1) * g.config.contribution == paid * g.config.contribution
                + g.config.contribution) by (nonlinear_arith);
        }
        if m.active {
            survivors = survivors + 1;
            if m.contributed_this_round {
                state.reserve = state.reserve + state.config.contribution;
                m.contributed_this_round = false;
                state.members.set(i, m);
            }
        }
        i = i + 1;
    }
    assert(g.members.take(i as int) =~= g.members);
    assert(state.members@ =~= g.members.map_values(|m: Member| rested(m)));
    let share: i128 = if survivors > 0 {
        state.reserve / survivors
    } else {
        0
    };
    proof {
        lemma_closing(g);
        lemma_times_grows(0, share as int, survivors as int);
    }
    state.refund_share = share;
    state.reserve = state.reserve - share * survivors;
    state.completed = true;
    state.open_slots = 0;
    assert(state@ =~= closed(g));
}

/// The first part of settling: defaults every straggler, and counts a missing bid
/// as a bid of nothing, or refuses where the deadline has not passed. `None` where
/// the reserve or the open slots would not fit.
fn call_round(state: &mut GroupState, deadline_passed: bool) -> (res: Option<Result<(), Error>>)
    requires
        sound(old(state)@),
    ensures
        match res {
            None => deadline_passed && (default_stragglers(old(state)@).reserve > i128::MAX
                || default_stragglers(old(state)@).open_slots > u32::MAX),
            Some(Ok(())) => {
                &&& final(state)@ == called(old(state)@)
                &&& final(state)@.reserve <= i128::MAX && final(state)@.open_slots <= u32::MAX
                &&& deadline_passed || !any(old(state)@.members, Standing::Straggler)
                &&& deadline_passed || !any_unbid(old(state)@.members)
            },
            Some(Err(e)) => {
                &&& !deadline_passed
                &&& if any(old(state)@.members, Standing::Straggler) {
                    e == Error::NotAllContributed
                } else {
                    e == Error::NotAllBid && any_unbid(old(state)@.members)
                }
            },
        },
{
    let ghost g = state@;
    let mut i: usize = 0;
    assert(count(g.members.take(0), Standing::Straggler) * g.config.collateral == 0) by {
        assert(0 * g.config.collateral == 0) by (nonlinear_arith);
    }
    while i < state.members.len()
        invariant
            i <= g.members.len() == state.members@.len(),
            g == old(state)@,
            sound(g),
            sound(state@),
            forall|j: int|
                0 <= j < i ==> #[trigger] state.members@[j] == default_if_straggler(g.members[j]),
            forall|j: int|
                i <= j < g.members.len() ==> #[trigger] state.members@[j] == g.members[j],
            state@ == (GroupView {
                members: state.members@,
                reserve: g.reserve + count(g.members.take(i as int), Standing::Straggler)
                    * g.config.collateral,
                open_slots: g.open_slots + count(g.members.take(i as int), Standing::Straggler),
                ..g
            }),
            deadline_passed || forall|j: int|
                0 <= j < i ==> !stands(#[trigger] g.members[j], Standing::Straggler),
        decreases g.members.len() - i,
    {
        let ghost late = count(g.members.take(i as int), Standing::Straggler);
        proof {
            lemma_count_take(g.members, i as int, Standing::Straggler);
            lemma_count_prefix(g.members, i as int + 1, Standing::Straggler);
            lemma_times_grows(
                count(g.members.take(i as int + 1), Standing::Straggler) as int,
                count(g.members, Standing::Straggler) as int,
                g.config.collateral,
            );
            assert((late + 1) * g.config.collateral == late * g.config.collateral
                + g.config.collateral) by (nonlinear_arith);
        }
        if has_standing(&state.members[i], Standing::Straggler) {
            if !deadline_passed {
                assert(stands(g.members[i as int], Standing::Straggler));
                return Some(Err(Error::NotAllContributed));
            }
            if !default_fits(state, i as u32) {
                return None;
            }
            auto_default_member(state, i as u32);
        }
        i = i + 1;
    }
    let ghost d = default_stragglers(g);
    assert(g.members.take(i as int) =~= g.members);
    assert(state.members@ =~= d.members);
    assert(state@ =~= d);
    let mut i: usize = 0;
    while i < state.members.len()
        invariant
            i <= d.members.len() == state.members@.len(),
            g == old(state)@,
            d == default_stragglers(g),
            d.members.len() == g.members.len(),
            forall|j: int| 0 <= j < i ==> #[trigger] state.members@[j] == with_bid(d.members[j]),
            forall|j: int|
                i <= j < d.members.len() ==> #[trigger] state.members@[j] == d.members[j],
            state@ == (GroupView { members: state.members@, ..d }),
            deadline_passed || !any(g.members, Standing::Straggler),
            deadline_passed || forall|j: int|
                0 <= j < i ==> !unbid(#[trigger] g.members[j]),
        decreases d.members.len() - i,
    {
        let mut m = state.members[i];
        assert(!deadline_passed ==> m == g.members[i as int]) by {
            if !deadline_passed {
                assert(!stands(g.members[i as int], Standing::Straggler));
            }
        }
        if m.active && !m.won_this_rotation && m.bid_bps < 0 {
            if !deadline_passed {
                assert(unbid(g.members[i as int]));
                return Some(Err(Error::NotAllBid));
            }
            m.bid_bps = 0;
            state.members.set(i, m);
        }
        i = i + 1;
    }
    assert(state.members@ =~= called(g).members);
    assert(state@ =~= called(g));
    Some(Ok(()))
}

/// The winner of a round: the highest bid, ties broken by the lowest index.
fn pick_winner(members: &Vec<Member>) -> (w: usize)
    requires
        any(members@, Standing::Eligible),
    ensures
        is_winner(members@, w as int),
        w == winner(members@),
{
    let mut w: usize = 0;
    let mut found: bool = false;
    let mut i: usize = 0;
    while i < members.len()
        invariant
            i <= members@.len(),
            found <==> any(members@.take(i as int), Standing::Eligible),
            found ==> w < i && is_winner(members@.take(i as int), w as int),
        decreases members@.len() - i,
    {
        let ghost seen = members@.take(i as int);
        let ghost next = members@.take(i as int + 1);
        assert(next =~= seen.push(members@[i as int]));
        assert(forall|j: int| 0 <= j < i ==> #[trigger] next[j] == seen[j]);
        assert(next[i as int] == members@[i as int]);
        let m = members[i];
        proof {
            if found {
                assert(stands(next[w as int], Standing::Eligible));
            }
            assert forall|j: int| 0 <= j < i && !found implies !stands(
                #[trigger] next[j],
                Standing::Eligible,
            ) by {
                assert(next[j] == seen[j]);
            }
        }
        if m.active && !m.won_this_rotation {
            if !found || m.bid_bps > members[w].bid_bps {
                w = i;
            }
            found = true;
        }
        i = i + 1;
    }
    assert(members@.take(i as int) =~= members@);
    proof {
        lemma_one_winner(members@, w as int, winner(members@));
    }
    w
}

/// The amounts of a settled round.
struct Payout {
    shortfall: i128,
    net: i128,
    share: i128,
    reserve: i128,
}

/// Works out the amounts of a settled round, won by the member at `w`. `None`
/// where one does not fit.
fn work_out(state: &GroupState, w: usize) -> (res: Option<Payout>)
    requires
        sound(state@),
        is_winner(state@.members, w as int),
        w == winner(state@.members),
        state@.members[w as int].bid_bps >= 0,
    ensures
        res is Some <==> amounts_fit(state@),
        res matches Some(p) ==> {
            &&& p.shortfall == state@.total_uncovered_shortfall + gap(state@) - cover(state@)
            &&& p.net == net_to_winner(state@)
            &&& p.share == share(state@) >= 0
            &&& p.reserve == state@.reserve - cover(state@) + remainder(state@)
        },
{
    let ghost g = state@;
    let n_active = active_count(&state.members);
    proof {
        lemma_count_any(g.members, Standing::Active);
        assert(stands(g.members[w as int], Standing::Active));
        lemma_times_grows(0, n_active as int, g.config.contribution);
        lemma_times_grows(0, g.slots, g.config.contribution);
    }
    let contribution = state.config.contribution;
    let expected_pot: i128 = match (state.slots as i128).checked_mul(contribution) {
        Some(x) => x,
        None => {
            return None;
        },
    };
    let collected: i128 = match (n_active as i128).checked_mul(contribution) {
        Some(x) => x,
        None => {
            return None;
        },
    };
    let gap: i128 = if expected_pot > collected {
        expected_pot - collected
    } else {
        0
    };
    let cover: i128 = if gap < state.reserve {
        gap
    } else {
        state.reserve
    };
    let shortfall: i128 = match state.total_uncovered_shortfall.checked_add(gap - cover) {
        Some(x) => x,
        None => {
            return None;
        },
    };
    let pot: i128 = collected + cover;
    let bid = state.members[w].bid_bps as i128;
    proof {
        lemma_times_grows(0, pot as int, bid as int);
    }
    let sacrifice: i128 = match pot.checked_mul(bid) {
        Some(x) => x,
        None => {
            return None;
        },
    };
    let bid_amount: i128 = sacrifice / BPS;
    let net: i128 = pot - bid_amount;
    let others: i128 = (n_active as i128) - 1;
    let share: i128 = if others > 0 {
        bid_amount / others
    } else {
        0
    };
    proof {
        if others > 0 {
            vstd::arithmetic::div_mod::lemma_fundamental_div_mod(bid_amount as int, others as int);
            vstd::arithmetic::mul::lemma_mul_is_commutative(share as int, others as int);
            vstd::arithmetic::div_mod::lemma_div_pos_is_pos(bid_amount as int, others as int);
            lemma_times_grows(0, share as int, others as int);
        }
    }
    let remainder: i128 = bid_amount - share * others;
    match (state.reserve - cover).checked_add(remainder) {
        Some(reserve) => Some(Payout { shortfall, net, share, reserve }),
        None => None,
    }
}

/// The second part of settling: pays the pot out and starts the next round. `false`
/// where an amount does not fit.
fn pay_out(
    state: &mut GroupState,
    now: u64,
    contract: Address,
    actions: &mut Vec<Action>,
) -> (res: bool)
    requires
        sound(old(state)@),
        any(old(state)@.members, Standing::Eligible),
        forall|i: int|
            0 <= i < old(state)@.members.len() ==> !unbid(#[trigger] old(state)@.members[i]),
    ensures
        res == payout_fits(old(state)@, now as int),
        res ==> final(state)@ == paid_out(old(state)@, now as int),
        res ==> final(actions)@ == old(actions)@ + payout_payments(old(state)@, contract),
{
    let ghost g = state@;
    let w = pick_winner(&state.members);
    assert(!unbid(g.members[w as int]));
    let p = match work_out(state, w) {
        Some(p) => p,
        None => {
            return false;
        },
    };
    let deadline: u64 = match now.checked_add(state.config.round_duration_secs) {
        Some(deadline) => deadline,
        None => {
            return false;
        },
    };
    if state.round == u32::MAX || state.members[w].total_wins == u32::MAX {
        return false;
    }
    let token = state.config.token;
    let ghost before = actions@;
    pay(actions, token, contract, state.members[w].addr, p.net);
    let ghost prize = payment(token, contract, g.members[w as int].addr, p.net as int);
    assert(before + prize + share_payments(
        token,
        contract,
        g.members.take(0),
        w as int,
        p.share as int,
    ) =~= before + prize);
    let mut i: usize = 0;
    while i < state.members.len()
        invariant
            i <= g.members.len() == state.members@.len(),
            g == old(state)@,
            w == winner(g.members),
            token == g.config.token,
            p.net == net_to_winner(g),
            p.share == share(g) >= 0,
            state@ == (GroupView { members: state.members@, ..g }),
            forall|j: int| 0 <= j < i ==> #[trigger] state.members@[j] == paid_member(g, j),
            forall|j: int|
                i <= j < g.members.len() ==> #[trigger] state.members@[j] == g.members[j],
            g.members[w as int].total_wins < u32::MAX,
            forall|j: int|
                0 <= j < i && (#[trigger] g.members[j]).active ==> i128::MIN
                    <= g.members[j].total_received + credit(g, j) <= i128::MAX,
            actions@ == before + prize + share_payments(
                token,
                contract,
                g.members.take(i as int),
                w as int,
                p.share as int,
            ),
        decreases g.members.len() - i,
    {
        let mut m = state.members[i];
        let ghost earlier = share_payments(
            token,
            contract,
            g.members.take(i as int),
            w as int,
            p.share as int,
        );
        let ghost own = payment(token, contract, m.addr, p.share as int);
        proof {
            let next = g.members.take(i as int + 1);
            assert(next.drop_last() =~= g.members.take(i as int));
            assert(next.last() == m);
            assert((before + prize + earlier) + own =~= before + prize + (earlier + own));
        }
        if m.active {
            let credit: i128 = if i == w {
                p.net
            } else {
                p.share
            };
            match m.total_received.checked_add(credit) {
                Some(x) => {
                    m.total_received = x;
                },
                None => {
                    assert(g.members[i as int].active);
                    return false;
                },
            }
            if i == w {
                m.won_this_rotation = true;
                m.total_wins = m.total_wins + 1;
            } else {
                pay(actions, token, contract, m.addr, p.share);
            }
            m.contributed_this_round = false;
            m.bid_bps = NO_BID;
            state.members.set(i, m);
        }
        i = i + 1;
    }
    assert(g.members.take(i as int) =~= g.members);
    state.reserve = p.reserve;
    state.total_uncovered_shortfall = p.shortfall;
    state.round = state.round + 1;
    state.round_deadline = deadline;
    assert(state.members@ =~= paid_out(g, now as int).members);
    assert(state@ =~= paid_out(g, now as int));
    assert(actions@ =~= before + payout_payments(g, contract));
    true
}

/// Paying out keeps the group sound, and leaves no contribution of the round.
proof fn lemma_paid_out_sound(g: GroupView, now: int)
    requires
        sound(g),
        any(g.members, Standing::Eligible),
        forall|i: int| 0 <= i < g.members.len() ==> !unbid(#[trigger] g.members[i]),
    ensures
        sound(paid_out(g, now)),
        closing_reserve(paid_out(g, now)) == paid_out(g, now).reserve,
{
    let p = paid_out(g, now);
    lemma_count_any(p.members, Standing::Paid);
    assert(count(p.members, Standing::Paid) == 0);
    assert(0 * g.config.contribution == 0) by (nonlinear_arith);
    lemma_amounts(g);
}

/// Whether an answer to a request obeys the rules: it comes where the amounts fit,
/// and it is the refusal, or the group and the payments after the request.
pub open spec fn obeys(
    g: GroupView,
    step: Step,
    contract: Address,
    listed: Seq<Action>,
    res: Option<Result<(), Error>>,
    then_g: GroupView,
    then_listed: Seq<Action>,
) -> bool {
    &&& res is Some <==> fits(g, step)
    &&& match res {
        Some(Ok(())) => {
            &&& refusal(g, step) is None
            &&& then_g == after(g, step)
            &&& then_listed == listed + payments(g, step, contract)
        },
        Some(Err(e)) => refusal(g, step) == Some(e),
        None => true,
    }
}

/// Takes a seat in an unlocked group, posting collateral.
fn join(
    state: &mut GroupState,
    member: Address,
    contract: Address,
    actions: &mut Vec<Action>,
) -> (res: Option<Result<(), Error>>)
    requires
        sound(old(state)@),
    ensures
        obeys(
            old(state)@,
            Step::Join(member),
            contract,
            old(actions)@,
            res,
            final(state)@,
            final(actions)@,
        ),
{
    if state.locked {
        return Some(Err(Error::AlreadyLocked));
    }
    if state.members.len() >= state.config.max_members as usize {
        return Some(Err(Error::GroupFull));
    }
    if find_member_idx(&state.members, &member).is_some() {
        return Some(Err(Error::AlreadyMember));
    }
    pay(actions, state.config.token, member, contract, state.config.collateral);
    state.members.push(new_member(member));
    Some(Ok(()))
}

/// Queues for a seat. No collateral is taken yet.
fn queue(state: &mut GroupState, member: Address) -> (res: Option<Result<(), Error>>)
    requires
        sound(old(state)@),
    ensures
        forall|contract: Address, listed: Seq<Action>| #[trigger]
            obeys(old(state)@, Step::Queue(member), contract, listed, res, final(state)@, listed),
{
    if find_member_idx(&state.members, &member).is_some() {
        return Some(Err(Error::AlreadyMember));
    }
    if lists(&state.waitlist, &member) {
        return Some(Err(Error::AlreadyOnWaitlist));
    }
    state.waitlist.push(member);
    Some(Ok(()))
}

/// Takes a freed seat, from the front of the queue, posting collateral.
fn promote(
    state: &mut GroupState,
    member: Address,
    contract: Address,
    actions: &mut Vec<Action>,
) -> (res: Option<Result<(), Error>>)
    requires
        sound(old(state)@),
    ensures
        obeys(
            old(state)@,
            Step::Promote(member),
            contract,
            old(actions)@,
            res,
            final(state)@,
            final(actions)@,
        ),
{
    if state.completed {
        return Some(Err(Error::AlreadyCompleted));
    }
    if state.open_slots == 0 {
        return Some(Err(Error::NoOpenSlots));
    }
    if state.waitlist.len() == 0 || state.waitlist[0] != member {
        return Some(Err(Error::NotNextInWaitlist));
    }
    if find_member_idx(&state.members, &member).is_some() {
        return Some(Err(Error::AlreadyMember));
    }
    if state.members.len() >= u32::MAX as usize {
        return None;
    }
    pay(actions, state.config.token, member, contract, state.config.collateral);
    state.waitlist.remove(0);
    state.open_slots = state.open_slots - 1;
    state.members.push(new_member(member));
    Some(Ok(()))
}

/// Locks the group and starts round 1.
fn lock(state: &mut GroupState, now: u64) -> (res: Option<Result<(), Error>>)
    requires
        sound(old(state)@),
    ensures
        forall|contract: Address, listed: Seq<Action>| #[trigger]
            obeys(old(state)@, Step::Lock(now), contract, listed, res, final(state)@, listed),
{
    if state.locked {
        return Some(Err(Error::AlreadyLocked));
    }
    if state.members.len() < 3 {
        return Some(Err(Error::TooFewMembersToLock));
    }
    // The first member to win can default having received a full pot and still
    // owe a contribution for every other member. Collateral must at least cover
    // that or the group is unsafe by construction.
    let n = state.members.len() as u32;
    proof {
        lemma_times_grows(0, n - 1, state.config.contribution as int);
    }
    let owed: i128 = match ((n - 1) as i128).checked_mul(state.config.contribution) {
        Some(owed) => owed,
        None => {
            return None;
        },
    };
    if state.config.collateral < owed {
        return Some(Err(Error::CollateralTooLow));
    }
    let deadline: u64 = match now.checked_add(state.config.round_duration_secs) {
        Some(deadline) => deadline,
        None => {
            return None;
        },
    };
    state.slots = n;
    state.locked = true;
    state.round = 1;
    state.rotation = 1;
    state.round_deadline = deadline;
    Some(Ok(()))
}

/// Pays this round's contribution.
fn contribute(
    state: &mut GroupState,
    member: Address,
    contract: Address,
    actions: &mut Vec<Action>,
) -> (res: Option<Result<(), Error>>)
    requires
        sound(old(state)@),
    ensures
        obeys(
            old(state)@,
            Step::Contribute(member),
            contract,
            old(actions)@,
            res,
            final(state)@,
            final(actions)@,
        ),
{
    if !state.locked {
        return Some(Err(Error::NotLocked));
    }
    if state.completed {
        return Some(Err(Error::AlreadyCompleted));
    }
    proof {
        lemma_find(state.members@, member);
    }
    let idx = match find_member_idx(&state.members, &member) {
        Some(idx) => idx as usize,
        None => {
            return Some(Err(Error::NotAMember));
        },
    };
    let mut m = state.members[idx];
    if !m.active {
        return Some(Err(Error::MemberNotActive));
    }
    if m.contributed_this_round {
        return Some(Err(Error::AlreadyContributedThisRound));
    }
    m.contributed_this_round = true;
    match m.total_contributed.checked_add(state.config.contribution) {
        Some(total) => {
            m.total_contributed = total;
        },
        None => {
            return None;
        },
    }
    pay(actions, state.config.token, member, contract, state.config.contribution);
    state.members.set(idx, m);
    Some(Ok(()))
}

/// Submits a bid, in basis points of the pot. Only an active member that has not
/// won yet may bid.
fn bid(state: &mut GroupState, member: Address, bid_bps: u32) -> (res: Option<Result<(), Error>>)
    requires
        sound(old(state)@),
    ensures
        forall|contract: Address, listed: Seq<Action>| #[trigger]
            obeys(
                old(state)@,
                Step::Bid(member, bid_bps),
                contract,
                listed,
                res,
                final(state)@,
                listed,
            ),
{
    if !state.locked {
        return Some(Err(Error::NotLocked));
    }
    if state.completed {
        return Some(Err(Error::AlreadyCompleted));
    }
    if bid_bps > state.config.max_bid_bps {
        return Some(Err(Error::BidTooHigh));
    }
    proof {
        lemma_find(state.members@, member);
    }
    let idx = match find_member_idx(&state.members, &member) {
        Some(idx) => idx as usize,
        None => {
            return Some(Err(Error::NotAMember));
        },
    };
    let mut m = state.members[idx];
    if !m.active {
        return Some(Err(Error::MemberNotActive));
    }
    if m.won_this_rotation {
        return Some(Err(Error::NotEligibleThisRotation));
    }
    if m.bid_bps >= 0 {
        return Some(Err(Error::AlreadyBidThisRound));
    }
    m.bid_bps = bid_bps as i32;
    state.members.set(idx, m);
    Some(Ok(()))
}

/// Settles the round. Before the deadline, only once every active member has
/// contributed and every eligible member has bid; from the deadline on, stragglers
/// are defaulted and a missing bid counts as a bid of nothing.
///
/// The pot is the contributions collected and, for every contribution that an empty
/// seat failed to make, a top-up from the reserve as far as it goes. What the
/// reserve cannot cover reduces the pot and is booked as bad debt. When the last
/// eligible member has won, the group is completed.
fn settle(
    state: &mut GroupState,
    now: u64,
    contract: Address,
    actions: &mut Vec<Action>,
) -> (res: Option<Result<(), Error>>)
    requires
        sound(old(state)@),
    ensures
        obeys(
            old(state)@,
            Step::Settle(now),
            contract,
            old(actions)@,
            res,
            final(state)@,
            final(actions)@,
        ),
{
    if !state.locked {
        return Some(Err(Error::NotLocked));
    }
    if state.completed {
        return Some(Err(Error::AlreadyCompleted));
    }
    let ghost g = state@;
    let ghost c = called(g);
    match call_round(state, now >= state.round_deadline) {
        Some(Ok(())) => {},
        other => {
            return other;
        },
    }
    proof {
        lemma_called_sound(g);
        lemma_count_any(c.members, Standing::Eligible);
    }
    if tally(&state.members, Standing::Eligible) == 0 {
        if !closing_fits(state) {
            return None;
        }
        close_cycle(state);
        assert(actions@ + settlement_payments(g, contract) =~= actions@);
        return Some(Ok(()));
    }
    if !pay_out(state, now, contract, actions) {
        return None;
    }
    proof {
        lemma_paid_out_sound(c, now as int);
        lemma_count_any(state@.members, Standing::Eligible);
    }
    if tally(&state.members, Standing::Eligible) == 0 {
        close_cycle(state);
    }
    Some(Ok(()))
}

/// Pays a surviving member of a completed group its collateral and its share of the
/// leftover reserve, once.
fn claim(
    state: &mut GroupState,
    member: Address,
    contract: Address,
    actions: &mut Vec<Action>,
) -> (res: Option<Result<(), Error>>)
    requires
        sound(old(state)@),
    ensures
        obeys(
            old(state)@,
            Step::Claim(member),
            contract,
            old(actions)@,
            res,
            final(state)@,
            final(actions)@,
        ),
{
    if !state.completed {
        return Some(Err(Error::NotCompleted));
    }
    proof {
        lemma_find(state.members@, member);
    }
    let idx = match find_member_idx(&state.members, &member) {
        Some(idx) => idx as usize,
        None => {
            return Some(Err(Error::NotAMember));
        },
    };
    let mut m = state.members[idx];
    if m.defaulted || !m.active {
        return Some(Err(Error::MemberNotActive));
    }
    if m.refunded {
        return Some(Err(Error::AlreadyClaimed));
    }
    let amount: i128 = match state.config.collateral.checked_add(state.refund_share) {
        Some(amount) => amount,
        None => {
            return None;
        },
    };
    m.refunded = true;
    match m.total_received.checked_add(amount) {
        Some(total) => {
            m.total_received = total;
        },
        None => {
            return None;
        },
    }
    state.members.set(idx, m);
    pay(actions, state.config.token, contract, member, amount);
    Some(Ok(()))
}

/// Defaults a member. If that leaves nobody to win, the cycle ends, so that honest
/// members are not left waiting.
fn default(state: &mut GroupState, member: Address) -> (res: Option<Result<(), Error>>)
    requires
        sound(old(state)@),
    ensures
        forall|contract: Address, listed: Seq<Action>| #[trigger]
            obeys(old(state)@, Step::Default(member), contract, listed, res, final(state)@, listed),
{
    if state.completed {
        return Some(Err(Error::AlreadyCompleted));
    }
    proof {
        lemma_find(state.members@, member);
    }
    let idx = match find_member_idx(&state.members, &member) {
        Some(idx) => idx,
        None => {
            return Some(Err(Error::NotAMember));
        },
    };
    if state.members[idx as usize].defaulted {
        return Some(Err(Error::MemberAlreadyDefaulted));
    }
    if !default_fits(state, idx) {
        return None;
    }
    auto_default_member(state, idx);
    proof {
        lemma_count_any(state@.members, Standing::Eligible);
    }
    if tally(&state.members, Standing::Eligible) == 0 {
        if !closing_fits(state) {
            return None;
        }
        close_cycle(state);
    }
    Some(Ok(()))
}

/// Carries out a request. `None` where an amount does not fit; what is left of the state
/// and the list is then not to be used.
pub(crate) fn apply(
    state: &mut GroupState,
    step: Step,
    contract: Address,
    actions: &mut Vec<Action>,
) -> (res: Option<Result<(), Error>>)
    requires
        sound(old(state)@),
    ensures
        obeys(old(state)@, step, contract, old(actions)@, res, final(state)@, final(actions)@),
        res matches Some(Ok(_)) ==> sound(final(state)@),
{
    let ghost g = state@;
    let ghost listed = actions@;
    let res = match step {
        Step::Join(member) => join(state, member, contract, actions),
        Step::Queue(member) => {
            let res = queue(state, member);
            assert(obeys(g, step, contract, listed, res, state@, listed));
            res
        },
        Step::Promote(member) => promote(state, member, contract, actions),
        Step::Lock(now) => {
            let res = lock(state, now);
            assert(obeys(g, Step::Lock(now), contract, listed, res, state@, listed));
            res
        },
        Step::Contribute(member) => contribute(state, member, contract, actions),
        Step::Bid(member, bid_bps) => {
            let res = bid(state, member, bid_bps);
            assert(obeys(g, step, contract, listed, res, state@, listed));
            res
        },
        Step::Settle(now) => settle(state, now, contract, actions),
        Step::Claim(member) => claim(state, member, contract, actions),
        Step::Default(member) => {
            let res = default(state, member);
            assert(obeys(g, step, contract, listed, res, state@, listed));
            res
        },
    };
    proof {
        if res matches Some(Ok(_)) {
            lemma_sound_kept(g, step);
        }
    }
    res
}

} // verus!
