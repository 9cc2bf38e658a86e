//! What every request keeps of a group.

use vstd::prelude::*;

use crate::amounts::{lemma_amounts, lemma_closing, lemma_times_grows, lemma_winner_wins};
use crate::calls::valid_config;
use crate::members::{
    any, count, distinct, find, lemma_count_any, lemma_count_le, lemma_count_le_len,
    lemma_count_push, lemma_count_same, lemma_count_split, lemma_count_update, lemma_find, stands,
    Standing,
};
use crate::rules::{
    after, called, closed, closed_if_done, cover, created, default_member, fits, gap, newcomer,
    paid_out, refusal, sound, unbid, winner, Step,
};
use crate::solvency::{
    empty_seats, lemma_need_default, lemma_need_promotion, lemma_need_round, lemma_need_scaled,
    solvent, twice_need,
};
use crate::types::{Address, ConfigView, GroupView, Member, NO_BID};

verus! {

/// Calling the round keeps the group sound, and leaves no eligible member without a bid.
pub proof fn lemma_called_sound(g: GroupView)
    requires
        sound(g),
    ensures
        sound(called(g)),
        forall|i: int|
            0 <= i < called(g).members.len() ==> !unbid(#[trigger] called(g).members[i]),
{
    lemma_times_grows(0, count(g.members, Standing::Straggler) as int, g.config.collateral);
}

/// Every request that is not refused, and whose amounts fit, keeps the group sound.
pub proof fn lemma_sound_kept(g: GroupView, step: Step)
    requires
        sound(g),
        refusal(g, step) is None,
        fits(g, step),
    ensures
        sound(after(g, step)),
{
    match step {
        Step::Settle(now) => {
            let c = called(g);
            lemma_called_sound(g);
            if any(c.members, Standing::Eligible) {
                let p = paid_out(c, now as int);
                lemma_amounts(c);
                assert(sound(p));
                lemma_closing(p);
                assert(sound(closed(p)));
            } else {
                lemma_closing(c);
                assert(sound(closed(c)));
            }
        },
        Step::Default(a) => {
            lemma_find(g.members, a);
            let d = default_member(g, find(g.members, a)->0);
            assert(sound(d));
            lemma_closing(d);
        },
        Step::Contribute(a) | Step::Bid(a, _) | Step::Claim(a) => {
            lemma_find(g.members, a);
        },
        _ => {},
    }
}

/// How calling the round changes the counts: every straggler leaves, and every member
/// that stays has paid.
pub proof fn lemma_called_counts(g: GroupView)
    ensures
        called(g).members.len() == g.members.len(),
        count(called(g).members, Standing::Active) + count(g.members, Standing::Straggler) == count(
            g.members,
            Standing::Active,
        ),
        count(called(g).members, Standing::Active) == count(called(g).members, Standing::Paid),
        count(called(g).members, Standing::Paid) == count(g.members, Standing::Paid),
        count(called(g).members, Standing::Eligible) <= count(g.members, Standing::Eligible),
        count(called(g).members, Standing::Eligible) <= count(
            called(g).members,
            Standing::Active,
        ),
{
    let a = g.members;
    let b = called(g).members;
    lemma_count_split(a, Standing::Active, a, Standing::Straggler, a, Standing::Paid);
    lemma_count_same(b, Standing::Active, a, Standing::Paid);
    lemma_count_same(b, Standing::Paid, a, Standing::Paid);
    lemma_count_le(b, Standing::Eligible, a, Standing::Eligible);
    lemma_count_le(b, Standing::Eligible, b, Standing::Active);
}

/// How paying out changes the counts: one member fewer is still to win.
pub proof fn lemma_paid_out_counts(g: GroupView, now: int)
    requires
        any(g.members, Standing::Eligible),
    ensures
        paid_out(g, now).members.len() == g.members.len(),
        count(paid_out(g, now).members, Standing::Active) == count(g.members, Standing::Active),
        count(paid_out(g, now).members, Standing::Unrefunded) == count(
            g.members,
            Standing::Unrefunded,
        ),
        count(paid_out(g, now).members, Standing::Eligible) == count(g.members, Standing::Eligible)
            - 1,
        count(paid_out(g, now).members, Standing::Paid) == 0,
{
    let a = g.members;
    let b = paid_out(g, now).members;
    let w = winner(a);
    lemma_winner_wins(a);
    let won = Member { won_this_rotation: true, ..a[w] };
    let c = a.update(w, won);
    lemma_count_update(a, w, won, Standing::Eligible);
    lemma_count_same(b, Standing::Eligible, c, Standing::Eligible);
    lemma_count_same(b, Standing::Active, a, Standing::Active);
    lemma_count_same(b, Standing::Unrefunded, a, Standing::Unrefunded);
    lemma_count_any(b, Standing::Paid);
}

/// How closing changes the counts: only this round's contributions are gone.
pub proof fn lemma_closed_counts(g: GroupView)
    ensures
        closed(g).members.len() == g.members.len(),
        count(closed(g).members, Standing::Active) == count(g.members, Standing::Active),
        count(closed(g).members, Standing::Unrefunded) == count(g.members, Standing::Unrefunded),
        count(closed(g).members, Standing::Eligible) == count(g.members, Standing::Eligible),
        count(closed(g).members, Standing::Paid) == 0,
{
    let a = g.members;
    let b = closed(g).members;
    lemma_count_same(b, Standing::Active, a, Standing::Active);
    lemma_count_same(b, Standing::Unrefunded, a, Standing::Unrefunded);
    lemma_count_same(b, Standing::Eligible, a, Standing::Eligible);
    lemma_count_any(b, Standing::Paid);
}

/// What holds of every member of a group.
pub open spec fn member_wf(g: GroupView, m: Member) -> bool {
    &&& m.active == !m.defaulted
    &&& m.contributed_this_round ==> m.active && g.locked && !g.completed
    &&& m.won_this_rotation ==> g.locked
    &&& m.total_wins == if m.won_this_rotation { 1int } else { 0int }
    &&& NO_BID <= m.bid_bps <= g.config.max_bid_bps
    &&& m.bid_bps >= 0 ==> g.locked && !m.won_this_rotation
    &&& m.refunded ==> m.active && g.completed
}

/// What holds of every group, whether it is running or completed.
pub open spec fn base_wf(g: GroupView) -> bool {
    &&& sound(g)
    &&& g.config.contribution <= i128::MAX
    &&& g.config.collateral <= i128::MAX
    &&& forall|i: int| 0 <= i < g.members.len() ==> member_wf(g, #[trigger] g.members[i])
    &&& distinct(g.members)
    &&& g.waitlist.no_duplicates()
    &&& g.total_uncovered_shortfall == 0
    &&& g.refund_share >= 0
    &&& g.open_slots >= 0
    &&& count(g.members, Standing::Active) + g.open_slots <= g.config.max_members
    &&& if g.locked {
        g.round >= 1 && g.rotation == 1 && g.slots >= 3
    } else {
        g.round == 0 && g.rotation == 0 && g.slots == 0
    }
}

/// The seats of a group: those it was locked with, or all that were taken so far.
pub open spec fn seats(g: GroupView) -> int {
    if g.locked {
        g.slots
    } else {
        g.members.len() as int
    }
}

/// What holds of every running group.
pub open spec fn running_wf(g: GroupView) -> bool {
    &&& base_wf(g)
    &&& !g.completed
    &&& g.refund_share == 0
    &&& count(g.members, Standing::Active) + g.open_slots <= seats(g)
    &&& if g.locked {
        solvent(g)
    } else {
        g.reserve == count(g.members, Standing::Inactive) * g.config.collateral
    }
}

/// What holds of every group that the rules lead to.
pub open spec fn wf(g: GroupView) -> bool {
    if g.completed {
        base_wf(g) && g.open_slots == 0 && (!g.locked ==> g.refund_share == 0)
    } else {
        running_wf(g) && (g.members.len() > 0 ==> any(g.members, Standing::Eligible))
    }
}

/// A group starts well-formed.
pub proof fn lemma_created_wf(config: ConfigView)
    requires
        valid_config(config),
        config.contribution <= i128::MAX,
        config.collateral <= i128::MAX,
    ensures
        wf(created(config)),
{
    assert(0 * config.collateral == 0) by (nonlinear_arith);
}

/// A newcomer keeps the group well-formed, in a new seat or in an open slot.
proof fn lemma_newcomer_wf(g: GroupView, step: Step)
    requires
        wf(g),
        step is Join || step is Promote,
        refusal(g, step) is None,
        fits(g, step),
    ensures
        wf(after(g, step)),
{
    let a = match step {
        Step::Join(a) => a,
        Step::Promote(a) => a,
        _ => arbitrary(),
    };
    let h = after(g, step);
    let m = newcomer(a);
    lemma_sound_kept(g, step);
    lemma_find(g.members, a);
    lemma_count_le_len(g.members, Standing::Active);
    lemma_count_push(g.members, m, Standing::Active);
    lemma_count_push(g.members, m, Standing::Eligible);
    lemma_count_push(g.members, m, Standing::Inactive);
    assert(stands(h.members[h.members.len() - 1], Standing::Eligible));
    assert(distinct(h.members));
    assert forall|i: int| 0 <= i < h.members.len() implies member_wf(
        h,
        #[trigger] h.members[i],
    ) by {
        if i < g.members.len() {
            assert(member_wf(g, g.members[i]));
        }
    }
    if step is Promote && g.locked {
        let e = empty_seats(g);
        let r = count(g.members, Standing::Eligible) as int;
        lemma_need_promotion(e, r);
        lemma_need_scaled(g.config.contribution, twice_need(e - 1, r + 1), twice_need(e, r));
    }
}

/// Queueing keeps the group well-formed.
proof fn lemma_queue_wf(g: GroupView, a: Address)
    requires
        wf(g),
        refusal(g, Step::Queue(a)) is None,
    ensures
        wf(after(g, Step::Queue(a))),
{
    let h = after(g, Step::Queue(a));
    assert forall|i: int| 0 <= i < h.members.len() implies member_wf(
        h,
        #[trigger] h.members[i],
    ) by {
        assert(member_wf(g, g.members[i]));
    }
}

/// Locking makes the group solvent: each seat that is empty already left its collateral.
proof fn lemma_lock_wf(g: GroupView, now: u64)
    requires
        wf(g),
        refusal(g, Step::Lock(now)) is None,
    ensures
        wf(after(g, Step::Lock(now))),
{
    let h = after(g, Step::Lock(now));
    let ms = g.members;
    assert forall|i: int| 0 <= i < h.members.len() implies member_wf(
        h,
        #[trigger] h.members[i],
    ) by {
        assert(member_wf(g, g.members[i]));
    }
    if !g.completed {
        let n = ms.len() as int;
        let d = count(ms, Standing::Inactive) as int;
        let r = count(ms, Standing::Eligible) as int;
        let c = g.config.contribution;
        lemma_count_le(ms, Standing::Eligible, ms, Standing::Active);
        lemma_count_halves(ms);
        lemma_need_default(n, 0, r, d, r);
        assert(twice_need(0, r) == 0) by (nonlinear_arith);
        lemma_need_scaled(c, twice_need(d, r), 2 * (d * (n - 1)));
        lemma_need_scaled(d, (n - 1) * c, g.config.collateral);
        assert(c * (2 * (d * (n - 1))) == 2 * (d * ((n - 1) * c))) by (nonlinear_arith);
        assert(2 * h.reserve >= c * twice_need(d, r));
        assert(solvent(h));
    }
}

/// Every member is active or not.
proof fn lemma_count_halves(ms: Seq<Member>)
    ensures
        count(ms, Standing::Active) + count(ms, Standing::Inactive) == ms.len(),
    decreases ms.len(),
{
    if ms.len() > 0 {
        lemma_count_halves(ms.drop_last());
    }
}

/// Paying in, bidding and claiming keep the group well-formed.
proof fn lemma_own_seat_wf(g: GroupView, step: Step, a: Address)
    requires
        wf(g),
        match step {
            Step::Contribute(b) | Step::Bid(b, _) | Step::Claim(b) => b == a,
            _ => false,
        },
        refusal(g, step) is None,
        fits(g, step),
    ensures
        wf(after(g, step)),
{
    let h = after(g, step);
    lemma_sound_kept(g, step);
    lemma_find(g.members, a);
    let i = find(g.members, a)->0;
    assert(member_wf(g, g.members[i]));
    assert(h.members == g.members.update(i, h.members[i]));
    assert forall|j: int| 0 <= j < h.members.len() implies member_wf(
        h,
        #[trigger] h.members[j],
    ) by {
        assert(member_wf(g, g.members[j]));
    }
    lemma_count_update(g.members, i, h.members[i], Standing::Active);
    lemma_count_update(g.members, i, h.members[i], Standing::Eligible);
    lemma_count_any(g.members, Standing::Eligible);
    lemma_count_any(h.members, Standing::Eligible);
    assert(distinct(h.members));
}

/// Closing a running group in which nobody is left to win keeps it well-formed.
proof fn lemma_closed_wf(g: GroupView)
    requires
        running_wf(g),
        !any(g.members, Standing::Eligible),
    ensures
        wf(closed(g)),
{
    let h = closed(g);
    lemma_closing(g);
    lemma_closed_counts(g);
    assert forall|j: int| 0 <= j < h.members.len() implies member_wf(
        h,
        #[trigger] h.members[j],
    ) by {
        assert(member_wf(g, g.members[j]));
    }
    assert(distinct(h.members)) by {
        assert forall|i: int, j: int|
            #![trigger h.members[i], h.members[j]]
            0 <= i < j < h.members.len() implies h.members[i].addr != h.members[j].addr by {
            assert(g.members[i].addr != g.members[j].addr);
        }
    }
    if !g.locked {
        lemma_count_any(g.members, Standing::Active);
        assert forall|j: int| 0 <= j < g.members.len() implies !stands(
            #[trigger] g.members[j],
            Standing::Active,
        ) by {
            assert(member_wf(g, g.members[j]));
            assert(!stands(g.members[j], Standing::Eligible));
        }
    }
}

/// The same, with the group closed only where nobody is left to win.
proof fn lemma_closed_if_done_wf(g: GroupView)
    requires
        running_wf(g),
    ensures
        wf(closed_if_done(g)),
{
    if !any(g.members, Standing::Eligible) {
        lemma_closed_wf(g);
    }
}

/// Defaulting a member leaves the group running: its collateral covers what its seat
/// may still cost.
proof fn lemma_default_wf(g: GroupView, a: Address)
    requires
        wf(g),
        refusal(g, Step::Default(a)) is None,
        fits(g, Step::Default(a)),
    ensures
        wf(after(g, Step::Default(a))),
{
    lemma_find(g.members, a);
    let i = find(g.members, a)->0;
    let d = default_member(g, i);
    let ms = g.members;
    assert(member_wf(g, ms[i]));
    assert forall|j: int| 0 <= j < d.members.len() implies member_wf(
        d,
        #[trigger] d.members[j],
    ) by {
        assert(member_wf(g, ms[j]));
    }
    lemma_count_update(ms, i, d.members[i], Standing::Active);
    lemma_count_update(ms, i, d.members[i], Standing::Inactive);
    lemma_count_update(ms, i, d.members[i], Standing::Eligible);
    lemma_count_le(d.members, Standing::Eligible, d.members, Standing::Active);
    assert(distinct(d.members));
    if g.locked {
        let n = g.slots;
        let e = empty_seats(g);
        let r = count(ms, Standing::Eligible) as int;
        let r_then = count(d.members, Standing::Eligible) as int;
        lemma_need_default(n, e, r, 1, r_then);
        lemma_reserve_grows(g, d, 1);
    } else {
        let k = count(ms, Standing::Inactive) as int;
        assert((k + 1) * g.config.collateral == k * g.config.collateral + g.config.collateral)
            by (nonlinear_arith);
    }
    lemma_closed_if_done_wf(d);
}

/// A group stays solvent when `k` members leave and the reserve takes at least their
/// collateral.
proof fn lemma_reserve_grows(g: GroupView, h: GroupView, k: int)
    requires
        sound(g),
        solvent(g),
        h.config == g.config,
        h.slots == g.slots,
        k >= 0,
        h.reserve >= g.reserve + k * g.config.collateral,
        twice_need(empty_seats(h), count(h.members, Standing::Eligible) as int) <= twice_need(
            empty_seats(g),
            count(g.members, Standing::Eligible) as int,
        ) + 2 * (k * (g.slots - 1)),
    ensures
        solvent(h),
{
    let c = g.config.contribution;
    let n = g.slots;
    let need_g = twice_need(empty_seats(g), count(g.members, Standing::Eligible) as int);
    let need_h = twice_need(empty_seats(h), count(h.members, Standing::Eligible) as int);
    lemma_need_scaled(c, need_h, need_g + 2 * (k * (n - 1)));
    lemma_need_scaled(k, (n - 1) * c, g.config.collateral);
    assert(c * (need_g + 2 * (k * (n - 1))) == c * need_g + 2 * (k * ((n - 1) * c)))
        by (nonlinear_arith);
}

/// Calling the round leaves the group running: the collateral of the stragglers covers
/// what their seats may still cost.
pub proof fn lemma_called_running(g: GroupView)
    requires
        wf(g),
        g.locked,
        !g.completed,
    ensures
        running_wf(called(g)),
{
    let c = called(g);
    let d = count(g.members, Standing::Straggler) as int;
    lemma_called_sound(g);
    lemma_called_counts(g);
    assert forall|j: int| 0 <= j < c.members.len() implies member_wf(
        c,
        #[trigger] c.members[j],
    ) by {
        assert(member_wf(g, g.members[j]));
    }
    assert(distinct(c.members)) by {
        assert forall|i: int, j: int|
            #![trigger c.members[i], c.members[j]]
            0 <= i < j < c.members.len() implies c.members[i].addr != c.members[j].addr by {
            assert(g.members[i].addr != g.members[j].addr);
        }
    }
    let e = empty_seats(g);
    let r = count(g.members, Standing::Eligible) as int;
    let r_then = count(c.members, Standing::Eligible) as int;
    lemma_need_default(g.slots, e, r, d, r_then);
    lemma_reserve_grows(g, c, d);
}

/// Settling keeps the group well-formed.
proof fn lemma_settle_wf(g: GroupView, now: u64)
    requires
        wf(g),
        refusal(g, Step::Settle(now)) is None,
    ensures
        wf(after(g, Step::Settle(now))),
{
    let c = called(g);
    lemma_called_sound(g);
    lemma_called_running(g);
    if any(c.members, Standing::Eligible) {
        lemma_round_wf(c, now as int);
        lemma_closed_if_done_wf(paid_out(c, now as int));
    } else {
        lemma_closed_wf(c);
    }
}

/// Paying a round out of a running group leaves it running, with no bad debt.
pub proof fn lemma_round_wf(g: GroupView, now: int)
    requires
        running_wf(g),
        g.locked,
        any(g.members, Standing::Eligible),
        forall|i: int| 0 <= i < g.members.len() ==> !unbid(#[trigger] g.members[i]),
    ensures
        gap(g) == cover(g),
        running_wf(paid_out(g, now)),
{
    let p = paid_out(g, now);
    let c = g.config.contribution;
    let e = empty_seats(g);
    let r = count(g.members, Standing::Eligible) as int;
    lemma_amounts(g);
    lemma_paid_out_counts(g, now);
    lemma_count_any(g.members, Standing::Eligible);
    lemma_need_round(e, r);
    lemma_need_scaled(c, 2 * e, twice_need(e, r));
    assert(g.slots * c - count(g.members, Standing::Active) * c == e * c) by (nonlinear_arith)
        requires
            e == g.slots - count(g.members, Standing::Active),
    ;
    assert(c * (2 * e) == 2 * (e * c)) by (nonlinear_arith);
    lemma_times_grows(0, e, c);
    assert(gap(g) == e * c);
    assert(c * (twice_need(e, r) - 2 * e) == c * twice_need(e, r) - 2 * (e * c))
        by (nonlinear_arith);
    assert(solvent(p));
    assert forall|j: int| 0 <= j < p.members.len() implies member_wf(
        p,
        #[trigger] p.members[j],
    ) by {
        assert(member_wf(g, g.members[j]));
    }
    assert(distinct(p.members)) by {
        assert forall|i: int, j: int|
            #![trigger p.members[i], p.members[j]]
            0 <= i < j < p.members.len() implies p.members[i].addr != p.members[j].addr by {
            assert(g.members[i].addr != g.members[j].addr);
        }
    }
}

/// Every request that is carried out keeps the group well-formed.
pub proof fn lemma_wf_kept(g: GroupView, step: Step)
    requires
        wf(g),
        refusal(g, step) is None,
        fits(g, step),
    ensures
        wf(after(g, step)),
{
    match step {
        Step::Join(_) | Step::Promote(_) => lemma_newcomer_wf(g, step),
        Step::Queue(a) => lemma_queue_wf(g, a),
        Step::Lock(now) => lemma_lock_wf(g, now),
        Step::Contribute(a) | Step::Bid(a, _) | Step::Claim(a) => lemma_own_seat_wf(g, step, a),
        Step::Settle(now) => lemma_settle_wf(g, now),
        Step::Default(a) => lemma_default_wf(g, a),
    }
}

/// A request keeps the terms of the group and every seat's address; at most one seat is
/// added, for the member that asked.
pub proof fn lemma_seats_kept(g: GroupView, step: Step)
    requires
        refusal(g, step) is None,
    ensures
        after(g, step).config == g.config,
        g.members.len() <= after(g, step).members.len() <= g.members.len() + 1,
        forall|i: int|
            0 <= i < g.members.len() ==> (#[trigger] after(g, step).members[i]).addr
                == g.members[i].addr,
        after(g, step).members.len() > g.members.len() ==> match step {
            Step::Join(a) | Step::Promote(a) => after(g, step).members.last().addr == a,
            _ => false,
        },
{
    match step {
        Step::Contribute(a) | Step::Bid(a, _) | Step::Claim(a) | Step::Default(a) => {
            lemma_find(g.members, a);
        },
        _ => {},
    }
}

/// A request that leaves the group running keeps the number of seats, taken or open; only
/// a join adds one.
pub proof fn lemma_seats_conserved(g: GroupView, step: Step)
    requires
        wf(g),
        refusal(g, step) is None,
        !after(g, step).completed,
    ensures
        !g.completed,
        count(after(g, step).members, Standing::Active) + after(g, step).open_slots == count(
            g.members,
            Standing::Active,
        ) + g.open_slots + if step is Join { 1int } else { 0int },
{
    let h = after(g, step);
    match step {
        Step::Join(a) | Step::Promote(a) => {
            lemma_count_push(g.members, newcomer(a), Standing::Active);
        },
        Step::Contribute(a) | Step::Bid(a, _) | Step::Claim(a) | Step::Default(a) => {
            lemma_find(g.members, a);
            let i = find(g.members, a)->0;
            assert(member_wf(g, g.members[i]));
            assert(h.members == g.members.update(i, h.members[i]));
            lemma_count_update(g.members, i, h.members[i], Standing::Active);
        },
        Step::Settle(now) => {
            let c = called(g);
            lemma_called_counts(g);
            if any(c.members, Standing::Eligible) {
                lemma_paid_out_counts(c, now as int);
            }
        },
        _ => {},
    }
}

} // verus!
