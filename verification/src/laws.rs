//! The laws of the contract: what holds over every history, and how calls relate.

use vstd::prelude::*;

use crate::amounts::{lemma_amounts, lemma_closing, lemma_one_winner, lemma_times_grows};
use crate::books::{
    balance, held, lemma_balance_add, lemma_balance_receipt, lemma_balance_still, lemma_held,
    lemma_held_range, lemma_settlement_receipt,
};
use crate::calls::{
    admin_signatures, asking, extended, fresh, group_writes, kept_alive, lifetime, step_reply,
    with_group, ContractView, Lasting,
};
use crate::history::{
    balanced, call_fits, entries_wf, joins, lemma_admitted, lemma_call, lemma_without, next,
    outside, reply, request, run, seats_itself, takes_seat, total_held, Call,
};
use crate::members::{
    any, count, find, lemma_count_any, lemma_count_update, lemma_find, lemma_find_same, stands,
    Standing,
};
use crate::rules::{
    after, called, closed, closing_reserve, cover, credit, default_member, default_stragglers,
    expected_pot, fits, is_winner, net_to_winner, others, paid_out, payment, payments, pot, refund,
    refusal, remainder, share, share_payments, sound, unbid, winner, Step,
};
use crate::types::{
    Action, Address, DataKey, Error, GroupConfig, GroupView, Member, Symbol, MAX_BID_BPS,
    MAX_MEMBERS, TTL_EXTEND_TO, TTL_THRESHOLD,
};
use crate::upkeep::{
    lemma_called_counts, lemma_called_running, lemma_called_sound, lemma_closed_counts,
    lemma_paid_out_counts, lemma_seats_conserved, lemma_seats_kept, member_wf, wf,
};

verus! {

// Over every history

/// After any calls, in any order, every group is well-formed, its terms are valid, its
/// admins are distinct, and the registry lists each group exactly once.
pub proof fn law_every_history(address: Address, calls: Seq<Call>)
    ensures
        entries_wf(run(fresh(address), calls)),
        run(fresh(address), calls).address == address,
    decreases calls.len(),
{
    if calls.len() > 0 {
        law_every_history(address, calls.drop_last());
        lemma_call(run(fresh(address), calls.drop_last()), calls.last());
    }
}

/// Money is never invented and never dropped: after any calls that do not seat the
/// contract in its own groups, the transfers leave the contract with exactly what it
/// holds for its groups, in every token.
pub proof fn law_books_balance(address: Address, calls: Seq<Call>)
    requires
        forall|i: int| 0 <= i < calls.len() ==> !seats_itself(#[trigger] calls[i], address),
    ensures
        balanced(run(fresh(address), calls)),
        outside(run(fresh(address), calls)),
    decreases calls.len(),
{
    if calls.len() > 0 {
        let front = calls.drop_last();
        assert forall|i: int| 0 <= i < front.len() implies !seats_itself(
            #[trigger] front[i],
            address,
        ) by {
            assert(front[i] == calls[i]);
        }
        assert(!seats_itself(calls[calls.len() - 1], address));
        law_every_history(address, front);
        law_books_balance(address, front);
        lemma_call(run(fresh(address), front), calls.last());
    }
}

/// What is held for listed groups is never negative.
proof fn lemma_total_range(c: ContractView, list: Seq<Symbol>, token: Address)
    requires
        entries_wf(c),
        forall|i: int| 0 <= i < list.len() ==> c.groups.contains_key(#[trigger] list[i]),
    ensures
        total_held(c.groups, list, token) >= 0,
    decreases list.len(),
{
    if list.len() > 0 {
        let front = list.drop_last();
        assert forall|i: int| 0 <= i < front.len() implies c.groups.contains_key(
            #[trigger] front[i],
        ) by {
            assert(front[i] == list[i]);
        }
        lemma_total_range(c, front, token);
        assert(c.groups.contains_key(list[list.len() - 1]));
        lemma_held_range(c.groups[list.last()]);
    }
}

/// The contract is never overdrawn: after any calls that do not seat the contract in its
/// own groups, it has paid out no more of any token than it took in.
pub proof fn law_never_overdrawn(address: Address, calls: Seq<Call>, token: Address)
    requires
        forall|i: int| 0 <= i < calls.len() ==> !seats_itself(#[trigger] calls[i], address),
    ensures
        balance(run(fresh(address), calls).actions, address, token) >= 0,
{
    let c = run(fresh(address), calls);
    law_every_history(address, calls);
    law_books_balance(address, calls);
    assert(balance(c.actions, c.address, token) == total_held(c.groups, c.registry, token));
    assert forall|i: int| 0 <= i < c.registry.len() implies c.groups.contains_key(
        #[trigger] c.registry[i],
    ) by {
        assert(c.registry.contains(c.registry[i]));
    }
    lemma_total_range(c, c.registry, token);
}

/// No bad debt arises: the collateral that a lock demands covers every contribution that
/// an empty seat misses, whatever members default and whoever is promoted.
pub proof fn law_no_bad_debt(address: Address, calls: Seq<Call>, id: Symbol)
    requires
        run(fresh(address), calls).groups.contains_key(id),
    ensures
        run(fresh(address), calls).groups[id].total_uncovered_shortfall == 0,
{
    law_every_history(address, calls);
}

/// Every pot is full: in a group that calls led to, whoever wins a round is paid out of
/// one contribution for each slot.
pub proof fn law_every_pot_is_full(address: Address, calls: Seq<Call>, id: Symbol, now: u64)
    requires
        run(fresh(address), calls).groups.contains_key(id),
        refusal(run(fresh(address), calls).groups[id], Step::Settle(now)) is None,
        any(called(run(fresh(address), calls).groups[id]).members, Standing::Eligible),
    ensures
        ({
            let c = called(run(fresh(address), calls).groups[id]);
            pot(c) == c.slots * c.config.contribution
        }),
{
    law_every_history(address, calls);
    let g = run(fresh(address), calls).groups[id];
    lemma_called_sound(g);
    lemma_called_running(g);
    crate::upkeep::lemma_round_wf(called(g), now as int);
    let c = called(g);
    lemma_times_grows(
        count(c.members, Standing::Active) as int,
        c.slots,
        c.config.contribution,
    );
}

/// In a group that calls led to, the caps hold: a bid is at most half of the pot, at most
/// `max_members` are active at a time, and a running round is backed by collateral that
/// covers all that a first winner could still owe.
pub proof fn law_caps(address: Address, calls: Seq<Call>, id: Symbol)
    requires
        run(fresh(address), calls).groups.contains_key(id),
    ensures
        ({
            let g = run(fresh(address), calls).groups[id];
            &&& 3 <= g.config.max_members <= MAX_MEMBERS
            &&& g.config.max_bid_bps <= MAX_BID_BPS
            &&& count(g.members, Standing::Active) <= g.config.max_members
            &&& g.locked && !g.completed ==> g.slots >= 3 && g.config.collateral >= (g.slots - 1)
                * g.config.contribution
        }),
{
    law_every_history(address, calls);
}

/// In a group that calls led to, nobody wins twice.
pub proof fn law_one_win_each(address: Address, calls: Seq<Call>, id: Symbol, i: int)
    requires
        run(fresh(address), calls).groups.contains_key(id),
        0 <= i < run(fresh(address), calls).groups[id].members.len(),
    ensures
        run(fresh(address), calls).groups[id].members[i].total_wins <= 1,
{
    law_every_history(address, calls);
    let g = run(fresh(address), calls).groups[id];
    assert(member_wf(g, g.members[i]));
}

/// In a group that calls led to, no address has two seats.
pub proof fn law_one_seat_each(address: Address, calls: Seq<Call>, id: Symbol, i: int, j: int)
    requires
        run(fresh(address), calls).groups.contains_key(id),
        0 <= i < j < run(fresh(address), calls).groups[id].members.len(),
    ensures
        run(fresh(address), calls).groups[id].members[i].addr != run(
            fresh(address),
            calls,
        ).groups[id].members[j].addr,
{
    law_every_history(address, calls);
}

/// In a group that calls led to, no address waits twice.
pub proof fn law_one_wait_each(address: Address, calls: Seq<Call>, id: Symbol)
    requires
        run(fresh(address), calls).groups.contains_key(id),
    ensures
        run(fresh(address), calls).groups[id].waitlist.no_duplicates(),
{
    law_every_history(address, calls);
}

/// A group that calls led to and that is not completed has a member still to win, once
/// anyone has joined: it completes as soon as every active member has won.
pub proof fn law_running_has_a_winner_to_come(address: Address, calls: Seq<Call>, id: Symbol)
    requires
        run(fresh(address), calls).groups.contains_key(id),
        run(fresh(address), calls).groups[id].members.len() > 0,
        !run(fresh(address), calls).groups[id].completed,
    ensures
        any(run(fresh(address), calls).groups[id].members, Standing::Eligible),
{
    law_every_history(address, calls);
}

/// A call leaves a group as it was, or as a request that the group does not refuse does;
/// it takes a seat exactly where that request is a join.
proof fn lemma_one_request(c: ContractView, call: Call, id: Symbol)
    requires
        c.groups.contains_key(id),
    ensures
        next(c, call).groups.contains_key(id),
        next(c, call).groups[id] == c.groups[id] && !takes_seat(c, call, id) || exists|step: Step|
            refusal(c.groups[id], step) is None && next(c, call).groups[id] == #[trigger] after(
                c.groups[id],
                step,
            ) && takes_seat(c, call, id) == (step is Join),
{
}

/// A call that creates a group starts it without members; before that nobody takes a seat.
proof fn lemma_no_seat_yet(c: ContractView, call: Call, id: Symbol)
    requires
        !c.groups.contains_key(id),
    ensures
        !takes_seat(c, call, id),
        next(c, call).groups.contains_key(id) ==> next(c, call).groups[id].members.len() == 0
            && next(c, call).groups[id].open_slots == 0,
{
}

/// Before a group exists nobody joined it, and while it runs its seats are as many as
/// joined it.
proof fn lemma_seats_over_history(address: Address, calls: Seq<Call>, id: Symbol)
    ensures
        ({
            let c = run(fresh(address), calls);
            let n = joins(fresh(address), calls, id);
            if c.groups.contains_key(id) {
                let g = c.groups[id];
                !g.completed ==> count(g.members, Standing::Active) + g.open_slots == n
            } else {
                n == 0
            }
        }),
    decreases calls.len(),
{
    if calls.len() > 0 {
        let call = calls.last();
        let c = run(fresh(address), calls.drop_last());
        let then = next(c, call);
        law_every_history(address, calls.drop_last());
        lemma_seats_over_history(address, calls.drop_last(), id);
        if c.groups.contains_key(id) {
            let g = c.groups[id];
            lemma_one_request(c, call, id);
            if !then.groups[id].completed && (then.groups[id] != g || takes_seat(c, call, id)) {
                let step = choose|step: Step|
                    refusal(g, step) is None && then.groups[id] == #[trigger] after(g, step)
                        && takes_seat(c, call, id) == (step is Join);
                lemma_seats_conserved(g, step);
            }
        } else {
            lemma_no_seat_yet(c, call, id);
        }
    }
}

/// Seats are conserved: in a group that calls led to and that is not completed, the active
/// members and the open slots are together as many as the joins that succeeded. Defaults
/// open slots, and promotions fill them.
pub proof fn law_seats_are_conserved(address: Address, calls: Seq<Call>, id: Symbol)
    requires
        run(fresh(address), calls).groups.contains_key(id),
        !run(fresh(address), calls).groups[id].completed,
    ensures
        ({
            let g = run(fresh(address), calls).groups[id];
            count(g.members, Standing::Active) + g.open_slots == joins(fresh(address), calls, id)
        }),
{
    lemma_seats_over_history(address, calls, id);
}

/// A locked group stays locked, whatever calls follow.
pub proof fn law_locked_stays_locked(c: ContractView, calls: Seq<Call>, id: Symbol)
    requires
        c.groups.contains_key(id),
        c.groups[id].locked,
    ensures
        run(c, calls).groups.contains_key(id),
        run(c, calls).groups[id].locked,
    decreases calls.len(),
{
    if calls.len() > 0 {
        law_locked_stays_locked(c, calls.drop_last(), id);
        lemma_one_request(run(c, calls.drop_last()), calls.last(), id);
    }
}

// Rounds

/// A cycle ends: every settlement completes the group or leaves fewer members to win.
pub proof fn law_settlements_end(g: GroupView, now: u64)
    requires
        wf(g),
        refusal(g, Step::Settle(now)) is None,
    ensures
        after(g, Step::Settle(now)).completed || count(
            after(g, Step::Settle(now)).members,
            Standing::Eligible,
        ) < count(g.members, Standing::Eligible),
{
    let c = called(g);
    lemma_called_counts(g);
    if any(c.members, Standing::Eligible) {
        lemma_paid_out_counts(c, now as int);
        lemma_closed_counts(paid_out(c, now as int));
    }
}

/// From the deadline on nothing blocks a locked group's round: settling is not refused
/// until the group is completed.
pub proof fn law_deadline_unblocks(g: GroupView, now: u64)
    requires
        g.locked,
        !g.completed,
        now >= g.round_deadline,
    ensures
        refusal(g, Step::Settle(now)) is None,
{
}

/// Before the deadline a round settles only once every active member has contributed and
/// every eligible member has bid; then nobody is defaulted.
pub proof fn law_early_settlement_defaults_nobody(g: GroupView, now: u64)
    requires
        refusal(g, Step::Settle(now)) is None,
        now < g.round_deadline,
    ensures
        forall|i: int|
            0 <= i < g.members.len() && (#[trigger] g.members[i]).active
                ==> g.members[i].contributed_this_round && (!g.members[i].won_this_rotation
                ==> g.members[i].bid_bps >= 0),
        called(g) == g,
{
    assert forall|i: int| 0 <= i < g.members.len() && (#[trigger] g.members[i]).active implies
        g.members[i].contributed_this_round && (!g.members[i].won_this_rotation
        ==> g.members[i].bid_bps >= 0) by {
        assert(!stands(g.members[i], Standing::Straggler));
        assert(!unbid(g.members[i]));
    }
    assert forall|i: int| 0 <= i < g.members.len() implies called(g).members[i]
        == #[trigger] g.members[i] by {
        assert(!stands(g.members[i], Standing::Straggler));
        assert(!unbid(g.members[i]));
    }
    lemma_count_any(g.members, Standing::Straggler);
    assert(count(g.members, Standing::Straggler) == 0);
    assert(0 * g.config.collateral == 0) by (nonlinear_arith);
    assert(called(g).members =~= g.members);
}

/// The winner is the eligible member with the highest bid, the first of them on a tie,
/// and there is one wherever somebody is eligible.
pub proof fn law_winner(ms: Seq<Member>, w: int)
    requires
        any(ms, Standing::Eligible),
    ensures
        is_winner(ms, w) <==> w == winner(ms),
{
    crate::amounts::lemma_winner_wins(ms);
    if is_winner(ms, w) {
        lemma_one_winner(ms, w, winner(ms));
    }
}

/// A pot is split without loss: what the winner and the others receive and what goes to
/// the reserve make up the pot, and the reserve takes less than one unit for each of the
/// others.
pub proof fn law_split(g: GroupView, now: u64)
    requires
        sound(g),
        any(called(g).members, Standing::Eligible),
    ensures
        ({
            let c = called(g);
            &&& net_to_winner(c) + share(c) * others(c) + remainder(c) == pot(c)
            &&& 0 <= share(c)
            &&& 0 <= remainder(c)
            &&& others(c) > 0 ==> remainder(c) < others(c)
            &&& paid_out(c, now as int).reserve == c.reserve - cover(c) + remainder(c)
        }),
{
    lemma_called_sound(g);
    lemma_amounts(called(g));
}

/// What a pot lacks of a full one is booked as bad debt, and nothing else is.
pub proof fn law_shortfall_is_booked(g: GroupView, now: u64)
    requires
        sound(g),
        any(called(g).members, Standing::Eligible),
        count(called(g).members, Standing::Active) <= g.slots,
    ensures
        ({
            let c = called(g);
            pot(c) + (paid_out(c, now as int).total_uncovered_shortfall
                - g.total_uncovered_shortfall) == expected_pot(c)
        }),
{
    let c = called(g);
    lemma_times_grows(
        count(c.members, Standing::Active) as int,
        c.slots,
        c.config.contribution,
    );
}

/// A member's totals tell what moved: what a settlement or a claim adds to its total
/// received is what the contract pays it, and what a contribution adds to its total
/// contributed is what it pays.
pub proof fn law_totals_tell_what_moved(g: GroupView, step: Step, contract: Address, i: int)
    requires
        wf(g),
        refusal(g, step) is None,
        fits(g, step),
        0 <= i < g.members.len(),
        g.members[i].addr != contract,
    ensures
        ({
            let m = g.members[i];
            let n = after(g, step).members[i];
            let got = balance(payments(g, step, contract), m.addr, g.config.token);
            match step {
                Step::Settle(_) | Step::Claim(_) => n.total_received - m.total_received == got
                    && n.total_contributed == m.total_contributed,
                Step::Contribute(_) => n.total_contributed - m.total_contributed == -got
                    && n.total_received == m.total_received,
                _ => true,
            }
        }),
{
    let m = g.members[i];
    match step {
        Step::Settle(now) => {
            let c = called(g);
            lemma_settlement_receipt(g, now, contract, i);
            assert(c.members[i].total_received == m.total_received);
            assert(c.members[i].active ==> any(c.members, Standing::Eligible) ==> i128::MIN
                <= c.members[i].total_received + credit(c, i) <= i128::MAX);
        },
        Step::Claim(a) => {
            lemma_find(g.members, a);
            lemma_balance_receipt(g.config.token, contract, a, refund(g), m.addr);
            if m.addr == a {
                assert(find(g.members, a) == Some(i));
            }
        },
        Step::Contribute(a) => {
            lemma_find(g.members, a);
            let paid = payments(g, step, contract);
            assert(paid.drop_last() =~= Seq::<Action>::empty());
            assert(balance(paid.drop_last(), m.addr, g.config.token) == 0);
            if m.addr == a {
                assert(find(g.members, a) == Some(i));
            }
        },
        _ => {},
    }
}

// Defaults

/// Defaulting by the admins and by the deadline keep the same accounts: whichever of the
/// members that did not pay the admins default first, defaulting the rest at the deadline
/// leads to the same group, and with none left the deadline defaults nobody.
pub proof fn law_default_paths_agree(g: GroupView, i: int)
    ensures
        0 <= i < g.members.len() && stands(g.members[i], Standing::Straggler)
            ==> default_stragglers(default_member(g, i)) == default_stragglers(g),
        !any(g.members, Standing::Straggler) ==> default_stragglers(g) == g,
{
    if 0 <= i < g.members.len() && stands(g.members[i], Standing::Straggler) {
        let d = default_member(g, i);
        lemma_count_update(g.members, i, d.members[i], Standing::Straggler);
        let n = count(d.members, Standing::Straggler) as int;
        assert((n + 1) * g.config.collateral == n * g.config.collateral + g.config.collateral)
            by (nonlinear_arith);
        assert(default_stragglers(d).members =~= default_stragglers(g).members);
    }
    if !any(g.members, Standing::Straggler) {
        lemma_count_any(g.members, Standing::Straggler);
        assert(0 * g.config.collateral == 0) by (nonlinear_arith);
        assert(default_stragglers(g).members =~= g.members);
    }
}

/// A member that defaults forfeits its collateral and what it paid this round: both move
/// into the reserve, and nothing leaves the contract.
pub proof fn law_default_forfeits(g: GroupView, a: Address, contract: Address)
    requires
        wf(g),
        refusal(g, Step::Default(a)) is None,
    ensures
        ({
            let i = find(g.members, a)->0;
            let d = default_member(g, i);
            let paid = g.members[i].contributed_this_round;
            &&& d.reserve == g.reserve + g.config.collateral + if paid {
                g.config.contribution
            } else {
                0
            }
            &&& !d.members[i].active && d.members[i].defaulted
            &&& d.open_slots == g.open_slots + 1
        }),
        payments(g, Step::Default(a), contract) == Seq::<Action>::empty(),
        held(after(g, Step::Default(a))) == held(g),
{
    lemma_find(g.members, a);
    lemma_held(g, Step::Default(a));
}

// Refunds

/// A completed group owes every survivor the same refund: a surviving member that was not
/// refunded may claim its collateral and the equal share.
pub proof fn law_survivors_may_claim(g: GroupView, i: int, contract: Address)
    requires
        wf(g),
        g.completed,
        0 <= i < g.members.len(),
        g.members[i].active,
        !g.members[i].refunded,
    ensures
        refusal(g, Step::Claim(g.members[i].addr)) is None,
        payments(g, Step::Claim(g.members[i].addr), contract) == payment(
            g.config.token,
            contract,
            g.members[i].addr,
            g.config.collateral + g.refund_share,
        ),
{
    let a = g.members[i].addr;
    lemma_find(g.members, a);
    assert(find(g.members, a) == Some(i));
    assert(member_wf(g, g.members[i]));
}

/// A refund is paid once: the next claim is refused.
pub proof fn law_refund_once(g: GroupView, a: Address)
    requires
        refusal(g, Step::Claim(a)) is None,
    ensures
        refusal(after(g, Step::Claim(a)), Step::Claim(a)) == Some(Error::AlreadyClaimed),
{
    lemma_find(g.members, a);
    lemma_find_same(g.members, after(g, Step::Claim(a)).members, a);
}

/// A member that was refunded stays so, whatever request follows.
proof fn lemma_refunded_stays(g: GroupView, a: Address, step: Step)
    requires
        refusal(g, Step::Claim(a)) == Some(Error::AlreadyClaimed),
        refusal(g, step) is None,
    ensures
        refusal(after(g, step), Step::Claim(a)) == Some(Error::AlreadyClaimed),
{
    let h = after(g, step);
    let i = find(g.members, a)->0;
    lemma_find(g.members, a);
    lemma_find(h.members, a);
    lemma_seats_kept(g, step);
    match step {
        Step::Contribute(b) | Step::Bid(b, _) | Step::Claim(b) | Step::Default(b) => {
            lemma_find(g.members, b);
        },
        _ => {},
    }
    assert(h.members[i].addr == a);
    assert(find(h.members, a) == Some(i)) by {
        let j = find(h.members, a)->0;
        if j < i {
            assert(h.members[j].addr == g.members[j].addr);
        }
    }
}

/// A refund is final: once a member was refunded, every later claim is refused, whatever
/// calls come between.
pub proof fn law_refund_is_final(c: ContractView, calls: Seq<Call>, id: Symbol, a: Address)
    requires
        c.groups.contains_key(id),
        refusal(c.groups[id], Step::Claim(a)) == Some(Error::AlreadyClaimed),
    ensures
        run(c, calls).groups.contains_key(id),
        refusal(run(c, calls).groups[id], Step::Claim(a)) == Some(Error::AlreadyClaimed),
    decreases calls.len(),
{
    if calls.len() > 0 {
        let before = run(c, calls.drop_last());
        law_refund_is_final(c, calls.drop_last(), id, a);
        lemma_one_request(before, calls.last(), id);
        let g = before.groups[id];
        let h = run(c, calls).groups[id];
        if h != g {
            let step = choose|step: Step|
                refusal(g, step) is None && h == #[trigger] after(g, step);
            lemma_refunded_stays(g, a, step);
        }
    }
}

/// A defaulted member never gets a refund.
pub proof fn law_defaulters_get_nothing(g: GroupView, a: Address)
    requires
        g.completed,
        find(g.members, a) is Some,
        g.members[find(g.members, a)->0].defaulted,
    ensures
        refusal(g, Step::Claim(a)) == Some(Error::MemberNotActive),
{
}

/// Closing leaves at most dust: less than one unit for each survivor stays in the reserve.
pub proof fn law_closing_leaves_dust(g: GroupView)
    requires
        sound(g),
        count(g.members, Standing::Active) > 0,
    ensures
        0 <= closed(g).reserve < count(closed(g).members, Standing::Active),
        closed(g).refund_share * count(g.members, Standing::Active) + closed(g).reserve
            == closing_reserve(g),
{
    lemma_closing(g);
    lemma_closed_counts(g);
}

/// Nothing is stranded: once every survivor was refunded, the contract holds for the
/// group exactly its reserve, which claims do not touch.
pub proof fn law_all_claimed(g: GroupView)
    requires
        wf(g),
        g.completed,
        forall|i: int|
            0 <= i < g.members.len() && (#[trigger] g.members[i]).active ==> g.members[i].refunded,
    ensures
        held(g) == g.reserve,
        forall|a: Address| (#[trigger] after(g, Step::Claim(a))).reserve == g.reserve,
{
    lemma_count_any(g.members, Standing::Unrefunded);
    lemma_count_any(g.members, Standing::Paid);
    assert(!any(g.members, Standing::Paid)) by {
        assert forall|i: int| 0 <= i < g.members.len() implies !stands(
            #[trigger] g.members[i],
            Standing::Paid,
        ) by {
            assert(member_wf(g, g.members[i]));
        }
    }
    assert(!any(g.members, Standing::Unrefunded)) by {
        assert forall|i: int| 0 <= i < g.members.len() implies !stands(
            #[trigger] g.members[i],
            Standing::Unrefunded,
        ) by {}
    }
    assert(0 * refund(g) == 0 && 0 * g.config.contribution == 0) by (nonlinear_arith);
}

/// A completed group stays completed: no later calls reopen it, move its reserve or change
/// what survivors are owed.
pub proof fn law_completed_is_final(c: ContractView, calls: Seq<Call>, id: Symbol)
    requires
        c.groups.contains_key(id),
        c.groups[id].completed,
    ensures
        run(c, calls).groups.contains_key(id),
        run(c, calls).groups[id].completed,
        run(c, calls).groups[id].reserve == c.groups[id].reserve,
        run(c, calls).groups[id].refund_share == c.groups[id].refund_share,
    decreases calls.len(),
{
    if calls.len() > 0 {
        law_completed_is_final(c, calls.drop_last(), id);
        lemma_one_request(run(c, calls.drop_last()), calls.last(), id);
    }
}

// The waitlist

/// The waitlist is a queue: newcomers go to its end, only its front is promoted, and what
/// is behind the front moves up in order.
pub proof fn law_waitlist_is_a_queue(g: GroupView, step: Step)
    requires
        refusal(g, step) is None,
    ensures
        match step {
            Step::Queue(a) => after(g, step).waitlist == g.waitlist.push(a),
            Step::Promote(a) => g.waitlist.len() > 0 && g.waitlist[0] == a && after(
                g,
                step,
            ).waitlist == g.waitlist.skip(1),
            _ => after(g, step).waitlist == g.waitlist,
        },
{
    if step is Promote {
        assert(g.waitlist.remove(0) =~= g.waitlist.skip(1));
    }
}

/// Waiting costs nothing: queueing moves no money, and a promotion posts the collateral
/// that a join posts.
pub proof fn law_waiting_is_free(g: GroupView, a: Address, contract: Address)
    ensures
        payments(g, Step::Queue(a), contract) == Seq::<Action>::empty(),
        payments(g, Step::Promote(a), contract) == payments(g, Step::Join(a), contract),
        payments(g, Step::Join(a), contract) == payment(
            g.config.token,
            a,
            contract,
            g.config.collateral,
        ),
{
}

// Calls

/// A call that is refused changes no entry and moves no money.
pub proof fn law_refusal_changes_nothing(c: ContractView, call: Call, token: Address, who: Address)
    requires
        call_fits(c, call),
        reply(c, call).1 is Err,
    ensures
        reply(c, call).0 == (ContractView { actions: reply(c, call).0.actions, ..c }),
        balance(reply(c, call).0.actions, who, token) == balance(c.actions, who, token),
{
    let then = reply(c, call).0;
    let asked = then.actions.skip(c.actions.len() as int);
    if then.actions == c.actions {
        assert(asked =~= Seq::<Action>::empty());
    }
    assert(then.actions =~= c.actions + asked);
    assert(forall|i: int| 0 <= i < asked.len() ==> !(#[trigger] asked[i] is Transfer));
    lemma_balance_add(c.actions, asked, who, token);
    lemma_balance_still(asked, who, token);
}

/// Groups are apart: a call changes at most the group that it names, and creates at most
/// that one.
pub proof fn law_groups_are_apart(c: ContractView, call: Call, id: Symbol)
    requires
        match call {
            Call::CreateGroup(named, _) => named != id,
            _ => match request(call) {
                Some((named, _)) => named != id,
                None => true,
            },
        },
    ensures
        next(c, call).groups.contains_key(id) == c.groups.contains_key(id),
        c.groups.contains_key(id) ==> next(c, call).groups[id] == c.groups[id],
{
}

/// No group is ever removed, and its terms never change.
pub proof fn law_terms_are_fixed(c: ContractView, call: Call, id: Symbol)
    requires
        c.groups.contains_key(id),
    ensures
        next(c, call).groups.contains_key(id),
        next(c, call).groups[id].config == c.groups[id].config,
{
    if call_fits(c, call) {
        if let Some((named, step)) = request(call) {
            if named == id && refusal(c.groups[id], step) is None {
                lemma_seats_kept(c.groups[id], step);
            }
        }
    }
}

/// The protocol admin has no power over any group: initializing the contract and editing
/// the allowlist change no group and move no money.
pub proof fn law_protocol_admin_has_no_power(
    c: ContractView,
    call: Call,
    token: Address,
    who: Address,
)
    requires
        call is Initialize || call is AddApprovedToken || call is RemoveApprovedToken,
    ensures
        next(c, call).groups == c.groups,
        balance(next(c, call).actions, who, token) == balance(c.actions, who, token),
{
    let then = next(c, call);
    let asked = then.actions.skip(c.actions.len() as int);
    if then.actions == c.actions {
        assert(asked =~= Seq::<Action>::empty());
    }
    assert(then.actions =~= c.actions + asked);
    assert(forall|i: int| 0 <= i < asked.len() ==> !(#[trigger] asked[i] is Transfer));
    lemma_balance_add(c.actions, asked, who, token);
    lemma_balance_still(asked, who, token);
}

/// The contract is initialized once: the protocol admin never changes after that.
pub proof fn law_one_protocol_admin(c: ContractView, call: Call)
    requires
        c.protocol_admin is Some,
    ensures
        next(c, call).protocol_admin == c.protocol_admin,
        call is Initialize ==> reply(c, call) == (c, Err::<(), Error>(Error::AlreadyInitialized)),
{
}

/// The allowlist is what the protocol admin makes it: a token is approved once it was
/// added, no longer once it was removed, and every other token is left as it was.
pub proof fn law_allowlist(c: ContractView, admin: Address, token: Address, other: Address)
    requires
        c.protocol_admin == Some(admin),
        other != token,
    ensures
        next(c, Call::AddApprovedToken(admin, token)).approved_tokens.contains(token),
        !next(c, Call::RemoveApprovedToken(admin, token)).approved_tokens.contains(token),
        next(c, Call::AddApprovedToken(admin, token)).approved_tokens.contains(other)
            == c.approved_tokens.contains(other),
        next(c, Call::RemoveApprovedToken(admin, token)).approved_tokens.contains(other)
            == c.approved_tokens.contains(other),
{
    let added = next(c, Call::AddApprovedToken(admin, token)).approved_tokens;
    lemma_without(c.approved_tokens, token);
    if !c.approved_tokens.contains(token) {
        assert(added[c.approved_tokens.len() as int] == token);
    }
    if c.approved_tokens.contains(other) {
        let i = choose|i: int| 0 <= i < c.approved_tokens.len() && c.approved_tokens[i] == other;
        assert(added[i] == other);
    }
    if added.contains(other) {
        let i = choose|i: int| 0 <= i < added.len() && added[i] == other;
        assert(c.approved_tokens[i] == other);
    }
}

/// Only groups in an approved token are created.
pub proof fn law_groups_start_in_approved_tokens(c: ContractView, id: Symbol, config: GroupConfig)
    requires
        reply(c, Call::CreateGroup(id, config)).1 is Ok,
    ensures
        c.approved_tokens.contains(config.token),
        c.protocol_admin is Some,
        !c.groups.contains_key(id),
{
}

/// Nobody is made an admin without consent: a group is created only with the signature
/// of each of its admins, and they are distinct.
pub proof fn law_admins_consent(c: ContractView, id: Symbol, config: GroupConfig, i: int)
    requires
        reply(c, Call::CreateGroup(id, config)).1 is Ok,
        0 <= i < config@.admins.len(),
    ensures
        reply(c, Call::CreateGroup(id, config)).0.actions[c.actions.len() + i]
            == Action::RequireAuth(config@.admins[i]),
        config@.admins.no_duplicates(),
{
    lemma_admitted(config@.admins, config@.admins);
    assert(config@.admins.take(config@.admins.len() as int) =~= config@.admins);
}

/// Who signs an admin action.
pub open spec fn signers(call: Call) -> Seq<Address> {
    match call {
        Call::LockGroup(_, admins, _) => admins,
        Call::MarkDefault(_, admins, _) => admins,
        _ => Seq::empty(),
    }
}

/// An admin action takes the threshold: it is carried out only with the signatures of at
/// least that many distinct admins.
pub proof fn law_admin_threshold(c: ContractView, call: Call)
    requires
        call is LockGroup || call is MarkDefault,
        reply(c, call).1 is Ok,
    ensures
        ({
            let id = request(call).unwrap().0;
            let config = c.groups[id].config;
            &&& c.groups.contains_key(id)
            &&& signers(call).len() >= config.admin_threshold
            &&& signers(call).no_duplicates()
            &&& forall|i: int|
                0 <= i < signers(call).len() ==> config.admins.contains(#[trigger] signers(call)[i])
                    && reply(c, call).0.actions[c.actions.len() + i] == Action::RequireAuth(
                    signers(call)[i],
                )
        }),
{
    let supplied = signers(call);
    let config = c.groups[request(call).unwrap().0].config;
    lemma_admitted(config.admins, supplied);
    assert(supplied.take(supplied.len() as int) =~= supplied);
}

/// A written group is read back as it was written. Every other group and every other entry
/// of the contract is left, and the host is asked to write the group and to extend the
/// lifetimes of the group, the registry and the contract instance, from under 30 days of
/// 17,280 ledgers to 120.
pub proof fn law_written_group_is_read_back(c: ContractView, id: Symbol, g: GroupView)
    ensures
        with_group(c, id, g).groups.contains_key(id),
        with_group(c, id, g).groups[id] == g,
        forall|k: Symbol|
            k != id ==> #[trigger] with_group(c, id, g).groups.contains_key(k)
                == c.groups.contains_key(k),
        forall|k: Symbol|
            k != id && c.groups.contains_key(k) ==> #[trigger] with_group(c, id, g).groups[k]
                == c.groups[k],
        with_group(c, id, g) == (ContractView {
            groups: with_group(c, id, g).groups,
            actions: with_group(c, id, g).actions,
            ..c
        }),
        with_group(c, id, g).actions == c.actions + seq![
            Action::Write(DataKey::Group(id)),
            Action::ExtendTtl { key: DataKey::Group(id), threshold: 518_400, extend_to: 2_073_600 },
            Action::ExtendTtl {
                key: DataKey::GroupRegistry,
                threshold: 518_400,
                extend_to: 2_073_600,
            },
            Action::ExtendInstanceTtl { threshold: 518_400, extend_to: 2_073_600 },
        ],
{
}

/// What writing a group does to lifetimes: the group, the registry and the contract
/// instance are topped up to 120 days where fewer than 30 days are left to them, and
/// nothing else is touched.
pub proof fn law_group_writes_top_up(id: Symbol, what: Lasting, left: int)
    ensures
        lifetime(group_writes(id), what, left) == if kept_alive(id, what) && left < 518_400 {
            2_073_600
        } else {
            left
        },
{
    let w = group_writes(id);
    reveal_with_fuel(lifetime, 5);
    assert(w.drop_last() =~= w.take(3));
    assert(w.take(3).drop_last() =~= w.take(2));
    assert(w.take(2).drop_last() =~= w.take(1));
    assert(w.take(1).drop_last() =~= w.take(0));
}

/// Lifetimes after one list of actions and another.
proof fn lemma_lifetime_add(a: Seq<Action>, b: Seq<Action>, what: Lasting, left: int)
    ensures
        lifetime(a + b, what, left) == lifetime(b, what, lifetime(a, what, left)),
    decreases b.len(),
{
    if b.len() == 0 {
        assert(a + b =~= a);
    } else {
        assert((a + b).drop_last() =~= a + b.drop_last());
        lemma_lifetime_add(a, b.drop_last(), what, left);
    }
}

/// Actions that extend nothing leave every lifetime.
proof fn lemma_lifetime_still(actions: Seq<Action>, what: Lasting, left: int)
    requires
        forall|i: int|
            0 <= i < actions.len() ==> !(#[trigger] actions[i] is ExtendTtl) && !(
            actions[i] is ExtendInstanceTtl),
    ensures
        lifetime(actions, what, left) == left,
    decreases actions.len(),
{
    if actions.len() > 0 {
        let front = actions.drop_last();
        assert forall|i: int| 0 <= i < front.len() implies !(#[trigger] front[i] is ExtendTtl) && !(
        front[i] is ExtendInstanceTtl) by {
            assert(front[i] == actions[i]);
        }
        lemma_lifetime_still(front, what, left);
        assert(!(actions[actions.len() - 1] is ExtendTtl));
    }
}

/// Every write of a group keeps it alive: whenever a call that names a group succeeds, it
/// writes the group's entry and asks for longer lifetimes of the entry, the registry and
/// the contract instance.
pub proof fn law_writes_keep_alive(c: ContractView, call: Call, id: Symbol)
    requires
        call_fits(c, call),
        reply(c, call).1 is Ok,
        match call {
            Call::CreateGroup(named, _) => named == id,
            _ => match request(call) {
                Some((named, _)) => named == id,
                None => false,
            },
        },
    ensures
        exists|k: int|
            c.actions.len() <= k && k + 4 <= next(c, call).actions.len() && #[trigger] next(
                c,
                call,
            ).actions.subrange(k, k + 4) == group_writes(id),
{
    let then = next(c, call);
    let writes = group_writes(id);
    let n = then.actions.len() as int;
    match call {
        Call::CreateGroup(_, _) => {
            assert(then.actions.subrange(n - 5, n - 5 + 4) =~= writes);
        },
        Call::ClaimRefund(_, a) => {
            let k = c.actions.len() as int + 1;
            assert(then.actions.subrange(k, k + 4) =~= writes);
        },
        _ => {
            assert(then.actions.subrange(n - 4, n - 4 + 4) =~= writes);
        },
    }
}

/// Shares come from the contract alone, in one token.
proof fn lemma_shares_from(token: Address, from: Address, ms: Seq<Member>, w: int, amount: int)
    ensures
        forall|i: int|
            0 <= i < share_payments(token, from, ms, w, amount).len() ==> (
            #[trigger] share_payments(token, from, ms, w, amount)[i] matches Action::Transfer {
                token: paid,
                from: payer,
                ..
            } && payer == from && paid == token),
    decreases ms.len(),
{
    if ms.len() > 0 {
        lemma_shares_from(token, from, ms.drop_last(), w, amount);
    }
}

/// A request moves only the token of its group, and takes money only from the contract or
/// from the member that joins, is promoted or contributes.
proof fn lemma_step_payers(c: ContractView, id: Symbol, step: Step, k: int)
    requires
        c.actions.len() <= k < step_reply(c, id, step).0.actions.len(),
        step_reply(c, id, step).0.actions[k] is Transfer,
    ensures
        c.groups.contains_key(id),
        step_reply(c, id, step).0.actions[k]->token == c.groups[id].config.token,
        step_reply(c, id, step).0.actions[k]->from == c.address || match step {
            Step::Join(a) | Step::Promote(a) | Step::Contribute(a) => step_reply(
                c,
                id,
                step,
            ).0.actions[k]->from == a,
            _ => false,
        },
{
    let then = step_reply(c, id, step).0;
    let g = c.groups[id];
    let paid = payments(g, step, c.address);
    let writes = group_writes(id);
    let n = c.actions.len() as int;
    assert(c.groups.contains_key(id) && refusal(g, step) is None);
    if step is Claim {
        assert(then.actions == c.actions + writes + paid);
        assert(k >= n + 4) by {
            if k < n + 4 {
                assert(then.actions[k] == writes[k - n]);
            }
        }
        assert(then.actions[k] == paid[k - n - 4]);
    } else {
        assert(then.actions == c.actions + paid + writes);
        assert(k < n + paid.len()) by {
            if k >= n + paid.len() {
                assert(then.actions[k] == writes[k - n - paid.len()]);
            }
        }
        assert(then.actions[k] == paid[k - n]);
    }
    if step is Settle {
        let m = called(g);
        let w = winner(m.members);
        let prize = payment(m.config.token, c.address, m.members[w].addr, net_to_winner(m));
        let shares = share_payments(m.config.token, c.address, m.members, w, share(m));
        lemma_shares_from(m.config.token, c.address, m.members, w, share(m));
        assert(any(m.members, Standing::Eligible));
        assert(paid == prize + shares);
        if k - n >= prize.len() {
            assert(paid[k - n] == shares[k - n - prize.len()]);
        } else {
            assert(paid[k - n] == prize[k - n]);
        }
    }
}

/// The payments of a request are transfers.
proof fn lemma_payments_are_transfers(g: GroupView, step: Step, contract: Address)
    ensures
        forall|i: int|
            0 <= i < payments(g, step, contract).len() ==> #[trigger] payments(
                g,
                step,
                contract,
            )[i] is Transfer,
{
    if step is Settle {
        let c = called(g);
        let w = winner(c.members);
        lemma_shares_from(c.config.token, contract, c.members, w, share(c));
    }
}

/// A request that is carried out tops up the lifetimes that writing its group tops up.
proof fn lemma_step_tops_up(c: ContractView, id: Symbol, step: Step, what: Lasting, left: int)
    requires
        step_reply(c, id, step).1 is Ok,
    ensures
        lifetime(step_reply(c, id, step).0.actions, what, left) == if kept_alive(id, what) {
            extended(lifetime(c.actions, what, left), TTL_THRESHOLD, TTL_EXTEND_TO)
        } else {
            lifetime(c.actions, what, left)
        },
{
    let paid = payments(c.groups[id], step, c.address);
    let writes = group_writes(id);
    let before = lifetime(c.actions, what, left);
    let after_writes = lifetime(writes, what, before);
    lemma_payments_are_transfers(c.groups[id], step, c.address);
    law_group_writes_top_up(id, what, before);
    lemma_lifetime_still(paid, what, before);
    lemma_lifetime_still(paid, what, after_writes);
    if step is Claim {
        lemma_lifetime_add(c.actions, writes, what, left);
        lemma_lifetime_add(c.actions + writes, paid, what, left);
    } else {
        lemma_lifetime_add(c.actions, paid, what, left);
        lemma_lifetime_add(c.actions + paid, writes, what, left);
    }
}

/// A group cannot silently expire while it is used: every call that names a group and
/// succeeds tops up the lifetimes of the group, the registry and the contract instance, so
/// that at least 30 days are left to them, and touches no other lifetime.
pub proof fn law_calls_top_up(c: ContractView, call: Call, id: Symbol, what: Lasting, left: int)
    requires
        call_fits(c, call),
        reply(c, call).1 is Ok,
        match call {
            Call::CreateGroup(named, _) => named == id,
            _ => match request(call) {
                Some((named, _)) => named == id,
                None => false,
            },
        },
    ensures
        lifetime(next(c, call).actions, what, left) == if kept_alive(id, what) {
            extended(lifetime(c.actions, what, left), TTL_THRESHOLD, TTL_EXTEND_TO)
        } else {
            lifetime(c.actions, what, left)
        },
        kept_alive(id, what) ==> lifetime(next(c, call).actions, what, left) >= TTL_THRESHOLD,
{
    let before = lifetime(c.actions, what, left);
    match call {
        Call::CreateGroup(_, config) => {
            let asked = admin_signatures(config@, config@.admins);
            let writes = group_writes(id);
            let listed = seq![Action::Write(DataKey::GroupRegistry)];
            lemma_lifetime_still(asked, what, before);
            law_group_writes_top_up(id, what, before);
            lemma_lifetime_still(listed, what, lifetime(writes, what, before));
            lemma_lifetime_add(c.actions, asked, what, left);
            lemma_lifetime_add(c.actions + asked, writes, what, left);
            lemma_lifetime_add(c.actions + asked + writes, listed, what, left);
        },
        Call::SettleRound(_, now) => {
            lemma_step_tops_up(c, id, Step::Settle(now), what, left);
        },
        Call::LockGroup(_, admins, _) | Call::MarkDefault(_, admins, _) => {
            let asked = admin_signatures(c.groups[id].config, admins);
            lemma_lifetime_still(asked, what, before);
            lemma_lifetime_add(c.actions, asked, what, left);
            lemma_step_tops_up(asking(c, asked), id, request(call).unwrap().1, what, left);
        },
        Call::JoinGroup(_, a)
        | Call::JoinWaitlist(_, a)
        | Call::PromoteFromWaitlist(_, a)
        | Call::Contribute(_, a)
        | Call::SubmitBid(_, a, _)
        | Call::ClaimRefund(_, a) => {
            let asked = seq![Action::RequireAuth(a)];
            lemma_lifetime_still(asked, what, before);
            lemma_lifetime_add(c.actions, asked, what, left);
            lemma_step_tops_up(asking(c, asked), id, request(call).unwrap().1, what, left);
        },
        _ => {},
    }
}

/// Nobody pays unasked: whenever a call takes money from an address other than the
/// contract's own, it first demands that this address authorized it.
pub proof fn law_no_unsigned_payment(c: ContractView, call: Call, k: int)
    requires
        c.actions.len() <= k < next(c, call).actions.len(),
        next(c, call).actions[k] is Transfer,
        next(c, call).actions[k]->from != c.address,
    ensures
        exists|j: int|
            c.actions.len() <= j < k && #[trigger] next(c, call).actions[j] == Action::RequireAuth(
                next(c, call).actions[k]->from,
            ),
{
    let then = next(c, call);
    let n = c.actions.len() as int;
    assert(then == reply(c, call).0);
    match call {
        Call::JoinGroup(id, a)
        | Call::PromoteFromWaitlist(id, a)
        | Call::Contribute(id, a)
        | Call::JoinWaitlist(id, a)
        | Call::SubmitBid(id, a, _)
        | Call::ClaimRefund(id, a) => {
            let signed = asking(c, seq![Action::RequireAuth(a)]);
            let step = request(call).unwrap().1;
            assert(then == step_reply(signed, id, step).0);
            assert(signed.actions[n] == Action::RequireAuth(a));
            assert(then.actions[n] == signed.actions[n]);
            lemma_step_payers(signed, id, step, k);
        },
        Call::LockGroup(id, admins, _) | Call::MarkDefault(id, admins, _) => {
            let asked = admin_signatures(c.groups[id].config, admins);
            let signed = asking(c, asked);
            let step = request(call).unwrap().1;
            if k < signed.actions.len() {
                assert(then.actions[k] == asked[k - n]);
            } else {
                assert(then == step_reply(signed, id, step).0);
                lemma_step_payers(signed, id, step, k);
            }
        },
        Call::SettleRound(id, now) => {
            lemma_step_payers(c, id, Step::Settle(now), k);
        },
        Call::CreateGroup(id, config) => {
            let asked = admin_signatures(config@, config@.admins);
            let writes = group_writes(id);
            if k < n + asked.len() {
                assert(then.actions[k] == asked[k - n]);
            } else if k < n + asked.len() + 4 {
                assert(then.actions[k] == writes[k - n - asked.len()]);
            }
        },
        _ => {},
    }
}

/// A call takes back no action that was asked before it.
proof fn lemma_actions_stay(c: ContractView, call: Call, k: int)
    requires
        0 <= k < c.actions.len(),
    ensures
        k < next(c, call).actions.len(),
        next(c, call).actions[k] == c.actions[k],
{
}

/// What a call moves is the token of a group that exists.
proof fn lemma_moves_group_token(c: ContractView, call: Call, k: int)
    requires
        c.actions.len() <= k < next(c, call).actions.len(),
        next(c, call).actions[k] is Transfer,
    ensures
        exists|id: Symbol| #[trigger]
            c.groups.contains_key(id) && next(c, call).actions[k]->token
                == c.groups[id].config.token,
{
    let then = next(c, call);
    let n = c.actions.len() as int;
    assert(then == reply(c, call).0);
    match call {
        Call::JoinGroup(id, a)
        | Call::PromoteFromWaitlist(id, a)
        | Call::Contribute(id, a)
        | Call::JoinWaitlist(id, a)
        | Call::SubmitBid(id, a, _)
        | Call::ClaimRefund(id, a) => {
            let signed = asking(c, seq![Action::RequireAuth(a)]);
            let step = request(call).unwrap().1;
            assert(then == step_reply(signed, id, step).0);
            assert(signed.actions[n] == Action::RequireAuth(a));
            assert(then.actions[n] == signed.actions[n]);
            lemma_step_payers(signed, id, step, k);
        },
        Call::LockGroup(id, admins, _) | Call::MarkDefault(id, admins, _) => {
            let asked = admin_signatures(c.groups[id].config, admins);
            let signed = asking(c, asked);
            let step = request(call).unwrap().1;
            if k < signed.actions.len() {
                assert(then.actions[k] == asked[k - n]);
            } else {
                assert(then == step_reply(signed, id, step).0);
                lemma_step_payers(signed, id, step, k);
            }
        },
        Call::SettleRound(id, now) => {
            lemma_step_payers(c, id, Step::Settle(now), k);
        },
        Call::CreateGroup(id, config) => {
            let asked = admin_signatures(config@, config@.admins);
            let writes = group_writes(id);
            if k < n + asked.len() {
                assert(then.actions[k] == asked[k - n]);
            } else if k < n + asked.len() + 4 {
                assert(then.actions[k] == writes[k - n - asked.len()]);
            }
        },
        _ => {},
    }
}

/// Whether a token was on the allowlist after the first `n` of these calls.
pub open spec fn approved_after(
    address: Address,
    calls: Seq<Call>,
    n: int,
    token: Address,
) -> bool {
    run(fresh(address), calls.take(n)).approved_tokens.contains(token)
}

/// What was approved at some time before the last call was approved at some time.
proof fn lemma_approved_before(address: Address, calls: Seq<Call>, token: Address)
    requires
        calls.len() > 0,
        exists|n: int|
            0 <= n <= calls.drop_last().len() && #[trigger] approved_after(
                address,
                calls.drop_last(),
                n,
                token,
            ),
    ensures
        exists|n: int| 0 <= n <= calls.len() && #[trigger] approved_after(address, calls, n, token),
{
    let front = calls.drop_last();
    let n = choose|n: int|
        0 <= n <= front.len() && #[trigger] approved_after(address, front, n, token);
    assert(front.take(n) =~= calls.take(n));
    assert(approved_after(address, calls, n, token));
}

/// The token of every group was on the allowlist at some time.
proof fn lemma_group_token_approved(address: Address, calls: Seq<Call>, id: Symbol)
    requires
        run(fresh(address), calls).groups.contains_key(id),
    ensures
        exists|n: int|
            0 <= n <= calls.len() && #[trigger] approved_after(
                address,
                calls,
                n,
                run(fresh(address), calls).groups[id].config.token,
            ),
    decreases calls.len(),
{
    if calls.len() > 0 {
        let front = calls.drop_last();
        let c = run(fresh(address), front);
        let call = calls.last();
        let token = run(fresh(address), calls).groups[id].config.token;
        if c.groups.contains_key(id) {
            law_terms_are_fixed(c, call, id);
            lemma_group_token_approved(address, front, id);
            lemma_approved_before(address, calls, token);
        } else {
            assert(c.approved_tokens.contains(token));
            assert(calls.take(calls.len() - 1) =~= front);
            assert(approved_after(address, calls, calls.len() - 1, token));
        }
    }
}

/// Only approved tokens move: whatever calls are made, every transfer that they ask for is
/// in a token that was on the allowlist after some of them.
pub proof fn law_only_approved_tokens_move(address: Address, calls: Seq<Call>, k: int)
    requires
        0 <= k < run(fresh(address), calls).actions.len(),
        run(fresh(address), calls).actions[k] is Transfer,
    ensures
        exists|n: int|
            0 <= n <= calls.len() && #[trigger] approved_after(
                address,
                calls,
                n,
                run(fresh(address), calls).actions[k]->token,
            ),
    decreases calls.len(),
{
    if calls.len() > 0 {
        let front = calls.drop_last();
        let c = run(fresh(address), front);
        let call = calls.last();
        let token = run(fresh(address), calls).actions[k]->token;
        if k < c.actions.len() {
            lemma_actions_stay(c, call, k);
            law_only_approved_tokens_move(address, front, k);
        } else {
            lemma_moves_group_token(c, call, k);
            let id = choose|id: Symbol| #[trigger]
                c.groups.contains_key(id) && token == c.groups[id].config.token;
            lemma_group_token_approved(address, front, id);
        }
        lemma_approved_before(address, calls, token);
    }
}

} // verus!
