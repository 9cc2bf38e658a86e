//! The rules of a group: for each request, when it is refused, what the group is
//! after it, which payments it makes, and when its amounts fit the machine's integers.

use vstd::prelude::*;

use crate::members::{any, count, find, Standing};
use crate::types::{
    Action, Address, ConfigView, Error, GroupView, Member, BPS, MAX_BID_BPS, MAX_MEMBERS, NO_BID,
};

verus! {

/// A request to a group.
#[derive(Copy, Clone, Debug, PartialEq, Eq, Structural)]
pub enum Step {
    /// Take a seat before the group is locked.
    Join(Address),
    /// Queue for a seat.
    Queue(Address),
    /// Take a freed seat, from the front of the queue.
    Promote(Address),
    /// Close the group to joins and start round 1, at this time.
    Lock(u64),
    /// Pay this round's contribution.
    Contribute(Address),
    /// Bid for this round's pot, in basis points of it.
    Bid(Address, u32),
    /// Settle the round, at this time.
    Settle(u64),
    /// Take the refund of a completed group.
    Claim(Address),
    /// Default a member.
    Default(Address),
}

/// What holds of every stored group that the arithmetic leans on: amounts are not
/// negative, the caps hold, and members can be counted in 32 bits.
pub open spec fn sound(g: GroupView) -> bool {
    &&& g.config.contribution > 0
    &&& g.config.collateral >= 0
    &&& 0 <= g.config.max_bid_bps <= MAX_BID_BPS
    &&& g.config.max_members <= MAX_MEMBERS
    &&& g.reserve >= 0
    &&& g.members.len() <= u32::MAX
}

/// A group as it is created.
pub open spec fn created(config: ConfigView) -> GroupView {
    GroupView {
        config,
        members: Seq::empty(),
        waitlist: Seq::empty(),
        locked: false,
        round: 0,
        rotation: 0,
        reserve: 0,
        total_uncovered_shortfall: 0,
        round_deadline: 0,
        open_slots: 0,
        slots: 0,
        completed: false,
        refund_share: 0,
    }
}

/// A member as it takes its seat.
pub open spec fn newcomer(addr: Address) -> Member {
    Member {
        addr,
        active: true,
        defaulted: false,
        won_this_rotation: false,
        contributed_this_round: false,
        bid_bps: NO_BID,
        total_wins: 0,
        total_contributed: 0,
        total_received: 0,
        refunded: false,
    }
}

// Default

/// A member once defaulted.
pub open spec fn defaulted(m: Member) -> Member {
    Member { active: false, defaulted: true, contributed_this_round: false, ..m }
}

/// What defaulting `m` moves into the reserve: its collateral, and this round's
/// contribution where it was paid.
pub open spec fn forfeit(g: GroupView, m: Member) -> int {
    g.config.collateral + if m.contributed_this_round { g.config.contribution } else { 0 }
}

/// The group with the member at `i` defaulted.
pub open spec fn default_member(g: GroupView, i: int) -> GroupView {
    GroupView {
        members: g.members.update(i, defaulted(g.members[i])),
        reserve: g.reserve + forfeit(g, g.members[i]),
        open_slots: g.open_slots + 1,
        ..g
    }
}

/// A member once stragglers are defaulted.
pub open spec fn default_if_straggler(m: Member) -> Member {
    if m.active && !m.contributed_this_round {
        defaulted(m)
    } else {
        m
    }
}

/// The group with every straggler defaulted.
pub open spec fn default_stragglers(g: GroupView) -> GroupView {
    GroupView {
        members: g.members.map_values(|m: Member| default_if_straggler(m)),
        reserve: g.reserve + count(g.members, Standing::Straggler) * g.config.collateral,
        open_slots: g.open_slots + count(g.members, Standing::Straggler),
        ..g
    }
}

// Closing

/// The reserve once this round's contributions are added to it.
pub open spec fn closing_reserve(g: GroupView) -> int {
    g.reserve + count(g.members, Standing::Paid) * g.config.contribution
}

/// A surviving member's equal share of the closing reserve, rounded down.
pub open spec fn closing_share(g: GroupView) -> int {
    let survivors = count(g.members, Standing::Active);
    if survivors > 0 {
        closing_reserve(g) / survivors as int
    } else {
        0
    }
}

/// A member once its group is closed.
pub open spec fn rested(m: Member) -> Member {
    if m.active {
        Member { contributed_this_round: false, ..m }
    } else {
        m
    }
}

/// The group once its cycle is over: refunds are open, and what the equal shares
/// leave stays in the reserve.
pub open spec fn closed(g: GroupView) -> GroupView {
    GroupView {
        members: g.members.map_values(|m: Member| rested(m)),
        reserve: closing_reserve(g) - closing_share(g) * count(g.members, Standing::Active),
        refund_share: closing_share(g),
        completed: true,
        open_slots: 0,
        ..g
    }
}

/// The group, closed if no member is left to win.
pub open spec fn closed_if_done(g: GroupView) -> GroupView {
    if any(g.members, Standing::Eligible) {
        g
    } else {
        closed(g)
    }
}

// Settlement

/// A member once bidding is over: an eligible member without a bid bids nothing.
pub open spec fn with_bid(m: Member) -> Member {
    if unbid(m) {
        Member { bid_bps: 0, ..m }
    } else {
        m
    }
}

/// Whether `m` could bid and did not.
pub open spec fn unbid(m: Member) -> bool {
    m.active && !m.won_this_rotation && m.bid_bps < 0
}

/// Whether some member could bid and did not.
pub open spec fn any_unbid(ms: Seq<Member>) -> bool {
    exists|i: int| 0 <= i < ms.len() && unbid(#[trigger] ms[i])
}

/// The group once contributing and bidding are over.
pub open spec fn called(g: GroupView) -> GroupView {
    let d = default_stragglers(g);
    GroupView { members: d.members.map_values(|m: Member| with_bid(m)), ..d }
}

/// Whether the member at `w` wins: it is eligible, no eligible member bid more, and
/// none before it bid as much.
pub open spec fn is_winner(ms: Seq<Member>, w: int) -> bool {
    &&& 0 <= w < ms.len()
    &&& ms[w].active && !ms[w].won_this_rotation
    &&& forall|i: int|
        0 <= i < ms.len() && (#[trigger] ms[i]).active && !ms[i].won_this_rotation ==> if i < w {
            ms[i].bid_bps < ms[w].bid_bps
        } else {
            ms[i].bid_bps <= ms[w].bid_bps
        }
}

/// The winner of a round.
pub open spec fn winner(ms: Seq<Member>) -> int {
    choose|w: int| is_winner(ms, w)
}

/// A full pot: one contribution for each slot.
pub open spec fn expected_pot(g: GroupView) -> int {
    g.slots * g.config.contribution
}

/// The contributions that were paid.
pub open spec fn collected(g: GroupView) -> int {
    count(g.members, Standing::Active) * g.config.contribution
}

/// What the pot is short of.
pub open spec fn gap(g: GroupView) -> int {
    if expected_pot(g) > collected(g) {
        expected_pot(g) - collected(g)
    } else {
        0
    }
}

/// What the reserve adds to the pot.
pub open spec fn cover(g: GroupView) -> int {
    if gap(g) < g.reserve {
        gap(g)
    } else {
        g.reserve
    }
}

/// What is paid out.
pub open spec fn pot(g: GroupView) -> int {
    collected(g) + cover(g)
}

/// What the winner gives up of the pot, rounded down.
pub open spec fn bid_amount(g: GroupView) -> int {
    pot(g) * g.members[winner(g.members)].bid_bps / BPS as int
}

/// What the winner receives.
pub open spec fn net_to_winner(g: GroupView) -> int {
    pot(g) - bid_amount(g)
}

/// How many share what the winner gave up.
pub open spec fn others(g: GroupView) -> int {
    count(g.members, Standing::Active) - 1
}

/// What each of the others receives, rounded down.
pub open spec fn share(g: GroupView) -> int {
    if others(g) > 0 {
        bid_amount(g) / others(g)
    } else {
        0
    }
}

/// What the equal shares leave, which goes to the reserve.
pub open spec fn remainder(g: GroupView) -> int {
    bid_amount(g) - share(g) * others(g)
}

/// What the member at `i` receives.
pub open spec fn credit(g: GroupView, i: int) -> int {
    if i == winner(g.members) {
        net_to_winner(g)
    } else {
        share(g)
    }
}

/// The member at `i` once the round was paid out.
pub open spec fn paid_member(g: GroupView, i: int) -> Member {
    let m = g.members[i];
    if !m.active {
        m
    } else {
        Member {
            won_this_rotation: m.won_this_rotation || i == winner(g.members),
            total_wins: if i == winner(g.members) {
                (m.total_wins + 1) as u32
            } else {
                m.total_wins
            },
            total_received: (m.total_received + credit(g, i)) as i128,
            contributed_this_round: false,
            bid_bps: NO_BID,
            ..m
        }
    }
}

/// The group once the round was paid out, at time `now`.
pub open spec fn paid_out(g: GroupView, now: int) -> GroupView {
    GroupView {
        members: Seq::new(g.members.len(), |i: int| paid_member(g, i)),
        reserve: g.reserve - cover(g) + remainder(g),
        total_uncovered_shortfall: g.total_uncovered_shortfall + gap(g) - cover(g),
        round: g.round + 1,
        round_deadline: now + g.config.round_duration_secs,
        ..g
    }
}

/// The group after settling, at time `now`.
pub open spec fn settled(g: GroupView, now: int) -> GroupView {
    let c = called(g);
    if any(c.members, Standing::Eligible) {
        closed_if_done(paid_out(c, now))
    } else {
        closed(c)
    }
}

/// A payment, unless there is nothing to pay.
pub open spec fn payment(token: Address, from: Address, to: Address, amount: int) -> Seq<Action> {
    if amount > 0 {
        seq![Action::Transfer { token, from, to, amount: amount as i128 }]
    } else {
        Seq::empty()
    }
}

/// Payments of `amount` to each active member of `ms` but the one at `w`, in order.
pub open spec fn share_payments(
    token: Address,
    from: Address,
    ms: Seq<Member>,
    w: int,
    amount: int,
) -> Seq<Action>
    decreases ms.len(),
{
    if ms.len() == 0 {
        Seq::empty()
    } else {
        let front = share_payments(token, from, ms.drop_last(), w, amount);
        if ms.last().active && ms.len() - 1 != w {
            front + payment(token, from, ms.last().addr, amount)
        } else {
            front
        }
    }
}

/// The payments that pay a round out: the winner's first, then the shares.
pub open spec fn payout_payments(g: GroupView, contract: Address) -> Seq<Action> {
    let w = winner(g.members);
    payment(g.config.token, contract, g.members[w].addr, net_to_winner(g)) + share_payments(
        g.config.token,
        contract,
        g.members,
        w,
        share(g),
    )
}

/// The payments of a settlement.
pub open spec fn settlement_payments(g: GroupView, contract: Address) -> Seq<Action> {
    let c = called(g);
    if any(c.members, Standing::Eligible) {
        payout_payments(c, contract)
    } else {
        Seq::empty()
    }
}

// Each request

/// What the first winner still owes after taking the first pot.
pub open spec fn owed_by_first_winner(g: GroupView) -> int {
    (g.members.len() - 1) * g.config.contribution
}

/// A refund.
pub open spec fn refund(g: GroupView) -> int {
    g.config.collateral + g.refund_share
}

/// Why the group refuses a request, if it does.
pub open spec fn refusal(g: GroupView, step: Step) -> Option<Error> {
    match step {
        Step::Join(a) => if g.locked {
            Some(Error::AlreadyLocked)
        } else if g.members.len() >= g.config.max_members {
            Some(Error::GroupFull)
        } else if find(g.members, a) is Some {
            Some(Error::AlreadyMember)
        } else {
            None
        },
        Step::Queue(a) => if find(g.members, a) is Some {
            Some(Error::AlreadyMember)
        } else if g.waitlist.contains(a) {
            Some(Error::AlreadyOnWaitlist)
        } else {
            None
        },
        Step::Promote(a) => if g.completed {
            Some(Error::AlreadyCompleted)
        } else if g.open_slots == 0 {
            Some(Error::NoOpenSlots)
        } else if g.waitlist.len() == 0 || g.waitlist[0] != a {
            Some(Error::NotNextInWaitlist)
        } else if find(g.members, a) is Some {
            Some(Error::AlreadyMember)
        } else {
            None
        },
        Step::Lock(_) => if g.locked {
            Some(Error::AlreadyLocked)
        } else if g.members.len() < 3 {
            Some(Error::TooFewMembersToLock)
        } else if g.config.collateral < owed_by_first_winner(g) {
            Some(Error::CollateralTooLow)
        } else {
            None
        },
        Step::Contribute(a) => if !g.locked {
            Some(Error::NotLocked)
        } else if g.completed {
            Some(Error::AlreadyCompleted)
        } else {
            match find(g.members, a) {
                None => Some(Error::NotAMember),
                Some(i) => if !g.members[i].active {
                    Some(Error::MemberNotActive)
                } else if g.members[i].contributed_this_round {
                    Some(Error::AlreadyContributedThisRound)
                } else {
                    None
                },
            }
        },
        Step::Bid(a, bps) => if !g.locked {
            Some(Error::NotLocked)
        } else if g.completed {
            Some(Error::AlreadyCompleted)
        } else if bps > g.config.max_bid_bps {
            Some(Error::BidTooHigh)
        } else {
            match find(g.members, a) {
                None => Some(Error::NotAMember),
                Some(i) => if !g.members[i].active {
                    Some(Error::MemberNotActive)
                } else if g.members[i].won_this_rotation {
                    Some(Error::NotEligibleThisRotation)
                } else if g.members[i].bid_bps >= 0 {
                    Some(Error::AlreadyBidThisRound)
                } else {
                    None
                },
            }
        },
        Step::Settle(now) => if !g.locked {
            Some(Error::NotLocked)
        } else if g.completed {
            Some(Error::AlreadyCompleted)
        } else if now >= g.round_deadline {
            None
        } else if any(g.members, Standing::Straggler) {
            Some(Error::NotAllContributed)
        } else if any_unbid(g.members) {
            Some(Error::NotAllBid)
        } else {
            None
        },
        Step::Claim(a) => if !g.completed {
            Some(Error::NotCompleted)
        } else {
            match find(g.members, a) {
                None => Some(Error::NotAMember),
                Some(i) => if g.members[i].defaulted || !g.members[i].active {
                    Some(Error::MemberNotActive)
                } else if g.members[i].refunded {
                    Some(Error::AlreadyClaimed)
                } else {
                    None
                },
            }
        },
        Step::Default(a) => if g.completed {
            Some(Error::AlreadyCompleted)
        } else {
            match find(g.members, a) {
                None => Some(Error::NotAMember),
                Some(i) => if g.members[i].defaulted {
                    Some(Error::MemberAlreadyDefaulted)
                } else {
                    None
                },
            }
        },
    }
}

/// The group after a request that it does not refuse.
pub open spec fn after(g: GroupView, step: Step) -> GroupView {
    match step {
        Step::Join(a) => GroupView { members: g.members.push(newcomer(a)), ..g },
        Step::Queue(a) => GroupView { waitlist: g.waitlist.push(a), ..g },
        Step::Promote(a) => GroupView {
            waitlist: g.waitlist.remove(0),
            open_slots: g.open_slots - 1,
            members: g.members.push(newcomer(a)),
            ..g
        },
        Step::Lock(now) => GroupView {
            slots: g.members.len() as int,
            locked: true,
            round: 1,
            rotation: 1,
            round_deadline: now + g.config.round_duration_secs,
            ..g
        },
        Step::Contribute(a) => {
            let i = find(g.members, a)->0;
            let m = g.members[i];
            GroupView {
                members: g.members.update(
                    i,
                    Member {
                        contributed_this_round: true,
                        total_contributed: (m.total_contributed + g.config.contribution) as i128,
                        ..m
                    },
                ),
                ..g
            }
        },
        Step::Bid(a, bps) => {
            let i = find(g.members, a)->0;
            GroupView {
                members: g.members.update(i, Member { bid_bps: bps as i32, ..g.members[i] }),
                ..g
            }
        },
        Step::Settle(now) => settled(g, now as int),
        Step::Claim(a) => {
            let i = find(g.members, a)->0;
            let m = g.members[i];
            GroupView {
                members: g.members.update(
                    i,
                    Member {
                        refunded: true,
                        total_received: (m.total_received + refund(g)) as i128,
                        ..m
                    },
                ),
                ..g
            }
        },
        Step::Default(a) => closed_if_done(default_member(g, find(g.members, a)->0)),
    }
}

/// The payments that come with a request that the group does not refuse.
pub open spec fn payments(g: GroupView, step: Step, contract: Address) -> Seq<Action> {
    match step {
        Step::Join(a) => payment(g.config.token, a, contract, g.config.collateral),
        Step::Promote(a) => payment(g.config.token, a, contract, g.config.collateral),
        Step::Contribute(a) => payment(g.config.token, a, contract, g.config.contribution),
        Step::Settle(_) => settlement_payments(g, contract),
        Step::Claim(a) => payment(g.config.token, contract, a, refund(g)),
        _ => Seq::empty(),
    }
}

/// Whether the pot, what the winner gives up of it, and the group's books after it
/// fit their integer types.
pub open spec fn amounts_fit(g: GroupView) -> bool {
    &&& expected_pot(g) <= i128::MAX
    &&& collected(g) <= i128::MAX
    &&& g.total_uncovered_shortfall + gap(g) - cover(g) <= i128::MAX
    &&& pot(g) * g.members[winner(g.members)].bid_bps <= i128::MAX
    &&& g.reserve - cover(g) + remainder(g) <= i128::MAX
}

/// Whether every amount that paying out the round computes fits its integer type.
pub open spec fn payout_fits(g: GroupView, now: int) -> bool {
    &&& amounts_fit(g)
    &&& g.members[winner(g.members)].total_wins < u32::MAX
    &&& forall|i: int|
        0 <= i < g.members.len() && (#[trigger] g.members[i]).active
            ==> i128::MIN <= g.members[i].total_received + credit(g, i) <= i128::MAX
    &&& g.round < u32::MAX
    &&& now + g.config.round_duration_secs <= u64::MAX
}

/// Whether every amount that a request computes fits its integer type.
pub open spec fn fits(g: GroupView, step: Step) -> bool {
    match step {
        Step::Promote(_) => refusal(g, step) is None ==> g.members.len() < u32::MAX,
        Step::Lock(now) => !g.locked && g.members.len() >= 3 ==> {
            &&& owed_by_first_winner(g) <= i128::MAX
            &&& refusal(g, step) is None ==> now + g.config.round_duration_secs <= u64::MAX
        },
        Step::Contribute(a) => refusal(g, step) is None ==> g.members[find(
            g.members,
            a,
        )->0].total_contributed + g.config.contribution <= i128::MAX,
        Step::Settle(now) => refusal(g, step) is None ==> {
            let c = called(g);
            &&& c.reserve <= i128::MAX
            &&& c.open_slots <= u32::MAX
            &&& if any(c.members, Standing::Eligible) {
                payout_fits(c, now as int)
            } else {
                closing_reserve(c) <= i128::MAX
            }
        },
        Step::Claim(a) => refusal(g, step) is None ==> {
            &&& i128::MIN <= refund(g) <= i128::MAX
            &&& i128::MIN <= g.members[find(g.members, a)->0].total_received + refund(g)
                <= i128::MAX
        },
        Step::Default(a) => refusal(g, step) is None ==> {
            let d = default_member(g, find(g.members, a)->0);
            &&& d.reserve <= i128::MAX
            &&& d.open_slots <= u32::MAX
            &&& !any(d.members, Standing::Eligible) ==> closing_reserve(d) <= i128::MAX
        },
        _ => true,
    }
}

} // verus!
