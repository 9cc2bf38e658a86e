//! What each request to a group is for: who may make it, what it changes and what it
//! leaves, and what moves. The laws speak of seats and amounts alone.

use vstd::prelude::*;

use crate::members::{find, lemma_find, lemma_find_is};
use crate::rules::{after, fits, payments, refusal, Step};
use crate::types::{Action, Address, Error, GroupView, Member};

verus! {

/// Whether the first seat with this address is at `i`.
pub open spec fn seat_of(g: GroupView, a: Address, i: int) -> bool {
    &&& 0 <= i < g.members.len()
    &&& g.members[i].addr == a
    &&& forall|j: int| 0 <= j < i ==> (#[trigger] g.members[j]).addr != a
}

/// Whether some seat has this address.
pub open spec fn seated(g: GroupView, a: Address) -> bool {
    exists|i: int| 0 <= i < g.members.len() && (#[trigger] g.members[i]).addr == a
}

/// Whether every seat but the one at `i` is as it was.
pub open spec fn other_seats_kept(g: GroupView, h: GroupView, i: int) -> bool {
    &&& h.members.len() == g.members.len()
    &&& forall|j: int|
        0 <= j < g.members.len() && j != i ==> #[trigger] h.members[j] == g.members[j]
}

/// Whether `h` has one seat more than `g`, at the end, taken by an active member that has
/// done nothing yet.
pub open spec fn one_new_seat(g: GroupView, h: GroupView, a: Address) -> bool {
    let m = h.members[g.members.len() as int];
    &&& h.members.len() == g.members.len() + 1
    &&& forall|j: int| 0 <= j < g.members.len() ==> #[trigger] h.members[j] == g.members[j]
    &&& m.addr == a && m.active && !m.defaulted
    &&& !m.won_this_rotation && !m.contributed_this_round && !m.refunded
    &&& m.bid_bps == -1
    &&& m.total_wins == 0 && m.total_contributed == 0 && m.total_received == 0
}

/// Whether these actions move `amount`, once, or nothing where it is zero.
pub open spec fn moves_once(
    paid: Seq<Action>,
    token: Address,
    from: Address,
    to: Address,
    amount: int,
) -> bool {
    if amount > 0 {
        &&& paid.len() == 1
        &&& paid[0] matches Action::Transfer { token: t, from: f, to: r, amount: x } && t == token
            && f == from && r == to && x == amount
    } else {
        paid.len() == 0
    }
}

/// `find` and the first seat are the same.
pub proof fn lemma_seat(g: GroupView, a: Address)
    ensures
        seated(g, a) <==> find(g.members, a) is Some,
        forall|i: int| #[trigger] seat_of(g, a, i) ==> find(g.members, a) == Some(i),
        seated(g, a) ==> seat_of(g, a, find(g.members, a)->0),
{
    lemma_find(g.members, a);
    assert forall|i: int| #[trigger] seat_of(g, a, i) implies find(g.members, a) == Some(i) by {
        lemma_find_is(g.members, a, i);
    }
}

// Joining

/// Anyone without a seat may join a group that is neither locked nor full, and nobody
/// else: a locked group says so first, then a full one.
pub proof fn law_who_may_join(g: GroupView, a: Address)
    ensures
        refusal(g, Step::Join(a)) is None <==> !g.locked && g.members.len() < g.config.max_members
            && !seated(g, a),
        refusal(g, Step::Join(a)) == Some(Error::AlreadyLocked) <==> g.locked,
        refusal(g, Step::Join(a)) == Some(Error::GroupFull) <==> !g.locked && g.members.len()
            >= g.config.max_members,
        refusal(g, Step::Join(a)) == Some(Error::AlreadyMember) <==> !g.locked && g.members.len()
            < g.config.max_members && seated(g, a),
        fits(g, Step::Join(a)),
{
    lemma_seat(g, a);
}

/// A join adds one seat for the one who joins, takes the collateral from them, and changes
/// nothing else.
pub proof fn law_join_adds_a_seat(g: GroupView, a: Address, contract: Address)
    requires
        g.config.collateral <= i128::MAX,
    ensures
        one_new_seat(g, after(g, Step::Join(a)), a),
        after(g, Step::Join(a)) == (GroupView { members: after(g, Step::Join(a)).members, ..g }),
        moves_once(
            payments(g, Step::Join(a), contract),
            g.config.token,
            a,
            contract,
            g.config.collateral,
        ),
{
}

// Queueing

/// Anyone who has no seat and does not wait yet may queue, whatever the group is doing.
pub proof fn law_who_may_queue(g: GroupView, a: Address)
    ensures
        refusal(g, Step::Queue(a)) is None <==> !seated(g, a) && !g.waitlist.contains(a),
        refusal(g, Step::Queue(a)) == Some(Error::AlreadyMember) <==> seated(g, a),
        refusal(g, Step::Queue(a)) == Some(Error::AlreadyOnWaitlist) <==> !seated(g, a)
            && g.waitlist.contains(a),
        fits(g, Step::Queue(a)),
{
    lemma_seat(g, a);
}

/// Whoever queues waits behind all who waited before; nothing moves and nothing else
/// changes.
pub proof fn law_queue_is_joined_at_the_end(g: GroupView, a: Address, contract: Address)
    ensures
        ({
            let h = after(g, Step::Queue(a));
            &&& h.waitlist.len() == g.waitlist.len() + 1
            &&& h.waitlist.last() == a
            &&& forall|j: int|
                0 <= j < g.waitlist.len() ==> #[trigger] h.waitlist[j] == g.waitlist[j]
            &&& h == (GroupView { waitlist: h.waitlist, ..g })
        }),
        payments(g, Step::Queue(a), contract).len() == 0,
{
}

// Promotion

/// A freed slot can be filled: in a group that is not completed, with a slot open, whoever
/// is at the front of the waitlist and has no seat is promoted, however many seats there
/// are. Nobody else is.
pub proof fn law_freed_slot_can_be_filled(g: GroupView, a: Address)
    requires
        g.open_slots >= 0,
    ensures
        refusal(g, Step::Promote(a)) is None <==> !g.completed && g.open_slots > 0
            && g.waitlist.len() > 0 && g.waitlist[0] == a && !seated(g, a),
        refusal(g, Step::Promote(a)) == Some(Error::AlreadyCompleted) <==> g.completed,
        refusal(g, Step::Promote(a)) == Some(Error::NoOpenSlots) <==> !g.completed && g.open_slots
            == 0,
        refusal(g, Step::Promote(a)) == Some(Error::NotNextInWaitlist) <==> !g.completed
            && g.open_slots > 0 && !(g.waitlist.len() > 0 && g.waitlist[0] == a),
        refusal(g, Step::Promote(a)) == Some(Error::AlreadyMember) <==> !g.completed && g.open_slots
            > 0 && g.waitlist.len() > 0 && g.waitlist[0] == a && seated(g, a),
        refusal(g, Step::Promote(a)) is None ==> (fits(g, Step::Promote(a)) <==> g.members.len()
            < u32::MAX),
        refusal(g, Step::Promote(a)) is Some ==> fits(g, Step::Promote(a)),
{
    lemma_seat(g, a);
}

/// A promotion adds one seat for the one at the front, who leaves the queue, closes one
/// open slot, and takes the collateral that a join takes.
pub proof fn law_promotion_fills_a_slot(g: GroupView, a: Address, contract: Address)
    requires
        refusal(g, Step::Promote(a)) is None,
        g.config.collateral <= i128::MAX,
    ensures
        ({
            let h = after(g, Step::Promote(a));
            &&& one_new_seat(g, h, a)
            &&& h.open_slots + 1 == g.open_slots
            &&& h.waitlist.len() + 1 == g.waitlist.len()
            &&& forall|j: int|
                0 <= j < h.waitlist.len() ==> #[trigger] h.waitlist[j] == g.waitlist[j + 1]
            &&& h == (GroupView {
                members: h.members,
                waitlist: h.waitlist,
                open_slots: h.open_slots,
                ..g
            })
        }),
        moves_once(
            payments(g, Step::Promote(a), contract),
            g.config.token,
            a,
            contract,
            g.config.collateral,
        ),
{
}

// Locking

/// A group of three seats or more can be locked, once, if its collateral covers a
/// contribution for every seat but one; nothing else stands in the way.
pub proof fn law_who_may_lock(g: GroupView, now: u64)
    ensures
        ({
            let covered = g.config.collateral >= (g.members.len() - 1) * g.config.contribution;
            let res = refusal(g, Step::Lock(now));
            &&& res is None <==> !g.locked && g.members.len() >= 3 && covered
            &&& res == Some(Error::AlreadyLocked) <==> g.locked
            &&& res == Some(Error::TooFewMembersToLock) <==> !g.locked && g.members.len() < 3
            &&& res == Some(Error::CollateralTooLow) <==> !g.locked && g.members.len() >= 3
                && !covered
            &&& g.locked || g.members.len() < 3 ==> fits(g, Step::Lock(now))
            &&& !g.locked && g.members.len() >= 3 ==> (fits(g, Step::Lock(now)) <==> {
                &&& (g.members.len() - 1) * g.config.contribution <= i128::MAX
                &&& covered ==> now + g.config.round_duration_secs <= u64::MAX
            })
        }),
{
}

/// A lock keeps every seat and all money where it is. From then on the group has as many
/// slots as seats, and its first round runs, for as long as the terms say.
pub proof fn law_lock_starts_the_first_round(g: GroupView, now: u64, contract: Address)
    ensures
        ({
            let h = after(g, Step::Lock(now));
            &&& h.locked
            &&& h.slots == g.members.len()
            &&& h.round == 1 && h.rotation == 1
            &&& h.round_deadline - now == g.config.round_duration_secs
            &&& h == (GroupView {
                locked: h.locked,
                slots: h.slots,
                round: h.round,
                rotation: h.rotation,
                round_deadline: h.round_deadline,
                ..g
            })
        }),
        payments(g, Step::Lock(now), contract).len() == 0,
{
}

// Contributing

/// An active member of a locked group that is not completed may contribute, once a round.
pub proof fn law_who_may_contribute(g: GroupView, a: Address, i: int)
    ensures
        ({
            let res = refusal(g, Step::Contribute(a));
            let m = g.members[i];
            let open = g.locked && !g.completed;
            &&& res == Some(Error::NotLocked) <==> !g.locked
            &&& res == Some(Error::AlreadyCompleted) <==> g.locked && g.completed
            &&& res == Some(Error::NotAMember) <==> open && !seated(g, a)
            &&& seat_of(g, a, i) && open ==> {
                &&& res is None <==> m.active && !m.contributed_this_round
                &&& res == Some(Error::MemberNotActive) <==> !m.active
                &&& res == Some(Error::AlreadyContributedThisRound) <==> m.active
                    && m.contributed_this_round
                &&& res is None ==> (fits(g, Step::Contribute(a)) <==> m.total_contributed
                    + g.config.contribution <= i128::MAX)
            }
            &&& res is Some ==> fits(g, Step::Contribute(a))
        }),
{
    lemma_seat(g, a);
}

/// A contribution is taken from the member and booked on its seat: it has paid this round,
/// and its total grows by what it paid. Nothing else changes.
pub proof fn law_contribution_is_booked(g: GroupView, a: Address, i: int, contract: Address)
    requires
        seat_of(g, a, i),
        refusal(g, Step::Contribute(a)) is None,
        fits(g, Step::Contribute(a)),
        0 < g.config.contribution <= i128::MAX,
    ensures
        ({
            let h = after(g, Step::Contribute(a));
            let m = g.members[i];
            let n = h.members[i];
            &&& n.contributed_this_round
            &&& n.total_contributed - m.total_contributed == g.config.contribution
            &&& n == (Member {
                contributed_this_round: n.contributed_this_round,
                total_contributed: n.total_contributed,
                ..m
            })
            &&& other_seats_kept(g, h, i)
            &&& h == (GroupView { members: h.members, ..g })
        }),
        moves_once(
            payments(g, Step::Contribute(a), contract),
            g.config.token,
            a,
            contract,
            g.config.contribution,
        ),
{
    lemma_seat(g, a);
}

// Bidding

/// An active member that has not won and has not bid this round may bid, up to the cap of
/// the terms, in a locked group that is not completed.
pub proof fn law_who_may_bid(g: GroupView, a: Address, bps: u32, i: int)
    ensures
        ({
            let res = refusal(g, Step::Bid(a, bps));
            let m = g.members[i];
            let open = g.locked && !g.completed;
            &&& res == Some(Error::NotLocked) <==> !g.locked
            &&& res == Some(Error::AlreadyCompleted) <==> g.locked && g.completed
            &&& res == Some(Error::BidTooHigh) <==> open && bps > g.config.max_bid_bps
            &&& res == Some(Error::NotAMember) <==> open && bps <= g.config.max_bid_bps && !seated(
                g,
                a,
            )
            &&& seat_of(g, a, i) && open && bps <= g.config.max_bid_bps ==> {
                &&& res is None <==> m.active && !m.won_this_rotation && m.bid_bps < 0
                &&& res == Some(Error::MemberNotActive) <==> !m.active
                &&& res == Some(Error::NotEligibleThisRotation) <==> m.active
                    && m.won_this_rotation
                &&& res == Some(Error::AlreadyBidThisRound) <==> m.active && !m.won_this_rotation
                    && m.bid_bps >= 0
            }
            &&& fits(g, Step::Bid(a, bps))
        }),
{
    lemma_seat(g, a);
}

/// A bid is recorded as submitted: the bid of the member's seat is what it bid, whatever it
/// bid up to the cap. Nothing moves, and nothing else changes.
pub proof fn law_bid_is_recorded(g: GroupView, a: Address, bps: u32, i: int, contract: Address)
    requires
        seat_of(g, a, i),
        refusal(g, Step::Bid(a, bps)) is None,
        g.config.max_bid_bps <= i32::MAX,
    ensures
        ({
            let h = after(g, Step::Bid(a, bps));
            &&& h.members[i].bid_bps == bps
            &&& h.members[i] == (Member { bid_bps: h.members[i].bid_bps, ..g.members[i] })
            &&& other_seats_kept(g, h, i)
            &&& h == (GroupView { members: h.members, ..g })
        }),
        payments(g, Step::Bid(a, bps), contract).len() == 0,
{
    lemma_seat(g, a);
}

// Claiming

/// A member of a completed group that stands and was not refunded yet may claim.
pub proof fn law_who_may_claim(g: GroupView, a: Address, i: int)
    ensures
        ({
            let res = refusal(g, Step::Claim(a));
            let m = g.members[i];
            let due = g.config.collateral + g.refund_share;
            &&& res == Some(Error::NotCompleted) <==> !g.completed
            &&& res == Some(Error::NotAMember) <==> g.completed && !seated(g, a)
            &&& seat_of(g, a, i) && g.completed ==> {
                &&& res is None <==> m.active && !m.defaulted && !m.refunded
                &&& res == Some(Error::MemberNotActive) <==> !m.active || m.defaulted
                &&& res == Some(Error::AlreadyClaimed) <==> m.active && !m.defaulted && m.refunded
                &&& res is None ==> (fits(g, Step::Claim(a)) <==> i128::MIN <= due <= i128::MAX
                    && i128::MIN <= m.total_received + due <= i128::MAX)
            }
            &&& res is Some ==> fits(g, Step::Claim(a))
        }),
{
    lemma_seat(g, a);
}

/// A claim pays the member its collateral and the equal share, books both on its seat, and
/// changes nothing else.
pub proof fn law_claim_pays_what_is_due(g: GroupView, a: Address, i: int, contract: Address)
    requires
        seat_of(g, a, i),
        refusal(g, Step::Claim(a)) is None,
        fits(g, Step::Claim(a)),
    ensures
        ({
            let h = after(g, Step::Claim(a));
            let m = g.members[i];
            let n = h.members[i];
            let due = g.config.collateral + g.refund_share;
            &&& n.refunded
            &&& n.total_received - m.total_received == due
            &&& n == (Member { refunded: n.refunded, total_received: n.total_received, ..m })
            &&& other_seats_kept(g, h, i)
            &&& h == (GroupView { members: h.members, ..g })
            &&& moves_once(payments(g, Step::Claim(a), contract), g.config.token, contract, a, due)
        }),
{
    lemma_seat(g, a);
}

} // verus!
