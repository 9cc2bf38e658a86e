//! How members leave, how a round is settled and how a cycle ends, told by seats and
//! amounts alone.

use vstd::prelude::*;

use crate::amounts::{lemma_amounts, lemma_closing, lemma_one_winner, lemma_times_grows};
use crate::members::{any, count, stands, Standing};
use crate::requests::{lemma_seat, other_seats_kept, seat_of, seated};
use crate::rules::{
    after, called, closed, closing_reserve, credit, default_member, fits, is_winner, paid_member,
    paid_out, payment, payments, refusal, rested, share_payments, sound, unbid, winner, Step,
};
use crate::types::{Action, Address, Error, GroupView, Member};
use crate::upkeep::{lemma_called_counts, lemma_called_sound, lemma_paid_out_counts};

verus! {

/// How many members are as `p` says.
pub open spec fn number(ms: Seq<Member>, p: spec_fn(Member) -> bool) -> int {
    ms.filter(p).len() as int
}

/// Whether a member is in the group and paid this round.
pub open spec fn paid_up(m: Member) -> bool {
    m.active && m.contributed_this_round
}

/// Whether a member is in the group and did not pay this round.
pub open spec fn late(m: Member) -> bool {
    m.active && !m.contributed_this_round
}

/// Whether a member is in the group and still to win.
pub open spec fn to_win(m: Member) -> bool {
    m.active && !m.won_this_rotation
}

/// Whether a group's terms and reserve are such as calls lead to.
pub open spec fn plain(g: GroupView) -> bool {
    &&& 0 < g.config.contribution <= i128::MAX
    &&& 0 <= g.config.collateral <= i128::MAX
    &&& 0 <= g.config.max_bid_bps <= 5000
    &&& g.config.max_members <= 50
    &&& g.reserve >= 0
    &&& g.members.len() <= u32::MAX
}

/// Whether a reserve of `total` was split equally among the survivors: less than one unit
/// for each of them is left, and all of it where nobody survived.
pub open spec fn split_equally(total: int, survivors: int, each: int, rest: int) -> bool {
    if survivors > 0 {
        survivors * each + rest == total && 0 <= rest < survivors
    } else {
        each == 0 && rest == total
    }
}

/// The counts are numbers of members.
pub proof fn law_counts_are_numbers(ms: Seq<Member>)
    ensures
        count(ms, Standing::Active) == number(ms, |m: Member| m.active),
        count(ms, Standing::Paid) == number(ms, |m: Member| paid_up(m)),
        count(ms, Standing::Straggler) == number(ms, |m: Member| late(m)),
        count(ms, Standing::Eligible) == number(ms, |m: Member| to_win(m)),
        count(ms, Standing::Unrefunded) == number(ms, |m: Member| m.active && !m.refunded),
        count(ms, Standing::Inactive) == number(ms, |m: Member| !m.active),
    decreases ms.len(),
{
    reveal(Seq::filter);
    if ms.len() > 0 {
        law_counts_are_numbers(ms.drop_last());
    }
}

// Defaults

/// Admins can always default a standing member: in a group that is not completed, no bid,
/// payment or win protects a member that is not defaulted yet.
pub proof fn law_standing_members_can_be_defaulted(g: GroupView, a: Address, i: int)
    ensures
        ({
            let res = refusal(g, Step::Default(a));
            &&& res == Some(Error::AlreadyCompleted) <==> g.completed
            &&& res == Some(Error::NotAMember) <==> !g.completed && !seated(g, a)
            &&& seat_of(g, a, i) && !g.completed ==> {
                &&& res is None <==> !g.members[i].defaulted
                &&& res == Some(Error::MemberAlreadyDefaulted) <==> g.members[i].defaulted
            }
            &&& res is Some ==> fits(g, Step::Default(a))
        }),
{
    lemma_seat(g, a);
}

/// Whether a member other than the one at `i` is still to win.
pub open spec fn another_to_win(g: GroupView, i: int) -> bool {
    exists|j: int| 0 <= j < g.members.len() && j != i && to_win(#[trigger] g.members[j])
}

/// What defaulting the member at `i` puts into the reserve, with what was there.
pub open spec fn with_forfeit(g: GroupView, i: int) -> int {
    g.reserve + g.config.collateral + if g.members[i].contributed_this_round {
        g.config.contribution
    } else {
        0
    }
}

/// A default books the collateral, and what the member paid this round, and opens its slot.
/// While another member is still to win, nothing else changes.
pub proof fn law_default_opens_a_slot(g: GroupView, a: Address, i: int, contract: Address)
    requires
        seat_of(g, a, i),
        refusal(g, Step::Default(a)) is None,
        another_to_win(g, i),
    ensures
        ({
            let h = after(g, Step::Default(a));
            let m = g.members[i];
            let n = h.members[i];
            &&& !n.active && n.defaulted && !n.contributed_this_round
            &&& n == (Member {
                active: n.active,
                defaulted: n.defaulted,
                contributed_this_round: n.contributed_this_round,
                ..m
            })
            &&& other_seats_kept(g, h, i)
            &&& h.reserve == with_forfeit(g, i)
            &&& h.open_slots == g.open_slots + 1
            &&& h == (GroupView {
                members: h.members,
                reserve: h.reserve,
                open_slots: h.open_slots,
                ..g
            })
        }),
        payments(g, Step::Default(a), contract).len() == 0,
        fits(g, Step::Default(a)) <==> with_forfeit(g, i) <= i128::MAX && g.open_slots < u32::MAX,
{
    lemma_seat(g, a);
    let d = default_member(g, i);
    let j = choose|j: int| 0 <= j < g.members.len() && j != i && to_win(#[trigger] g.members[j]);
    assert(d.members[j] == g.members[j]);
    assert(stands(d.members[j], Standing::Eligible));
}

/// How many members other than the one at `i` are as `p` says.
pub open spec fn number_but(ms: Seq<Member>, i: int, p: spec_fn(Member) -> bool) -> int {
    number(ms.remove(i), p)
}

/// Counting without a seat that does not count anyway.
proof fn lemma_number_but(ms: Seq<Member>, i: int, m: Member, k: Standing)
    requires
        0 <= i < ms.len(),
        !stands(m, k),
    ensures
        count(ms.update(i, m), k) == count(ms.remove(i), k),
    decreases ms.len(),
{
    let front = ms.drop_last();
    if i == ms.len() - 1 {
        assert(ms.update(i, m).drop_last() =~= front);
        assert(ms.remove(i) =~= front);
    } else {
        assert(ms.update(i, m).drop_last() =~= front.update(i, m));
        assert(ms.remove(i).drop_last() =~= front.remove(i));
        lemma_number_but(front, i, m, k);
    }
}

/// A default that leaves nobody to win ends the cycle: what the others paid this round
/// joins the reserve, which is split equally among them, and no slot stays open.
pub proof fn law_last_default_ends_the_cycle(g: GroupView, a: Address, i: int, contract: Address)
    requires
        plain(g),
        seat_of(g, a, i),
        refusal(g, Step::Default(a)) is None,
        !another_to_win(g, i),
    ensures
        ({
            let h = after(g, Step::Default(a));
            let n = h.members[i];
            let total = with_forfeit(g, i) + number_but(g.members, i, |m: Member| paid_up(m))
                * g.config.contribution;
            let survivors = number_but(g.members, i, |m: Member| m.active);
            &&& n == (Member {
                active: false,
                defaulted: true,
                contributed_this_round: false,
                ..g.members[i]
            })
            &&& h.members.len() == g.members.len()
            &&& forall|j: int|
                #![trigger h.members[j]]
                0 <= j < g.members.len() && j != i ==> h.members[j] == if g.members[j].active {
                    Member { contributed_this_round: false, ..g.members[j] }
                } else {
                    g.members[j]
                }
            &&& split_equally(total, survivors, h.refund_share, h.reserve)
            &&& h.completed
            &&& h.open_slots == 0
            &&& h == (GroupView {
                members: h.members,
                reserve: h.reserve,
                refund_share: h.refund_share,
                completed: h.completed,
                open_slots: h.open_slots,
                ..g
            })
            &&& fits(g, Step::Default(a)) <==> with_forfeit(g, i) <= i128::MAX && g.open_slots
                < u32::MAX && total <= i128::MAX
        }),
        payments(g, Step::Default(a), contract).len() == 0,
{
    lemma_seat(g, a);
    let d = default_member(g, i);
    let m = d.members[i];
    assert(!any(d.members, Standing::Eligible)) by {
        assert forall|j: int| 0 <= j < d.members.len() implies !stands(
            #[trigger] d.members[j],
            Standing::Eligible,
        ) by {
            if j != i {
                assert(d.members[j] == g.members[j]);
                assert(!to_win(g.members[j]));
            }
        }
    }
    lemma_number_but(g.members, i, m, Standing::Active);
    lemma_number_but(g.members, i, m, Standing::Paid);
    law_counts_are_numbers(g.members.remove(i));
    lemma_closing(d);
    let survivors = count(d.members, Standing::Active) as int;
    let each = closed(d).refund_share;
    assert(each * survivors == survivors * each) by (nonlinear_arith);
    assert(each * 0 == 0) by (nonlinear_arith);
    let h = after(g, Step::Default(a));
    assert forall|j: int| #![trigger h.members[j]] 0 <= j < g.members.len() && j != i implies
        h.members[j] == if g.members[j].active {
        Member { contributed_this_round: false, ..g.members[j] }
    } else {
        g.members[j]
    } by {
        assert(d.members[j] == g.members[j]);
    }
}

// Settlement

/// Whether a member is in the running for this round's pot.
pub open spec fn in_running(m: Member) -> bool {
    paid_up(m) && !m.won_this_rotation
}

/// Whether some member is in the running.
pub open spec fn contested(g: GroupView) -> bool {
    exists|i: int| 0 <= i < g.members.len() && in_running(#[trigger] g.members[i])
}

/// What a member bids: nothing, where it submitted no bid.
pub open spec fn bid_of(m: Member) -> int {
    if m.bid_bps < 0 {
        0
    } else {
        m.bid_bps as int
    }
}

/// Whether the member at `w` takes the pot: it is in the running, nobody in the running
/// bids more, and nobody before it bids as much.
pub open spec fn takes_pot(g: GroupView, w: int) -> bool {
    &&& 0 <= w < g.members.len()
    &&& in_running(g.members[w])
    &&& forall|j: int|
        0 <= j < g.members.len() && in_running(#[trigger] g.members[j]) ==> bid_of(g.members[j])
            <= bid_of(g.members[w]) && (j < w ==> bid_of(g.members[j]) < bid_of(g.members[w]))
}

/// What is paid in this round.
pub open spec fn paid_in(g: GroupView) -> int {
    number(g.members, |m: Member| paid_up(m)) * g.config.contribution
}

/// The pot that the round aims at: one contribution for each slot, or all that was paid in
/// where that is more.
pub open spec fn aim(g: GroupView) -> int {
    if g.slots * g.config.contribution > paid_in(g) {
        g.slots * g.config.contribution
    } else {
        paid_in(g)
    }
}

/// The reserve once those who are late left their collateral.
pub open spec fn chest(g: GroupView) -> int {
    g.reserve + number(g.members, |m: Member| late(m)) * g.config.collateral
}

/// How many share what the winner gives up.
pub open spec fn sharers(g: GroupView) -> int {
    number(g.members, |m: Member| paid_up(m)) - 1
}

/// Whether a round won by the member at `w` is worth `pot`, of which the winner gives up
/// `cut` and each of the others gets `each`. The reserve tops the pot up to its aim, as far
/// as it goes; the winner gives up its bid in basis points of the pot, and the others share
/// that equally, both rounded down.
pub open spec fn fair_split(g: GroupView, w: int, pot: int, cut: int, each: int) -> bool {
    &&& paid_in(g) <= pot <= aim(g)
    &&& pot - paid_in(g) <= chest(g)
    &&& pot < aim(g) ==> pot - paid_in(g) == chest(g)
    &&& 10_000 * cut <= pot * bid_of(g.members[w]) < 10_000 * (cut + 1)
    &&& if sharers(g) > 0 {
        sharers(g) * each <= cut < sharers(g) * (each + 1)
    } else {
        each == 0
    }
}

/// The reserve once a round is paid out.
pub open spec fn left_over(g: GroupView, pot: int, cut: int, each: int) -> int {
    chest(g) - (pot - paid_in(g)) + (cut - sharers(g) * each)
}

/// Anyone may settle a round of a locked group that is not completed: from the deadline on
/// in any case, and before it once all who are active paid and all who can win bid.
pub proof fn law_when_a_round_settles(g: GroupView, now: u64)
    ensures
        ({
            let res = refusal(g, Step::Settle(now));
            let early = g.locked && !g.completed && now < g.round_deadline;
            let unpaid = exists|i: int| 0 <= i < g.members.len() && late(#[trigger] g.members[i]);
            let no_bid = exists|i: int|
                0 <= i < g.members.len() && to_win(#[trigger] g.members[i])
                    && g.members[i].bid_bps < 0;
            &&& res == Some(Error::NotLocked) <==> !g.locked
            &&& res == Some(Error::AlreadyCompleted) <==> g.locked && g.completed
            &&& res == Some(Error::NotAllContributed) <==> early && unpaid
            &&& res == Some(Error::NotAllBid) <==> early && !unpaid && no_bid
            &&& res is None <==> g.locked && !g.completed && (now >= g.round_deadline || !unpaid
                && !no_bid)
            &&& res is Some ==> fits(g, Step::Settle(now))
        }),
{
    let ms = g.members;
    if any(ms, Standing::Straggler) {
        let i = choose|i: int| 0 <= i < ms.len() && stands(#[trigger] ms[i], Standing::Straggler);
        assert(late(ms[i]));
    }
    if exists|i: int| 0 <= i < ms.len() && late(#[trigger] ms[i]) {
        let i = choose|i: int| 0 <= i < ms.len() && late(#[trigger] ms[i]);
        assert(stands(ms[i], Standing::Straggler));
    }
    if exists|i: int| 0 <= i < ms.len() && unbid(#[trigger] ms[i]) {
        let i = choose|i: int| 0 <= i < ms.len() && unbid(#[trigger] ms[i]);
        assert(to_win(ms[i]) && ms[i].bid_bps < 0);
    }
    if exists|i: int| 0 <= i < ms.len() && to_win(#[trigger] ms[i]) && ms[i].bid_bps < 0 {
        let i = choose|i: int|
            0 <= i < ms.len() && to_win(#[trigger] ms[i]) && ms[i].bid_bps < 0;
        assert(unbid(ms[i]));
    }
}

/// How a called round relates to the seats before it.
proof fn lemma_called_seats(g: GroupView)
    ensures
        called(g).members.len() == g.members.len(),
        forall|i: int|
            #![trigger called(g).members[i]]
            0 <= i < g.members.len() ==> {
                let m = called(g).members[i];
                &&& m.active == paid_up(g.members[i])
                &&& m.addr == g.members[i].addr
                &&& stands(m, Standing::Eligible) == in_running(g.members[i])
                &&& in_running(g.members[i]) ==> m.bid_bps == bid_of(g.members[i])
                &&& late(g.members[i]) ==> m == (Member {
                    active: false,
                    defaulted: true,
                    ..g.members[i]
                })
                &&& !g.members[i].active ==> m == g.members[i]
                &&& m == (Member {
                    active: m.active,
                    defaulted: m.defaulted,
                    bid_bps: m.bid_bps,
                    ..g.members[i]
                })
                &&& paid_up(g.members[i]) ==> m.defaulted == g.members[i].defaulted
                &&& paid_up(g.members[i]) && !in_running(g.members[i]) ==> m == g.members[i]
            },
        any(called(g).members, Standing::Eligible) <==> contested(g),
        count(called(g).members, Standing::Active) == number(
            g.members,
            |m: Member| paid_up(m),
        ),
        called(g).reserve == chest(g),
        called(g).open_slots == g.open_slots + number(g.members, |m: Member| late(m)),
{
    let c = called(g);
    law_counts_are_numbers(g.members);
    lemma_called_counts(g);
    if any(c.members, Standing::Eligible) {
        let i = choose|i: int|
            0 <= i < c.members.len() && stands(#[trigger] c.members[i], Standing::Eligible);
        assert(in_running(g.members[i]));
    }
    if contested(g) {
        let i = choose|i: int| 0 <= i < g.members.len() && in_running(#[trigger] g.members[i]);
        assert(stands(c.members[i], Standing::Eligible));
    }
}

/// A quotient is what its bounds say.
proof fn lemma_quotient(x: int, d: int, q: int)
    requires
        d > 0,
        d * q <= x < d * (q + 1),
    ensures
        x / d == q,
{
    assert(d * (q + 1) == d * q + d) by (nonlinear_arith);
    assert(x == q * d + (x - d * q)) by (nonlinear_arith);
    vstd::arithmetic::div_mod::lemma_fundamental_div_mod_converse(x, d, q, x - d * q);
}

/// The winner and the amounts of a settlement are those of a fair split.
proof fn lemma_fair_split(g: GroupView, w: int, pot: int, cut: int, each: int)
    requires
        plain(g),
        takes_pot(g, w),
        fair_split(g, w, pot, cut, each),
    ensures
        contested(g),
        winner(called(g).members) == w,
        crate::rules::pot(called(g)) == pot,
        crate::rules::bid_amount(called(g)) == cut,
        crate::rules::share(called(g)) == each,
        crate::rules::others(called(g)) == sharers(g),
        crate::rules::net_to_winner(called(g)) == pot - cut,
        crate::rules::remainder(called(g)) == cut - sharers(g) * each,
        crate::rules::gap(called(g)) == aim(g) - paid_in(g),
        crate::rules::cover(called(g)) == pot - paid_in(g),
        crate::rules::collected(called(g)) == paid_in(g),
        each >= 0,
{
    let c = called(g);
    lemma_called_seats(g);
    assert(in_running(g.members[w]));
    assert(sound(g));
    lemma_called_sound(g);
    assert(is_winner(c.members, w)) by {
        assert(stands(c.members[w], Standing::Eligible));
        assert forall|i: int|
            0 <= i < c.members.len() && (#[trigger] c.members[i]).active
                && !c.members[i].won_this_rotation implies (if i < w {
            c.members[i].bid_bps < c.members[w].bid_bps
        } else {
            c.members[i].bid_bps <= c.members[w].bid_bps
        }) by {
            assert(stands(c.members[i], Standing::Eligible));
            assert(in_running(g.members[i]));
        }
    }
    lemma_amounts(c);
    lemma_one_winner(c.members, w, winner(c.members));
    lemma_quotient(pot * bid_of(g.members[w]), 10_000, cut);
    if sharers(g) > 0 {
        lemma_quotient(cut, sharers(g), each);
    }
    assert(each * sharers(g) == sharers(g) * each) by (nonlinear_arith);
}

/// What a settlement does to the seats: those who are late are defaulted; the winner is
/// marked, with one more win, and credited with the pot less what it gives up; each of the
/// others that paid is credited with its share; bids and payments of the round are cleared;
/// who was out stays as they were.
pub proof fn law_settlement_credits_the_seats(
    g: GroupView,
    now: u64,
    w: int,
    pot: int,
    cut: int,
    each: int,
    i: int,
)
    requires
        plain(g),
        refusal(g, Step::Settle(now)) is None,
        fits(g, Step::Settle(now)),
        takes_pot(g, w),
        fair_split(g, w, pot, cut, each),
        0 <= i < g.members.len(),
    ensures
        after(g, Step::Settle(now)).members.len() == g.members.len(),
        ({
            let m = g.members[i];
            let n = after(g, Step::Settle(now)).members[i];
            &&& !m.active ==> n == m
            &&& late(m) ==> n == (Member { active: false, defaulted: true, ..m })
            &&& paid_up(m) ==> {
                &&& n.won_this_rotation == (m.won_this_rotation || i == w)
                &&& n.total_wins - m.total_wins == if i == w { 1int } else { 0int }
                &&& n.total_received - m.total_received == if i == w { pot - cut } else { each }
                &&& !n.contributed_this_round
                &&& n.bid_bps == -1
                &&& n == (Member {
                    won_this_rotation: n.won_this_rotation,
                    total_wins: n.total_wins,
                    total_received: n.total_received,
                    contributed_this_round: n.contributed_this_round,
                    bid_bps: n.bid_bps,
                    ..m
                })
            }
        }),
{
    let c = called(g);
    let p = paid_out(c, now as int);
    lemma_called_seats(g);
    lemma_fair_split(g, w, pot, cut, each);
    assert(c.members[i].active == paid_up(g.members[i]));
    assert(c.members[i].active ==> i128::MIN <= c.members[i].total_received + credit(c, i)
        <= i128::MAX);
    assert(p.members[i] == paid_member(c, i));
}

/// What a settlement does to the books: the round that follows lasts as long as the terms
/// say, what the pot lacks is booked, and what is left over stays in the reserve. The group
/// completes exactly where nobody but the winner was in the running; then the reserve is
/// split equally among those who paid.
pub proof fn law_settlement_books(g: GroupView, now: u64, w: int, pot: int, cut: int, each: int)
    requires
        plain(g),
        refusal(g, Step::Settle(now)) is None,
        takes_pot(g, w),
        fair_split(g, w, pot, cut, each),
    ensures
        ({
            let h = after(g, Step::Settle(now));
            let paying = number(g.members, |m: Member| paid_up(m));
            let left = left_over(g, pot, cut, each);
            let more = exists|j: int|
                0 <= j < g.members.len() && j != w && in_running(#[trigger] g.members[j]);
            &&& h.round == g.round + 1
            &&& h.round_deadline - now == g.config.round_duration_secs
            &&& h.total_uncovered_shortfall - g.total_uncovered_shortfall == aim(g) - pot
            &&& h.completed <==> !more
            &&& more ==> {
                &&& h.reserve == left
                &&& h.open_slots == g.open_slots + number(g.members, |m: Member| late(m))
                &&& h.refund_share == g.refund_share
            }
            &&& !more ==> split_equally(left, paying, h.refund_share, h.reserve) && h.open_slots
                == 0
            &&& h == (GroupView {
                members: h.members,
                reserve: h.reserve,
                total_uncovered_shortfall: h.total_uncovered_shortfall,
                round: h.round,
                round_deadline: h.round_deadline,
                open_slots: h.open_slots,
                completed: h.completed,
                refund_share: h.refund_share,
                ..g
            })
        }),
{
    let c = called(g);
    let p = paid_out(c, now as int);
    lemma_called_seats(g);
    lemma_fair_split(g, w, pot, cut, each);
    assert(sound(g));
    lemma_called_sound(g);
    lemma_amounts(c);
    lemma_paid_out_counts(c, now as int);
    assert(p.members[w] == paid_member(c, w));
    assert forall|j: int| 0 <= j < p.members.len() && j != w implies stands(
        #[trigger] p.members[j],
        Standing::Eligible,
    ) == in_running(g.members[j]) by {
        assert(p.members[j] == paid_member(c, j));
        assert(stands(c.members[j], Standing::Eligible) == in_running(g.members[j]));
    }
    if any(p.members, Standing::Eligible) {
        let j = choose|j: int|
            0 <= j < p.members.len() && stands(#[trigger] p.members[j], Standing::Eligible);
        assert(j != w);
        assert(in_running(g.members[j]));
    }
    if exists|j: int| 0 <= j < g.members.len() && j != w && in_running(#[trigger] g.members[j]) {
        let j = choose|j: int|
            0 <= j < g.members.len() && j != w && in_running(#[trigger] g.members[j]);
        assert(stands(p.members[j], Standing::Eligible));
    }
    assert(0 * g.config.contribution == 0) by (nonlinear_arith);
    assert(closing_reserve(p) == p.reserve);
    assert(p.reserve == left_over(g, pot, cut, each));
    lemma_closing(p);
    let survivors = count(p.members, Standing::Active) as int;
    let refund = closed(p).refund_share;
    assert(refund * survivors == survivors * refund) by (nonlinear_arith);
}

/// A round in which someone is in the running has a winner and a fair split.
pub proof fn law_every_round_can_be_split(g: GroupView)
    requires
        plain(g),
        contested(g),
    ensures
        exists|w: int| takes_pot(g, w),
        exists|w: int, pot: int, cut: int, each: int| #[trigger]
            fair_split(g, w, pot, cut, each) && takes_pot(g, w),
{
    let c = called(g);
    lemma_called_seats(g);
    assert(sound(g));
    lemma_called_sound(g);
    lemma_amounts(c);
    let w = winner(c.members);
    assert(stands(c.members[w], Standing::Eligible));
    assert(takes_pot(g, w)) by {
        assert forall|j: int|
            0 <= j < g.members.len() && in_running(#[trigger] g.members[j]) implies bid_of(
            g.members[j],
        ) <= bid_of(g.members[w]) && (j < w ==> bid_of(g.members[j]) < bid_of(g.members[w])) by {
            assert(stands(c.members[j], Standing::Eligible));
        }
    }
    let pot = crate::rules::pot(c);
    let cut = crate::rules::bid_amount(c);
    let each = crate::rules::share(c);
    let x = pot * bid_of(g.members[w]);
    vstd::arithmetic::div_mod::lemma_fundamental_div_mod(x, 10_000);
    vstd::arithmetic::div_mod::lemma_mod_bound(x, 10_000);
    if sharers(g) > 0 {
        let s = sharers(g);
        vstd::arithmetic::div_mod::lemma_fundamental_div_mod(cut, s);
        vstd::arithmetic::div_mod::lemma_mod_bound(cut, s);
        assert(s * (each + 1) == s * each + s) by (nonlinear_arith);
    }
    assert(fair_split(g, w, pot, cut, each));
}

/// Equal payments to those who paid up, but for the member at `w`, in the order of their
/// seats.
pub open spec fn shares_in_order(
    token: Address,
    from: Address,
    ms: Seq<Member>,
    w: int,
    each: int,
) -> Seq<Action> {
    let others = if w < ms.len() { ms.remove(w) } else { ms };
    others.filter(|m: Member| paid_up(m)).map_values(
        |m: Member| Action::Transfer { token, from, to: m.addr, amount: each as i128 },
    )
}

/// The shares of a settlement are paid in order.
proof fn lemma_shares_in_order(
    token: Address,
    from: Address,
    cs: Seq<Member>,
    ms: Seq<Member>,
    w: int,
    each: int,
)
    requires
        cs.len() == ms.len(),
        0 <= w,
        each > 0,
        forall|i: int|
            0 <= i < cs.len() ==> (#[trigger] cs[i]).active == paid_up(ms[i]) && cs[i].addr
                == ms[i].addr,
    ensures
        share_payments(token, from, cs, w, each) == shares_in_order(token, from, ms, w, each),
    decreases cs.len(),
{
    let p = |m: Member| paid_up(m);
    let f = |m: Member| Action::Transfer { token, from, to: m.addr, amount: each as i128 };
    let others = if w < ms.len() { ms.remove(w) } else { ms };
    reveal(Seq::filter);
    if cs.len() == 0 {
        assert(others.filter(p).map_values(f) =~= Seq::<Action>::empty());
    } else {
        let front = ms.drop_last();
        let last = ms.len() - 1;
        assert(forall|i: int|
            0 <= i < front.len() ==> cs.drop_last()[i] == cs[i] && front[i] == ms[i]);
        lemma_shares_in_order(token, from, cs.drop_last(), front, w, each);
        let before = if w < front.len() { front.remove(w) } else { front };
        assert(cs[last].active == paid_up(ms[last]) && cs[last].addr == ms[last].addr);
        if w == last {
            assert(others =~= before);
        } else {
            assert(others.drop_last() =~= before);
            assert(others.last() == ms[last]);
            if paid_up(ms[last]) {
                assert(others.filter(p) == before.filter(p).push(ms[last]));
                assert(before.filter(p).push(ms[last]).map_values(f) =~= before.filter(
                    p,
                ).map_values(f).push(f(ms[last])));
                assert(share_payments(token, from, cs.drop_last(), w, each) + payment(
                    token,
                    from,
                    ms[last].addr,
                    each,
                ) =~= before.filter(p).map_values(f).push(f(ms[last])));
            }
        }
    }
}

/// Nothing is shared where the share is nothing.
proof fn lemma_no_shares(token: Address, from: Address, ms: Seq<Member>, w: int)
    ensures
        share_payments(token, from, ms, w, 0).len() == 0,
    decreases ms.len(),
{
    if ms.len() > 0 {
        lemma_no_shares(token, from, ms.drop_last(), w);
    }
}

/// What a settlement pays: the winner first, the pot less what it gives up; then each of
/// the others that paid, its share, in the order of their seats. Nothing is paid where the
/// amount is nothing.
pub proof fn law_settlement_pays_in_order(
    g: GroupView,
    now: u64,
    contract: Address,
    w: int,
    pot: int,
    cut: int,
    each: int,
)
    requires
        plain(g),
        takes_pot(g, w),
        fair_split(g, w, pot, cut, each),
    ensures
        ({
            let token = g.config.token;
            let paid = payments(g, Step::Settle(now), contract);
            let prize = if pot > cut {
                seq![
                    Action::Transfer {
                        token,
                        from: contract,
                        to: g.members[w].addr,
                        amount: (pot - cut) as i128,
                    },
                ]
            } else {
                Seq::empty()
            };
            paid == prize + if each > 0 {
                shares_in_order(token, contract, g.members, w, each)
            } else {
                Seq::empty()
            }
        }),
{
    let c = called(g);
    lemma_called_seats(g);
    lemma_fair_split(g, w, pot, cut, each);
    assert(c.members[w].addr == g.members[w].addr);
    if each > 0 {
        lemma_shares_in_order(g.config.token, contract, c.members, g.members, w, each);
    } else {
        lemma_no_shares(g.config.token, contract, c.members, w);
    }
}

/// A round that nobody is in the running for ends the cycle: those who are late are
/// defaulted, what was paid in joins the reserve, which is split equally among those who
/// paid, and nothing is paid out. Round and deadline stay.
pub proof fn law_uncontested_round_ends_the_cycle(g: GroupView, now: u64, contract: Address)
    requires
        plain(g),
        refusal(g, Step::Settle(now)) is None,
        !contested(g),
    ensures
        ({
            let h = after(g, Step::Settle(now));
            let paying = number(g.members, |m: Member| paid_up(m));
            let total = chest(g) + paid_in(g);
            &&& h.members.len() == g.members.len()
            &&& forall|i: int|
                #![trigger h.members[i]]
                0 <= i < g.members.len() ==> h.members[i] == if late(g.members[i]) {
                    Member { active: false, defaulted: true, ..g.members[i] }
                } else if g.members[i].active {
                    Member { contributed_this_round: false, ..g.members[i] }
                } else {
                    g.members[i]
                }
            &&& split_equally(total, paying, h.refund_share, h.reserve)
            &&& h.completed
            &&& h.open_slots == 0
            &&& h == (GroupView {
                members: h.members,
                reserve: h.reserve,
                refund_share: h.refund_share,
                completed: h.completed,
                open_slots: h.open_slots,
                ..g
            })
            &&& fits(g, Step::Settle(now)) <==> total <= i128::MAX && g.open_slots + number(
                g.members,
                |m: Member| late(m),
            ) <= u32::MAX
        }),
        payments(g, Step::Settle(now), contract).len() == 0,
{
    let c = called(g);
    let h = after(g, Step::Settle(now));
    lemma_called_seats(g);
    assert(sound(g));
    lemma_called_sound(g);
    lemma_called_counts(g);
    lemma_closing(c);
    law_counts_are_numbers(g.members);
    lemma_times_grows(0, count(g.members, Standing::Paid) as int, g.config.contribution);
    let survivors = count(c.members, Standing::Active) as int;
    let refund = closed(c).refund_share;
    assert(refund * survivors == survivors * refund) by (nonlinear_arith);
    assert(h == closed(c));
    assert forall|i: int| #![trigger h.members[i]] 0 <= i < g.members.len() implies h.members[i]
        == if late(g.members[i]) {
        Member { active: false, defaulted: true, ..g.members[i] }
    } else if g.members[i].active {
        Member { contributed_this_round: false, ..g.members[i] }
    } else {
        g.members[i]
    } by {
        assert(!in_running(g.members[i]));
        assert(c.members[i].active == paid_up(g.members[i]));
        assert(h.members[i] == rested(c.members[i]));
    }
}

/// A settlement is aborted only where an amount of it does not fit: every amount that is
/// in range of its type is settled.
pub proof fn law_what_fits_is_settled(
    g: GroupView,
    now: u64,
    w: int,
    pot: int,
    cut: int,
    each: int,
)
    requires
        plain(g),
        refusal(g, Step::Settle(now)) is None,
        takes_pot(g, w),
        fair_split(g, w, pot, cut, each),
    ensures
        fits(g, Step::Settle(now)) <==> {
            &&& chest(g) <= i128::MAX
            &&& g.open_slots + number(g.members, |m: Member| late(m)) <= u32::MAX
            &&& g.slots * g.config.contribution <= i128::MAX
            &&& paid_in(g) <= i128::MAX
            &&& g.total_uncovered_shortfall + aim(g) - pot <= i128::MAX
            &&& pot * bid_of(g.members[w]) <= i128::MAX
            &&& left_over(g, pot, cut, each) <= i128::MAX
            &&& g.members[w].total_wins < u32::MAX
            &&& forall|i: int|
                #![trigger g.members[i]]
                0 <= i < g.members.len() && paid_up(g.members[i]) ==> i128::MIN
                    <= g.members[i].total_received + (if i == w { pot - cut } else { each })
                    <= i128::MAX
            &&& g.round < u32::MAX
            &&& now + g.config.round_duration_secs <= u64::MAX
        },
{
    let c = called(g);
    lemma_called_seats(g);
    lemma_fair_split(g, w, pot, cut, each);
    assert(c.members[w].total_wins == g.members[w].total_wins);
    let ok = forall|i: int|
        #![trigger g.members[i]]
        0 <= i < g.members.len() && paid_up(g.members[i]) ==> i128::MIN
            <= g.members[i].total_received + (if i == w { pot - cut } else { each }) <= i128::MAX;
    if ok {
        assert forall|i: int| 0 <= i < c.members.len() && (#[trigger] c.members[i]).active implies
            i128::MIN <= c.members[i].total_received + credit(c, i) <= i128::MAX by {
            assert(paid_up(g.members[i]));
        }
    }
    if fits(g, Step::Settle(now)) {
        assert forall|i: int| #![trigger g.members[i]] 0 <= i < g.members.len() && paid_up(
            g.members[i],
        ) implies i128::MIN <= g.members[i].total_received + (if i == w {
            pot - cut
        } else {
            each
        }) <= i128::MAX by {
            assert(c.members[i].active);
        }
    }
}

// Deadlines

/// Whether every seat stands in `h` as it stood in `g`.
pub open spec fn nobody_defaulted(g: GroupView, h: GroupView) -> bool {
    &&& h.members.len() == g.members.len()
    &&& forall|i: int|
        #![trigger h.members[i]]
        0 <= i < g.members.len() ==> h.members[i].active == g.members[i].active
            && h.members[i].defaulted == g.members[i].defaulted
}

/// A settlement before the deadline defaults nobody.
pub proof fn law_no_default_before_the_deadline(g: GroupView, now: u64)
    requires
        refusal(g, Step::Settle(now)) is None,
        now < g.round_deadline,
    ensures
        nobody_defaulted(g, after(g, Step::Settle(now))),
{
    let c = called(g);
    let h = after(g, Step::Settle(now));
    law_when_a_round_settles(g, now);
    assert forall|i: int| #![trigger h.members[i]] 0 <= i < g.members.len() implies
        h.members[i].active == g.members[i].active && h.members[i].defaulted
        == g.members[i].defaulted by {
        assert(!late(g.members[i]));
        assert(c.members[i].active == g.members[i].active);
        if any(c.members, Standing::Eligible) {
            let p = paid_out(c, now as int);
            assert(p.members[i] == paid_member(c, i));
        }
    }
}

/// Whether a request leaves the round as it is: it neither locks the group nor settles.
pub open spec fn within_a_round(step: Step) -> bool {
    !(step is Lock) && !(step is Settle)
}

/// The group after these requests, as far as it does not refuse them.
pub open spec fn after_all(g: GroupView, steps: Seq<Step>) -> GroupView
    decreases steps.len(),
{
    if steps.len() == 0 {
        g
    } else {
        let before = after_all(g, steps.drop_last());
        if refusal(before, steps.last()) is None {
            after(before, steps.last())
        } else {
            before
        }
    }
}

/// The deadline stands while a round runs.
proof fn lemma_deadline_stands(g: GroupView, steps: Seq<Step>)
    requires
        forall|i: int| 0 <= i < steps.len() ==> within_a_round(#[trigger] steps[i]),
    ensures
        after_all(g, steps).round_deadline == g.round_deadline,
    decreases steps.len(),
{
    if steps.len() > 0 {
        let front = steps.drop_last();
        assert forall|i: int| 0 <= i < front.len() implies within_a_round(#[trigger] front[i]) by {
            assert(front[i] == steps[i]);
        }
        assert(within_a_round(steps[steps.len() - 1]));
        lemma_deadline_stands(g, front);
    }
}

/// Each round lasts as long as the terms say: after a lock at time `start`, whatever
/// requests come within the round, no settlement earlier than `start` and the agreed
/// duration defaults anyone; and from then on nothing blocks the settlement.
pub proof fn law_first_round_lasts_as_agreed(g: GroupView, start: u64, steps: Seq<Step>, now: u64)
    requires
        refusal(g, Step::Lock(start)) is None,
        forall|i: int| 0 <= i < steps.len() ==> within_a_round(#[trigger] steps[i]),
    ensures
        ({
            let h = after_all(after(g, Step::Lock(start)), steps);
            &&& now < start + g.config.round_duration_secs && refusal(h, Step::Settle(now)) is None
                ==> nobody_defaulted(h, after(h, Step::Settle(now)))
            &&& now >= start + g.config.round_duration_secs && h.locked && !h.completed ==> refusal(
                h,
                Step::Settle(now),
            ) is None
        }),
{
    let locked = after(g, Step::Lock(start));
    let h = after_all(locked, steps);
    lemma_deadline_stands(locked, steps);
    if now < h.round_deadline && refusal(h, Step::Settle(now)) is None {
        law_no_default_before_the_deadline(h, now);
    }
}

/// The same of every later round: after a round was paid out at time `start`, no settlement
/// earlier than `start` and the agreed duration defaults anyone, and from then on nothing
/// blocks the settlement.
pub proof fn law_next_round_lasts_as_agreed(g: GroupView, start: u64, steps: Seq<Step>, now: u64)
    requires
        refusal(g, Step::Settle(start)) is None,
        contested(g),
        forall|i: int| 0 <= i < steps.len() ==> within_a_round(#[trigger] steps[i]),
    ensures
        ({
            let h = after_all(after(g, Step::Settle(start)), steps);
            &&& now < start + g.config.round_duration_secs && refusal(h, Step::Settle(now)) is None
                ==> nobody_defaulted(h, after(h, Step::Settle(now)))
            &&& now >= start + g.config.round_duration_secs && h.locked && !h.completed ==> refusal(
                h,
                Step::Settle(now),
            ) is None
        }),
{
    let settled = after(g, Step::Settle(start));
    let h = after_all(settled, steps);
    lemma_called_seats(g);
    lemma_deadline_stands(settled, steps);
    if now < h.round_deadline && refusal(h, Step::Settle(now)) is None {
        law_no_default_before_the_deadline(h, now);
    }
}

} // verus!
