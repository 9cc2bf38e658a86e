//! The books of a group: what the contract holds for it, and what comes in and goes
//! out with each request.

use vstd::prelude::*;

use crate::amounts::{lemma_amounts, lemma_times_grows};
use crate::members::{
    any, count, find, lemma_count_push, lemma_count_same, lemma_count_update, lemma_find, Standing,
};
use crate::rules::{
    after, amounts_fit, bid_amount, called, closed, closing_share, credit, default_member, fits,
    net_to_winner, newcomer, others, paid_out, payment, payments, pot, refund, refusal,
    settlement_payments, share, share_payments, unbid, winner, Step,
};
use crate::types::{Action, Address, GroupView, Member, BPS};
use crate::upkeep::{
    lemma_called_counts, lemma_called_running, lemma_called_sound, lemma_closed_counts,
    lemma_paid_out_counts, member_wf, running_wf, wf,
};

verus! {

/// What the contract holds for a group: the reserve, the collateral of every member
/// that was neither defaulted nor refunded, the contributions of the round, and the
/// refund shares still to be claimed.
pub open spec fn held(g: GroupView) -> int {
    g.reserve + count(g.members, Standing::Unrefunded) * refund(g) + count(
        g.members,
        Standing::Paid,
    ) * g.config.contribution
}

/// What the contract holds for a group is never negative.
pub proof fn lemma_held_range(g: GroupView)
    requires
        wf(g),
    ensures
        held(g) >= 0,
{
    lemma_times_grows(0, count(g.members, Standing::Unrefunded) as int, refund(g));
    lemma_times_grows(0, count(g.members, Standing::Paid) as int, g.config.contribution);
}

/// What a request brings in, less what it pays out.
pub open spec fn inflow(g: GroupView, step: Step) -> int {
    match step {
        Step::Join(_) | Step::Promote(_) => g.config.collateral,
        Step::Contribute(_) => g.config.contribution,
        Step::Settle(_) => {
            let c = called(g);
            if any(c.members, Standing::Eligible) {
                -(net_to_winner(c) + share(c) * others(c))
            } else {
                0
            }
        },
        Step::Claim(_) => -refund(g),
        _ => 0,
    }
}

/// Closing moves nothing in or out.
proof fn lemma_closed_held(g: GroupView)
    requires
        g.refund_share == 0,
        count(g.members, Standing::Unrefunded) == count(g.members, Standing::Active),
    ensures
        held(closed(g)) == held(g),
{
    lemma_closed_counts(g);
    let n = count(g.members, Standing::Active) as int;
    let s = closing_share(g);
    let k = g.config.collateral;
    assert(n * (k + s) == n * k + s * n) by (nonlinear_arith);
    assert(0 * g.config.contribution == 0) by (nonlinear_arith);
}

/// In a running group nobody was refunded.
proof fn lemma_unrefunded(g: GroupView)
    requires
        forall|i: int| 0 <= i < g.members.len() ==> !(#[trigger] g.members[i]).refunded,
    ensures
        count(g.members, Standing::Unrefunded) == count(g.members, Standing::Active),
{
    lemma_count_same(g.members, Standing::Unrefunded, g.members, Standing::Active);
}

/// What the contract holds for a group changes by what comes in and goes out.
pub proof fn lemma_held(g: GroupView, step: Step)
    requires
        wf(g),
        refusal(g, step) is None,
    ensures
        held(after(g, step)) == held(g) + inflow(g, step),
{
    let h = after(g, step);
    let ms = g.members;
    let k = refund(g);
    let c = g.config.contribution;
    match step {
        Step::Join(a) | Step::Promote(a) => {
            lemma_count_push(ms, newcomer(a), Standing::Unrefunded);
            lemma_count_push(ms, newcomer(a), Standing::Paid);
            lemma_one_more(count(ms, Standing::Unrefunded) as int, k);
        },
        Step::Queue(_) | Step::Lock(_) => {},
        Step::Contribute(a) | Step::Bid(a, _) | Step::Claim(a) => {
            lemma_find(ms, a);
            let i = find(ms, a)->0;
            assert(member_wf(g, ms[i]));
            lemma_count_update(ms, i, h.members[i], Standing::Unrefunded);
            lemma_count_update(ms, i, h.members[i], Standing::Paid);
            lemma_one_more(count(ms, Standing::Paid) as int, c);
            lemma_one_more(count(h.members, Standing::Unrefunded) as int, k);
        },
        Step::Default(a) => {
            lemma_find(ms, a);
            let i = find(ms, a)->0;
            let d = default_member(g, i);
            assert(member_wf(g, ms[i]));
            lemma_count_update(ms, i, d.members[i], Standing::Unrefunded);
            lemma_count_update(ms, i, d.members[i], Standing::Paid);
            lemma_one_more(count(d.members, Standing::Unrefunded) as int, k);
            lemma_one_more(count(d.members, Standing::Paid) as int, c);
            assert(held(d) == held(g));
            assert forall|j: int| 0 <= j < d.members.len() implies !(
            #[trigger] d.members[j]).refunded by {
                assert(member_wf(g, ms[j]));
            }
            lemma_unrefunded(d);
            lemma_closed_held(d);
        },
        Step::Settle(now) => {
            let m = called(g);
            let d = count(ms, Standing::Straggler) as int;
            let p = paid_out(m, now as int);
            lemma_called_sound(g);
            lemma_called_counts(g);
            assert forall|j: int| 0 <= j < ms.len() implies !(#[trigger] ms[j]).refunded by {
                assert(member_wf(g, ms[j]));
            }
            assert forall|j: int| 0 <= j < m.members.len() implies !(
            #[trigger] m.members[j]).refunded by {
                assert(!ms[j].refunded);
            }
            lemma_unrefunded(g);
            lemma_unrefunded(m);
            let n = count(m.members, Standing::Active) as int;
            assert((n + d) * k == n * k + d * k) by (nonlinear_arith);
            assert(held(m) == held(g));
            if any(m.members, Standing::Eligible) {
                lemma_amounts(m);
                lemma_paid_out_counts(m, now as int);
                assert(0 * c == 0) by (nonlinear_arith);
                assert(held(p) == held(m) - net_to_winner(m) - share(m) * others(m));
                assert forall|j: int| 0 <= j < p.members.len() implies !(
                #[trigger] p.members[j]).refunded by {
                    assert(!m.members[j].refunded);
                }
                lemma_unrefunded(p);
                lemma_closed_held(p);
            } else {
                lemma_closed_held(m);
            }
        },
    }
}

/// One more of the same.
proof fn lemma_one_more(n: int, k: int)
    ensures
        (n + 1) * k == n * k + k,
{
    assert((n + 1) * k == n * k + k) by (nonlinear_arith);
}

// Token balances

/// What an action adds to the balance of `who` in `token`.
pub open spec fn moved(action: Action, who: Address, token: Address) -> int {
    match action {
        Action::Transfer { token: t, from, to, amount } => if t == token {
            (if to == who { amount as int } else { 0 }) - (if from == who { amount as int } else {
                0
            })
        } else {
            0
        },
        _ => 0,
    }
}

/// What actions add to the balance of `who` in `token`.
pub open spec fn balance(actions: Seq<Action>, who: Address, token: Address) -> int
    decreases actions.len(),
{
    if actions.len() == 0 {
        0
    } else {
        balance(actions.drop_last(), who, token) + moved(actions.last(), who, token)
    }
}

/// Balances add up.
pub proof fn lemma_balance_add(a: Seq<Action>, b: Seq<Action>, who: Address, token: Address)
    ensures
        balance(a + b, who, token) == balance(a, who, token) + balance(b, who, token),
    decreases b.len(),
{
    if b.len() == 0 {
        assert(a + b =~= a);
    } else {
        assert((a + b).drop_last() =~= a + b.drop_last());
        lemma_balance_add(a, b.drop_last(), who, token);
    }
}

/// Actions that move no tokens leave every balance.
pub proof fn lemma_balance_still(actions: Seq<Action>, who: Address, token: Address)
    requires
        forall|i: int| 0 <= i < actions.len() ==> !(#[trigger] actions[i] is Transfer),
    ensures
        balance(actions, who, token) == 0,
    decreases actions.len(),
{
    if actions.len() > 0 {
        let front = actions.drop_last();
        assert forall|i: int| 0 <= i < front.len() implies !(#[trigger] front[i] is Transfer) by {
            assert(front[i] == actions[i]);
        }
        lemma_balance_still(front, who, token);
        assert(!(actions[actions.len() - 1] is Transfer));
    }
}

/// A payment to or from another moves its amount.
proof fn lemma_balance_payment(
    token: Address,
    from: Address,
    to: Address,
    amount: int,
    who: Address,
    of: Address,
)
    requires
        0 <= amount <= i128::MAX,
        from != to,
    ensures
        balance(payment(token, from, to, amount), who, of) == if token != of {
            0
        } else if who == to {
            amount
        } else if who == from {
            -amount
        } else {
            0
        },
{
    let paid = payment(token, from, to, amount);
    if amount > 0 {
        assert(paid.drop_last() =~= Seq::<Action>::empty());
        assert(balance(paid.drop_last(), who, of) == 0);
    }
}

/// Equal payments to the active members but one.
proof fn lemma_balance_shares(
    token: Address,
    who: Address,
    ms: Seq<Member>,
    w: int,
    amount: int,
    of: Address,
)
    requires
        0 <= amount <= i128::MAX,
        forall|i: int| 0 <= i < ms.len() ==> (#[trigger] ms[i]).addr != who,
        0 <= w,
        w < ms.len() ==> ms[w].active,
    ensures
        balance(share_payments(token, who, ms, w, amount), who, of) == if token == of {
            -(amount * (count(ms, Standing::Active) - if w < ms.len() { 1int } else { 0int }))
        } else {
            0
        },
    decreases ms.len(),
{
    if ms.len() == 0 {
        assert(amount * 0 == 0) by (nonlinear_arith);
    } else {
        let front = ms.drop_last();
        let last = ms.len() - 1;
        assert forall|i: int| 0 <= i < front.len() implies (#[trigger] front[i]).addr != who by {
            assert(front[i] == ms[i]);
        }
        assert(w < front.len() ==> front[w] == ms[w]);
        lemma_balance_shares(token, who, front, w, amount, of);
        let n = count(front, Standing::Active) - if w < front.len() { 1int } else { 0int };
        assert(amount * (n + 1) == amount * n + amount) by (nonlinear_arith);
        if ms.last().active && last != w {
            assert(ms[last].addr != who);
            lemma_balance_payment(token, who, ms.last().addr, amount, who, of);
            lemma_balance_add(
                share_payments(token, who, front, w, amount),
                payment(token, who, ms.last().addr, amount),
                who,
                of,
            );
        }
    }
}

/// The amounts that a settlement pays are not negative and fit a transfer.
proof fn lemma_payout_range(g: GroupView)
    requires
        running_wf(g),
        any(g.members, Standing::Eligible),
        forall|i: int| 0 <= i < g.members.len() ==> !unbid(#[trigger] g.members[i]),
        amounts_fit(g),
    ensures
        0 <= net_to_winner(g) <= i128::MAX,
        0 <= share(g) <= i128::MAX,
{
    lemma_amounts(g);
    let w = winner(g.members);
    assert(member_wf(g, g.members[w]));
    let x = pot(g);
    let b = g.members[w].bid_bps as int;
    assert(x * b <= x * BPS) by (nonlinear_arith)
        requires
            x >= 0,
            b <= BPS,
    ;
    vstd::arithmetic::div_mod::lemma_div_is_ordered(x * b, x * BPS, BPS as int);
    vstd::arithmetic::div_mod::lemma_div_multiples_vanish(x, BPS as int);
    assert(x * BPS == BPS * x) by (nonlinear_arith);
    if others(g) > 0 {
        vstd::arithmetic::div_mod::lemma_div_is_ordered_by_denominator(
            bid_amount(g),
            1,
            others(g),
        );
    }
}

/// The payments of a request move exactly what it brings in or pays out, in the group's
/// token, unless the contract itself is a member.
pub proof fn lemma_payments_balance(g: GroupView, step: Step, contract: Address, token: Address)
    requires
        wf(g),
        refusal(g, step) is None,
        fits(g, step),
        forall|i: int| 0 <= i < g.members.len() ==> (#[trigger] g.members[i]).addr != contract,
        step != Step::Join(contract),
        step != Step::Promote(contract),
    ensures
        balance(payments(g, step, contract), contract, token) == if token == g.config.token {
            inflow(g, step)
        } else {
            0
        },
{
    match step {
        Step::Join(a) | Step::Promote(a) => {
            lemma_balance_payment(
                g.config.token,
                a,
                contract,
                g.config.collateral,
                contract,
                token,
            );
        },
        Step::Contribute(a) => {
            lemma_find(g.members, a);
            lemma_balance_payment(
                g.config.token,
                a,
                contract,
                g.config.contribution,
                contract,
                token,
            );
        },
        Step::Claim(a) => {
            lemma_find(g.members, a);
            lemma_balance_payment(g.config.token, contract, a, refund(g), contract, token);
        },
        Step::Settle(_) => {
            let c = called(g);
            lemma_called_sound(g);
            if any(c.members, Standing::Eligible) {
                lemma_called_running(g);
                lemma_payout_range(c);
                lemma_amounts(c);
                let w = winner(c.members);
                assert forall|i: int| 0 <= i < c.members.len() implies (
                #[trigger] c.members[i]).addr != contract by {
                    assert(g.members[i].addr != contract);
                }
                let prize = payment(c.config.token, contract, c.members[w].addr, net_to_winner(c));
                let shares = share_payments(c.config.token, contract, c.members, w, share(c));
                lemma_balance_payment(
                    c.config.token,
                    contract,
                    c.members[w].addr,
                    net_to_winner(c),
                    contract,
                    token,
                );
                lemma_balance_shares(c.config.token, contract, c.members, w, share(c), token);
                lemma_balance_add(prize, shares, contract, token);
            }
        },
        _ => {},
    }
}

/// What a payment by another brings to `who`.
pub proof fn lemma_balance_receipt(
    token: Address,
    from: Address,
    to: Address,
    amount: int,
    who: Address,
)
    requires
        0 <= amount <= i128::MAX,
        from != who,
    ensures
        balance(payment(token, from, to, amount), who, token) == if to == who {
            amount
        } else {
            0
        },
{
    let paid = payment(token, from, to, amount);
    if amount > 0 {
        assert(paid.drop_last() =~= Seq::<Action>::empty());
        assert(balance(paid.drop_last(), who, token) == 0);
    }
}

/// What the shares bring to the member at `i`.
proof fn lemma_balance_own_share(
    token: Address,
    from: Address,
    ms: Seq<Member>,
    w: int,
    amount: int,
    i: int,
    who: Address,
)
    requires
        0 <= amount <= i128::MAX,
        from != who,
        0 <= i,
        i < ms.len() ==> ms[i].addr == who,
        forall|j: int| 0 <= j < ms.len() && j != i ==> (#[trigger] ms[j]).addr != who,
    ensures
        balance(share_payments(token, from, ms, w, amount), who, token) == if i < ms.len()
            && ms[i].active && i != w {
            amount
        } else {
            0
        },
    decreases ms.len(),
{
    if ms.len() > 0 {
        let front = ms.drop_last();
        let last = ms.len() - 1;
        assert(forall|j: int| 0 <= j < front.len() ==> #[trigger] front[j] == ms[j]);
        lemma_balance_own_share(token, from, front, w, amount, i, who);
        lemma_balance_receipt(token, from, ms.last().addr, amount, who);
        lemma_balance_add(
            share_payments(token, from, front, w, amount),
            payment(token, from, ms.last().addr, amount),
            who,
            token,
        );
        if last != i {
            assert(ms[last].addr != who);
        }
    }
}

/// What a settlement brings to the member at `i`.
pub proof fn lemma_settlement_receipt(g: GroupView, now: u64, contract: Address, i: int)
    requires
        wf(g),
        refusal(g, Step::Settle(now)) is None,
        fits(g, Step::Settle(now)),
        0 <= i < g.members.len(),
        g.members[i].addr != contract,
    ensures
        balance(settlement_payments(g, contract), g.members[i].addr, g.config.token) == if any(
            called(g).members,
            Standing::Eligible,
        ) && called(g).members[i].active {
            credit(called(g), i)
        } else {
            0
        },
{
    let c = called(g);
    let who = g.members[i].addr;
    if any(c.members, Standing::Eligible) {
        lemma_called_sound(g);
        lemma_called_running(g);
        lemma_payout_range(c);
        lemma_amounts(c);
        let w = winner(c.members);
        assert(forall|j: int| 0 <= j < c.members.len() ==> (#[trigger] c.members[j]).addr
            == g.members[j].addr);
        assert forall|j: int| 0 <= j < c.members.len() && j != i implies (
        #[trigger] c.members[j]).addr != who by {
            assert(g.members[j].addr != g.members[i].addr);
        }
        assert(c.members[i].addr == who);
        let prize = payment(c.config.token, contract, c.members[w].addr, net_to_winner(c));
        let shares = share_payments(c.config.token, contract, c.members, w, share(c));
        lemma_balance_receipt(c.config.token, contract, c.members[w].addr, net_to_winner(c), who);
        lemma_balance_own_share(c.config.token, contract, c.members, w, share(c), i, who);
        lemma_balance_add(prize, shares, who, c.config.token);
    }
}

} // verus!
