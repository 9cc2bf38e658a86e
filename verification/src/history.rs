//! Every history of the contract: any calls, in any order, from its first one on.

use vstd::prelude::*;

use crate::books::{
    balance, held, lemma_balance_add, lemma_balance_still, lemma_held, lemma_payments_balance,
};
use crate::calls::{
    add_token_reply, admin_fits, admin_refusal, admin_reply, admin_signatures, admitted, asking,
    create_reply, group_writes, initialize_reply, member_reply, remove_token_reply, step_fits,
    step_reply, valid_config, without, ContractView, Reply,
};
use crate::rules::{after, created, payments, refusal, Step};
use crate::types::{Action, Address, DataKey, GroupConfig, GroupView, Symbol};
use crate::upkeep::{lemma_created_wf, lemma_seats_kept, lemma_wf_kept, wf};

verus! {

/// A call of the contract.
pub enum Call {
    Initialize(Address),
    AddApprovedToken(Address, Address),
    RemoveApprovedToken(Address, Address),
    CreateGroup(Symbol, GroupConfig),
    JoinGroup(Symbol, Address),
    JoinWaitlist(Symbol, Address),
    PromoteFromWaitlist(Symbol, Address),
    LockGroup(Symbol, Seq<Address>, u64),
    Contribute(Symbol, Address),
    SubmitBid(Symbol, Address, u32),
    SettleRound(Symbol, u64),
    ClaimRefund(Symbol, Address),
    MarkDefault(Symbol, Seq<Address>, Address),
}

/// What a call leaves and answers.
pub open spec fn reply(c: ContractView, call: Call) -> Reply {
    match call {
        Call::Initialize(a) => initialize_reply(c, a),
        Call::AddApprovedToken(a, t) => add_token_reply(c, a, t),
        Call::RemoveApprovedToken(a, t) => remove_token_reply(c, a, t),
        Call::CreateGroup(id, config) => create_reply(c, id, config@),
        Call::JoinGroup(id, a) => member_reply(c, id, a, Step::Join(a)),
        Call::JoinWaitlist(id, a) => member_reply(c, id, a, Step::Queue(a)),
        Call::PromoteFromWaitlist(id, a) => member_reply(c, id, a, Step::Promote(a)),
        Call::LockGroup(id, admins, now) => admin_reply(c, id, admins, Step::Lock(now)),
        Call::Contribute(id, a) => member_reply(c, id, a, Step::Contribute(a)),
        Call::SubmitBid(id, a, bps) => member_reply(c, id, a, Step::Bid(a, bps)),
        Call::SettleRound(id, now) => step_reply(c, id, Step::Settle(now)),
        Call::ClaimRefund(id, a) => member_reply(c, id, a, Step::Claim(a)),
        Call::MarkDefault(id, admins, a) => admin_reply(c, id, admins, Step::Default(a)),
    }
}

/// The group that a call makes a request to, and the request.
pub open spec fn request(call: Call) -> Option<(Symbol, Step)> {
    match call {
        Call::JoinGroup(id, a) => Some((id, Step::Join(a))),
        Call::JoinWaitlist(id, a) => Some((id, Step::Queue(a))),
        Call::PromoteFromWaitlist(id, a) => Some((id, Step::Promote(a))),
        Call::LockGroup(id, _, now) => Some((id, Step::Lock(now))),
        Call::Contribute(id, a) => Some((id, Step::Contribute(a))),
        Call::SubmitBid(id, a, bps) => Some((id, Step::Bid(a, bps))),
        Call::SettleRound(id, now) => Some((id, Step::Settle(now))),
        Call::ClaimRefund(id, a) => Some((id, Step::Claim(a))),
        Call::MarkDefault(id, _, a) => Some((id, Step::Default(a))),
        _ => None,
    }
}

/// Whether every amount that a call computes fits its integer type.
pub open spec fn call_fits(c: ContractView, call: Call) -> bool {
    match call {
        Call::LockGroup(id, admins, now) => admin_fits(c, id, admins, Step::Lock(now)),
        Call::MarkDefault(id, admins, a) => admin_fits(c, id, admins, Step::Default(a)),
        _ => match request(call) {
            Some((id, step)) => step_fits(c, id, step),
            None => true,
        },
    }
}

/// The contract after a call. One whose amounts do not fit is aborted.
pub open spec fn next(c: ContractView, call: Call) -> ContractView {
    if call_fits(c, call) {
        reply(c, call).0
    } else {
        c
    }
}

/// The contract after these calls.
pub open spec fn run(c: ContractView, calls: Seq<Call>) -> ContractView
    decreases calls.len(),
{
    if calls.len() == 0 {
        c
    } else {
        next(run(c, calls.drop_last()), calls.last())
    }
}

/// Whether a call takes a seat in a group, by a join that succeeds.
pub open spec fn takes_seat(c: ContractView, call: Call, id: Symbol) -> bool {
    call matches Call::JoinGroup(named, _) && named == id && call_fits(c, call) && reply(
        c,
        call,
    ).1 is Ok
}

/// How many of these calls are joins of a group that succeed.
pub open spec fn joins(c: ContractView, calls: Seq<Call>, id: Symbol) -> nat
    decreases calls.len(),
{
    if calls.len() == 0 {
        0
    } else {
        let front = calls.drop_last();
        joins(c, front, id) + if takes_seat(run(c, front), calls.last(), id) { 1nat } else { 0nat }
    }
}

/// Whether a call would seat the contract itself in one of its groups.
pub open spec fn seats_itself(call: Call, contract: Address) -> bool {
    match request(call) {
        Some((_, step)) => step == Step::Join(contract) || step == Step::Promote(contract),
        None => false,
    }
}

/// What holds of the contract's entries after any calls: every group is well-formed,
/// with terms that were valid and admins that are distinct; the registry lists each
/// group once; the allowlist lists each token once; and before it is initialized the
/// contract holds nothing.
pub open spec fn entries_wf(c: ContractView) -> bool {
    &&& forall|id: Symbol| #[trigger]
        c.groups.contains_key(id) ==> wf(c.groups[id]) && valid_config(c.groups[id].config)
            && c.groups[id].config.admins.no_duplicates()
    &&& c.registry.no_duplicates()
    &&& forall|id: Symbol| c.registry.contains(id) <==> #[trigger] c.groups.contains_key(id)
    &&& c.approved_tokens.no_duplicates()
    &&& c.protocol_admin is None ==> c.registry.len() == 0 && c.approved_tokens.len() == 0
}

/// Whether the contract is a member of none of its groups.
pub open spec fn outside(c: ContractView) -> bool {
    forall|id: Symbol, i: int|
        #![trigger c.groups[id].members[i]]
        c.groups.contains_key(id) && 0 <= i < c.groups[id].members.len()
            ==> c.groups[id].members[i].addr != c.address
}

/// What the contract holds of `token` for a group.
pub open spec fn held_in(g: GroupView, token: Address) -> int {
    if g.config.token == token {
        held(g)
    } else {
        0
    }
}

/// What the contract holds of `token` for the groups on a list.
pub open spec fn total_held(
    groups: Map<Symbol, GroupView>,
    list: Seq<Symbol>,
    token: Address,
) -> int
    decreases list.len(),
{
    if list.len() == 0 {
        0
    } else {
        total_held(groups, list.drop_last(), token) + held_in(groups[list.last()], token)
    }
}

/// Whether the transfers asked of the host leave the contract with exactly what it holds
/// for its groups, in every token.
pub open spec fn balanced(c: ContractView) -> bool {
    forall|token: Address|
        #[trigger] balance(c.actions, c.address, token) == total_held(c.groups, c.registry, token)
}

/// A group that is not listed does not count.
proof fn lemma_total_elsewhere(
    groups: Map<Symbol, GroupView>,
    list: Seq<Symbol>,
    id: Symbol,
    g: GroupView,
    token: Address,
)
    requires
        !list.contains(id),
    ensures
        total_held(groups.insert(id, g), list, token) == total_held(groups, list, token),
    decreases list.len(),
{
    if list.len() > 0 {
        let front = list.drop_last();
        assert(list[list.len() - 1] != id);
        assert(!front.contains(id)) by {
            assert(forall|i: int| 0 <= i < front.len() ==> front[i] == list[i]);
        }
        lemma_total_elsewhere(groups, front, id, g, token);
    }
}

/// A group that is listed once counts once.
proof fn lemma_total_changed(
    groups: Map<Symbol, GroupView>,
    list: Seq<Symbol>,
    id: Symbol,
    g: GroupView,
    token: Address,
)
    requires
        list.contains(id),
        list.no_duplicates(),
    ensures
        total_held(groups.insert(id, g), list, token) == total_held(groups, list, token) - held_in(
            groups[id],
            token,
        ) + held_in(g, token),
    decreases list.len(),
{
    let front = list.drop_last();
    let last = list.len() - 1;
    assert(forall|i: int| 0 <= i < front.len() ==> front[i] == list[i]);
    if list[last] == id {
        assert(!front.contains(id));
        lemma_total_elsewhere(groups, front, id, g, token);
    } else {
        let i = choose|i: int| 0 <= i < list.len() && list[i] == id;
        assert(front[i] == id);
        lemma_total_changed(groups, front, id, g, token);
    }
}

/// A request keeps the entries well-formed and the books balanced.
proof fn lemma_step(c: ContractView, id: Symbol, step: Step)
    requires
        entries_wf(c),
        step_fits(c, id, step),
    ensures
        ({
            let then = step_reply(c, id, step).0;
            &&& entries_wf(then)
            &&& then.address == c.address
            &&& outside(c) && step != Step::Join(c.address) && step != Step::Promote(c.address)
                ==> outside(then) && (balanced(c) ==> balanced(then))
        }),
{
    let (then, res) = step_reply(c, id, step);
    if c.groups.contains_key(id) && refusal(c.groups[id], step) is None {
        let g = c.groups[id];
        let h = after(g, step);
        let paid = payments(g, step, c.address);
        lemma_wf_kept(g, step);
        lemma_seats_kept(g, step);
        assert(h.config == g.config);
        assert(then.groups == c.groups.insert(id, h));
        assert(entries_wf(then)) by {
            assert forall|k: Symbol|
                c.registry.contains(k) <==> #[trigger] then.groups.contains_key(k) by {
                assert(c.registry.contains(k) <==> c.groups.contains_key(k));
            }
        }
        if outside(c) && step != Step::Join(c.address) && step != Step::Promote(c.address) {
            assert forall|k: Symbol, i: int|
                #![trigger then.groups[k].members[i]]
                then.groups.contains_key(k) && 0 <= i
                    < then.groups[k].members.len() implies then.groups[k].members[i].addr
                != then.address by {
                if k == id {
                    if i < g.members.len() {
                        assert(c.groups[id].members[i].addr != c.address);
                        assert(h.members[i].addr == g.members[i].addr);
                    }
                } else {
                    assert(c.groups[k].members[i].addr != c.address);
                }
            }
            assert forall|i: int| 0 <= i < g.members.len() implies (
            #[trigger] g.members[i]).addr != c.address by {
                assert(c.groups[id].members[i].addr != c.address);
            }
            if balanced(c) {
                assert forall|token: Address|
                    #[trigger] balance(then.actions, then.address, token) == total_held(
                        then.groups,
                        then.registry,
                        token,
                    ) by {
                    let writes = group_writes(id);
                    lemma_balance_still(writes, c.address, token);
                    lemma_payments_balance(g, step, c.address, token);
                    lemma_held(g, step);
                    assert(balance(c.actions, c.address, token) == total_held(
                        c.groups,
                        c.registry,
                        token,
                    ));
                    if step is Claim {
                        lemma_balance_add(c.actions, writes, c.address, token);
                        lemma_balance_add(c.actions + writes, paid, c.address, token);
                    } else {
                        lemma_balance_add(c.actions, paid, c.address, token);
                        lemma_balance_add(c.actions + paid, writes, c.address, token);
                    }
                    lemma_total_changed(c.groups, c.registry, id, h, token);
                }
            }
        }
    }
}

/// Demanding signatures changes no entry and moves nothing.
proof fn lemma_asking(c: ContractView, actions: Seq<Action>)
    requires
        forall|i: int| 0 <= i < actions.len() ==> !(#[trigger] actions[i] is Transfer),
    ensures
        entries_wf(c) ==> entries_wf(asking(c, actions)),
        outside(c) ==> outside(asking(c, actions)),
        balanced(c) ==> balanced(asking(c, actions)),
{
    let then = asking(c, actions);
    if balanced(c) {
        assert forall|token: Address|
            #[trigger] balance(then.actions, then.address, token) == total_held(
                then.groups,
                then.registry,
                token,
            ) by {
            lemma_balance_add(c.actions, actions, c.address, token);
            lemma_balance_still(actions, c.address, token);
            assert(balance(c.actions, c.address, token) == total_held(c.groups, c.registry, token));
        }
    }
    if outside(c) {
        assert forall|k: Symbol, i: int|
            #![trigger then.groups[k].members[i]]
            then.groups.contains_key(k) && 0 <= i
                < then.groups[k].members.len() implies then.groups[k].members[i].addr
            != then.address by {
            assert(c.groups[k].members[i].addr != c.address);
        }
    }
}

/// Signatures that were all admitted are of distinct addresses, all on the list.
pub proof fn lemma_admitted(allowed: Seq<Address>, supplied: Seq<Address>)
    ensures
        admitted(allowed, supplied) <= supplied.len(),
        ({
            let head = supplied.take(admitted(allowed, supplied) as int);
            &&& head.no_duplicates()
            &&& forall|i: int| 0 <= i < head.len() ==> allowed.contains(#[trigger] head[i])
        }),
    decreases supplied.len(),
{
    if supplied.len() > 0 {
        let front = supplied.drop_last();
        lemma_admitted(allowed, front);
        let n = admitted(allowed, supplied) as int;
        if n == supplied.len() {
            assert(front.take(front.len() as int) =~= front);
            assert(supplied.take(n) =~= supplied);
            assert forall|i: int, j: int|
                0 <= i < supplied.len() && 0 <= j < supplied.len() && i
                    != j implies supplied[i] != supplied[j] by {
                assert(forall|m: int| 0 <= m < front.len() ==> front[m] == supplied[m]);
                if i == front.len() {
                    assert(front.contains(front[j]));
                } else if j == front.len() {
                    assert(front.contains(front[i]));
                } else {
                    assert(front[i] != front[j]);
                }
            }
            assert forall|i: int| 0 <= i < supplied.len() implies allowed.contains(
                #[trigger] supplied[i],
            ) by {
                if i < front.len() {
                    assert(front[i] == supplied[i]);
                }
            }
        } else {
            assert(supplied.take(n) =~= front.take(n));
        }
    }
}

/// Creating a group keeps the entries well-formed and the books balanced.
proof fn lemma_create(c: ContractView, id: Symbol, config: GroupConfig)
    requires
        entries_wf(c),
    ensures
        ({
            let then = create_reply(c, id, config@).0;
            &&& entries_wf(then)
            &&& then.address == c.address
            &&& outside(c) ==> outside(then)
            &&& balanced(c) ==> balanced(then)
        }),
{
    let (then, res) = create_reply(c, id, config@);
    let signed = admin_signatures(config@, config@.admins);
    let g = created(config@);
    lemma_asking(c, signed);
    if res is Ok {
        lemma_created_wf(config@);
        lemma_admitted(config@.admins, config@.admins);
        assert(config@.admins.take(config@.admins.len() as int) =~= config@.admins);
        assert(!c.registry.contains(id));
        assert(entries_wf(then)) by {
            assert forall|k: Symbol|
                then.registry.contains(k) <==> #[trigger] then.groups.contains_key(k) by {
                assert(c.registry.contains(k) <==> c.groups.contains_key(k));
                if c.registry.contains(k) {
                    let i = choose|i: int| 0 <= i < c.registry.len() && c.registry[i] == k;
                    assert(then.registry[i] == k);
                }
                assert(then.registry[c.registry.len() as int] == id);
            }
        }
        if balanced(c) {
            let writes = group_writes(id);
            let listed = seq![Action::Write(DataKey::GroupRegistry)];
            assert forall|token: Address|
                #[trigger] balance(then.actions, then.address, token) == total_held(
                    then.groups,
                    then.registry,
                    token,
                ) by {
                assert(balance(c.actions, c.address, token) == total_held(
                    c.groups,
                    c.registry,
                    token,
                ));
                lemma_balance_still(signed, c.address, token);
                lemma_balance_still(writes, c.address, token);
                lemma_balance_still(listed, c.address, token);
                lemma_balance_add(c.actions, signed, c.address, token);
                lemma_balance_add(c.actions + signed, writes, c.address, token);
                lemma_balance_add(c.actions + signed + writes, listed, c.address, token);
                assert(then.registry.drop_last() =~= c.registry);
                lemma_total_elsewhere(c.groups, c.registry, id, g, token);
                assert(held(g) == 0) by {
                    assert(0 * config@.collateral == 0) by (nonlinear_arith);
                    assert(0 * config@.contribution == 0) by (nonlinear_arith);
                }
            }
        }
        if outside(c) {
            assert forall|k: Symbol, i: int|
                #![trigger then.groups[k].members[i]]
                then.groups.contains_key(k) && 0 <= i
                    < then.groups[k].members.len() implies then.groups[k].members[i].addr
                != then.address by {
                assert(c.groups[k].members[i].addr != c.address);
            }
        }
    }
}

/// What removing a token leaves has no token twice, and none that was not there.
pub proof fn lemma_without(tokens: Seq<Address>, token: Address)
    ensures
        forall|t: Address| #[trigger]
            without(tokens, token).contains(t) <==> tokens.contains(t) && t != token,
        tokens.no_duplicates() ==> without(tokens, token).no_duplicates(),
        without(tokens, token).len() <= tokens.len(),
    decreases tokens.len(),
{
    if tokens.len() > 0 {
        let front = tokens.drop_last();
        let last = tokens.len() - 1;
        let kept = without(front, token);
        let all = without(tokens, token);
        lemma_without(front, token);
        assert(forall|i: int| 0 <= i < front.len() ==> front[i] == tokens[i]);
        assert forall|t: Address| #[trigger]
            all.contains(t) <==> tokens.contains(t) && t != token by {
            assert(kept.contains(t) <==> front.contains(t) && t != token);
            if tokens.contains(t) {
                let i = choose|i: int| 0 <= i < tokens.len() && tokens[i] == t;
                if i < last {
                    assert(front[i] == t);
                    assert(front.contains(t));
                }
            }
            if front.contains(t) {
                let i = choose|i: int| 0 <= i < front.len() && front[i] == t;
                assert(tokens[i] == t);
            }
            assert(tokens[last] == tokens.last());
            if tokens.last() != token {
                assert(all == kept.push(tokens.last()));
                if kept.contains(t) {
                    let i = choose|i: int| 0 <= i < kept.len() && kept[i] == t;
                    assert(all[i] == t);
                }
                assert(all[kept.len() as int] == tokens.last());
                if all.contains(t) {
                    let i = choose|i: int| 0 <= i < all.len() && all[i] == t;
                    if i < kept.len() {
                        assert(kept[i] == t);
                    }
                }
            }
        }
        if tokens.no_duplicates() {
            assert(front.no_duplicates());
            if tokens.last() != token {
                assert(!front.contains(tokens.last()));
                assert(!kept.contains(tokens.last()));
            }
        }
    }
}

/// The protocol admin's calls keep the entries well-formed and the books balanced.
proof fn lemma_protocol(c: ContractView, call: Call)
    requires
        entries_wf(c),
        call is Initialize || call is AddApprovedToken || call is RemoveApprovedToken,
    ensures
        entries_wf(reply(c, call).0),
        reply(c, call).0.address == c.address,
        outside(c) ==> outside(reply(c, call).0),
        balanced(c) ==> balanced(reply(c, call).0),
{
    let then = reply(c, call).0;
    assert(then.groups == c.groups);
    let asked = then.actions.skip(c.actions.len() as int);
    if then.actions.len() == c.actions.len() {
        assert(then.actions =~= c.actions);
    }
    assert(then.actions =~= c.actions + asked);
    assert(forall|i: int| 0 <= i < asked.len() ==> !(#[trigger] asked[i] is Transfer));
    lemma_asking(c, asked);
    assert(then.registry =~= c.registry) by {
        if c.protocol_admin is None {
            assert(c.registry.len() == 0);
        }
    }
    match call {
        Call::RemoveApprovedToken(_, token) => {
            lemma_without(c.approved_tokens, token);
        },
        _ => {},
    }
    let same = asking(c, asked);
    assert(same.actions == then.actions);
    if balanced(c) {
        assert forall|token: Address|
            #[trigger] balance(then.actions, then.address, token) == total_held(
                then.groups,
                then.registry,
                token,
            ) by {
            assert(balance(same.actions, same.address, token) == total_held(
                same.groups,
                same.registry,
                token,
            ));
        }
    }
    if outside(c) {
        assert forall|k: Symbol, i: int|
            #![trigger then.groups[k].members[i]]
            then.groups.contains_key(k) && 0 <= i
                < then.groups[k].members.len() implies then.groups[k].members[i].addr
            != then.address by {
            assert(c.groups[k].members[i].addr != c.address);
        }
    }
}

/// Every call keeps the entries well-formed and the books balanced.
pub proof fn lemma_call(c: ContractView, call: Call)
    requires
        entries_wf(c),
    ensures
        entries_wf(next(c, call)),
        next(c, call).address == c.address,
        outside(c) && !seats_itself(call, c.address) ==> outside(next(c, call)) && (balanced(c)
            ==> balanced(next(c, call))),
{
    if call_fits(c, call) {
        match call {
            Call::CreateGroup(id, config) => lemma_create(c, id, config),
            Call::LockGroup(id, admins, _) | Call::MarkDefault(id, admins, _) => {
                if c.groups.contains_key(id) {
                    let signed = admin_signatures(c.groups[id].config, admins);
                    lemma_asking(c, signed);
                    if admin_refusal(c.groups[id].config, admins) is None {
                        lemma_step(asking(c, signed), id, request(call).unwrap().1);
                    }
                }
            },
            Call::SettleRound(id, now) => lemma_step(c, id, Step::Settle(now)),
            Call::JoinGroup(id, a)
            | Call::JoinWaitlist(id, a)
            | Call::PromoteFromWaitlist(id, a)
            | Call::Contribute(id, a)
            | Call::SubmitBid(id, a, _)
            | Call::ClaimRefund(id, a) => {
                let signed = seq![Action::RequireAuth(a)];
                lemma_asking(c, signed);
                lemma_step(asking(c, signed), id, request(call).unwrap().1);
            },
            _ => lemma_protocol(c, call),
        }
    }
}

} // verus!
