//! What each call of the contract is for: when it is refused and why, whose signatures it
//! demands, which entries it changes, and what it asks of the host, in which order.

use vstd::prelude::*;

use crate::calls::{admin_refusal, admitted, fresh, signatures, without, ContractView};
use crate::history::{call_fits, reply, Call};
use crate::rules::{after, fits, payments, refusal, Step};
use crate::types::{Action, Address, DataKey, Error, GroupConfig, Symbol};

verus! {

/// The contract with nothing changed but that these actions were asked of the host.
pub open spec fn only_asked(c: ContractView, asked: Seq<Action>) -> ContractView {
    ContractView { actions: c.actions + asked, ..c }
}

/// Demands for these signatures, in order.
pub open spec fn signed_by(list: Seq<Address>) -> Seq<Action> {
    Seq::new(list.len(), |i: int| Action::RequireAuth(list[i]))
}

/// What is asked of the host where a group is written: the write, and lifetimes of 120 days
/// where fewer than 30 are left, at 17,280 ledgers a day.
pub open spec fn written(id: Symbol) -> Seq<Action> {
    seq![
        Action::Write(DataKey::Group(id)),
        Action::ExtendTtl { key: DataKey::Group(id), threshold: 518_400, extend_to: 2_073_600 },
        Action::ExtendTtl { key: DataKey::GroupRegistry, threshold: 518_400, extend_to: 2_073_600 },
        Action::ExtendInstanceTtl { threshold: 518_400, extend_to: 2_073_600 },
    ]
}

/// A new contract knows its address and nothing else.
pub proof fn law_new_contract_is_empty(address: Address, id: Symbol)
    ensures
        fresh(address).address == address,
        fresh(address).protocol_admin is None,
        fresh(address).approved_tokens.len() == 0,
        fresh(address).registry.len() == 0,
        !fresh(address).groups.contains_key(id),
        fresh(address).actions.len() == 0,
{
}

// The protocol admin

/// Whoever initializes the contract first becomes its protocol admin, by their signature,
/// over empty lists; nobody does so a second time.
pub proof fn law_first_to_initialize_is_admin(c: ContractView, a: Address)
    ensures
        ({
            let (then, res) = reply(c, Call::Initialize(a));
            &&& res is Ok <==> c.protocol_admin is None
            &&& res is Err ==> res == Err::<(), Error>(Error::AlreadyInitialized) && then == c
            &&& res is Ok ==> {
                &&& then.protocol_admin == Some(a)
                &&& then.approved_tokens.len() == 0 && then.registry.len() == 0
                &&& then.groups == c.groups && then.address == c.address
                &&& then.actions == c.actions + seq![
                    Action::RequireAuth(a),
                    Action::Write(DataKey::ProtocolAdmin),
                    Action::Write(DataKey::ApprovedTokens),
                    Action::Write(DataKey::GroupRegistry),
                ]
            }
        }),
        call_fits(c, Call::Initialize(a)),
{
}

/// The protocol admin, and nobody else, adds a token, by its signature: the list grows by
/// the token at its end, or stays where the token is on it.
pub proof fn law_admin_adds_tokens(c: ContractView, a: Address, token: Address)
    ensures
        ({
            let (then, res) = reply(c, Call::AddApprovedToken(a, token));
            let signed = seq![Action::RequireAuth(a)];
            &&& res is Ok <==> c.protocol_admin == Some(a)
            &&& res == Err::<(), Error>(Error::NotInitialized) <==> c.protocol_admin is None
            &&& res == Err::<(), Error>(Error::NotProtocolAdmin) <==> c.protocol_admin is Some
                && c.protocol_admin != Some(a)
            &&& res is Err ==> then == c
            &&& res is Ok && c.approved_tokens.contains(token) ==> then == only_asked(c, signed)
            &&& res is Ok && !c.approved_tokens.contains(token) ==> {
                &&& then.approved_tokens.len() == c.approved_tokens.len() + 1
                &&& then.approved_tokens.last() == token
                &&& forall|i: int|
                    0 <= i < c.approved_tokens.len() ==> #[trigger] then.approved_tokens[i]
                        == c.approved_tokens[i]
                &&& then == (ContractView {
                    approved_tokens: then.approved_tokens,
                    ..only_asked(c, signed.push(Action::Write(DataKey::ApprovedTokens)))
                })
            }
        }),
        call_fits(c, Call::AddApprovedToken(a, token)),
{
    let signed = seq![Action::RequireAuth(a)];
    assert(c.actions + signed + seq![Action::Write(DataKey::ApprovedTokens)] =~= c.actions
        + signed.push(Action::Write(DataKey::ApprovedTokens)));
}

/// Taking a token out of a list leaves the others, in order.
proof fn lemma_without_is_filter(tokens: Seq<Address>, token: Address)
    ensures
        without(tokens, token) == tokens.filter(|t: Address| t != token),
    decreases tokens.len(),
{
    reveal(Seq::filter);
    if tokens.len() > 0 {
        lemma_without_is_filter(tokens.drop_last(), token);
    }
}

/// The protocol admin, and nobody else, removes a token, by its signature: the others stay,
/// in order.
pub proof fn law_admin_removes_tokens(c: ContractView, a: Address, token: Address)
    ensures
        ({
            let (then, res) = reply(c, Call::RemoveApprovedToken(a, token));
            &&& res is Ok <==> c.protocol_admin == Some(a)
            &&& res == Err::<(), Error>(Error::NotInitialized) <==> c.protocol_admin is None
            &&& res == Err::<(), Error>(Error::NotProtocolAdmin) <==> c.protocol_admin is Some
                && c.protocol_admin != Some(a)
            &&& res is Err ==> then == c
            &&& res is Ok ==> then == (ContractView {
                approved_tokens: c.approved_tokens.filter(|t: Address| t != token),
                ..only_asked(
                    c,
                    seq![Action::RequireAuth(a), Action::Write(DataKey::ApprovedTokens)],
                )
            })
        }),
        call_fits(c, Call::RemoveApprovedToken(a, token)),
{
    lemma_without_is_filter(c.approved_tokens, token);
}

// Signers

/// Whether the first `n` signers are distinct and all allowed, and the next one, where there
/// is one, is not allowed or signed before.
pub open spec fn good_signers(allowed: Seq<Address>, supplied: Seq<Address>, n: int) -> bool {
    &&& 0 <= n <= supplied.len()
    &&& forall|i: int| 0 <= i < n ==> allowed.contains(#[trigger] supplied[i])
    &&& forall|i: int, j: int|
        #![trigger supplied[i], supplied[j]]
        0 <= i < j < n ==> supplied[i] != supplied[j]
    &&& n < supplied.len() ==> !allowed.contains(supplied[n]) || signed_before(supplied, n)
}

/// Whether the signer at `n` is one of those before it.
pub open spec fn signed_before(supplied: Seq<Address>, n: int) -> bool {
    exists|i: int| 0 <= i < n && #[trigger] supplied[i] == supplied[n]
}

/// The good signers are those that are admitted.
proof fn lemma_good_signers(allowed: Seq<Address>, supplied: Seq<Address>, n: int)
    requires
        good_signers(allowed, supplied, n),
    ensures
        admitted(allowed, supplied) == n,
        n < supplied.len() ==> (signed_before(supplied, n) <==> supplied.take(n).contains(
            supplied[n],
        )),
        signatures(supplied.take(n)) == signed_by(supplied.take(n)),
    decreases supplied.len(),
{
    assert(signatures(supplied.take(n)) =~= signed_by(supplied.take(n)));
    if n < supplied.len() {
        if signed_before(supplied, n) {
            let i = choose|i: int| 0 <= i < n && #[trigger] supplied[i] == supplied[n];
            assert(supplied.take(n)[i] == supplied[n]);
        }
        if supplied.take(n).contains(supplied[n]) {
            let i = choose|i: int|
                0 <= i < supplied.take(n).len() && supplied.take(n)[i] == supplied[n];
            assert(supplied[i] == supplied[n]);
        }
    }
    if supplied.len() > 0 {
        let front = supplied.drop_last();
        let last = supplied.len() - 1;
        assert(forall|i: int| 0 <= i < front.len() ==> front[i] == supplied[i]);
        if n == supplied.len() {
            assert(good_signers(allowed, front, last));
            lemma_good_signers(allowed, front, last);
            assert(allowed.contains(supplied[last]));
            assert(!front.contains(supplied[last])) by {
                if front.contains(supplied[last]) {
                    let i = choose|i: int| 0 <= i < front.len() && front[i] == supplied[last];
                    assert(supplied[i] == supplied[last]);
                }
            }
        } else if n == last {
            assert(good_signers(allowed, front, last));
            lemma_good_signers(allowed, front, last);
            assert(supplied.take(n) =~= front);
        } else {
            assert(good_signers(allowed, front, n)) by {
                if signed_before(supplied, n) {
                    let i = choose|i: int| 0 <= i < n && #[trigger] supplied[i] == supplied[n];
                    assert(front[i] == front[n]);
                }
            }
            lemma_good_signers(allowed, front, n);
        }
    }
}

/// Whoever is supplied, some number of them, from the first on, are good signers.
pub proof fn law_signers_are_good_up_to_one(allowed: Seq<Address>, supplied: Seq<Address>)
    ensures
        exists|n: int| good_signers(allowed, supplied, n),
    decreases supplied.len(),
{
    if supplied.len() == 0 {
        assert(good_signers(allowed, supplied, 0));
    } else {
        let front = supplied.drop_last();
        let last = supplied.len() - 1;
        assert(forall|i: int| 0 <= i < front.len() ==> front[i] == supplied[i]);
        law_signers_are_good_up_to_one(allowed, front);
        let n = choose|n: int| good_signers(allowed, front, n);
        if n < last {
            if signed_before(front, n) {
                let i = choose|i: int| 0 <= i < n && #[trigger] front[i] == front[n];
                assert(supplied[i] == supplied[n]);
            }
            assert forall|i: int| 0 <= i < n implies allowed.contains(#[trigger] supplied[i]) by {
                assert(allowed.contains(front[i]));
            }
            assert(good_signers(allowed, supplied, n));
        } else if !allowed.contains(supplied[last]) || signed_before(supplied, last) {
            assert forall|i: int| 0 <= i < n implies allowed.contains(#[trigger] supplied[i]) by {
                assert(allowed.contains(front[i]));
            }
            assert(good_signers(allowed, supplied, last));
        } else {
            assert forall|i: int| 0 <= i <= last implies allowed.contains(
                #[trigger] supplied[i],
            ) by {
                if i < last {
                    assert(allowed.contains(front[i]));
                }
            }
            assert(good_signers(allowed, supplied, last + 1));
        }
    }
}

// Creating a group

/// A group can be created under an id that is free, with terms in range, in an approved
/// token, with the signatures of distinct admins: `n` of the proposed admins sign before one
/// signs twice, or all of them. It starts empty, and its id goes to the end of the registry.
pub proof fn law_who_may_create(c: ContractView, id: Symbol, config: GroupConfig, n: int)
    requires
        good_signers(config.admins@, config.admins@, n),
    ensures
        ({
            let (then, res) = reply(c, Call::CreateGroup(id, config));
            let admins = config.admins@;
            let in_range = config.contribution > 0 && config.collateral >= 0 && config.max_bid_bps
                <= 5000 && 3 <= config.max_members <= 50 && 1 <= config.admin_threshold
                <= admins.len() && config.round_duration_secs > 0;
            let taken = c.groups.contains_key(id);
            let known = c.protocol_admin is Some;
            let approved = c.approved_tokens.contains(config.token);
            let asked = signed_by(admins.take(n));
            &&& res == Err::<(), Error>(Error::GroupAlreadyExists) <==> taken
            &&& res == Err::<(), Error>(Error::InvalidConfig) <==> !taken && !in_range
            &&& res == Err::<(), Error>(Error::NotInitialized) <==> !taken && in_range && !known
            &&& res == Err::<(), Error>(Error::TokenNotApproved) <==> !taken && in_range && known
                && !approved
            &&& res == Err::<(), Error>(Error::DuplicateAdmin) <==> !taken && in_range && known
                && approved && n < admins.len()
            &&& res is Ok <==> !taken && in_range && known && approved && n == admins.len()
            &&& taken || !in_range || !known || !approved ==> then == c
            &&& res == Err::<(), Error>(Error::DuplicateAdmin) ==> then == only_asked(c, asked)
            &&& res is Ok ==> {
                let g = then.groups[id];
                &&& then.groups == c.groups.insert(id, g)
                &&& g.config == config@
                &&& g.members.len() == 0 && g.waitlist.len() == 0
                &&& !g.locked && !g.completed
                &&& g.round == 0 && g.rotation == 0 && g.round_deadline == 0
                &&& g.reserve == 0 && g.total_uncovered_shortfall == 0 && g.refund_share == 0
                &&& g.open_slots == 0 && g.slots == 0
                &&& then.registry == c.registry.push(id)
                &&& then == (ContractView {
                    groups: then.groups,
                    registry: then.registry,
                    ..only_asked(
                        c,
                        asked + written(id) + seq![Action::Write(DataKey::GroupRegistry)],
                    )
                })
            }
        }),
        call_fits(c, Call::CreateGroup(id, config)),
{
    let admins = config.admins@;
    lemma_good_signers(admins, admins, n);
    let asked = signed_by(admins.take(n));
    let listed = seq![Action::Write(DataKey::GroupRegistry)];
    assert(c.actions + asked + written(id) + listed =~= c.actions + (asked + written(id) + listed));
}

// Requests to a group

/// Whether this call is that request to a group, signed by that member.
pub open spec fn is_member_call(call: Call, id: Symbol, signer: Address, step: Step) -> bool {
    match step {
        Step::Join(a) => call == Call::JoinGroup(id, a) && a == signer,
        Step::Queue(a) => call == Call::JoinWaitlist(id, a) && a == signer,
        Step::Promote(a) => call == Call::PromoteFromWaitlist(id, a) && a == signer,
        Step::Contribute(a) => call == Call::Contribute(id, a) && a == signer,
        Step::Bid(a, bps) => call == Call::SubmitBid(id, a, bps) && a == signer,
        Step::Claim(a) => call == Call::ClaimRefund(id, a) && a == signer,
        _ => false,
    }
}

/// Whether this call is that request to a group, signed by those admins.
pub open spec fn is_admin_call(call: Call, id: Symbol, admins: Seq<Address>, step: Step) -> bool {
    match step {
        Step::Lock(now) => call == Call::LockGroup(id, admins, now),
        Step::Default(a) => call == Call::MarkDefault(id, admins, a),
        _ => false,
    }
}

/// Whether a group's request was carried out, after `asked` was asked of the host: the group
/// is as the request leaves it, every other entry is as it was, and the host is asked for
/// the payments and for the write, for the write first where a refund is paid.
pub open spec fn carried_out(
    c: ContractView,
    id: Symbol,
    step: Step,
    asked: Seq<Action>,
    then: ContractView,
) -> bool {
    let paid = payments(c.groups[id], step, c.address);
    &&& then == (ContractView {
        groups: c.groups.insert(id, after(c.groups[id], step)),
        ..only_asked(
            c,
            if step is Claim {
                asked + written(id) + paid
            } else {
                asked + paid + written(id)
            },
        )
    })
}

/// A member's call demands the member's signature first. It is refused where there is no
/// such group, or as the group refuses the request, and then nothing else happens; otherwise
/// it is carried out.
pub proof fn law_member_calls(c: ContractView, call: Call, id: Symbol, signer: Address, step: Step)
    requires
        is_member_call(call, id, signer, step),
    ensures
        ({
            let (then, res) = reply(c, call);
            let asked = seq![Action::RequireAuth(signer)];
            let found = c.groups.contains_key(id);
            &&& res == Err::<(), Error>(Error::GroupNotFound) <==> !found
            &&& found ==> match refusal(c.groups[id], step) {
                Some(e) => res == Err::<(), Error>(e),
                None => res is Ok && carried_out(c, id, step, asked, then),
            }
            &&& res is Err ==> then == only_asked(c, asked)
            &&& call_fits(c, call) <==> (found ==> fits(c.groups[id], step))
        }),
{
    let asked = seq![Action::RequireAuth(signer)];
    let paid = payments(c.groups[id], step, c.address);
    let writes = written(id);
    assert(c.actions + asked + paid + writes =~= c.actions + (asked + paid + writes));
    assert(c.actions + asked + writes + paid =~= c.actions + (asked + writes + paid));
}

/// Anyone's call to settle a round demands no signature.
pub proof fn law_settling_is_open_to_all(c: ContractView, id: Symbol, now: u64)
    ensures
        ({
            let (then, res) = reply(c, Call::SettleRound(id, now));
            let step = Step::Settle(now);
            let found = c.groups.contains_key(id);
            &&& res == Err::<(), Error>(Error::GroupNotFound) <==> !found
            &&& found ==> match refusal(c.groups[id], step) {
                Some(e) => res == Err::<(), Error>(e),
                None => res is Ok && carried_out(c, id, step, Seq::empty(), then),
            }
            &&& res is Err ==> then == c
            &&& call_fits(c, Call::SettleRound(id, now)) <==> (found ==> fits(c.groups[id], step))
        }),
{
    let paid = payments(c.groups[id], Step::Settle(now), c.address);
    let none = Seq::<Action>::empty();
    assert(c.actions + paid + written(id) =~= c.actions + (none + paid + written(id)));
}

/// An admins' call takes the signatures of distinct admins of the group, as many as its
/// threshold: `n` of those supplied sign before one is no admin or signs twice, or all of
/// them. Then it is refused as the group refuses the request, or carried out.
pub proof fn law_admin_calls(
    c: ContractView,
    call: Call,
    id: Symbol,
    supplied: Seq<Address>,
    step: Step,
    n: int,
)
    requires
        is_admin_call(call, id, supplied, step),
        c.groups.contains_key(id) ==> good_signers(c.groups[id].config.admins, supplied, n),
    ensures
        ({
            let (then, res) = reply(c, call);
            let g = c.groups[id];
            let found = c.groups.contains_key(id);
            let asked = signed_by(supplied.take(n));
            let all_good = found && n == supplied.len() && n >= g.config.admin_threshold;
            &&& !found ==> res == Err::<(), Error>(Error::GroupNotFound) && then == c
            &&& found && n < supplied.len() ==> res == Err::<(), Error>(
                if signed_before(supplied, n) {
                    Error::DuplicateAdmin
                } else {
                    Error::NotAdmin
                },
            )
            &&& found && n == supplied.len() && n < g.config.admin_threshold ==> res == Err::<
                (),
                Error,
            >(Error::NotEnoughAdminSignatures)
            &&& all_good ==> match refusal(g, step) {
                Some(e) => res == Err::<(), Error>(e),
                None => res is Ok && carried_out(c, id, step, asked, then),
            }
            &&& found && res is Err ==> then == only_asked(c, asked)
            &&& call_fits(c, call) <==> (all_good ==> fits(g, step))
        }),
{
    if c.groups.contains_key(id) {
        let g = c.groups[id];
        lemma_good_signers(g.config.admins, supplied, n);
        let asked = signed_by(supplied.take(n));
        let paid = payments(g, step, c.address);
        let writes = written(id);
        assert(c.actions + asked + paid + writes =~= c.actions + (asked + paid + writes));
        assert(admin_refusal(g.config, supplied) is None <==> n == supplied.len() && n
            >= g.config.admin_threshold);
    }
}

} // verus!
