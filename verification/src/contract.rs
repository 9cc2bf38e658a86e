//! The contract: its entries, and the calls that read and change them.

use vstd::prelude::*;

use crate::calls::{
    add_token_reply, admin_fits, admin_refusal, admin_reply, admin_signatures, admitted, asking,
    create_reply, fresh, group_writes, initialize_reply, member_reply, protocol_refusal,
    remove_token_reply, signatures, step_fits, step_reply, with_group, without, ContractView,
};
use crate::group::{apply, find_member_idx, is_sound, lists};
use crate::history::{call_fits, reply, Call};
use crate::members::{find, lemma_find};
use crate::rules::{after, created, payments, refusal, sound, Step};
use crate::types::{
    Action, Address, ConfigView, DataKey, Error, GroupConfig, GroupState, GroupView, Member, Symbol,
    MAX_BID_BPS, MAX_MEMBERS, TTL_EXTEND_TO, TTL_THRESHOLD,
};

verus! {

/// A group's entry.
#[derive(Debug, PartialEq)]
pub struct GroupEntry {
    pub id: Symbol,
    pub state: GroupState,
}

/// The contract: the entries it keeps on the ledger, and the actions its calls ask of
/// the host. A call that fails leaves the entries as they were; the signatures it
/// demanded before it failed stay listed.
#[derive(Debug, PartialEq)]
pub struct LiholiswanoContractV2 {
    /// The contract's own address.
    pub address: Address,
    /// Who may edit the allowlist, once initialized.
    pub protocol_admin: Option<Address>,
    /// The stablecoin allowlist.
    pub approved_tokens: Vec<Address>,
    /// Every group id ever created, in order of creation.
    pub registry: Vec<Symbol>,
    pub groups: Vec<GroupEntry>,
    pub actions: Vec<Action>,
}

/// Whether some entry has this id.
pub open spec fn holds_id(entries: Seq<GroupEntry>, id: Symbol) -> bool {
    exists|i: int| 0 <= i < entries.len() && (#[trigger] entries[i]).id == id
}

/// The groups, by id.
pub open spec fn by_id(entries: Seq<GroupEntry>) -> Map<Symbol, GroupView> {
    Map::new(
        |id: Symbol| holds_id(entries, id),
        |id: Symbol|
            entries[choose|i: int|
                0 <= i < entries.len() && (#[trigger] entries[i]).id == id].state@,
    )
}

/// Whether no two entries have the same id.
pub open spec fn one_each(entries: Seq<GroupEntry>) -> bool {
    forall|i: int, j: int|
        #![trigger entries[i], entries[j]]
        0 <= i < j < entries.len() ==> entries[i].id != entries[j].id
}

/// The entry at `i` is the one that `by_id` reads.
proof fn lemma_by_id(entries: Seq<GroupEntry>, i: int)
    requires
        one_each(entries),
        0 <= i < entries.len(),
    ensures
        by_id(entries).contains_key(entries[i].id),
        by_id(entries)[entries[i].id] == entries[i].state@,
{
    let id = entries[i].id;
    assert(holds_id(entries, id));
    let j = choose|j: int| 0 <= j < entries.len() && (#[trigger] entries[j]).id == id;
    assert(entries[i].id == entries[j].id);
}

impl View for LiholiswanoContractV2 {
    type V = ContractView;

    open spec fn view(&self) -> ContractView {
        ContractView {
            address: self.address,
            protocol_admin: self.protocol_admin,
            approved_tokens: self.approved_tokens@,
            registry: self.registry@,
            groups: by_id(self.groups@),
            actions: self.actions@,
        }
    }
}

impl LiholiswanoContractV2 {
    /// Whether the entries are as the calls leave them: one for each id, each sound.
    pub open spec fn valid(&self) -> bool {
        &&& one_each(self.groups@)
        &&& forall|i: int|
            0 <= i < self.groups@.len() ==> sound((#[trigger] self.groups@[i]).state@)
    }

    /// Whether the entries are valid.
    pub fn is_valid(&self) -> (res: bool)
        ensures
            res == self.valid(),
    {
        let mut i: usize = 0;
        while i < self.groups.len()
            invariant
                i <= self.groups@.len(),
                one_each(self.groups@.take(i as int)),
                forall|j: int| 0 <= j < i ==> sound((#[trigger] self.groups@[j]).state@),
            decreases self.groups@.len() - i,
        {
            if !is_sound(&self.groups[i].state) {
                assert(!sound(self.groups@[i as int].state@));
                return false;
            }
            let mut j: usize = 0;
            while j < i
                invariant
                    j <= i < self.groups@.len(),
                    forall|k: int|
                        0 <= k < j ==> (#[trigger] self.groups@[k]).id != self.groups@[i as int].id,
                decreases i - j,
            {
                if self.groups[j].id == self.groups[i].id {
                    assert(self.groups@[j as int].id == self.groups@[i as int].id);
                    return false;
                }
                j = j + 1;
            }
            assert(one_each(self.groups@.take(i as int + 1))) by {
                let seen = self.groups@.take(i as int);
                let now = self.groups@.take(i as int + 1);
                assert forall|a: int, b: int|
                    #![trigger now[a], now[b]]
                    0 <= a < b < now.len() implies now[a].id != now[b].id by {
                    assert(now[a] == self.groups@[a] && now[b] == self.groups@[b]);
                    if b < i {
                        assert(seen[a].id != seen[b].id);
                    }
                }
            }
            i = i + 1;
        }
        assert(self.groups@.take(i as int) =~= self.groups@);
        true
    }

    /// A contract at this address, before any call.
    pub fn new(address: Address) -> (res: Self)
        ensures
            res.valid(),
            res@ == fresh(address),
    {
        let res = LiholiswanoContractV2 {
            address,
            protocol_admin: None,
            approved_tokens: Vec::new(),
            registry: Vec::new(),
            groups: Vec::new(),
            actions: Vec::new(),
        };
        assert(res@.groups =~= fresh(address).groups);
        res
    }

    /// The index of a group's entry.
    fn entry(&self, id: Symbol) -> (res: Option<usize>)
        ensures
            match res {
                Some(i) => i < self.groups@.len() && self.groups@[i as int].id == id,
                None => !holds_id(self.groups@, id),
            },
    {
        let mut i: usize = 0;
        while i < self.groups.len()
            invariant
                i <= self.groups@.len(),
                forall|j: int| 0 <= j < i ==> (#[trigger] self.groups@[j]).id != id,
            decreases self.groups@.len() - i,
        {
            if self.groups[i].id == id {
                return Some(i);
            }
            i = i + 1;
        }
        None
    }

    /// Reads a group.
    pub fn get_group(&self, id: Symbol) -> (res: Result<GroupState, Error>)
        requires
            one_each(self.groups@),
        ensures
            match res {
                Ok(state) => self@.groups.contains_key(id) && state@ == self@.groups[id] && (
                self.valid() ==> sound(state@)),
                Err(e) => !self@.groups.contains_key(id) && e == Error::GroupNotFound,
            },
    {
        match self.entry(id) {
            Some(i) => {
                proof {
                    lemma_by_id(self.groups@, i as int);
                }
                Ok(self.groups[i].state.clone())
            },
            None => Err(Error::GroupNotFound),
        }
    }

    /// Writes a group, and keeps it, the registry and the contract instance alive.
    pub fn put_group(&mut self, id: Symbol, state: GroupState)
        requires
            one_each(old(self).groups@),
        ensures
            one_each(final(self).groups@),
            old(self).valid() && sound(state@) ==> final(self).valid(),
            final(self)@ == with_group(old(self)@, id, state@),
    {
        let ghost before = self@;
        let ghost entries = self.groups@;
        let ghost g = state@;
        match self.entry(id) {
            Some(i) => {
                self.groups.set(i, GroupEntry { id, state });
                proof {
                    lemma_by_id_written(entries, i as int, self.groups@);
                }
            },
            None => {
                self.groups.push(GroupEntry { id, state });
                proof {
                    lemma_by_id_written(entries, entries.len() as int, self.groups@);
                }
            },
        }
        self.actions.push(Action::Write(DataKey::Group(id)));
        self.actions.push(
            Action::ExtendTtl {
                key: DataKey::Group(id),
                threshold: TTL_THRESHOLD,
                extend_to: TTL_EXTEND_TO,
            },
        );
        self.actions.push(
            Action::ExtendTtl {
                key: DataKey::GroupRegistry,
                threshold: TTL_THRESHOLD,
                extend_to: TTL_EXTEND_TO,
            },
        );
        self.actions.push(
            Action::ExtendInstanceTtl { threshold: TTL_THRESHOLD, extend_to: TTL_EXTEND_TO },
        );
        assert(self.actions@ =~= before.actions + group_writes(id));
        assert(self@ =~= with_group(before, id, g));
    }
}

/// Writing one entry writes one group.
proof fn lemma_by_id_written(before: Seq<GroupEntry>, i: int, now: Seq<GroupEntry>)
    requires
        one_each(before),
        0 <= i <= before.len(),
        i < before.len() ==> now.len() == before.len() && before[i].id == now[i].id,
        i == before.len() ==> now.len() == before.len() + 1 && !holds_id(before, now[i].id),
        forall|j: int| 0 <= j < before.len() && j != i ==> #[trigger] now[j] == before[j],
    ensures
        one_each(now),
        by_id(now) == by_id(before).insert(now[i].id, now[i].state@),
{
    let id = now[i].id;
    assert forall|a: int, b: int|
        #![trigger now[a], now[b]]
        0 <= a < b < now.len() implies now[a].id != now[b].id by {
        if b < before.len() {
            assert(before[a].id != before[b].id);
        } else {
            assert(before[a].id != id);
        }
    }
    assert forall|k: Symbol| #[trigger] by_id(now).contains_key(k) == by_id(before).insert(
        id,
        now[i].state@,
    ).contains_key(k) by {
        if holds_id(before, k) {
            let j = choose|j: int| 0 <= j < before.len() && (#[trigger] before[j]).id == k;
            assert(now[j].id == k);
        }
        if holds_id(now, k) && k != id {
            let j = choose|j: int| 0 <= j < now.len() && (#[trigger] now[j]).id == k;
            assert(before[j].id == k);
        }
        assert(now[i].id == id);
    }
    assert forall|k: Symbol| by_id(now).contains_key(k) implies #[trigger] by_id(now)[k] == by_id(
        before,
    ).insert(id, now[i].state@)[k] by {
        let j = choose|j: int| 0 <= j < now.len() && (#[trigger] now[j]).id == k;
        lemma_by_id(now, j);
        if k == id {
            lemma_by_id(now, i);
        } else {
            assert(before[j] == now[j]);
            lemma_by_id(before, j);
        }
    }
    assert(by_id(now) =~= by_id(before).insert(id, now[i].state@));
}

/// Once an address is turned away, none behind it is admitted.
proof fn lemma_admitted_stops(allowed: Seq<Address>, supplied: Seq<Address>, i: int)
    requires
        0 <= i < supplied.len(),
        admitted(allowed, supplied.take(i)) == i,
        supplied.take(i).contains(supplied[i]) || !allowed.contains(supplied[i]),
    ensures
        admitted(allowed, supplied) == i,
    decreases supplied.len(),
{
    let front = supplied.drop_last();
    if i == supplied.len() - 1 {
        assert(front =~= supplied.take(i));
    } else {
        assert(front.take(i) =~= supplied.take(i));
        lemma_admitted_stops(allowed, front, i);
    }
}

/// Demands the signatures of the addresses at the head of `supplied` that are allowed
/// and occur for the first time, and counts them.
fn demand_signatures(
    allowed: &Vec<Address>,
    supplied: &Vec<Address>,
    actions: &mut Vec<Action>,
) -> (n: usize)
    ensures
        n == admitted(allowed@, supplied@),
        n <= supplied@.len(),
        final(actions)@ == old(actions)@ + signatures(supplied@.take(n as int)),
{
    let mut seen: Vec<Address> = Vec::new();
    let mut i: usize = 0;
    assert(supplied@.take(0) =~= seen@);
    assert(actions@ =~= old(actions)@ + signatures(seen@));
    while i < supplied.len()
        invariant
            i <= supplied@.len(),
            seen@ == supplied@.take(i as int),
            admitted(allowed@, seen@) == i,
            actions@ == old(actions)@ + signatures(seen@),
        decreases supplied@.len() - i,
    {
        let a = supplied[i];
        if lists(&seen, &a) || !lists(allowed, &a) {
            proof {
                lemma_admitted_stops(allowed@, supplied@, i as int);
            }
            return i;
        }
        actions.push(Action::RequireAuth(a));
        let ghost before = seen@;
        seen.push(a);
        assert(seen@ =~= supplied@.take(i as int + 1));
        assert(seen@.drop_last() =~= before);
        assert(signatures(seen@) =~= signatures(before).push(Action::RequireAuth(a)));
        assert(actions@ =~= old(actions)@ + signatures(seen@));
        i = i + 1;
    }
    assert(supplied@.take(i as int) =~= supplied@);
    i
}

/// Checks that every address in `supplied` is a distinct admin, demands that each one
/// authorized the call, and checks that there are at least as many as the threshold:
/// co-signature by some of the admins, within one call.
pub fn require_admin_threshold(
    config: &GroupConfig,
    supplied: &Vec<Address>,
    actions: &mut Vec<Action>,
) -> (res: Result<(), Error>)
    ensures
        res == match admin_refusal(config@, supplied@) {
            Some(e) => Err(e),
            None => Ok(()),
        },
        final(actions)@ == old(actions)@ + admin_signatures(config@, supplied@),
{
    let n = demand_signatures(&config.admins, supplied, actions);
    if n < supplied.len() {
        let a = supplied[n];
        let mut i: usize = 0;
        while i < n
            invariant
                i <= n < supplied@.len(),
                a == supplied@[n as int],
                n == admitted(config@.admins, supplied@),
                forall|j: int| 0 <= j < i ==> supplied@.take(n as int)[j] != a,
                actions@ == old(actions)@ + admin_signatures(config@, supplied@),
            decreases n - i,
        {
            if supplied[i] == a {
                assert(supplied@.take(n as int)[i as int] == a);
                return Err(Error::DuplicateAdmin);
            }
            i = i + 1;
        }
        return Err(Error::NotAdmin);
    }
    if n < config.admin_threshold as usize {
        return Err(Error::NotEnoughAdminSignatures);
    }
    Ok(())
}

/// What a request to a group comes to: its state after it, and the payments.
struct Prepared {
    state: GroupState,
    payments: Vec<Action>,
}

/// Whether an outcome is what a request to a group comes to.
spec fn is_prepared(
    c: ContractView,
    id: Symbol,
    step: Step,
    res: Option<Result<Prepared, Error>>,
) -> bool {
    &&& res is Some <==> step_fits(c, id, step)
    &&& match res {
        Some(Ok(p)) => {
            &&& c.groups.contains_key(id)
            &&& refusal(c.groups[id], step) is None
            &&& p.state@ == after(c.groups[id], step)
            &&& p.payments@ == payments(c.groups[id], step, c.address)
            &&& sound(p.state@)
        },
        Some(Err(e)) => if c.groups.contains_key(id) {
            refusal(c.groups[id], step) == Some(e)
        } else {
            e == Error::GroupNotFound
        },
        None => true,
    }
}

impl LiholiswanoContractV2 {
    /// Works out a request to a group, without carrying it out.
    fn prepare(&self, id: Symbol, step: Step) -> (res: Option<Result<Prepared, Error>>)
        requires
            self.valid(),
        ensures
            is_prepared(self@, id, step, res),
    {
        let mut state = match self.get_group(id) {
            Ok(state) => state,
            Err(e) => {
                return Some(Err(e));
            },
        };
        let mut payments: Vec<Action> = Vec::new();
        match apply(&mut state, step, self.address, &mut payments) {
            Some(Ok(())) => {
                assert(payments@ =~= crate::rules::payments(self@.groups[id], step, self.address));
                Some(Ok(Prepared { state, payments }))
            },
            Some(Err(e)) => Some(Err(e)),
            None => None,
        }
    }

    /// Carries a request out as it was worked out.
    fn carry_out(
        &mut self,
        id: Symbol,
        step: Step,
        prepared: Result<Prepared, Error>,
    ) -> (res: Result<(), Error>)
        requires
            old(self).valid(),
            is_prepared(old(self)@, id, step, Some(prepared)),
        ensures
            final(self).valid(),
            (final(self)@, res) == step_reply(old(self)@, id, step),
    {
        let ghost before = self@;
        match prepared {
            Ok(p) => {
                let mut payments = p.payments;
                match step {
                    Step::Claim(_) => {
                        self.put_group(id, p.state);
                        self.actions.append(&mut payments);
                    },
                    _ => {
                        self.actions.append(&mut payments);
                        self.put_group(id, p.state);
                    },
                }
                assert(self@ =~= step_reply(before, id, step).0);
                Ok(())
            },
            Err(e) => Err(e),
        }
    }

    /// Answers a request that `signer` signs. `None`, with nothing changed, where an
    /// amount does not fit.
    fn member_call(
        &mut self,
        id: Symbol,
        signer: Address,
        step: Step,
    ) -> (res: Option<Result<(), Error>>)
        requires
            old(self).valid(),
        ensures
            final(self).valid(),
            res is Some <==> step_fits(old(self)@, id, step),
            match res {
                Some(r) => (final(self)@, r) == member_reply(old(self)@, id, signer, step),
                None => final(self)@ == old(self)@,
            },
    {
        let ghost before = self@;
        match self.prepare(id, step) {
            Some(prepared) => {
                self.actions.push(Action::RequireAuth(signer));
                assert(self@ =~= asking(before, seq![Action::RequireAuth(signer)]));
                Some(self.carry_out(id, step, prepared))
            },
            None => None,
        }
    }

    /// Answers a request that admins sign. `None`, with nothing changed, where an
    /// amount does not fit.
    fn admin_call(
        &mut self,
        id: Symbol,
        admins: &Vec<Address>,
        step: Step,
    ) -> (res: Option<Result<(), Error>>)
        requires
            old(self).valid(),
        ensures
            final(self).valid(),
            res is Some <==> admin_fits(old(self)@, id, admins@, step),
            match res {
                Some(r) => (final(self)@, r) == admin_reply(old(self)@, id, admins@, step),
                None => final(self)@ == old(self)@,
            },
    {
        let ghost before = self@;
        let state = match self.get_group(id) {
            Ok(state) => state,
            Err(e) => {
                return Some(Err(e));
            },
        };
        let mut signed: Vec<Action> = Vec::new();
        let checked = require_admin_threshold(&state.config, admins, &mut signed);
        assert(signed@ =~= admin_signatures(state@.config, admins@));
        match checked {
            Err(e) => {
                self.actions.append(&mut signed);
                assert(self@ =~= asking(before, admin_signatures(state@.config, admins@)));
                Some(Err(e))
            },
            Ok(()) => match self.prepare(id, step) {
                Some(prepared) => {
                    self.actions.append(&mut signed);
                    assert(self@ =~= asking(before, admin_signatures(state@.config, admins@)));
                    Some(self.carry_out(id, step, prepared))
                },
                None => None,
            },
        }
    }
}

impl LiholiswanoContractV2 {
    /// One-time setup: sets the protocol admin, the only address allowed to manage the
    /// stablecoin allowlist. It has no power over any group's funds, members or
    /// settlements.
    pub fn initialize(&mut self, protocol_admin: Address) -> (res: Result<(), Error>)
        requires
            old(self).valid(),
        ensures
            final(self).valid(),
            (final(self)@, res) == initialize_reply(old(self)@, protocol_admin),
            (final(self)@, res) == reply(old(self)@, Call::Initialize(protocol_admin)),
    {
        if self.protocol_admin.is_some() {
            return Err(Error::AlreadyInitialized);
        }
        self.actions.push(Action::RequireAuth(protocol_admin));
        self.protocol_admin = Some(protocol_admin);
        self.actions.push(Action::Write(DataKey::ProtocolAdmin));
        self.approved_tokens = Vec::new();
        self.actions.push(Action::Write(DataKey::ApprovedTokens));
        self.registry = Vec::new();
        self.actions.push(Action::Write(DataKey::GroupRegistry));
        assert(self@ =~= initialize_reply(old(self)@, protocol_admin).0);
        Ok(())
    }

    /// Whether the protocol admin may act, and who is refused.
    fn check_protocol_admin(&self, admin: Address) -> (res: Result<(), Error>)
        ensures
            res == match protocol_refusal(self@, admin) {
                Some(e) => Err(e),
                None => Ok(()),
            },
    {
        match self.protocol_admin {
            None => Err(Error::NotInitialized),
            Some(stored) => if admin != stored {
                Err(Error::NotProtocolAdmin)
            } else {
                Ok(())
            },
        }
    }

    /// Adds a token to the stablecoin allowlist, by the protocol admin. Every new
    /// group's token must already be on this list. It is a curated list: nothing here
    /// shows that a token holds its peg.
    pub fn add_approved_token(
        &mut self,
        protocol_admin: Address,
        token: Address,
    ) -> (res: Result<(), Error>)
        requires
            old(self).valid(),
        ensures
            final(self).valid(),
            (final(self)@, res) == add_token_reply(old(self)@, protocol_admin, token),
            (final(self)@, res) == reply(old(self)@, Call::AddApprovedToken(protocol_admin, token)),
    {
        match self.check_protocol_admin(protocol_admin) {
            Ok(()) => {},
            Err(e) => {
                return Err(e);
            },
        }
        self.actions.push(Action::RequireAuth(protocol_admin));
        if !self.is_token_approved(&token) {
            self.approved_tokens.push(token);
            self.actions.push(Action::Write(DataKey::ApprovedTokens));
        }
        assert(self@ =~= add_token_reply(old(self)@, protocol_admin, token).0);
        Ok(())
    }

    /// Removes a token from the allowlist, by the protocol admin. Existing groups that
    /// use it are unaffected.
    pub fn remove_approved_token(
        &mut self,
        protocol_admin: Address,
        token: Address,
    ) -> (res: Result<(), Error>)
        requires
            old(self).valid(),
        ensures
            final(self).valid(),
            (final(self)@, res) == remove_token_reply(old(self)@, protocol_admin, token),
            (final(self)@, res) == reply(
                old(self)@,
                Call::RemoveApprovedToken(protocol_admin, token),
            ),
    {
        match self.check_protocol_admin(protocol_admin) {
            Ok(()) => {},
            Err(e) => {
                return Err(e);
            },
        }
        self.actions.push(Action::RequireAuth(protocol_admin));
        let mut filtered: Vec<Address> = Vec::new();
        let mut i: usize = 0;
        while i < self.approved_tokens.len()
            invariant
                i <= self.approved_tokens@.len(),
                filtered@ == without(self.approved_tokens@.take(i as int), token),
            decreases self.approved_tokens@.len() - i,
        {
            let t = self.approved_tokens[i];
            assert(self.approved_tokens@.take(i as int + 1).drop_last()
                =~= self.approved_tokens@.take(i as int));
            if t != token {
                filtered.push(t);
            }
            i = i + 1;
        }
        assert(self.approved_tokens@.take(i as int) =~= self.approved_tokens@);
        self.approved_tokens = filtered;
        self.actions.push(Action::Write(DataKey::ApprovedTokens));
        assert(self@ =~= remove_token_reply(old(self)@, protocol_admin, token).0);
        Ok(())
    }

    /// The stablecoin allowlist.
    pub fn list_approved_tokens(&self) -> (res: Vec<Address>)
        ensures
            res@ == self@.approved_tokens,
    {
        let res = self.approved_tokens.clone();
        assert(res@ =~= self.approved_tokens@);
        res
    }

    /// Every group id ever created, so that automation can enumerate the groups to settle.
    pub fn list_groups(&self) -> (res: Vec<Symbol>)
        ensures
            res@ == self@.registry,
    {
        let res = self.registry.clone();
        assert(res@ =~= self.registry@);
        res
    }

    /// Whether a token is on the allowlist.
    fn is_token_approved(&self, token: &Address) -> (res: bool)
        ensures
            res == self@.approved_tokens.contains(*token),
    {
        lists(&self.approved_tokens, token)
    }

    /// Creates a group. Every address in `admins` must co-sign: nobody is made an admin
    /// without consent. `admin_threshold` sets how many of them must co-sign later
    /// admin actions.
    pub fn create_group(
        &mut self,
        id: Symbol,
        admins: Vec<Address>,
        admin_threshold: u32,
        token: Address,
        contribution: i128,
        collateral: i128,
        max_bid_bps: u32,
        max_members: u32,
        round_duration_secs: u64,
    ) -> (res: Result<(), Error>)
        requires
            old(self).valid(),
        ensures
            final(self).valid(),
            (final(self)@, res) == create_reply(
                old(self)@,
                id,
                (ConfigView {
                    admins: admins@,
                    admin_threshold: admin_threshold as int,
                    token,
                    contribution: contribution as int,
                    collateral: collateral as int,
                    max_bid_bps: max_bid_bps as int,
                    max_members: max_members as int,
                    round_duration_secs: round_duration_secs as int,
                }),
            ),
            (final(self)@, res) == reply(
                old(self)@,
                Call::CreateGroup(
                    id,
                    (GroupConfig {
                        admins,
                        admin_threshold,
                        token,
                        contribution,
                        collateral,
                        max_bid_bps,
                        max_members,
                        round_duration_secs,
                    }),
                ),
            ),
    {
        let ghost before = self@;
        if self.entry(id).is_some() {
            assert(before.groups.contains_key(id));
            return Err(Error::GroupAlreadyExists);
        }
        if contribution <= 0 || collateral < 0 || max_bid_bps > MAX_BID_BPS || max_members < 3
            || max_members > MAX_MEMBERS || admins.len() == 0 || admin_threshold == 0
            || admin_threshold as usize > admins.len() || round_duration_secs == 0 {
            return Err(Error::InvalidConfig);
        }
        if self.protocol_admin.is_none() {
            return Err(Error::NotInitialized);
        }
        if !self.is_token_approved(&token) {
            return Err(Error::TokenNotApproved);
        }
        // Every proposed admin must consent by co-signing group creation.
        let signed = demand_signatures(&admins, &admins, &mut self.actions);
        if signed < admins.len() {
            assert(self@ =~= create_reply(before, id, GroupConfig {
                admins,
                admin_threshold,
                token,
                contribution,
                collateral,
                max_bid_bps,
                max_members,
                round_duration_secs,
            }@).0);
            return Err(Error::DuplicateAdmin);
        }
        let state = GroupState {
            config: GroupConfig {
                admins,
                admin_threshold,
                token,
                contribution,
                collateral,
                max_bid_bps,
                max_members,
                round_duration_secs,
            },
            members: Vec::new(),
            waitlist: Vec::new(),
            locked: false,
            round: 0,
            rotation: 0,
            reserve: 0,
            total_uncovered_shortfall: 0,
            round_deadline: 0,
            open_slots: 0,
            slots: 0,
            completed: false,
            refund_share: 0,
        };
        let ghost config = state@.config;
        assert(state@ =~= created(config));
        assert(self@ =~= asking(before, admin_signatures(config, config.admins)));
        self.put_group(id, state);
        self.registry.push(id);
        self.actions.push(Action::Write(DataKey::GroupRegistry));
        assert(self@ =~= create_reply(before, id, config).0);
        Ok(())
    }

    /// Joins an unlocked group, posting collateral by a transfer from the member to the
    /// contract.
    pub fn join_group(&mut self, id: Symbol, member: Address) -> (res: Result<(), Error>)
        requires
            old(self).valid(),
        ensures
            final(self).valid(),
            (final(self)@, res) == member_reply(old(self)@, id, member, Step::Join(member)),
            (final(self)@, res) == reply(old(self)@, Call::JoinGroup(id, member)),
    {
        self.member_call(id, member, Step::Join(member)).unwrap()
    }

    /// Queues to join a group that is locked or full. No collateral is taken until the
    /// member is promoted.
    pub fn join_waitlist(&mut self, id: Symbol, member: Address) -> (res: Result<(), Error>)
        requires
            old(self).valid(),
        ensures
            final(self).valid(),
            (final(self)@, res) == member_reply(old(self)@, id, member, Step::Queue(member)),
            (final(self)@, res) == reply(old(self)@, Call::JoinWaitlist(id, member)),
    {
        self.member_call(id, member, Step::Queue(member)).unwrap()
    }

    /// Promotes the member at the front of the waitlist into a slot that a default
    /// freed, posting collateral as a join does.
    pub fn promote_from_waitlist(&mut self, id: Symbol, member: Address) -> (res: Result<(), Error>)
        requires
            old(self).valid(),
            step_fits(old(self)@, id, Step::Promote(member)),
        ensures
            final(self).valid(),
            (final(self)@, res) == member_reply(old(self)@, id, member, Step::Promote(member)),
            (final(self)@, res) == reply(old(self)@, Call::PromoteFromWaitlist(id, member)),
    {
        self.checked_promote_from_waitlist(id, member).unwrap()
    }

    /// As `promote_from_waitlist`, but `None`, with nothing changed, where an amount would not fit
    /// its integer type.
    pub fn checked_promote_from_waitlist(
        &mut self,
        id: Symbol,
        member: Address,
    ) -> (res: Option<Result<(), Error>>)
        requires
            old(self).valid(),
        ensures
            final(self).valid(),
            res is Some <==> step_fits(old(self)@, id, Step::Promote(member)),
            match res {
                Some(r) => (final(self)@, r) == member_reply(
                    old(self)@,
                    id,
                    member,
                    Step::Promote(member),
                ),
                None => final(self)@ == old(self)@,
            },
            res is Some <==> call_fits(old(self)@, Call::PromoteFromWaitlist(id, member)),
            res matches Some(r) ==> (final(self)@, r) == reply(
                old(self)@,
                Call::PromoteFromWaitlist(id, member),
            ),
    {
        self.member_call(id, member, Step::Promote(member))
    }

    /// Locks the group, by a threshold of admins: no more direct joins. Starts round 1
    /// and sets its deadline.
    pub fn lock_group(
        &mut self,
        id: Symbol,
        admins: &Vec<Address>,
        now: u64,
    ) -> (res: Result<(), Error>)
        requires
            old(self).valid(),
            admin_fits(old(self)@, id, admins@, Step::Lock(now)),
        ensures
            final(self).valid(),
            (final(self)@, res) == admin_reply(old(self)@, id, admins@, Step::Lock(now)),
            (final(self)@, res) == reply(old(self)@, Call::LockGroup(id, admins@, now)),
    {
        self.checked_lock_group(id, admins, now).unwrap()
    }

    /// As `lock_group`, but `None`, with nothing changed, where an amount would not fit
    /// its integer type.
    pub fn checked_lock_group(
        &mut self,
        id: Symbol,
        admins: &Vec<Address>,
        now: u64,
    ) -> (res: Option<Result<(), Error>>)
        requires
            old(self).valid(),
        ensures
            final(self).valid(),
            res is Some <==> admin_fits(old(self)@, id, admins@, Step::Lock(now)),
            match res {
                Some(r) => (final(self)@, r) == admin_reply(
                    old(self)@,
                    id,
                    admins@,
                    Step::Lock(now),
                ),
                None => final(self)@ == old(self)@,
            },
            res is Some <==> call_fits(old(self)@, Call::LockGroup(id, admins@, now)),
            res matches Some(r) ==> (final(self)@, r) == reply(
                old(self)@,
                Call::LockGroup(id, admins@, now),
            ),
    {
        self.admin_call(id, admins, Step::Lock(now))
    }

    /// Pays this round's contribution.
    pub fn contribute(&mut self, id: Symbol, member: Address) -> (res: Result<(), Error>)
        requires
            old(self).valid(),
            step_fits(old(self)@, id, Step::Contribute(member)),
        ensures
            final(self).valid(),
            (final(self)@, res) == member_reply(old(self)@, id, member, Step::Contribute(member)),
            (final(self)@, res) == reply(old(self)@, Call::Contribute(id, member)),
    {
        self.checked_contribute(id, member).unwrap()
    }

    /// As `contribute`, but `None`, with nothing changed, where an amount would not fit
    /// its integer type.
    pub fn checked_contribute(
        &mut self,
        id: Symbol,
        member: Address,
    ) -> (res: Option<Result<(), Error>>)
        requires
            old(self).valid(),
        ensures
            final(self).valid(),
            res is Some <==> step_fits(old(self)@, id, Step::Contribute(member)),
            match res {
                Some(r) => (final(self)@, r) == member_reply(
                    old(self)@,
                    id,
                    member,
                    Step::Contribute(member),
                ),
                None => final(self)@ == old(self)@,
            },
            res is Some <==> call_fits(old(self)@, Call::Contribute(id, member)),
            res matches Some(r) ==> (final(self)@, r) == reply(
                old(self)@,
                Call::Contribute(id, member),
            ),
    {
        self.member_call(id, member, Step::Contribute(member))
    }

    /// Submits a member's compulsory bid, in basis points of the pot (0 is a valid, and
    /// common, bid). Only eligible members may bid.
    pub fn submit_bid(
        &mut self,
        id: Symbol,
        member: Address,
        bid_bps: u32,
    ) -> (res: Result<(), Error>)
        requires
            old(self).valid(),
        ensures
            final(self).valid(),
            (final(self)@, res) == member_reply(old(self)@, id, member, Step::Bid(member, bid_bps)),
            (final(self)@, res) == reply(old(self)@, Call::SubmitBid(id, member, bid_bps)),
    {
        self.member_call(id, member, Step::Bid(member, bid_bps)).unwrap()
    }

    /// Settles the round, at time `now`. Anyone may call this. Before the deadline it
    /// takes every contribution and every bid; from the deadline on, stragglers are
    /// defaulted and a missing bid counts as 0. Once the last eligible member has won,
    /// the group is completed.
    pub fn settle_round(&mut self, id: Symbol, now: u64) -> (res: Result<(), Error>)
        requires
            old(self).valid(),
            step_fits(old(self)@, id, Step::Settle(now)),
        ensures
            final(self).valid(),
            (final(self)@, res) == step_reply(old(self)@, id, Step::Settle(now)),
            (final(self)@, res) == reply(old(self)@, Call::SettleRound(id, now)),
    {
        self.checked_settle_round(id, now).unwrap()
    }

    /// As `settle_round`, but `None`, with nothing changed, where an amount would not fit
    /// its integer type.
    pub fn checked_settle_round(&mut self, id: Symbol, now: u64) -> (res: Option<Result<(), Error>>)
        requires
            old(self).valid(),
        ensures
            final(self).valid(),
            res is Some <==> step_fits(old(self)@, id, Step::Settle(now)),
            match res {
                Some(r) => (final(self)@, r) == step_reply(old(self)@, id, Step::Settle(now)),
                None => final(self)@ == old(self)@,
            },
            res is Some <==> call_fits(old(self)@, Call::SettleRound(id, now)),
            res matches Some(r) ==> (final(self)@, r) == reply(
                old(self)@,
                Call::SettleRound(id, now),
            ),
    {
        match self.prepare(id, Step::Settle(now)) {
            Some(prepared) => Some(self.carry_out(id, Step::Settle(now), prepared)),
            None => None,
        }
    }

    /// Once the group is completed: pays a surviving member its collateral back and an
    /// equal share of the leftover reserve, once. Defaulted members forfeit both.
    pub fn claim_refund(&mut self, id: Symbol, member: Address) -> (res: Result<(), Error>)
        requires
            old(self).valid(),
            step_fits(old(self)@, id, Step::Claim(member)),
        ensures
            final(self).valid(),
            (final(self)@, res) == member_reply(old(self)@, id, member, Step::Claim(member)),
            (final(self)@, res) == reply(old(self)@, Call::ClaimRefund(id, member)),
    {
        self.checked_claim_refund(id, member).unwrap()
    }

    /// As `claim_refund`, but `None`, with nothing changed, where an amount would not fit
    /// its integer type.
    pub fn checked_claim_refund(
        &mut self,
        id: Symbol,
        member: Address,
    ) -> (res: Option<Result<(), Error>>)
        requires
            old(self).valid(),
        ensures
            final(self).valid(),
            res is Some <==> step_fits(old(self)@, id, Step::Claim(member)),
            match res {
                Some(r) => (final(self)@, r) == member_reply(
                    old(self)@,
                    id,
                    member,
                    Step::Claim(member),
                ),
                None => final(self)@ == old(self)@,
            },
            res is Some <==> call_fits(old(self)@, Call::ClaimRefund(id, member)),
            res matches Some(r) ==> (final(self)@, r) == reply(
                old(self)@,
                Call::ClaimRefund(id, member),
            ),
    {
        self.member_call(id, member, Step::Claim(member))
    }

    /// Marks a member as defaulted, by a threshold of admins, with the accounting of the
    /// automatic path in `settle_round`.
    pub fn mark_default(
        &mut self,
        id: Symbol,
        admins: &Vec<Address>,
        member: Address,
    ) -> (res: Result<(), Error>)
        requires
            old(self).valid(),
            admin_fits(old(self)@, id, admins@, Step::Default(member)),
        ensures
            final(self).valid(),
            (final(self)@, res) == admin_reply(old(self)@, id, admins@, Step::Default(member)),
            (final(self)@, res) == reply(old(self)@, Call::MarkDefault(id, admins@, member)),
    {
        self.checked_mark_default(id, admins, member).unwrap()
    }

    /// As `mark_default`, but `None`, with nothing changed, where an amount would not fit
    /// its integer type.
    pub fn checked_mark_default(
        &mut self,
        id: Symbol,
        admins: &Vec<Address>,
        member: Address,
    ) -> (res: Option<Result<(), Error>>)
        requires
            old(self).valid(),
        ensures
            final(self).valid(),
            res is Some <==> admin_fits(old(self)@, id, admins@, Step::Default(member)),
            match res {
                Some(r) => (final(self)@, r) == admin_reply(
                    old(self)@,
                    id,
                    admins@,
                    Step::Default(member),
                ),
                None => final(self)@ == old(self)@,
            },
            res is Some <==> call_fits(old(self)@, Call::MarkDefault(id, admins@, member)),
            res matches Some(r) ==> (final(self)@, r) == reply(
                old(self)@,
                Call::MarkDefault(id, admins@, member),
            ),
    {
        self.admin_call(id, admins, Step::Default(member))
    }

    /// The state of a group.
    pub fn get_group_state(&self, id: Symbol) -> (res: Result<GroupState, Error>)
        requires
            one_each(self.groups@),
        ensures
            match res {
                Ok(state) => self@.groups.contains_key(id) && state@ == self@.groups[id],
                Err(e) => !self@.groups.contains_key(id) && e == Error::GroupNotFound,
            },
    {
        self.get_group(id)
    }

    /// A member of a group.
    pub fn get_member(&self, id: Symbol, member: Address) -> (res: Result<Member, Error>)
        requires
            self.valid(),
        ensures
            res == if !self@.groups.contains_key(id) {
                Err::<Member, Error>(Error::GroupNotFound)
            } else {
                match find(self@.groups[id].members, member) {
                    Some(i) => Ok(self@.groups[id].members[i]),
                    None => Err(Error::NotAMember),
                }
            },
    {
        let state = match self.get_group(id) {
            Ok(state) => state,
            Err(e) => {
                return Err(e);
            },
        };
        proof {
            lemma_find(state.members@, member);
        }
        match find_member_idx(&state.members, &member) {
            Some(idx) => Ok(state.members[idx as usize]),
            None => Err(Error::NotAMember),
        }
    }
}

} // verus!
