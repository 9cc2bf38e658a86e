use std::collections::HashMap;

use liholiswano::contract::LiholiswanoContractV2;
use liholiswano::group::active_count;
use liholiswano::types::{
    Action, Address, DataKey, Error, GroupState, Member, Symbol, NO_BID, TTL_EXTEND_TO,
    TTL_THRESHOLD,
};

const DAY: u64 = 24 * 60 * 60;

/// A ledger with the contract on it: time, token balances, and every authorization given.
struct Ledger {
    contract: LiholiswanoContractV2,
    now: u64,
    balances: HashMap<(u128, u128), i128>,
    issued: u128,
}

fn symbol(text: &str) -> Symbol {
    let mut padded = [0u8; 32];
    padded[..text.len()].copy_from_slice(text.as_bytes());
    let mut high = [0u8; 16];
    let mut low = [0u8; 16];
    high.copy_from_slice(&padded[..16]);
    low.copy_from_slice(&padded[16..]);
    Symbol { high: u128::from_be_bytes(high), low: u128::from_be_bytes(low) }
}

impl Ledger {
    fn new() -> Ledger {
        let address = Address { contract: true, high: 0, low: 1 };
        Ledger {
            contract: LiholiswanoContractV2::new(address),
            now: 0,
            balances: HashMap::new(),
            issued: 1,
        }
    }

    fn generate(&mut self) -> Address {
        self.issued += 1;
        Address { contract: false, high: 0, low: self.issued }
    }

    fn cid(&self) -> Address {
        self.contract.address
    }

    fn mint(&mut self, token: &Address, to: &Address, amount: i128) {
        *self.balances.entry((token.low, to.low)).or_insert(0) += amount;
    }

    fn balance(&self, token: &Address, of: &Address) -> i128 {
        *self.balances.get(&(token.low, of.low)).unwrap_or(&0)
    }

    fn advance_time(&mut self, by_secs: u64) {
        self.now += by_secs;
    }

    /// Carries out what the last call asked for.
    fn flush(&mut self, res: Result<(), Error>) -> Result<(), Error> {
        let actions: Vec<Action> = self.contract.actions.drain(..).collect();
        for action in actions {
            if let Action::Transfer { token, from, to, amount } = action {
                assert!(amount > 0);
                let left = self.balances.entry((token.low, from.low)).or_insert(0);
                *left -= amount;
                assert!(*left >= 0, "transfer without funds");
                *self.balances.entry((token.low, to.low)).or_insert(0) += amount;
            }
        }
        assert!(self.contract.is_valid());
        res
    }

    fn initialize(&mut self, admin: &Address) -> Result<(), Error> {
        let res = self.contract.initialize(*admin);
        self.flush(res)
    }

    fn add_approved_token(&mut self, admin: &Address, token: &Address) -> Result<(), Error> {
        let res = self.contract.add_approved_token(*admin, *token);
        self.flush(res)
    }

    fn remove_approved_token(&mut self, admin: &Address, token: &Address) -> Result<(), Error> {
        let res = self.contract.remove_approved_token(*admin, *token);
        self.flush(res)
    }

    fn init_and_approve(&mut self, token: &Address) -> Address {
        let protocol_admin = self.generate();
        self.initialize(&protocol_admin).unwrap();
        self.add_approved_token(&protocol_admin, token).unwrap();
        protocol_admin
    }

    #[allow(clippy::too_many_arguments)]
    fn create_group(
        &mut self,
        id: &Symbol,
        admins: &Vec<Address>,
        admin_threshold: u32,
        token: &Address,
        contribution: i128,
        collateral: i128,
        max_bid_bps: u32,
        max_members: u32,
        round_duration_secs: u64,
    ) -> Result<(), Error> {
        let res = self.contract.create_group(
            *id,
            admins.clone(),
            admin_threshold,
            *token,
            contribution,
            collateral,
            max_bid_bps,
            max_members,
            round_duration_secs,
        );
        self.flush(res)
    }

    fn join_group(&mut self, id: &Symbol, m: &Address) -> Result<(), Error> {
        let res = self.contract.join_group(*id, *m);
        self.flush(res)
    }

    fn join_waitlist(&mut self, id: &Symbol, m: &Address) -> Result<(), Error> {
        let res = self.contract.join_waitlist(*id, *m);
        self.flush(res)
    }

    fn promote_from_waitlist(&mut self, id: &Symbol, m: &Address) -> Result<(), Error> {
        let res = self.contract.promote_from_waitlist(*id, *m);
        self.flush(res)
    }

    fn lock_group(&mut self, id: &Symbol, admins: &Vec<Address>) -> Result<(), Error> {
        let res = self.contract.lock_group(*id, admins, self.now);
        self.flush(res)
    }

    fn contribute(&mut self, id: &Symbol, m: &Address) -> Result<(), Error> {
        let res = self.contract.contribute(*id, *m);
        self.flush(res)
    }

    fn submit_bid(&mut self, id: &Symbol, m: &Address, bps: u32) -> Result<(), Error> {
        let res = self.contract.submit_bid(*id, *m, bps);
        self.flush(res)
    }

    fn settle_round(&mut self, id: &Symbol) -> Result<(), Error> {
        let res = self.contract.settle_round(*id, self.now);
        self.flush(res)
    }

    fn claim_refund(&mut self, id: &Symbol, m: &Address) -> Result<(), Error> {
        let res = self.contract.claim_refund(*id, *m);
        self.flush(res)
    }

    fn mark_default(
        &mut self,
        id: &Symbol,
        admins: &Vec<Address>,
        m: &Address,
    ) -> Result<(), Error> {
        let res = self.contract.mark_default(*id, admins, *m);
        self.flush(res)
    }

    fn state(&self, id: &Symbol) -> GroupState {
        self.contract.get_group_state(*id).unwrap()
    }

    fn member(&self, id: &Symbol, m: &Address) -> Member {
        self.contract.get_member(*id, *m).unwrap()
    }
}

/// A group of `n` members, two admins with a threshold of one, not locked yet.
struct Setup {
    l: Ledger,
    token: Address,
    protocol_admin: Address,
    id: Symbol,
    admins: Vec<Address>,
    ms: Vec<Address>,
}

fn gathered(n: usize, contribution: i128, collateral: i128, max_members: u32) -> Setup {
    let mut l = Ledger::new();
    let token = l.generate();
    let protocol_admin = l.init_and_approve(&token);
    let admins = vec![l.generate(), l.generate()];
    let id = symbol("grp1");
    l.create_group(&id, &admins, 1, &token, contribution, collateral, 2000, max_members, 28 * DAY)
        .unwrap();
    let mut ms = Vec::new();
    for _ in 0..n {
        let m = l.generate();
        l.mint(&token, &m, 10_000);
        l.join_group(&id, &m).unwrap();
        ms.push(m);
    }
    Setup { l, token, protocol_admin, id, admins, ms }
}

fn locked(n: usize, contribution: i128, collateral: i128) -> Setup {
    let mut s = gathered(n, contribution, collateral, 10);
    let admins = vec![s.admins[0]];
    s.l.lock_group(&s.id, &admins).unwrap();
    s
}

fn signer(s: &Setup) -> Vec<Address> {
    vec![s.admins[0]]
}

fn play(s: &mut Setup, bids: &[(usize, u32)]) {
    let id = s.id;
    for m in s.ms.clone().iter() {
        if s.l.member(&id, m).active {
            s.l.contribute(&id, m).unwrap();
        }
    }
    for (i, bps) in bids {
        let m = s.ms[*i];
        s.l.submit_bid(&id, &m, *bps).unwrap();
    }
    s.l.settle_round(&id).unwrap();
}

/// What the contract holds for the group, by its own books.
fn held(state: &GroupState) -> i128 {
    let mut sum = state.reserve;
    for m in &state.members {
        if m.active && !m.refunded {
            sum += state.config.collateral + state.refund_share;
        }
        if m.active && m.contributed_this_round {
            sum += state.config.contribution;
        }
    }
    sum
}

fn assert_balanced(s: &Setup) {
    assert_eq!(s.l.balance(&s.token, &s.l.cid()), held(&s.l.state(&s.id)));
}

fn write_of(id: Symbol) -> Vec<Action> {
    vec![
        Action::Write(DataKey::Group(id)),
        Action::ExtendTtl {
            key: DataKey::Group(id),
            threshold: TTL_THRESHOLD,
            extend_to: TTL_EXTEND_TO,
        },
        Action::ExtendTtl {
            key: DataKey::GroupRegistry,
            threshold: TTL_THRESHOLD,
            extend_to: TTL_EXTEND_TO,
        },
        Action::ExtendInstanceTtl { threshold: TTL_THRESHOLD, extend_to: TTL_EXTEND_TO },
    ]
}

#[test]
fn error_codes_are_stable() {
    let all = [
        Error::GroupAlreadyExists,
        Error::GroupNotFound,
        Error::NotAdmin,
        Error::AlreadyLocked,
        Error::NotLocked,
        Error::GroupFull,
        Error::AlreadyMember,
        Error::NotAMember,
        Error::TooFewMembersToLock,
        Error::BidTooHigh,
        Error::AlreadyBidThisRound,
        Error::AlreadyContributedThisRound,
        Error::NotAllContributed,
        Error::NotAllBid,
        Error::MemberNotActive,
        Error::MemberAlreadyDefaulted,
        Error::NothingToSettle,
        Error::InvalidConfig,
        Error::NotEligibleThisRotation,
        Error::NotEnoughAdminSignatures,
        Error::DuplicateAdmin,
        Error::AlreadyOnWaitlist,
        Error::NotNextInWaitlist,
        Error::NoOpenSlots,
        Error::NotInitialized,
        Error::AlreadyInitialized,
        Error::TokenNotApproved,
        Error::NotProtocolAdmin,
        Error::AlreadyCompleted,
        Error::NotCompleted,
        Error::AlreadyClaimed,
        Error::CollateralTooLow,
    ];
    for (i, e) in all.iter().enumerate() {
        assert_eq!(e.code(), i as u32 + 1);
    }
}

#[test]
fn lifetimes_are_thirty_and_a_hundred_and_twenty_days() {
    assert_eq!(TTL_THRESHOLD, 518_400);
    assert_eq!(TTL_EXTEND_TO, 2_073_600);
}

#[test]
fn initialize_asks_for_signature_and_writes() {
    let mut l = Ledger::new();
    let admin = l.generate();
    assert_eq!(l.contract.initialize(admin), Ok(()));
    assert_eq!(
        l.contract.actions,
        vec![
            Action::RequireAuth(admin),
            Action::Write(DataKey::ProtocolAdmin),
            Action::Write(DataKey::ApprovedTokens),
            Action::Write(DataKey::GroupRegistry),
        ]
    );
    assert_eq!(l.contract.protocol_admin, Some(admin));
}

#[test]
fn allowlist_before_initialize_is_refused() {
    let mut l = Ledger::new();
    let admin = l.generate();
    let token = l.generate();
    assert_eq!(l.add_approved_token(&admin, &token), Err(Error::NotInitialized));
    assert_eq!(l.remove_approved_token(&admin, &token), Err(Error::NotInitialized));
}

#[test]
fn allowlist_keeps_order_and_each_token_once() {
    let mut l = Ledger::new();
    let (a, b, c) = (l.generate(), l.generate(), l.generate());
    let admin = l.generate();
    l.initialize(&admin).unwrap();
    for t in [&a, &b, &c, &a] {
        l.add_approved_token(&admin, t).unwrap();
    }
    assert_eq!(l.contract.list_approved_tokens(), vec![a, b, c]);
    l.remove_approved_token(&admin, &b).unwrap();
    assert_eq!(l.contract.list_approved_tokens(), vec![a, c]);
    let stranger = l.generate();
    assert_eq!(l.remove_approved_token(&stranger, &a), Err(Error::NotProtocolAdmin));
    assert_eq!(l.contract.list_approved_tokens(), vec![a, c]);
}

#[test]
fn adding_a_listed_token_writes_nothing() {
    let mut l = Ledger::new();
    let token = l.generate();
    let admin = l.init_and_approve(&token);
    assert_eq!(l.contract.add_approved_token(admin, token), Ok(()));
    assert_eq!(l.contract.actions, vec![Action::RequireAuth(admin)]);
}

#[test]
fn removing_a_token_leaves_existing_groups() {
    let mut s = gathered(3, 100, 500, 10);
    let before = s.l.state(&s.id);
    let (admin, token) = (s.protocol_admin, s.token);
    s.l.remove_approved_token(&admin, &token).unwrap();
    assert_eq!(s.l.state(&s.id), before);
    let admins = signer(&s);
    s.l.lock_group(&s.id, &admins).unwrap();
    let other = symbol("grp2");
    let r = s.l.create_group(&other, &admins, 1, &token, 100, 500, 2000, 10, 28 * DAY);
    assert_eq!(r, Err(Error::TokenNotApproved));
}

#[test]
fn a_group_is_created_once() {
    let mut s = gathered(1, 100, 500, 10);
    let (admins, token) = (s.admins.clone(), s.token);
    let r = s.l.create_group(&s.id, &admins, 1, &token, 100, 500, 2000, 10, 28 * DAY);
    assert_eq!(r, Err(Error::GroupAlreadyExists));
    assert_eq!(s.l.contract.list_groups(), vec![s.id]);
    assert_eq!(s.l.state(&s.id).members.len(), 1);
}

#[test]
fn creating_asks_every_admin_to_sign() {
    let mut l = Ledger::new();
    let token = l.generate();
    l.init_and_approve(&token);
    let (a, b) = (l.generate(), l.generate());
    let id = symbol("grp1");
    let r = l.contract.create_group(id, vec![a, b], 2, token, 100, 500, 2000, 10, 28 * DAY);
    assert_eq!(r, Ok(()));
    let mut expected = vec![Action::RequireAuth(a), Action::RequireAuth(b)];
    expected.extend(write_of(id));
    expected.push(Action::Write(DataKey::GroupRegistry));
    assert_eq!(l.contract.actions, expected);
}

#[test]
fn creating_with_an_admin_twice_is_refused_after_the_signatures_before_it() {
    let mut l = Ledger::new();
    let token = l.generate();
    l.init_and_approve(&token);
    let (a, b) = (l.generate(), l.generate());
    let id = symbol("grp1");
    let r = l.contract.create_group(id, vec![a, b, a], 1, token, 100, 500, 2000, 10, 28 * DAY);
    assert_eq!(r, Err(Error::DuplicateAdmin));
    assert_eq!(l.contract.actions, vec![Action::RequireAuth(a), Action::RequireAuth(b)]);
    assert!(l.contract.list_groups().is_empty());
}

#[test]
fn invalid_terms_are_refused() {
    let mut l = Ledger::new();
    let token = l.generate();
    l.init_and_approve(&token);
    let one = vec![l.generate()];
    let none: Vec<Address> = vec![];
    let id = symbol("grp1");
    let bad = Err(Error::InvalidConfig);
    assert_eq!(l.create_group(&id, &one, 1, &token, 0, 500, 2000, 10, 1), bad);
    assert_eq!(l.create_group(&id, &one, 1, &token, -1, 500, 2000, 10, 1), bad);
    assert_eq!(l.create_group(&id, &one, 1, &token, 100, -1, 2000, 10, 1), bad);
    assert_eq!(l.create_group(&id, &one, 1, &token, 100, 500, 5001, 10, 1), bad);
    assert_eq!(l.create_group(&id, &one, 1, &token, 100, 500, 2000, 2, 1), bad);
    assert_eq!(l.create_group(&id, &one, 1, &token, 100, 500, 2000, 51, 1), bad);
    assert_eq!(l.create_group(&id, &none, 1, &token, 100, 500, 2000, 10, 1), bad);
    assert_eq!(l.create_group(&id, &one, 0, &token, 100, 500, 2000, 10, 1), bad);
    assert_eq!(l.create_group(&id, &one, 2, &token, 100, 500, 2000, 10, 1), bad);
    assert_eq!(l.create_group(&id, &one, 1, &token, 100, 500, 2000, 10, 0), bad);
    assert_eq!(l.create_group(&id, &one, 1, &token, 1, 0, 5000, 3, 1), Ok(()));
}

#[test]
fn unknown_groups_answer_not_found() {
    let mut l = Ledger::new();
    let (a, id) = (l.generate(), symbol("nope"));
    let admins = vec![a];
    let gone = Err(Error::GroupNotFound);
    assert_eq!(l.contract.join_group(id, a), gone);
    assert_eq!(l.contract.actions, vec![Action::RequireAuth(a)]);
    assert_eq!(l.join_waitlist(&id, &a), gone);
    assert_eq!(l.promote_from_waitlist(&id, &a), gone);
    assert_eq!(l.contract.lock_group(id, &admins, 0), gone);
    assert!(l.contract.actions.is_empty());
    assert_eq!(l.contribute(&id, &a), gone);
    assert_eq!(l.submit_bid(&id, &a, 0), gone);
    assert_eq!(l.settle_round(&id), gone);
    assert_eq!(l.claim_refund(&id, &a), gone);
    assert_eq!(l.mark_default(&id, &admins, &a), gone);
    assert_eq!(l.contract.get_member(id, a), Err(Error::GroupNotFound));
}

#[test]
fn joining_posts_collateral() {
    let mut s = gathered(0, 100, 500, 10);
    let (m, token, id, cid) = (s.l.generate(), s.token, s.id, s.l.cid());
    assert_eq!(s.l.contract.join_group(id, m), Ok(()));
    let mut expected = vec![
        Action::RequireAuth(m),
        Action::Transfer { token, from: m, to: cid, amount: 500 },
    ];
    expected.extend(write_of(id));
    assert_eq!(s.l.contract.actions, expected);
    assert_eq!(
        s.l.member(&id, &m),
        Member {
            addr: m,
            active: true,
            defaulted: false,
            won_this_rotation: false,
            contributed_this_round: false,
            bid_bps: NO_BID,
            total_wins: 0,
            total_contributed: 0,
            total_received: 0,
            refunded: false,
        }
    );
}

#[test]
fn joining_without_collateral_moves_nothing() {
    let mut s = gathered(0, 100, 0, 10);
    let m = s.l.generate();
    assert_eq!(s.l.contract.join_group(s.id, m), Ok(()));
    let mut expected = vec![Action::RequireAuth(m)];
    expected.extend(write_of(s.id));
    assert_eq!(s.l.contract.actions, expected);
}

#[test]
fn joins_are_refused_when_full_or_twice() {
    let mut s = gathered(2, 100, 500, 3);
    let (id, first, last, late) = (s.id, s.ms[0], s.l.generate(), s.l.generate());
    assert_eq!(s.l.join_group(&id, &first), Err(Error::AlreadyMember));
    s.l.mint(&s.token.clone(), &last, 500);
    s.l.join_group(&id, &last).unwrap();
    assert_eq!(s.l.join_group(&id, &late), Err(Error::GroupFull));
    assert_eq!(s.l.contract.get_member(id, late), Err(Error::NotAMember));
}

#[test]
fn waitlist_is_a_queue_without_repeats() {
    let mut s = locked(3, 100, 500);
    let id = s.id;
    let (w1, w2) = (s.l.generate(), s.l.generate());
    s.l.join_waitlist(&id, &w1).unwrap();
    s.l.join_waitlist(&id, &w2).unwrap();
    let member = s.ms[0];
    assert_eq!(s.l.join_waitlist(&id, &w1), Err(Error::AlreadyOnWaitlist));
    assert_eq!(s.l.join_waitlist(&id, &member), Err(Error::AlreadyMember));
    assert_eq!(s.l.state(&id).waitlist, vec![w1, w2]);
    // Waiting cost nothing.
    assert_eq!(s.l.balance(&s.token, &w1), 0);
    assert_eq!(s.l.promote_from_waitlist(&id, &w1), Err(Error::NoOpenSlots));
}

#[test]
fn promotion_needs_the_front_of_the_queue() {
    let mut s = locked(3, 100, 500);
    let (id, admins, out, late) = (s.id, signer(&s), s.ms[2], s.l.generate());
    s.l.mark_default(&id, &admins, &out).unwrap();
    assert_eq!(s.l.promote_from_waitlist(&id, &late), Err(Error::NotNextInWaitlist));
    s.l.join_waitlist(&id, &late).unwrap();
    s.l.mint(&s.token.clone(), &late, 500);
    s.l.promote_from_waitlist(&id, &late).unwrap();
    assert_eq!(s.l.state(&id).waitlist, vec![]);
    assert_eq!(s.l.state(&id).members.len(), 4);
    assert_eq!(s.l.promote_from_waitlist(&id, &late), Err(Error::NoOpenSlots));
    assert_balanced(&s);
}

#[test]
fn a_member_that_queued_before_joining_is_not_promoted_again() {
    let mut s = gathered(3, 100, 500, 10);
    let (id, admins, m) = (s.id, signer(&s), s.l.generate());
    s.l.mint(&s.token.clone(), &m, 1_000);
    s.l.join_waitlist(&id, &m).unwrap();
    s.l.join_group(&id, &m).unwrap();
    let out = s.ms[0];
    s.l.mark_default(&id, &admins, &out).unwrap();
    assert_eq!(s.l.promote_from_waitlist(&id, &m), Err(Error::AlreadyMember));
}

#[test]
fn locking_takes_three_members_and_happens_once() {
    let mut s = gathered(2, 100, 500, 10);
    let (id, admins) = (s.id, signer(&s));
    assert_eq!(s.l.lock_group(&id, &admins), Err(Error::TooFewMembersToLock));
    let m = s.l.generate();
    s.l.mint(&s.token.clone(), &m, 500);
    s.l.join_group(&id, &m).unwrap();
    s.l.now = 1_000;
    s.l.lock_group(&id, &admins).unwrap();
    let st = s.l.state(&id);
    assert_eq!((st.slots, st.round, st.rotation), (3, 1, 1));
    assert_eq!(st.round_deadline, 1_000 + 28 * DAY);
    assert_eq!(s.l.lock_group(&id, &admins), Err(Error::AlreadyLocked));
}

#[test]
fn signatures_are_demanded_up_to_the_first_that_does_not_count() {
    let mut s = gathered(3, 100, 500, 10);
    let (a, b, stranger) = (s.admins[0], s.admins[1], s.l.generate());
    let r = s.l.contract.lock_group(s.id, &vec![a, stranger, b], 0);
    assert_eq!(r, Err(Error::NotAdmin));
    assert_eq!(s.l.contract.actions, vec![Action::RequireAuth(a)]);
    s.l.contract.actions.clear();
    let r = s.l.contract.lock_group(s.id, &vec![b, a, b], 0);
    assert_eq!(r, Err(Error::DuplicateAdmin));
    assert_eq!(s.l.contract.actions, vec![Action::RequireAuth(b), Action::RequireAuth(a)]);
    s.l.contract.actions.clear();
    let r = s.l.contract.lock_group(s.id, &vec![], 0);
    assert_eq!(r, Err(Error::NotEnoughAdminSignatures));
    assert!(s.l.contract.actions.is_empty());
}

#[test]
fn collateral_that_just_covers_the_first_winner_is_enough() {
    let mut s = gathered(3, 100, 199, 10);
    let (id, admins) = (s.id, signer(&s));
    assert_eq!(s.l.lock_group(&id, &admins), Err(Error::CollateralTooLow));
    let mut s = gathered(3, 100, 200, 10);
    assert_eq!(s.l.lock_group(&id, &admins), Ok(()));
}

#[test]
fn contributing_is_checked() {
    let mut s = gathered(3, 100, 500, 10);
    let (id, admins, m, stranger) = (s.id, signer(&s), s.ms[0], s.l.generate());
    assert_eq!(s.l.contribute(&id, &m), Err(Error::NotLocked));
    s.l.lock_group(&id, &admins).unwrap();
    assert_eq!(s.l.contribute(&id, &stranger), Err(Error::NotAMember));
    s.l.contribute(&id, &m).unwrap();
    assert_eq!(s.l.contribute(&id, &m), Err(Error::AlreadyContributedThisRound));
    assert_eq!(s.l.member(&id, &m).total_contributed, 100);
    let out = s.ms[1];
    s.l.mark_default(&id, &admins, &out).unwrap();
    assert_eq!(s.l.contribute(&id, &out), Err(Error::MemberNotActive));
    assert_balanced(&s);
}

#[test]
fn bidding_is_checked() {
    let mut s = gathered(3, 100, 500, 10);
    let (id, admins, m, stranger) = (s.id, signer(&s), s.ms[0], s.l.generate());
    assert_eq!(s.l.submit_bid(&id, &m, 0), Err(Error::NotLocked));
    s.l.lock_group(&id, &admins).unwrap();
    assert_eq!(s.l.submit_bid(&id, &m, 2001), Err(Error::BidTooHigh));
    assert_eq!(s.l.submit_bid(&id, &stranger, 2000), Err(Error::NotAMember));
    s.l.submit_bid(&id, &m, 2000).unwrap();
    assert_eq!(s.l.member(&id, &m).bid_bps, 2000);
    assert_eq!(s.l.submit_bid(&id, &m, 0), Err(Error::AlreadyBidThisRound));
    let out = s.ms[1];
    s.l.mark_default(&id, &admins, &out).unwrap();
    assert_eq!(s.l.submit_bid(&id, &out, 0), Err(Error::MemberNotActive));
}

#[test]
fn a_winner_does_not_bid_or_win_again() {
    let mut s = locked(3, 100, 500);
    let id = s.id;
    play(&mut s, &[(0, 10), (1, 0), (2, 0)]);
    let w = s.ms[0];
    assert_eq!(s.l.submit_bid(&id, &w, 0), Err(Error::NotEligibleThisRotation));
    play(&mut s, &[(1, 0), (2, 5)]);
    play(&mut s, &[(1, 0)]);
    for m in s.ms.clone().iter() {
        assert_eq!(s.l.member(&id, m).total_wins, 1);
    }
    assert!(s.l.state(&id).completed);
}

#[test]
fn settling_early_needs_every_bid() {
    let mut s = gathered(3, 100, 500, 10);
    let (id, admins) = (s.id, signer(&s));
    assert_eq!(s.l.settle_round(&id), Err(Error::NotLocked));
    s.l.lock_group(&id, &admins).unwrap();
    for m in s.ms.clone().iter() {
        s.l.contribute(&id, m).unwrap();
    }
    let (a, b) = (s.ms[0], s.ms[1]);
    s.l.submit_bid(&id, &a, 0).unwrap();
    s.l.submit_bid(&id, &b, 0).unwrap();
    assert_eq!(s.l.settle_round(&id), Err(Error::NotAllBid));
    // At the deadline itself a missing bid counts as a bid of nothing.
    s.l.now = s.l.state(&id).round_deadline;
    s.l.settle_round(&id).unwrap();
    assert!(s.l.member(&id, &a).won_this_rotation);
    assert_eq!(s.l.state(&id).round, 2);
    assert_eq!(s.l.state(&id).round_deadline, s.l.now + 28 * DAY);
}

#[test]
fn the_highest_bid_wins_and_the_first_on_a_tie() {
    let mut s = locked(4, 100, 500);
    let id = s.id;
    play(&mut s, &[(0, 100), (1, 700), (2, 700), (3, 0)]);
    let winner = s.ms[1];
    assert!(s.l.member(&id, &winner).won_this_rotation);
    let wins: u32 = s.l.state(&id).members.iter().map(|m| m.total_wins).sum();
    assert_eq!(wins, 1);
}

#[test]
fn a_settlement_pays_the_winner_first_and_the_rest_in_order() {
    let mut s = locked(4, 101, 500);
    let (id, token, cid) = (s.id, s.token, s.l.cid());
    for m in s.ms.clone().iter() {
        s.l.contribute(&id, m).unwrap();
    }
    for (i, bps) in [0u32, 0, 1234, 0].iter().enumerate() {
        let m = s.ms[i];
        s.l.submit_bid(&id, &m, *bps).unwrap();
    }
    assert_eq!(s.l.contract.settle_round(id, 0), Ok(()));
    // Pot 404; the bid is 49 (of 49.85); each of the others gets 16; 1 stays.
    let pay = |to: Address, amount: i128| Action::Transfer { token, from: cid, to, amount };
    let mut expected = vec![
        pay(s.ms[2], 355),
        pay(s.ms[0], 16),
        pay(s.ms[1], 16),
        pay(s.ms[3], 16),
    ];
    expected.extend(write_of(id));
    assert_eq!(s.l.contract.actions, expected);
    s.l.flush(Ok(())).unwrap();
    assert_eq!(s.l.state(&id).reserve, 1);
    let (w, o) = (s.ms[2], s.ms[0]);
    assert_eq!(s.l.member(&id, &w).total_received, 355);
    assert_eq!(s.l.member(&id, &o).total_received, 16);
    assert_eq!(s.l.balance(&token, &o), 10_000 - 500 - 101 + 16);
    assert_balanced(&s);
}

#[test]
fn the_last_one_standing_leaves_its_bid_in_the_reserve() {
    let mut s = locked(3, 100, 500);
    let (id, m) = (s.id, s.ms[2]);
    s.l.contribute(&id, &m).unwrap();
    s.l.submit_bid(&id, &m, 1000).unwrap();
    s.l.advance_time(29 * DAY);
    s.l.settle_round(&id).unwrap();
    let st = s.l.state(&id);
    // Two seats defaulted: 1000 seized, 200 of it tops the pot up to 300. The winner
    // bid 30, nobody shares it, and the group closes with one survivor.
    assert!(st.completed);
    assert_eq!(st.refund_share, 1000 - 200 + 30);
    assert_eq!(st.reserve, 0);
    assert_eq!(st.total_uncovered_shortfall, 0);
    s.l.claim_refund(&id, &m).unwrap();
    assert_eq!(s.l.balance(&s.token, &m), 10_000 - 500 - 100 + 270 + 500 + 830);
    assert_eq!(s.l.balance(&s.token, &s.l.cid()), 0);
}

#[test]
fn a_round_in_which_everyone_defaults_closes_the_group() {
    let mut s = locked(3, 100, 500);
    let id = s.id;
    s.l.advance_time(28 * DAY);
    s.l.settle_round(&id).unwrap();
    let st = s.l.state(&id);
    assert!(st.completed);
    assert_eq!((st.reserve, st.refund_share, st.open_slots), (1500, 0, 0));
    assert_eq!(active_count(&st.members), 0);
    let m = s.ms[0];
    assert_eq!(s.l.claim_refund(&id, &m), Err(Error::MemberNotActive));
    assert_balanced(&s);
}

#[test]
fn defaulting_the_last_member_to_win_closes_the_group() {
    let mut s = locked(3, 100, 500);
    let (id, admins) = (s.id, signer(&s));
    play(&mut s, &[(0, 0), (1, 0), (2, 0)]);
    play(&mut s, &[(1, 0), (2, 0)]);
    let (a, b, out) = (s.ms[0], s.ms[1], s.ms[2]);
    s.l.contribute(&id, &a).unwrap();
    s.l.mark_default(&id, &admins, &out).unwrap();
    let st = s.l.state(&id);
    // 500 seized and a's 100 of the open round, shared by two.
    assert!(st.completed);
    assert_eq!((st.refund_share, st.reserve, st.open_slots), (300, 0, 0));
    assert_eq!(s.l.mark_default(&id, &admins, &a), Err(Error::AlreadyCompleted));
    assert_eq!(s.l.submit_bid(&id, &a, 0), Err(Error::AlreadyCompleted));
    let late = s.l.generate();
    assert_eq!(s.l.promote_from_waitlist(&id, &late), Err(Error::AlreadyCompleted));
    assert_balanced(&s);
    s.l.claim_refund(&id, &a).unwrap();
    s.l.claim_refund(&id, &b).unwrap();
    assert_eq!(s.l.member(&id, &a).total_received, 300 + 800);
    assert_eq!(s.l.claim_refund(&id, &late), Err(Error::NotAMember));
    assert_balanced(&s);
}

#[test]
fn defaults_are_booked_once() {
    let mut s = locked(3, 100, 500);
    let (id, admins, out, stranger) = (s.id, signer(&s), s.ms[1], s.l.generate());
    s.l.mark_default(&id, &admins, &out).unwrap();
    assert_eq!(s.l.mark_default(&id, &admins, &out), Err(Error::MemberAlreadyDefaulted));
    assert_eq!(s.l.mark_default(&id, &admins, &stranger), Err(Error::NotAMember));
    let st = s.l.state(&id);
    assert_eq!((st.reserve, st.open_slots), (500, 1));
}

#[test]
fn manual_and_automatic_defaults_agree() {
    // The same member misses the round: once the admins default it, once the deadline does.
    let mut by_hand = locked(3, 100, 500);
    let mut by_time = locked(3, 100, 500);
    for s in [&mut by_hand, &mut by_time] {
        let (id, a, b) = (s.id, s.ms[0], s.ms[1]);
        for m in [a, b] {
            s.l.contribute(&id, &m).unwrap();
            s.l.submit_bid(&id, &m, 0).unwrap();
        }
        s.l.advance_time(28 * DAY);
    }
    let (id, admins, out) = (by_hand.id, signer(&by_hand), by_hand.ms[2]);
    by_hand.l.mark_default(&id, &admins, &out).unwrap();
    by_hand.l.settle_round(&id).unwrap();
    by_time.l.settle_round(&id).unwrap();
    assert_eq!(by_hand.l.state(&id), by_time.l.state(&id));
}

#[test]
fn a_refused_call_changes_nothing() {
    let mut s = locked(3, 100, 500);
    let (id, m) = (s.id, s.ms[0]);
    s.l.contribute(&id, &m).unwrap();
    let before = s.l.state(&id);
    assert!(s.l.contribute(&id, &m).is_err());
    assert!(s.l.settle_round(&id).is_err());
    assert!(s.l.submit_bid(&id, &m, 9999).is_err());
    assert_eq!(s.l.state(&id), before);
    assert_balanced(&s);
}

#[test]
fn groups_are_apart() {
    let mut s = gathered(3, 100, 500, 10);
    let (token, admins, other) = (s.token, signer(&s), symbol("grp2"));
    s.l.create_group(&other, &admins, 1, &token, 7, 50, 0, 3, DAY).unwrap();
    let before = s.l.state(&other);
    s.l.lock_group(&s.id, &admins).unwrap();
    play(&mut s, &[(0, 0), (1, 0), (2, 0)]);
    assert_eq!(s.l.state(&other), before);
    assert_eq!(s.l.contract.list_groups(), vec![s.id, other]);
}

#[test]
fn books_balance_through_a_rough_cycle() {
    let mut s = locked(4, 100, 300);
    let (id, admins, token) = (s.id, signer(&s), s.token);
    let late = s.l.generate();
    s.l.mint(&token, &late, 10_000);
    s.l.join_waitlist(&id, &late).unwrap();
    play(&mut s, &[(0, 333), (1, 0), (2, 0), (3, 0)]);
    assert_balanced(&s);
    let first = s.ms[0];
    s.l.contribute(&id, &first).unwrap();
    s.l.mark_default(&id, &admins, &first).unwrap();
    assert_balanced(&s);
    s.l.promote_from_waitlist(&id, &late).unwrap();
    s.ms.push(late);
    assert_balanced(&s);
    play(&mut s, &[(1, 100), (2, 0), (3, 0), (4, 0)]);
    assert_balanced(&s);
    s.l.advance_time(60 * DAY);
    let (c, d) = (s.ms[2], s.ms[3]);
    s.l.contribute(&id, &c).unwrap();
    s.l.contribute(&id, &d).unwrap();
    s.l.settle_round(&id).unwrap();
    assert_balanced(&s);
    s.l.contribute(&id, &c).unwrap();
    s.l.contribute(&id, &d).unwrap();
    s.l.submit_bid(&id, &d, 0).unwrap();
    s.l.settle_round(&id).unwrap();
    let st = s.l.state(&id);
    assert!(st.completed);
    assert_eq!(st.total_uncovered_shortfall, 0);
    assert_balanced(&s);
    s.l.claim_refund(&id, &c).unwrap();
    s.l.claim_refund(&id, &d).unwrap();
    assert_eq!(s.l.balance(&token, &s.l.cid()), s.l.state(&id).reserve);
    assert!(s.l.state(&id).reserve < 2);
}

#[test]
fn many_defaults_and_promotions_leave_no_bad_debt() {
    // Six seats with the least collateral that locks. Four default at once; the queue
    // fills their seats one by one, each time when only one member is still to win.
    let mut s = locked(6, 100, 500);
    let (id, token) = (s.id, s.token);
    let mut queue = Vec::new();
    for _ in 0..4 {
        let m = s.l.generate();
        s.l.mint(&token, &m, 10_000);
        s.l.join_waitlist(&id, &m).unwrap();
        queue.push(m);
    }
    let (a, b) = (s.ms[0], s.ms[1]);
    s.l.contribute(&id, &a).unwrap();
    s.l.contribute(&id, &b).unwrap();
    s.l.advance_time(28 * DAY);
    s.l.settle_round(&id).unwrap();
    s.ms = vec![a, b];
    for m in queue {
        s.l.promote_from_waitlist(&id, &m).unwrap();
        s.ms.push(m);
        let before = s.l.balance(&token, &s.l.cid());
        let seats = s.ms.clone();
        for x in seats.iter() {
            s.l.contribute(&id, x).unwrap();
        }
        for x in seats.iter() {
            let _ = s.l.submit_bid(&id, x, 0);
        }
        s.l.settle_round(&id).unwrap();
        let paid = before + 100 * seats.len() as i128 - s.l.balance(&token, &s.l.cid());
        assert_eq!(paid, 600);
        assert_eq!(s.l.state(&id).total_uncovered_shortfall, 0);
        assert_balanced(&s);
    }
}

#[test]
fn amounts_that_do_not_fit_are_told_apart() {
    let big = i128::MAX / 2;
    let mut l = Ledger::new();
    let token = l.generate();
    l.init_and_approve(&token);
    let admins = vec![l.generate()];
    let id = symbol("big");
    l.create_group(&id, &admins, 1, &token, big, i128::MAX, 5000, 10, u64::MAX).unwrap();
    let ms = [l.generate(), l.generate(), l.generate(), l.generate()];
    for m in ms.iter() {
        l.contract.join_group(id, *m).unwrap();
    }
    l.contract.actions.clear();
    // Three contributions of half the range do not fit.
    let before = l.contract.get_group_state(id).unwrap();
    assert_eq!(l.contract.checked_lock_group(id, &admins, 0), None);
    assert!(l.contract.actions.is_empty());
    assert_eq!(l.contract.get_group_state(id).unwrap(), before);
    // Two full collaterals do not fit the reserve.
    assert_eq!(l.contract.checked_mark_default(id, &admins, ms[0]), Some(Ok(())));
    assert_eq!(l.contract.checked_mark_default(id, &admins, ms[1]), None);
    assert_eq!(l.contract.get_group_state(id).unwrap().reserve, i128::MAX);
}

#[test]
fn deadlines_that_do_not_fit_are_told_apart() {
    let mut l = Ledger::new();
    let token = l.generate();
    l.init_and_approve(&token);
    let admins = vec![l.generate()];
    let id = symbol("late");
    l.create_group(&id, &admins, 1, &token, 1, 10, 5000, 10, u64::MAX).unwrap();
    for _ in 0..3 {
        let m = l.generate();
        l.contract.join_group(id, m).unwrap();
    }
    assert_eq!(l.contract.checked_lock_group(id, &admins, 1), None);
    assert_eq!(l.contract.checked_lock_group(id, &admins, 0), Some(Ok(())));
    assert_eq!(l.contract.checked_settle_round(id, 1), Some(Err(Error::NotAllContributed)));
    // The deadline of the next round would not fit.
    for m in l.contract.get_group_state(id).unwrap().members {
        assert_eq!(l.contract.checked_contribute(id, m.addr), Some(Ok(())));
        l.contract.submit_bid(id, m.addr, 0).unwrap();
    }
    assert_eq!(l.contract.checked_settle_round(id, 1), None);
    assert_eq!(l.contract.checked_settle_round(id, 0), Some(Ok(())));
}

#[test]
fn checked_calls_answer_as_the_plain_ones() {
    let mut s = locked(3, 100, 500);
    let (id, m, late) = (s.id, s.ms[0], s.l.generate());
    assert_eq!(s.l.contract.checked_contribute(id, m), Some(Ok(())));
    assert_eq!(
        s.l.contract.checked_contribute(id, m),
        Some(Err(Error::AlreadyContributedThisRound))
    );
    assert_eq!(s.l.contract.checked_claim_refund(id, m), Some(Err(Error::NotCompleted)));
    assert_eq!(
        s.l.contract.checked_promote_from_waitlist(id, late),
        Some(Err(Error::NoOpenSlots))
    );
}

#[test]
fn entries_that_no_call_leaves_are_invalid() {
    let mut s = gathered(1, 100, 500, 10);
    assert!(s.l.contract.is_valid());
    s.l.contract.groups[0].state.reserve = -1;
    assert!(!s.l.contract.is_valid());
    s.l.contract.groups[0].state.reserve = 0;
    s.l.contract.groups[0].state.config.contribution = 0;
    assert!(!s.l.contract.is_valid());
    s.l.contract.groups[0].state.config.contribution = 100;
    let again = liholiswano::contract::GroupEntry { id: s.id, state: s.l.state(&s.id) };
    s.l.contract.groups.push(again);
    assert!(!s.l.contract.is_valid());
}

#[test]
fn a_refund_and_a_completed_group_are_final() {
    let mut s = locked(3, 100, 500);
    let (id, admins) = (s.id, signer(&s));
    play(&mut s, &[(0, 0), (1, 0), (2, 100)]);
    play(&mut s, &[(0, 0), (1, 7)]);
    play(&mut s, &[(0, 0)]);
    let before = s.l.state(&id);
    assert!(before.completed);
    let (a, b, late) = (s.ms[0], s.ms[1], s.l.generate());
    s.l.claim_refund(&id, &a).unwrap();
    s.l.join_waitlist(&id, &late).unwrap();
    s.l.claim_refund(&id, &b).unwrap();
    assert_eq!(s.l.settle_round(&id), Err(Error::AlreadyCompleted));
    assert_eq!(s.l.mark_default(&id, &admins, &b), Err(Error::AlreadyCompleted));
    assert_eq!(s.l.claim_refund(&id, &a), Err(Error::AlreadyClaimed));
    let st = s.l.state(&id);
    assert!(st.completed);
    assert_eq!((st.reserve, st.refund_share), (before.reserve, before.refund_share));
    assert_balanced(&s);
}

#[test]
fn the_contract_is_never_overdrawn() {
    let mut s = locked(3, 100, 200);
    let (id, token, cid) = (s.id, s.token, s.l.cid());
    let (a, b) = (s.ms[0], s.ms[1]);
    for m in [a, b] {
        s.l.contribute(&id, &m).unwrap();
    }
    s.l.advance_time(28 * DAY);
    s.l.settle_round(&id).unwrap();
    assert!(s.l.balance(&token, &cid) >= 0);
    for m in [a, b] {
        s.l.contribute(&id, &m).unwrap();
    }
    s.l.submit_bid(&id, &b, 0).unwrap();
    s.l.settle_round(&id).unwrap();
    // The seized 200 paid for the empty seat in both rounds.
    assert_eq!(s.l.state(&id).reserve, 0);
    assert_eq!(s.l.balance(&token, &cid), 400);
    s.l.claim_refund(&id, &a).unwrap();
    s.l.claim_refund(&id, &b).unwrap();
    assert_eq!(s.l.balance(&token, &cid), 0);
}

#[test]
fn a_group_that_everyone_left_before_the_lock_is_completed() {
    let mut s = gathered(3, 100, 500, 10);
    let (id, admins) = (s.id, signer(&s));
    for m in s.ms.clone().iter() {
        s.l.mark_default(&id, &admins, m).unwrap();
    }
    let st = s.l.state(&id);
    assert!(st.completed && !st.locked);
    assert_eq!((st.reserve, st.refund_share), (1500, 0));
    // It still takes joins, and gives their collateral back.
    let m = s.l.generate();
    s.l.mint(&s.token.clone(), &m, 500);
    s.l.join_group(&id, &m).unwrap();
    assert_balanced(&s);
    s.l.claim_refund(&id, &m).unwrap();
    assert_eq!(s.l.balance(&s.token, &m), 500);
    assert_balanced(&s);
}

#[test]
fn a_written_group_is_read_back() {
    let mut s = gathered(3, 100, 500, 10);
    let (token, admins, other) = (s.token, signer(&s), symbol("grp2"));
    s.l.create_group(&other, &admins, 1, &token, 7, 50, 0, 3, DAY).unwrap();
    let untouched = s.l.state(&other);
    let mut changed = s.l.state(&s.id);
    changed.reserve = 42;
    changed.waitlist.push(admins[0]);
    s.l.contract.put_group(s.id, changed.clone());
    assert_eq!(s.l.contract.get_group(s.id), Ok(changed));
    assert_eq!(s.l.contract.get_group(other), Ok(untouched));
    assert_eq!(s.l.contract.actions, write_of(s.id));
    assert_eq!(s.l.contract.get_group(symbol("nope")), Err(Error::GroupNotFound));
}

#[test]
fn a_locked_group_stays_locked() {
    let mut s = locked(3, 100, 500);
    let (id, admins, late) = (s.id, signer(&s), s.l.generate());
    s.l.join_waitlist(&id, &late).unwrap();
    assert_eq!(s.l.join_group(&id, &late), Err(Error::AlreadyLocked));
    for m in s.ms.clone().iter() {
        s.l.mark_default(&id, &admins, m).unwrap();
        assert!(s.l.state(&id).locked);
    }
    assert!(s.l.state(&id).completed);
    assert_eq!(s.l.lock_group(&id, &admins), Err(Error::AlreadyLocked));
    assert!(s.l.state(&id).locked);
}

#[test]
fn seats_are_as_many_as_joined() {
    let mut s = gathered(4, 100, 500, 10);
    let (id, admins, token) = (s.id, signer(&s), s.token);
    let seats = |s: &Setup| {
        let st = s.l.state(&s.id);
        active_count(&st.members) + st.open_slots
    };
    assert_eq!(seats(&s), 4);
    // A refused join takes no seat, and a default before the lock only opens one.
    let first = s.ms[0];
    assert_eq!(s.l.join_group(&id, &first), Err(Error::AlreadyMember));
    s.l.mark_default(&id, &admins, &first).unwrap();
    assert_eq!(seats(&s), 4);
    let late = s.l.generate();
    s.l.mint(&token, &late, 10_000);
    s.l.join_waitlist(&id, &late).unwrap();
    s.l.promote_from_waitlist(&id, &late).unwrap();
    assert_eq!(seats(&s), 4);
    s.l.lock_group(&id, &admins).unwrap();
    // The lock counts the defaulted seat too.
    assert_eq!(s.l.state(&id).slots, 5);
    for m in [s.ms[1], s.ms[2]] {
        s.l.contribute(&id, &m).unwrap();
    }
    s.l.advance_time(28 * DAY);
    s.l.settle_round(&id).unwrap();
    assert_eq!(s.l.state(&id).open_slots, 2);
    assert_eq!(seats(&s), 4);
}

#[test]
fn only_tokens_that_were_approved_move() {
    let mut s = gathered(3, 100, 500, 10);
    let (id, admins, token, admin) = (s.id, signer(&s), s.token, s.protocol_admin);
    // A group keeps its token after the allowlist dropped it, and moves no other.
    s.l.remove_approved_token(&admin, &token).unwrap();
    s.l.lock_group(&id, &admins).unwrap();
    for m in s.ms.clone().iter() {
        s.l.contribute(&id, m).unwrap();
    }
    for m in s.ms.clone().iter() {
        s.l.submit_bid(&id, m, 300).unwrap();
    }
    assert_eq!(s.l.contract.settle_round(id, 0), Ok(()));
    let moved: Vec<Address> = s
        .l
        .contract
        .actions
        .iter()
        .filter_map(|a| match a {
            Action::Transfer { token, .. } => Some(*token),
            _ => None,
        })
        .collect();
    assert_eq!(moved, vec![token, token, token]);
    s.l.flush(Ok(())).unwrap();
    // A token that was never approved starts no group.
    let other = s.l.generate();
    let r = s.l.create_group(&symbol("grp2"), &admins, 1, &other, 100, 500, 2000, 10, DAY);
    assert_eq!(r, Err(Error::TokenNotApproved));
}
