use std::collections::HashMap;

use liholiswano::contract::LiholiswanoContractV2;
use liholiswano::group::active_count;
use liholiswano::types::{Action, Address, Error, GroupState, Member, Symbol, MAX_MEMBERS};

const DAY: u64 = 24 * 60 * 60;

/// A ledger with the contract on it: time, token balances, and every authorization given.
struct Ledger {
    contract: LiholiswanoContractV2,
    now: u64,
    balances: HashMap<(u128, u128), i128>,
    issued: u128,
}

fn symbol(text: &str) -> Symbol {
    let mut padded = [0u8; 32];
    padded[..text.len()].copy_from_slice(text.as_bytes());
    let mut high = [0u8; 16];
    let mut low = [0u8; 16];
    high.copy_from_slice(&padded[..16]);
    low.copy_from_slice(&padded[16..]);
    Symbol { high: u128::from_be_bytes(high), low: u128::from_be_bytes(low) }
}

impl Ledger {
    fn new() -> Ledger {
        let address = Address { contract: true, high: 0, low: 1 };
        Ledger {
            contract: LiholiswanoContractV2::new(address),
            now: 0,
            balances: HashMap::new(),
            issued: 1,
        }
    }

    fn generate(&mut self) -> Address {
        self.issued += 1;
        Address { contract: false, high: 0, low: self.issued }
    }

    fn cid(&self) -> Address {
        self.contract.address
    }

    fn mint(&mut self, token: &Address, to: &Address, amount: i128) {
        *self.balances.entry((token.low, to.low)).or_insert(0) += amount;
    }

    fn balance(&self, token: &Address, of: &Address) -> i128 {
        *self.balances.get(&(token.low, of.low)).unwrap_or(&0)
    }

    fn advance_time(&mut self, by_secs: u64) {
        self.now += by_secs;
    }

    /// Carries out what the last call asked for.
    fn flush(&mut self, res: Result<(), Error>) -> Result<(), Error> {
        let actions: Vec<Action> = self.contract.actions.drain(..).collect();
        for action in actions {
            if let Action::Transfer { token, from, to, amount } = action {
                assert!(amount > 0);
                let left = self.balances.entry((token.low, from.low)).or_insert(0);
                *left -= amount;
                assert!(*left >= 0, "transfer without funds");
                *self.balances.entry((token.low, to.low)).or_insert(0) += amount;
            }
        }
        assert!(self.contract.is_valid());
        res
    }

    fn initialize(&mut self, admin: &Address) -> Result<(), Error> {
        let res = self.contract.initialize(*admin);
        self.flush(res)
    }

    fn add_approved_token(&mut self, admin: &Address, token: &Address) -> Result<(), Error> {
        let res = self.contract.add_approved_token(*admin, *token);
        self.flush(res)
    }

    fn init_and_approve(&mut self, token: &Address) {
        let protocol_admin = self.generate();
        self.initialize(&protocol_admin).unwrap();
        self.add_approved_token(&protocol_admin, token).unwrap();
    }

    #[allow(clippy::too_many_arguments)]
    fn create_group(
        &mut self,
        id: &Symbol,
        admins: &Vec<Address>,
        admin_threshold: u32,
        token: &Address,
        contribution: i128,
        collateral: i128,
        max_bid_bps: u32,
        max_members: u32,
        round_duration_secs: u64,
    ) -> Result<(), Error> {
        let res = self.contract.create_group(
            *id,
            admins.clone(),
            admin_threshold,
            *token,
            contribution,
            collateral,
            max_bid_bps,
            max_members,
            round_duration_secs,
        );
        self.flush(res)
    }

    fn join_group(&mut self, id: &Symbol, m: &Address) -> Result<(), Error> {
        let res = self.contract.join_group(*id, *m);
        self.flush(res)
    }

    fn join_waitlist(&mut self, id: &Symbol, m: &Address) -> Result<(), Error> {
        let res = self.contract.join_waitlist(*id, *m);
        self.flush(res)
    }

    fn promote_from_waitlist(&mut self, id: &Symbol, m: &Address) -> Result<(), Error> {
        let res = self.contract.promote_from_waitlist(*id, *m);
        self.flush(res)
    }

    fn lock_group(&mut self, id: &Symbol, admins: &Vec<Address>) -> Result<(), Error> {
        let res = self.contract.lock_group(*id, admins, self.now);
        self.flush(res)
    }

    fn contribute(&mut self, id: &Symbol, m: &Address) -> Result<(), Error> {
        let res = self.contract.contribute(*id, *m);
        self.flush(res)
    }

    fn submit_bid(&mut self, id: &Symbol, m: &Address, bps: u32) -> Result<(), Error> {
        let res = self.contract.submit_bid(*id, *m, bps);
        self.flush(res)
    }

    fn settle_round(&mut self, id: &Symbol) -> Result<(), Error> {
        let res = self.contract.settle_round(*id, self.now);
        self.flush(res)
    }

    fn claim_refund(&mut self, id: &Symbol, m: &Address) -> Result<(), Error> {
        let res = self.contract.claim_refund(*id, *m);
        self.flush(res)
    }

    fn mark_default(
        &mut self,
        id: &Symbol,
        admins: &Vec<Address>,
        m: &Address,
    ) -> Result<(), Error> {
        let res = self.contract.mark_default(*id, admins, *m);
        self.flush(res)
    }

    fn state(&self, id: &Symbol) -> GroupState {
        self.contract.get_group_state(*id).unwrap()
    }

    fn member(&self, id: &Symbol, m: &Address) -> Member {
        self.contract.get_member(*id, *m).unwrap()
    }
}

#[test]
fn create_join_lock_happy_path_with_multi_admin() {
    let mut l = Ledger::new();
    let token = l.generate();
    l.init_and_approve(&token);

    let admin1 = l.generate();
    let admin2 = l.generate();
    let admin3 = l.generate();
    let m1 = l.generate();
    let m2 = l.generate();
    let m3 = l.generate();
    for m in [&m1, &m2, &m3] {
        l.mint(&token, m, 1_000);
    }

    let id = symbol("grp1");
    let admins = vec![admin1, admin2, admin3];
    l.create_group(&id, &admins, 2, &token, 100, 500, 2000, 10, 28 * DAY).unwrap();

    l.join_group(&id, &m1).unwrap();
    l.join_group(&id, &m2).unwrap();
    l.join_group(&id, &m3).unwrap();

    // Two of the three admins co-sign, which is the threshold.
    let signing_admins = vec![admin1, admin2];
    l.lock_group(&id, &signing_admins).unwrap();

    let state = l.state(&id);
    assert!(state.locked);
    assert_eq!(state.round, 1);
    assert_eq!(state.round_deadline, 28 * DAY);
}

#[test]
fn lock_fails_with_too_few_admin_signatures() {
    let mut l = Ledger::new();
    let token = l.generate();
    l.init_and_approve(&token);

    let admin1 = l.generate();
    let admin2 = l.generate();
    let m1 = l.generate();
    let m2 = l.generate();
    let m3 = l.generate();
    for m in [&m1, &m2, &m3] {
        l.mint(&token, m, 1_000);
    }

    let id = symbol("grp1");
    let admins = vec![admin1, admin2];
    l.create_group(&id, &admins, 2, &token, 100, 500, 2000, 10, 28 * DAY).unwrap();
    l.join_group(&id, &m1).unwrap();
    l.join_group(&id, &m2).unwrap();
    l.join_group(&id, &m3).unwrap();

    let only_one = vec![admin1];
    let result = l.lock_group(&id, &only_one);
    assert_eq!(result, Err(Error::NotEnoughAdminSignatures));
}

#[test]
fn auto_default_after_deadline_and_waitlist_promotion_fills_the_slot() {
    let mut l = Ledger::new();
    let token = l.generate();
    l.init_and_approve(&token);

    let admin = l.generate();
    let m1 = l.generate();
    let m2 = l.generate();
    let m3 = l.generate();
    let waiter = l.generate();
    for m in [&m1, &m2, &m3, &waiter] {
        l.mint(&token, m, 1_000);
    }

    let id = symbol("grp1");
    let admins = vec![admin];
    l.create_group(&id, &admins, 1, &token, 100, 500, 2000, 10, 28 * DAY).unwrap();
    l.join_group(&id, &m1).unwrap();
    l.join_group(&id, &m2).unwrap();
    l.join_group(&id, &m3).unwrap();

    // Someone queues up before the group is even locked.
    l.join_waitlist(&id, &waiter).unwrap();

    l.lock_group(&id, &admins).unwrap();

    // m1 and m2 do their part; m3 goes silent.
    l.contribute(&id, &m1).unwrap();
    l.contribute(&id, &m2).unwrap();
    l.submit_bid(&id, &m1, 0).unwrap();
    l.submit_bid(&id, &m2, 0).unwrap();

    // Before the deadline, settling still fails: m3 has not acted.
    let too_early = l.settle_round(&id);
    assert_eq!(too_early, Err(Error::NotAllContributed));

    l.advance_time(28 * DAY + 1);

    // Now anyone can settle; m3 is defaulted instead of blocking it.
    l.settle_round(&id).unwrap();

    let state = l.state(&id);
    let m3_state = l.member(&id, &m3);
    assert!(m3_state.defaulted);
    assert!(!m3_state.active);
    // m3's 500 collateral was seized into the reserve, and settling this
    // round immediately topped the pot up by the 100 m3 failed to pay.
    assert_eq!(state.reserve, 400);
    assert_eq!(state.total_uncovered_shortfall, 0);
    assert_eq!(state.open_slots, 1);
    assert_eq!(active_count(&state.members), 2);

    // The waitlisted member takes the freed slot.
    let cid = l.cid();
    let balance_before_promotion = l.balance(&token, &cid);
    l.promote_from_waitlist(&id, &waiter).unwrap();
    let state = l.state(&id);
    assert_eq!(state.open_slots, 0);
    assert_eq!(active_count(&state.members), 3);
    // Promotion adds exactly one fresh collateral transfer into the contract.
    assert_eq!(l.balance(&token, &cid), balance_before_promotion + 500);
}

#[test]
fn promote_out_of_turn_rejected() {
    let mut l = Ledger::new();
    let token = l.generate();
    l.init_and_approve(&token);

    let admin = l.generate();
    let m1 = l.generate();
    let m2 = l.generate();
    let m3 = l.generate();
    let first_in_line = l.generate();
    let second_in_line = l.generate();
    for m in [&m1, &m2, &m3, &first_in_line, &second_in_line] {
        l.mint(&token, m, 1_000);
    }

    let id = symbol("grp1");
    let admins = vec![admin];
    l.create_group(&id, &admins, 1, &token, 100, 500, 2000, 10, 28 * DAY).unwrap();
    l.join_group(&id, &m1).unwrap();
    l.join_group(&id, &m2).unwrap();
    l.join_group(&id, &m3).unwrap();
    l.join_waitlist(&id, &first_in_line).unwrap();
    l.join_waitlist(&id, &second_in_line).unwrap();
    l.lock_group(&id, &admins).unwrap();

    l.mark_default(&id, &admins, &m3).unwrap();

    let result = l.promote_from_waitlist(&id, &second_in_line);
    assert_eq!(result, Err(Error::NotNextInWaitlist));

    // The rightful next-in-line succeeds.
    l.promote_from_waitlist(&id, &first_in_line).unwrap();
    let state = l.state(&id);
    assert_eq!(state.waitlist.len(), 1);
    assert_eq!(state.waitlist[0], second_in_line);
}

#[test]
fn settle_round_conserves_value_with_uneven_split() {
    let mut l = Ledger::new();
    let token = l.generate();
    l.init_and_approve(&token);

    let admin = l.generate();
    let m1 = l.generate();
    let m2 = l.generate();
    let m3 = l.generate();
    for m in [&m1, &m2, &m3] {
        l.mint(&token, m, 1_000);
    }

    let id = symbol("grp1");
    let admins = vec![admin];
    l.create_group(&id, &admins, 1, &token, 100, 500, 2000, 10, 28 * DAY).unwrap();
    l.join_group(&id, &m1).unwrap();
    l.join_group(&id, &m2).unwrap();
    l.join_group(&id, &m3).unwrap();
    l.lock_group(&id, &admins).unwrap();

    for m in [&m1, &m2, &m3] {
        l.contribute(&id, m).unwrap();
    }
    l.submit_bid(&id, &m1, 1000).unwrap(); // 10%
    l.submit_bid(&id, &m2, 0).unwrap();
    l.submit_bid(&id, &m3, 0).unwrap();

    let cid = l.cid();
    let contract_balance_before = l.balance(&token, &cid);
    l.settle_round(&id).unwrap();
    let contract_balance_after = l.balance(&token, &cid);

    // pot = 300, bid = 30 (10%), net to winner = 270, split 30 between 2
    // others = 15 each, remainder 0 to reserve.
    let state = l.state(&id);
    assert_eq!(state.reserve, 0);
    assert_eq!(contract_balance_before - contract_balance_after, 270 + 15 + 15);
}

#[test]
fn cannot_join_after_lock() {
    let mut l = Ledger::new();
    let token = l.generate();
    l.init_and_approve(&token);

    let admin = l.generate();
    let m1 = l.generate();
    let m2 = l.generate();
    let m3 = l.generate();
    let latecomer = l.generate();
    for m in [&m1, &m2, &m3, &latecomer] {
        l.mint(&token, m, 1_000);
    }

    let id = symbol("grp1");
    let admins = vec![admin];
    l.create_group(&id, &admins, 1, &token, 100, 500, 2000, 10, 28 * DAY).unwrap();
    l.join_group(&id, &m1).unwrap();
    l.join_group(&id, &m2).unwrap();
    l.join_group(&id, &m3).unwrap();
    l.lock_group(&id, &admins).unwrap();

    let result = l.join_group(&id, &latecomer);
    assert_eq!(result, Err(Error::AlreadyLocked));
}

#[test]
fn non_admin_cannot_lock() {
    let mut l = Ledger::new();
    let token = l.generate();
    l.init_and_approve(&token);

    let admin = l.generate();
    let impostor = l.generate();
    let m1 = l.generate();
    let m2 = l.generate();
    let m3 = l.generate();
    for m in [&m1, &m2, &m3] {
        l.mint(&token, m, 1_000);
    }

    let id = symbol("grp1");
    let admins = vec![admin];
    l.create_group(&id, &admins, 1, &token, 100, 500, 2000, 10, 28 * DAY).unwrap();
    l.join_group(&id, &m1).unwrap();
    l.join_group(&id, &m2).unwrap();
    l.join_group(&id, &m3).unwrap();

    let bogus = vec![impostor];
    let result = l.lock_group(&id, &bogus);
    assert_eq!(result, Err(Error::NotAdmin));
}

#[test]
fn reading_unknown_group_fails() {
    let l = Ledger::new();
    let id = symbol("nope");
    let result = l.contract.get_group_state(id);
    assert_eq!(result, Err(Error::GroupNotFound));
}

#[test]
fn create_group_rejects_unapproved_token() {
    let mut l = Ledger::new();
    let token = l.generate();

    // Initialize, but do not approve the token: creating a group must refuse it.
    let protocol_admin = l.generate();
    l.initialize(&protocol_admin).unwrap();

    let admin = l.generate();
    let id = symbol("grp1");
    let admins = vec![admin];
    let result = l.create_group(&id, &admins, 1, &token, 100, 500, 2000, 10, 28 * DAY);
    assert_eq!(result, Err(Error::TokenNotApproved));

    // Once approved, the identical call succeeds.
    l.add_approved_token(&protocol_admin, &token).unwrap();
    let m1 = l.generate();
    l.mint(&token, &m1, 10_000);
    let ok = l.create_group(&id, &admins, 1, &token, 100, 500, 2000, 10, 28 * DAY);
    assert!(ok.is_ok());
}

#[test]
fn create_group_before_initialize_fails() {
    let mut l = Ledger::new();
    let token = l.generate();

    let admin = l.generate();
    let id = symbol("grp1");
    let admins = vec![admin];
    let result = l.create_group(&id, &admins, 1, &token, 100, 500, 2000, 10, 28 * DAY);
    assert_eq!(result, Err(Error::NotInitialized));
}

#[test]
fn non_protocol_admin_cannot_approve_tokens() {
    let mut l = Ledger::new();
    let token = l.generate();

    let protocol_admin = l.generate();
    let stranger = l.generate();
    l.initialize(&protocol_admin).unwrap();

    let result = l.add_approved_token(&stranger, &token);
    assert_eq!(result, Err(Error::NotProtocolAdmin));
}

#[test]
fn cannot_initialize_twice() {
    let mut l = Ledger::new();

    let admin1 = l.generate();
    let admin2 = l.generate();
    l.initialize(&admin1).unwrap();
    let result = l.initialize(&admin2);
    assert_eq!(result, Err(Error::AlreadyInitialized));
}

#[test]
fn list_groups_enumerates_every_created_group_for_automation() {
    let mut l = Ledger::new();
    let token = l.generate();
    l.init_and_approve(&token);

    let admin = l.generate();
    let admins = vec![admin];

    let id1 = symbol("grp1");
    let id2 = symbol("grp2");
    l.create_group(&id1, &admins, 1, &token, 100, 500, 2000, 10, 28 * DAY).unwrap();
    l.create_group(&id2, &admins, 1, &token, 100, 500, 2000, 10, 28 * DAY).unwrap();

    let groups = l.contract.list_groups();
    assert_eq!(groups.len(), 2);
    assert!(groups.contains(&id1));
    assert!(groups.contains(&id2));
}

struct Fixture {
    l: Ledger,
    token: Address,
    id: Symbol,
    admins: Vec<Address>,
    ms: [Address; 3],
}

fn fixture() -> Fixture {
    let mut l = Ledger::new();
    let token = l.generate();
    l.init_and_approve(&token);
    let admin = l.generate();
    let ms = [l.generate(), l.generate(), l.generate()];
    for m in ms.iter() {
        l.mint(&token, m, 10_000);
    }
    let id = symbol("grp1");
    let admins = vec![admin];
    l.create_group(&id, &admins, 1, &token, 100, 500, 2000, 10, 28 * DAY).unwrap();
    for m in ms.iter() {
        l.join_group(&id, m).unwrap();
    }
    l.lock_group(&id, &admins).unwrap();
    Fixture { l, token, id, admins, ms }
}

fn play_round(f: &mut Fixture, bids: [u32; 3]) {
    let id = f.id;
    let ms = f.ms;
    for m in ms.iter() {
        f.l.contribute(&id, m).unwrap();
    }
    for (m, b) in ms.iter().zip(bids.iter()) {
        // A member who already won this rotation cannot bid; that is fine.
        let _ = f.l.submit_bid(&id, m, *b);
    }
    f.l.settle_round(&id).unwrap();
}

#[test]
fn full_cycle_completes_and_every_unit_leaves_the_contract() {
    let mut f = fixture();
    let (id, token, ms) = (f.id, f.token, f.ms);

    play_round(&mut f, [0, 0, 0]);
    play_round(&mut f, [0, 0, 0]);
    assert!(!f.l.state(&id).completed);
    play_round(&mut f, [0, 0, 0]);

    let st = f.l.state(&id);
    assert!(st.completed, "cycle must complete once all 3 have won");
    assert_eq!(st.refund_share, 0);

    // Contributions can no longer be made, and settle is closed.
    assert_eq!(f.l.contribute(&id, &ms[0]), Err(Error::AlreadyCompleted));
    assert_eq!(f.l.settle_round(&id), Err(Error::AlreadyCompleted));

    for m in ms.iter() {
        f.l.claim_refund(&id, m).unwrap();
    }
    // Everyone is exactly whole again: paid 300 in, won 300, got 500 back.
    for m in ms.iter() {
        assert_eq!(f.l.balance(&token, m), 10_000);
    }
    assert_eq!(f.l.balance(&token, &f.l.cid()), 0);
}

#[test]
fn refund_cannot_be_claimed_twice_or_early() {
    let mut f = fixture();
    let (id, ms) = (f.id, f.ms);
    assert_eq!(f.l.claim_refund(&id, &ms[0]), Err(Error::NotCompleted));
    play_round(&mut f, [0, 0, 0]);
    play_round(&mut f, [0, 0, 0]);
    play_round(&mut f, [0, 0, 0]);
    f.l.claim_refund(&id, &ms[0]).unwrap();
    assert_eq!(f.l.claim_refund(&id, &ms[0]), Err(Error::AlreadyClaimed));
}

#[test]
fn reserve_tops_up_pot_when_a_winner_defaults_and_leftover_is_refunded() {
    let mut f = fixture();
    let (id, token, ms) = (f.id, f.token, f.ms);
    let cid = f.l.cid();

    // Round 1: ms[0] wins (bids 5%: pays 15 of the 300 pot, split 7/7, 1 dust to reserve).
    for m in ms.iter() {
        f.l.contribute(&id, m).unwrap();
    }
    f.l.submit_bid(&id, &ms[0], 500).unwrap();
    f.l.submit_bid(&id, &ms[1], 0).unwrap();
    f.l.submit_bid(&id, &ms[2], 0).unwrap();
    f.l.settle_round(&id).unwrap();
    assert_eq!(f.l.state(&id).reserve, 1);

    // Round 2: ms[0] (already paid out) stops paying.
    f.l.contribute(&id, &ms[1]).unwrap();
    f.l.contribute(&id, &ms[2]).unwrap();
    f.l.submit_bid(&id, &ms[1], 0).unwrap();
    f.l.submit_bid(&id, &ms[2], 0).unwrap();
    f.l.advance_time(29 * DAY);
    let before = f.l.balance(&token, &cid);
    f.l.settle_round(&id).unwrap();
    // The winner still receives a full 300 pot: 200 collected + 100 from the reserve.
    assert_eq!(before - f.l.balance(&token, &cid), 300);
    let st = f.l.state(&id);
    assert_eq!(st.total_uncovered_shortfall, 0);
    assert_eq!(st.reserve, 1 + 500 - 100);

    // Round 3: last un-won member wins, again a full pot, then the cycle closes.
    f.l.contribute(&id, &ms[1]).unwrap();
    f.l.contribute(&id, &ms[2]).unwrap();
    let _ = f.l.submit_bid(&id, &ms[1], 0);
    let _ = f.l.submit_bid(&id, &ms[2], 0);
    f.l.settle_round(&id).unwrap();
    let st = f.l.state(&id);
    assert!(st.completed);
    assert_eq!(st.total_uncovered_shortfall, 0);

    // Survivors (ms[1], ms[2]) split what is left; ms[0] forfeited everything.
    assert_eq!(f.l.claim_refund(&id, &ms[0]), Err(Error::MemberNotActive));
    f.l.claim_refund(&id, &ms[1]).unwrap();
    f.l.claim_refund(&id, &ms[2]).unwrap();
    // Whatever remains in the contract is exactly the reserve dust.
    let st = f.l.state(&id);
    assert_eq!(f.l.balance(&token, &cid), st.reserve);
    assert!(st.reserve < 2, "at most sub-member dust may remain");
}

#[test]
fn two_defaults_still_pay_full_pots_and_conserve_value_when_collateral_rule_holds() {
    // 4 members, contribution 100, collateral 300 (= the lock-time minimum, 3*100).
    let mut l = Ledger::new();
    let tok = l.generate();
    l.init_and_approve(&tok);
    let admin = l.generate();
    let ms = [l.generate(), l.generate(), l.generate(), l.generate()];
    for m in ms.iter() {
        l.mint(&tok, m, 10_000);
    }
    let id = symbol("grp1");
    let admins = vec![admin];
    l.create_group(&id, &admins, 1, &tok, 100, 300, 2000, 10, 28 * DAY).unwrap();
    for m in ms.iter() {
        l.join_group(&id, m).unwrap();
    }
    l.lock_group(&id, &admins).unwrap();
    let cid = l.cid();

    // Round 1: all pay, ms[0] wins (tie on 0%: lowest index).
    for m in ms.iter() {
        l.contribute(&id, m).unwrap();
    }
    for m in ms.iter() {
        l.submit_bid(&id, m, 0).unwrap();
    }
    l.settle_round(&id).unwrap();

    // Round 2: ms[0] and ms[1] go silent, ms[2] and ms[3] pay.
    l.contribute(&id, &ms[2]).unwrap();
    l.contribute(&id, &ms[3]).unwrap();
    l.submit_bid(&id, &ms[2], 0).unwrap();
    l.submit_bid(&id, &ms[3], 0).unwrap();
    l.advance_time(29 * DAY);
    let before = l.balance(&tok, &cid);
    l.settle_round(&id).unwrap();
    assert_eq!(before - l.balance(&tok, &cid), 400, "winner still gets a full 400 pot");
    assert_eq!(l.state(&id).reserve, 600 - 200);

    // Round 3: the last un-won survivor (ms[3]) wins another full pot; cycle closes.
    l.contribute(&id, &ms[2]).unwrap();
    l.contribute(&id, &ms[3]).unwrap();
    let _ = l.submit_bid(&id, &ms[2], 0);
    l.submit_bid(&id, &ms[3], 0).unwrap();
    l.settle_round(&id).unwrap();
    let st = l.state(&id);
    assert!(st.completed);
    assert_eq!(st.total_uncovered_shortfall, 0);
    assert_eq!(st.refund_share, 100); // (600 - 200 - 200) / 2 survivors

    l.claim_refund(&id, &ms[2]).unwrap();
    l.claim_refund(&id, &ms[3]).unwrap();
    assert_eq!(l.claim_refund(&id, &ms[1]), Err(Error::MemberNotActive));
    assert_eq!(l.balance(&tok, &cid), l.state(&id).reserve);
    assert_eq!(l.state(&id).reserve, 0);
}

#[test]
fn lock_rejects_collateral_that_cannot_cover_a_first_slot_default() {
    let mut l = Ledger::new();
    let tok = l.generate();
    l.init_and_approve(&tok);
    let admin = l.generate();
    let ms = [l.generate(), l.generate(), l.generate()];
    for m in ms.iter() {
        l.mint(&tok, m, 10_000);
    }
    let id = symbol("grp1");
    let admins = vec![admin];
    // 3 members * contribution 100: a first winner could still owe 200; collateral 150 is too low.
    l.create_group(&id, &admins, 1, &tok, 100, 150, 2000, 10, 28 * DAY).unwrap();
    for m in ms.iter() {
        l.join_group(&id, m).unwrap();
    }
    assert_eq!(l.lock_group(&id, &admins), Err(Error::CollateralTooLow));
}

#[test]
fn max_members_is_capped() {
    let mut l = Ledger::new();
    let tok = l.generate();
    l.init_and_approve(&tok);
    let admins = vec![l.generate()];
    let id = symbol("big");
    let r = l.create_group(&id, &admins, 1, &tok, 100, 50_000, 2000, MAX_MEMBERS + 1, 28 * DAY);
    assert_eq!(r, Err(Error::InvalidConfig));
    l.create_group(&id, &admins, 1, &tok, 100, 50_000, 2000, MAX_MEMBERS, 28 * DAY).unwrap();
}

#[test]
fn manual_default_of_a_contributed_member_forfeits_instead_of_stranding() {
    let mut f = fixture();
    let (id, ms) = (f.id, f.ms);
    f.l.contribute(&id, &ms[0]).unwrap();
    let before_reserve = f.l.state(&id).reserve;
    let admins = f.admins.clone();
    f.l.mark_default(&id, &admins, &ms[0]).unwrap();
    let st = f.l.state(&id);
    // 500 collateral + the 100 already contributed this round.
    assert_eq!(st.reserve - before_reserve, 600);
    assert_eq!(st.open_slots, 1);
}
