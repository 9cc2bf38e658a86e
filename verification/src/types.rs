//! The values that the contract stores and exchanges, and their mathematical views.

use vstd::prelude::*;

verus! {

/// Upper bound on members per group. A group's whole state lives in one ledger
/// entry and settling a round pays every member, so an unbounded group can
/// become impossible to settle.
pub const MAX_MEMBERS: u32 = 50;

/// Highest bid, in basis points of the pot, that a group may be configured to accept.
pub const MAX_BID_BPS: u32 = 5000;

/// Basis points in a whole.
pub const BPS: i128 = 10_000;

/// The bid of a member that submitted none this round.
pub const NO_BID: i32 = -1;

/// Remaining lifetime, in ledgers, under which an entry's lifetime is extended:
/// 30 days of 17,280 ledgers.
pub const TTL_THRESHOLD: u32 = 30 * 17_280;

/// Lifetime, in ledgers, that an entry is extended to: 120 days of 17,280 ledgers.
pub const TTL_EXTEND_TO: u32 = 120 * 17_280;

/// Why a call was refused.
#[derive(Copy, Clone, Debug, PartialEq, Eq, PartialOrd, Ord, Structural)]
pub enum Error {
    GroupAlreadyExists,
    GroupNotFound,
    NotAdmin,
    AlreadyLocked,
    NotLocked,
    GroupFull,
    AlreadyMember,
    NotAMember,
    TooFewMembersToLock,
    BidTooHigh,
    AlreadyBidThisRound,
    AlreadyContributedThisRound,
    NotAllContributed,
    NotAllBid,
    MemberNotActive,
    MemberAlreadyDefaulted,
    NothingToSettle,
    InvalidConfig,
    NotEligibleThisRotation,
    NotEnoughAdminSignatures,
    DuplicateAdmin,
    AlreadyOnWaitlist,
    NotNextInWaitlist,
    NoOpenSlots,
    NotInitialized,
    AlreadyInitialized,
    TokenNotApproved,
    NotProtocolAdmin,
    AlreadyCompleted,
    NotCompleted,
    AlreadyClaimed,
    CollateralTooLow,
}

/// The number by which clients know an error.
pub open spec fn error_number(e: Error) -> int {
    match e {
        Error::GroupAlreadyExists => 1,
        Error::GroupNotFound => 2,
        Error::NotAdmin => 3,
        Error::AlreadyLocked => 4,
        Error::NotLocked => 5,
        Error::GroupFull => 6,
        Error::AlreadyMember => 7,
        Error::NotAMember => 8,
        Error::TooFewMembersToLock => 9,
        Error::BidTooHigh => 10,
        Error::AlreadyBidThisRound => 11,
        Error::AlreadyContributedThisRound => 12,
        Error::NotAllContributed => 13,
        Error::NotAllBid => 14,
        Error::MemberNotActive => 15,
        Error::MemberAlreadyDefaulted => 16,
        Error::NothingToSettle => 17,
        Error::InvalidConfig => 18,
        Error::NotEligibleThisRotation => 19,
        Error::NotEnoughAdminSignatures => 20,
        Error::DuplicateAdmin => 21,
        Error::AlreadyOnWaitlist => 22,
        Error::NotNextInWaitlist => 23,
        Error::NoOpenSlots => 24,
        Error::NotInitialized => 25,
        Error::AlreadyInitialized => 26,
        Error::TokenNotApproved => 27,
        Error::NotProtocolAdmin => 28,
        Error::AlreadyCompleted => 29,
        Error::NotCompleted => 30,
        Error::AlreadyClaimed => 31,
        Error::CollateralTooLow => 32,
    }
}

impl Error {
    /// The number by which clients know this error.
    pub fn code(self) -> (n: u32)
        ensures
            n == error_number(self),
    {
        match self {
            Error::GroupAlreadyExists => 1,
            Error::GroupNotFound => 2,
            Error::NotAdmin => 3,
            Error::AlreadyLocked => 4,
            Error::NotLocked => 5,
            Error::GroupFull => 6,
            Error::AlreadyMember => 7,
            Error::NotAMember => 8,
            Error::TooFewMembersToLock => 9,
            Error::BidTooHigh => 10,
            Error::AlreadyBidThisRound => 11,
            Error::AlreadyContributedThisRound => 12,
            Error::NotAllContributed => 13,
            Error::NotAllBid => 14,
            Error::MemberNotActive => 15,
            Error::MemberAlreadyDefaulted => 16,
            Error::NothingToSettle => 17,
            Error::InvalidConfig => 18,
            Error::NotEligibleThisRotation => 19,
            Error::NotEnoughAdminSignatures => 20,
            Error::DuplicateAdmin => 21,
            Error::AlreadyOnWaitlist => 22,
            Error::NotNextInWaitlist => 23,
            Error::NoOpenSlots => 24,
            Error::NotInitialized => 25,
            Error::AlreadyInitialized => 26,
            Error::TokenNotApproved => 27,
            Error::NotProtocolAdmin => 28,
            Error::AlreadyCompleted => 29,
            Error::NotCompleted => 30,
            Error::AlreadyClaimed => 31,
            Error::CollateralTooLow => 32,
        }
    }
}

/// An account or contract on the ledger: which of the two it is, and the two
/// halves of its 32-byte key.
#[derive(Copy, Clone, Debug, PartialEq, Eq, Structural)]
pub struct Address {
    pub contract: bool,
    pub high: u128,
    pub low: u128,
}

/// The name of a group: the two halves of its text, padded with zeros to 32 bytes.
#[derive(Copy, Clone, Debug, PartialEq, Eq, Structural)]
pub struct Symbol {
    pub high: u128,
    pub low: u128,
}

/// The keys under which the contract keeps its entries.
#[derive(Copy, Clone, Debug, PartialEq, Eq, Structural)]
pub enum DataKey {
    /// A group's state, by the group's id.
    Group(Symbol),
    /// The address that controls the approved-token allowlist, and nothing else.
    ProtocolAdmin,
    /// The stablecoin allowlist.
    ApprovedTokens,
    /// Every group id ever created, in order of creation.
    GroupRegistry,
}

/// What the host is to do for the contract, in the order in which it is listed.
#[derive(Copy, Clone, Debug, PartialEq, Eq, Structural)]
pub enum Action {
    /// Abort the call unless this address authorized it.
    RequireAuth(Address),
    /// Move `amount` of `token`.
    Transfer { token: Address, from: Address, to: Address, amount: i128 },
    /// Write the entry under this key.
    Write(DataKey),
    /// Let the persistent entry under `key` last for `extend_to` more ledgers, if fewer
    /// than `threshold` are left to it.
    ExtendTtl { key: DataKey, threshold: u32, extend_to: u32 },
    /// The same for the contract instance.
    ExtendInstanceTtl { threshold: u32, extend_to: u32 },
}

/// The terms of a group, fixed at creation.
#[derive(Debug, PartialEq)]
pub struct GroupConfig {
    /// The fixed set of addresses eligible to act as admin.
    pub admins: Vec<Address>,
    /// How many of `admins` must co-sign an admin action.
    pub admin_threshold: u32,
    /// The asset this group contributes and pays out in.
    pub token: Address,
    /// Per member, per round, in the token's base units.
    pub contribution: i128,
    /// Flat collateral required to join.
    pub collateral: i128,
    /// Highest bid, in basis points of the pot.
    pub max_bid_bps: u32,
    pub max_members: u32,
    /// Deadline length for each round, in seconds.
    pub round_duration_secs: u64,
}

/// One seat of a group.
#[derive(Copy, Clone, Debug, PartialEq, Eq, Structural)]
pub struct Member {
    pub addr: Address,
    pub active: bool,
    pub defaulted: bool,
    pub won_this_rotation: bool,
    pub contributed_this_round: bool,
    /// [`NO_BID`] while no bid was submitted this round.
    pub bid_bps: i32,
    pub total_wins: u32,
    pub total_contributed: i128,
    /// Net payouts, bonuses and refunds.
    pub total_received: i128,
    /// Set once the member's refund was paid.
    pub refunded: bool,
}

/// A group.
#[derive(Debug, PartialEq)]
pub struct GroupState {
    pub config: GroupConfig,
    pub members: Vec<Member>,
    /// First come, first promoted.
    pub waitlist: Vec<Address>,
    pub locked: bool,
    pub round: u32,
    pub rotation: u32,
    pub reserve: i128,
    /// Running tally of bad debt.
    pub total_uncovered_shortfall: i128,
    /// From this ledger timestamp on, settling defaults stragglers.
    pub round_deadline: u64,
    /// Slots freed by a default, open to the waitlist.
    pub open_slots: u32,
    /// Member count at lock: a full pot is `slots * contribution`.
    pub slots: u32,
    /// Set once every active member has won; refunds are open.
    pub completed: bool,
    /// Each surviving member's equal share of the leftover reserve.
    pub refund_share: i128,
}

/// The mathematical view of a [`GroupConfig`].
#[verifier::ext_equal]
pub struct ConfigView {
    pub admins: Seq<Address>,
    pub admin_threshold: int,
    pub token: Address,
    pub contribution: int,
    pub collateral: int,
    pub max_bid_bps: int,
    pub max_members: int,
    pub round_duration_secs: int,
}

/// The mathematical view of a [`GroupState`].
#[verifier::ext_equal]
pub struct GroupView {
    pub config: ConfigView,
    pub members: Seq<Member>,
    pub waitlist: Seq<Address>,
    pub locked: bool,
    pub round: int,
    pub rotation: int,
    pub reserve: int,
    pub total_uncovered_shortfall: int,
    pub round_deadline: int,
    pub open_slots: int,
    pub slots: int,
    pub completed: bool,
    pub refund_share: int,
}

impl View for GroupConfig {
    type V = ConfigView;

    open spec fn view(&self) -> ConfigView {
        ConfigView {
            admins: self.admins@,
            admin_threshold: self.admin_threshold as int,
            token: self.token,
            contribution: self.contribution as int,
            collateral: self.collateral as int,
            max_bid_bps: self.max_bid_bps as int,
            max_members: self.max_members as int,
            round_duration_secs: self.round_duration_secs as int,
        }
    }
}

impl View for GroupState {
    type V = GroupView;

    open spec fn view(&self) -> GroupView {
        GroupView {
            config: self.config@,
            members: self.members@,
            waitlist: self.waitlist@,
            locked: self.locked,
            round: self.round as int,
            rotation: self.rotation as int,
            reserve: self.reserve as int,
            total_uncovered_shortfall: self.total_uncovered_shortfall as int,
            round_deadline: self.round_deadline as int,
            open_slots: self.open_slots as int,
            slots: self.slots as int,
            completed: self.completed,
            refund_share: self.refund_share as int,
        }
    }
}

impl Clone for GroupConfig {
    fn clone(&self) -> (res: Self)
        ensures
            res@ == self@,
    {
        let admins = self.admins.clone();
        assert(admins@ =~= self.admins@);
        GroupConfig {
            admins,
            admin_threshold: self.admin_threshold,
            token: self.token,
            contribution: self.contribution,
            collateral: self.collateral,
            max_bid_bps: self.max_bid_bps,
            max_members: self.max_members,
            round_duration_secs: self.round_duration_secs,
        }
    }
}

impl Clone for GroupState {
    fn clone(&self) -> (res: Self)
        ensures
            res@ == self@,
    {
        let members = self.members.clone();
        let waitlist = self.waitlist.clone();
        assert(members@ =~= self.members@);
        assert(waitlist@ =~= self.waitlist@);
        GroupState {
            config: self.config.clone(),
            members,
            waitlist,
            locked: self.locked,
            round: self.round,
            rotation: self.rotation,
            reserve: self.reserve,
            total_uncovered_shortfall: self.total_uncovered_shortfall,
            round_deadline: self.round_deadline,
            open_slots: self.open_slots,
            slots: self.slots,
            completed: self.completed,
            refund_share: self.refund_share,
        }
    }
}

} // verus!
