//! A rotating savings contract.
//!
//! Members of a group post collateral and pay a contribution each round; the member with
//! the highest bid takes the pot, less what it bid, which the others share. A member that
//! does not pay by the deadline is defaulted, and its collateral tops up the pots to come.
//! Once every active member has won, the group is completed, and survivors are refunded
//! their collateral and an equal share of what the reserve has left.
//!
//! [`contract::LiholiswanoContractV2`] holds the entries of the contract and answers its
//! calls. Money, signatures and storage are the host's: each call lists the
//! [`types::Action`]s that it asks for. What a call does is defined in [`calls`] and
//! [`rules`]. What each call is for is proved in [`requests`], [`rounds`] and [`answers`],
//! and what holds over every history of calls in [`laws`].

pub mod amounts;
pub mod answers;
pub mod books;
pub mod calls;
pub mod contract;
pub mod group;
pub mod history;
pub mod laws;
pub mod members;
pub mod requests;
pub mod rounds;
pub mod rules;
pub mod solvency;
pub mod types;
pub mod upkeep;
