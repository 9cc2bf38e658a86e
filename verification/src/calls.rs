//! The rules of the contract: what each call does to the contract's entries, which
//! actions it asks of the host, and what it answers.

use vstd::prelude::*;

use crate::rules::{after, created, fits, payments, refusal, Step};
use crate::types::{
    Action, Address, ConfigView, DataKey, Error, GroupView, Symbol, MAX_BID_BPS, MAX_MEMBERS,
    TTL_EXTEND_TO, TTL_THRESHOLD,
};

verus! {

/// The contract's entries, and the actions asked of the host so far.
#[verifier::ext_equal]
pub struct ContractView {
    /// The contract's own address.
    pub address: Address,
    pub protocol_admin: Option<Address>,
    pub approved_tokens: Seq<Address>,
    pub registry: Seq<Symbol>,
    pub groups: Map<Symbol, GroupView>,
    pub actions: Seq<Action>,
}

/// A contract with no entries, at this address.
pub open spec fn fresh(address: Address) -> ContractView {
    ContractView {
        address,
        protocol_admin: None,
        approved_tokens: Seq::empty(),
        registry: Seq::empty(),
        groups: Map::empty(),
        actions: Seq::empty(),
    }
}

/// The contract with these actions asked of the host.
pub open spec fn asking(c: ContractView, actions: Seq<Action>) -> ContractView {
    ContractView { actions: c.actions + actions, ..c }
}

/// What writing a group asks of the host: the write, and longer lifetimes for the
/// group, the registry and the contract instance.
pub open spec fn group_writes(id: Symbol) -> Seq<Action> {
    seq![
        Action::Write(DataKey::Group(id)),
        Action::ExtendTtl {
            key: DataKey::Group(id),
            threshold: TTL_THRESHOLD,
            extend_to: TTL_EXTEND_TO,
        },
        Action::ExtendTtl {
            key: DataKey::GroupRegistry,
            threshold: TTL_THRESHOLD,
            extend_to: TTL_EXTEND_TO,
        },
        Action::ExtendInstanceTtl { threshold: TTL_THRESHOLD, extend_to: TTL_EXTEND_TO },
    ]
}

/// What expires on the ledger unless its lifetime is extended.
pub enum Lasting {
    /// The persistent entry under this key.
    Entry(DataKey),
    /// The contract instance, with what is stored in it.
    Instance,
}

/// A lifetime of `left` ledgers, extended.
pub open spec fn extended(left: int, threshold: u32, extend_to: u32) -> int {
    if left < threshold {
        extend_to as int
    } else {
        left
    }
}

/// How many ledgers are left to `what` after these actions, where `left` were before.
pub open spec fn lifetime(actions: Seq<Action>, what: Lasting, left: int) -> int
    decreases actions.len(),
{
    if actions.len() == 0 {
        left
    } else {
        let before = lifetime(actions.drop_last(), what, left);
        match actions.last() {
            Action::ExtendTtl { key, threshold, extend_to } => if what == Lasting::Entry(key) {
                extended(before, threshold, extend_to)
            } else {
                before
            },
            Action::ExtendInstanceTtl { threshold, extend_to } => if what is Instance {
                extended(before, threshold, extend_to)
            } else {
                before
            },
            _ => before,
        }
    }
}

/// Whether writing a group keeps `what` alive: the group itself, the registry and the
/// contract instance.
pub open spec fn kept_alive(id: Symbol, what: Lasting) -> bool {
    ||| what == Lasting::Entry(DataKey::Group(id))
    ||| what == Lasting::Entry(DataKey::GroupRegistry)
    ||| what is Instance
}

/// The contract with a group's entry written.
pub open spec fn with_group(c: ContractView, id: Symbol, g: GroupView) -> ContractView {
    ContractView { groups: c.groups.insert(id, g), ..asking(c, group_writes(id)) }
}

/// What a call leaves and answers.
pub type Reply = (ContractView, Result<(), Error>);

// The protocol admin's calls

/// Sets the protocol admin, once.
pub open spec fn initialize_reply(c: ContractView, admin: Address) -> Reply {
    if c.protocol_admin is Some {
        (c, Err(Error::AlreadyInitialized))
    } else {
        let asked = seq![
            Action::RequireAuth(admin),
            Action::Write(DataKey::ProtocolAdmin),
            Action::Write(DataKey::ApprovedTokens),
            Action::Write(DataKey::GroupRegistry),
        ];
        (
            ContractView {
                protocol_admin: Some(admin),
                approved_tokens: Seq::empty(),
                registry: Seq::empty(),
                ..asking(c, asked)
            },
            Ok(()),
        )
    }
}

/// Why a call of the protocol admin is refused, if it is.
pub open spec fn protocol_refusal(c: ContractView, admin: Address) -> Option<Error> {
    match c.protocol_admin {
        None => Some(Error::NotInitialized),
        Some(stored) => if admin != stored {
            Some(Error::NotProtocolAdmin)
        } else {
            None
        },
    }
}

/// Adds a token to the allowlist, unless it is there.
pub open spec fn add_token_reply(c: ContractView, admin: Address, token: Address) -> Reply {
    match protocol_refusal(c, admin) {
        Some(e) => (c, Err(e)),
        None => {
            let signed = asking(c, seq![Action::RequireAuth(admin)]);
            if c.approved_tokens.contains(token) {
                (signed, Ok(()))
            } else {
                (
                    ContractView {
                        approved_tokens: c.approved_tokens.push(token),
                        ..asking(signed, seq![Action::Write(DataKey::ApprovedTokens)])
                    },
                    Ok(()),
                )
            }
        },
    }
}

/// `tokens` without `token`, in order.
pub open spec fn without(tokens: Seq<Address>, token: Address) -> Seq<Address>
    decreases tokens.len(),
{
    if tokens.len() == 0 {
        Seq::empty()
    } else if tokens.last() == token {
        without(tokens.drop_last(), token)
    } else {
        without(tokens.drop_last(), token).push(tokens.last())
    }
}

/// Removes a token from the allowlist.
pub open spec fn remove_token_reply(c: ContractView, admin: Address, token: Address) -> Reply {
    match protocol_refusal(c, admin) {
        Some(e) => (c, Err(e)),
        None => (
            ContractView {
                approved_tokens: without(c.approved_tokens, token),
                ..asking(
                    c,
                    seq![Action::RequireAuth(admin), Action::Write(DataKey::ApprovedTokens)],
                )
            },
            Ok(()),
        ),
    }
}

// Admins

/// How many addresses at the head of `supplied` are on the list of `allowed` ones and
/// occur for the first time.
pub open spec fn admitted(allowed: Seq<Address>, supplied: Seq<Address>) -> nat
    decreases supplied.len(),
{
    if supplied.len() == 0 {
        0
    } else {
        let front = supplied.drop_last();
        let n = admitted(allowed, front);
        if n == front.len() && !front.contains(supplied.last()) && allowed.contains(
            supplied.last(),
        ) {
            supplied.len()
        } else {
            n
        }
    }
}

/// Demands that each of these addresses authorized the call.
pub open spec fn signatures(list: Seq<Address>) -> Seq<Action> {
    list.map_values(|a: Address| Action::RequireAuth(a))
}

/// Why these signers cannot act as the admins of a group, if they cannot: the first
/// that signs twice or is no admin, or too few of them.
pub open spec fn admin_refusal(config: ConfigView, supplied: Seq<Address>) -> Option<Error> {
    let n = admitted(config.admins, supplied) as int;
    if n < supplied.len() {
        if supplied.take(n).contains(supplied[n]) {
            Some(Error::DuplicateAdmin)
        } else {
            Some(Error::NotAdmin)
        }
    } else if n < config.admin_threshold {
        Some(Error::NotEnoughAdminSignatures)
    } else {
        None
    }
}

/// The signatures that are demanded of these signers: of each up to the first that
/// signs twice or is no admin.
pub open spec fn admin_signatures(config: ConfigView, supplied: Seq<Address>) -> Seq<Action> {
    signatures(supplied.take(admitted(config.admins, supplied) as int))
}

// Creating a group

/// Whether a group may have these terms.
pub open spec fn valid_config(config: ConfigView) -> bool {
    &&& config.contribution > 0
    &&& config.collateral >= 0
    &&& 0 <= config.max_bid_bps <= MAX_BID_BPS
    &&& 3 <= config.max_members <= MAX_MEMBERS
    &&& config.admins.len() > 0
    &&& 0 < config.admin_threshold <= config.admins.len()
    &&& config.round_duration_secs > 0
}

/// Creates a group, with every admin's signature.
pub open spec fn create_reply(c: ContractView, id: Symbol, config: ConfigView) -> Reply {
    if c.groups.contains_key(id) {
        (c, Err(Error::GroupAlreadyExists))
    } else if !valid_config(config) {
        (c, Err(Error::InvalidConfig))
    } else if c.protocol_admin is None {
        (c, Err(Error::NotInitialized))
    } else if !c.approved_tokens.contains(config.token) {
        (c, Err(Error::TokenNotApproved))
    } else {
        let signed = asking(c, admin_signatures(config, config.admins));
        if admitted(config.admins, config.admins) < config.admins.len() {
            (signed, Err(Error::DuplicateAdmin))
        } else {
            let written = with_group(signed, id, created(config));
            (
                ContractView {
                    registry: c.registry.push(id),
                    ..asking(written, seq![Action::Write(DataKey::GroupRegistry)])
                },
                Ok(()),
            )
        }
    }
}

// Requests to a group

/// Answers a request to a group.
pub open spec fn step_reply(c: ContractView, id: Symbol, step: Step) -> Reply {
    if !c.groups.contains_key(id) {
        (c, Err(Error::GroupNotFound))
    } else {
        let g = c.groups[id];
        match refusal(g, step) {
            Some(e) => (c, Err(e)),
            None => {
                let paid = payments(g, step, c.address);
                if step is Claim {
                    (asking(with_group(c, id, after(g, step)), paid), Ok(()))
                } else {
                    (with_group(asking(c, paid), id, after(g, step)), Ok(()))
                }
            },
        }
    }
}

/// Answers a request that a member signs.
pub open spec fn member_reply(c: ContractView, id: Symbol, signer: Address, step: Step) -> Reply {
    step_reply(asking(c, seq![Action::RequireAuth(signer)]), id, step)
}

/// Answers a request that admins sign.
pub open spec fn admin_reply(
    c: ContractView,
    id: Symbol,
    supplied: Seq<Address>,
    step: Step,
) -> Reply {
    if !c.groups.contains_key(id) {
        (c, Err(Error::GroupNotFound))
    } else {
        let config = c.groups[id].config;
        let signed = asking(c, admin_signatures(config, supplied));
        match admin_refusal(config, supplied) {
            Some(e) => (signed, Err(e)),
            None => step_reply(signed, id, step),
        }
    }
}

/// Whether every amount that a request to a group computes fits its integer type.
pub open spec fn step_fits(c: ContractView, id: Symbol, step: Step) -> bool {
    c.groups.contains_key(id) ==> fits(c.groups[id], step)
}

/// The same of a request that admins sign.
pub open spec fn admin_fits(
    c: ContractView,
    id: Symbol,
    supplied: Seq<Address>,
    step: Step,
) -> bool {
    c.groups.contains_key(id) && admin_refusal(c.groups[id].config, supplied) is None ==> fits(
        c.groups[id],
        step,
    )
}

} // verus!
