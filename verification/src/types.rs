//! Common value types: errors, durations, expirations, block metadata and
//! the contract configuration.

use vstd::prelude::*;

verus! {

/// Every way an operation can be rejected. A rejected operation leaves the
/// ledger exactly as it was.
#[derive(Clone, Copy, Debug, PartialEq, Eq, Structural)]
pub enum ContractError {
    /// The caller lacks the role the operation demands.
    Unauthorized,
    /// A stake or unstake of zero tokens.
    ZeroAmount,
    /// An unstake of more than the caller has staked.
    InsufficientStaked,
    /// The caller already holds the maximum number of pending claims.
    TooManyClaims,
    /// A claim operation found no matured claim to release.
    NothingToClaim,
    /// A zero-length unstaking duration.
    InvalidDuration,
    /// A token-receive notification whose embedded action is not a stake.
    InvalidReceiveAction,
    /// A hook subscription for an address that is already subscribed.
    HookAlreadyRegistered,
    /// A hook removal for an address that is not subscribed.
    HookNotRegistered,
    /// An amount or maturity computation left the representable range.
    Overflow,
}

/// A delay, measured either in block heights or in seconds.
#[derive(Clone, Copy, Debug, PartialEq, Eq, Structural)]
pub enum Duration {
    Height(u64),
    Time(u64),
}

/// An absolute point at which a claim matures, matching the representation
/// of the configured duration.
#[derive(Clone, Copy, Debug, PartialEq, Eq, Structural)]
pub enum Expiration {
    AtHeight(u64),
    AtTime(u64),
}

/// The block under which an operation executes: its height and its
/// timestamp in seconds.
#[derive(Clone, Copy, Debug, PartialEq, Eq, Structural)]
pub struct BlockInfo {
    pub height: u64,
    pub time: u64,
}

impl Duration {
    /// A zero-length delay; rejected wherever a duration is configured.
    pub open spec fn is_zero(self) -> bool {
        match self {
            Duration::Height(h) => h == 0,
            Duration::Time(t) => t == 0,
        }
    }

    /// The expiration `self` past `block`, or `None` if it leaves `u64`.
    pub open spec fn spec_after(self, block: BlockInfo) -> Option<Expiration> {
        match self {
            Duration::Height(h) => if block.height + h <= u64::MAX {
                Some(Expiration::AtHeight((block.height + h) as u64))
            } else {
                None
            },
            Duration::Time(t) => if block.time + t <= u64::MAX {
                Some(Expiration::AtTime((block.time + t) as u64))
            } else {
                None
            },
        }
    }

    /// Absolute expiration reached by waiting `self` from `block`.
    pub fn after(&self, block: &BlockInfo) -> (r: Option<Expiration>)
        ensures
            r == self.spec_after(*block),
    {
        match self {
            Duration::Height(h) => match block.height.checked_add(*h) {
                Some(x) => Some(Expiration::AtHeight(x)),
                None => None,
            },
            Duration::Time(t) => match block.time.checked_add(*t) {
                Some(x) => Some(Expiration::AtTime(x)),
                None => None,
            },
        }
    }
}

impl Expiration {
    /// Whether the expiration has been reached under `block`.
    pub open spec fn spec_is_expired(self, block: BlockInfo) -> bool {
        match self {
            Expiration::AtHeight(h) => block.height >= h,
            Expiration::AtTime(t) => block.time >= t,
        }
    }

    /// Whether the expiration has been reached under `block`.
    pub fn is_expired(&self, block: &BlockInfo) -> (r: bool)
        ensures
            r == self.spec_is_expired(*block),
    {
        match self {
            Expiration::AtHeight(h) => block.height >= *h,
            Expiration::AtTime(t) => block.time >= *t,
        }
    }
}

/// The value of an optional address, for contracts that compare principals.
pub open spec fn opt_addr_view(o: Option<String>) -> Option<Seq<char>> {
    match o {
        Some(a) => Some(a@),
        None => None,
    }
}

/// Whether two optional addresses name the same principal.
pub fn opt_addr_eq(a: &Option<String>, b: &Option<String>) -> (r: bool)
    ensures
        r == (opt_addr_view(*a) == opt_addr_view(*b)),
{
    match (a, b) {
        (Some(x), Some(y)) => *x == *y,
        (None, None) => true,
        _ => false,
    }
}

/// Process-wide configuration, set at instantiation and mutable only
/// through the administrative operations.
#[derive(Debug)]
pub struct Config {
    /// Principal with full administrative rights, if any.
    pub owner: Option<String>,
    /// Principal allowed to change the unstaking duration, if any.
    pub manager: Option<String>,
    /// Identity of the external token contract whose balances are staked.
    pub token_address: String,
    /// Delay a claim must wait before maturing; `None` means instant
    /// unstake with no claim.
    pub unstaking_duration: Option<Duration>,
}

impl Config {
    /// A configured duration, when present, is never zero-length.
    pub open spec fn wf(self) -> bool {
        match self.unstaking_duration {
            Some(d) => !d.is_zero(),
            None => true,
        }
    }
}

} // verus!
