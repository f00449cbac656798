//! Read-only query surface.
//!
//! Queries translate external "balance at height" / "total at height" /
//! "staked value" / "claims" requests into lookups on the engine's
//! histories. They mutate nothing and need no authentication. A height
//! given as `None` means the current block's height.

use vstd::prelude::*;

use crate::claims::Claim;
use crate::engine::StakingEngine;
use crate::snapshot::{lemma_heights_bounded_by_last, lemma_history_heights,
    lemma_value_at_or_above_all, history_of};
use crate::types::{BlockInfo, Config};

verus! {

/// The queries of the voting-power interface, as a consumer of this
/// ledger sends them.
pub enum Query {
    TokenContract {},
    VotingPowerAtHeight { address: String, height: Option<u64> },
    TotalPowerAtHeight { height: Option<u64> },
    IsActive {},
    Info {},
}

/// An address's voting power — its staked balance — as of a height.
pub struct VotingPowerAtHeightResponse {
    pub power: u128,
    pub height: u64,
}

/// The total voting power — the total staked balance — as of a height.
pub struct TotalPowerAtHeightResponse {
    pub power: u128,
    pub height: u64,
}

/// An address's staked balance as of a height.
pub struct StakedBalanceAtHeightResponse {
    pub balance: u128,
    pub height: u64,
}

/// The total staked balance as of a height.
pub struct TotalStakedAtHeightResponse {
    pub total: u128,
    pub height: u64,
}

/// An address's current staked value, token-denominated.
pub struct StakedValueResponse {
    pub value: u128,
}

/// The current total staked value, token-denominated.
pub struct TotalValueResponse {
    pub total: u128,
}

/// An address's pending claims.
pub struct ClaimsResponse {
    pub claims: Vec<Claim>,
}

/// The subscribed hooks, in subscription order.
pub struct HooksResponse {
    pub hooks: Vec<String>,
}

/// Name and version under which a contract registers itself.
pub struct ContractVersion {
    pub contract: String,
    pub version: String,
}

/// The registered contract identity.
pub struct InfoResponse {
    pub info: ContractVersion,
}

/// Whether the voting module is active. This ledger is always active.
pub struct IsActiveResponse {
    pub active: bool,
}

/// The queries a successor staking contract answers after a code
/// migration, used to tell the two apart.
pub enum WyndexQueryMsg {
    Admin {},
    BondingInfo {},
}

/// One unbonding period of a successor staking contract.
pub struct BondingPeriodInfo {
    pub unbonding_period: u64,
    pub total_staked: u128,
}

/// The unbonding periods of a successor staking contract.
pub struct BondingInfoResponse {
    pub bonding: Vec<BondingPeriodInfo>,
}

/// The height a query with an optional height asks about: the given one,
/// or the current block's.
pub open spec fn query_height(height: Option<u64>, block: BlockInfo) -> u64 {
    match height {
        Some(x) => x,
        None => block.height,
    }
}

/// `staker`'s staked balance as of `height`, defaulting to the current
/// block's height. An address never staked for, or a height before the
/// first checkpoint, reads 0 rather than an error.
pub fn staked_balance_at_height(
    e: &StakingEngine,
    address: &String,
    height: Option<u64>,
    block: &BlockInfo,
) -> (r: StakedBalanceAtHeightResponse)
    requires
        e.wf(),
    ensures
        r.height == query_height(height, *block),
        r.balance == e.balance_at(address@, query_height(height, *block) as int),
{
    let h = match height {
        Some(x) => x,
        None => block.height,
    };
    let balance = e.balances.read_at(address, h);
    StakedBalanceAtHeightResponse { balance, height: h }
}

/// The total staked balance as of `height`, defaulting to the current
/// block's height.
pub fn total_staked_at_height(
    e: &StakingEngine,
    height: Option<u64>,
    block: &BlockInfo,
) -> (r: TotalStakedAtHeightResponse)
    requires
        e.wf(),
    ensures
        r.height == query_height(height, *block),
        r.total == e.total_at(query_height(height, *block) as int),
{
    let h = match height {
        Some(x) => x,
        None => block.height,
    };
    let total = e.total.read_at(h);
    TotalStakedAtHeightResponse { total, height: h }
}

/// `address`'s voting power as of `height`: its staked balance there.
pub fn voting_power_at_height(
    e: &StakingEngine,
    address: &String,
    height: Option<u64>,
    block: &BlockInfo,
) -> (r: VotingPowerAtHeightResponse)
    requires
        e.wf(),
    ensures
        r.height == query_height(height, *block),
        r.power == e.balance_at(address@, query_height(height, *block) as int),
{
    let b = staked_balance_at_height(e, address, height, block);
    VotingPowerAtHeightResponse { power: b.balance, height: b.height }
}

/// The total voting power as of `height`: the total staked balance there.
pub fn total_power_at_height(
    e: &StakingEngine,
    height: Option<u64>,
    block: &BlockInfo,
) -> (r: TotalPowerAtHeightResponse)
    requires
        e.wf(),
    ensures
        r.height == query_height(height, *block),
        r.power == e.total_at(query_height(height, *block) as int),
{
    let t = total_staked_at_height(e, height, block);
    TotalPowerAtHeightResponse { power: t.total, height: t.height }
}

/// `address`'s current staked value: its balance as of the latest
/// recorded height.
pub fn staked_value(e: &StakingEngine, address: &String) -> (r: StakedValueResponse)
    requires
        e.wf(),
    ensures
        r.value == e.balance_at(address@, e.bound()),
{
    let value = e.balances.read_latest(address);
    proof {
        lemma_history_heights(e.balances@, address@, e.bound());
        lemma_value_at_or_above_all(history_of(e.balances@, address@), e.bound());
    }
    StakedValueResponse { value }
}

/// The current total staked value: the total as of the latest recorded
/// height.
pub fn total_value(e: &StakingEngine) -> (r: TotalValueResponse)
    requires
        e.wf(),
    ensures
        r.total == e.total_at(e.bound()),
{
    let total = e.total.read_latest();
    proof {
        lemma_heights_bounded_by_last(e.total@, e.bound());
        lemma_value_at_or_above_all(e.total@, e.bound());
    }
    TotalValueResponse { total }
}

/// A copy of the current configuration.
pub fn get_config(e: &StakingEngine) -> (r: Config)
    ensures
        r == e.config,
{
    let owner = match &e.config.owner {
        Some(o) => Some(o.clone()),
        None => None,
    };
    let manager = match &e.config.manager {
        Some(m) => Some(m.clone()),
        None => None,
    };
    let unstaking_duration = match &e.config.unstaking_duration {
        Some(d) => Some(*d),
        None => None,
    };
    Config {
        owner,
        manager,
        token_address: e.config.token_address.clone(),
        unstaking_duration,
    }
}

/// `address`'s pending claims, in creation order.
pub fn claims(e: &StakingEngine, address: &String) -> (r: ClaimsResponse)
    requires
        e.wf(),
    ensures
        r.claims@ == e.pending_claims(address@),
{
    ClaimsResponse { claims: e.claims.list(address) }
}

/// The subscribed hooks, in subscription order.
pub fn list_hooks(e: &StakingEngine) -> (r: HooksResponse)
    ensures
        r.hooks@.len() == e.hooks@.len(),
        forall|i: int| 0 <= i < r.hooks@.len()
            ==> (#[trigger] r.hooks@[i])@ == e.hooks@[i]@,
{
    HooksResponse { hooks: e.hooks.list() }
}

/// Whether the voting module is active: this ledger always is.
pub fn is_active() -> (r: IsActiveResponse)
    ensures
        r.active,
{
    IsActiveResponse { active: true }
}

} // verus!
