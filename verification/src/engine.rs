//! Staking engine.
//!
//! The engine owns the configuration, the per-address balance histories,
//! the global total history, the pending-claims ledger and the hook
//! registry, and drives them through the staking transitions. Every
//! validation failure aborts the operation before any state mutation, and
//! every balance mutation updates the per-address history and the global
//! total at the same height, so that at every height the total equals the
//! sum of all staked balances.

use vstd::prelude::*;

use crate::types::{
    opt_addr_view, BlockInfo, Config, ContractError, Duration,
};
use crate::snapshot::{
    has_key, lemma_heights_bounded_by_last, lemma_lookup_absent, lemma_lookup_le_sum,
    lemma_lookup_stable_above, lemma_no_write_between, lemma_store_heights_mono,
    lemma_value_at_or_above_all, no_write_between, history_of, lookup, store_heights_at_most,
    sum_at, SnapshotSeq, SnapshotStore,
};
use crate::claims::{matured_sum, unmatured, Claim, ClaimsLedger, MAX_CLAIMS};
use crate::hooks::{hooks_contains, HookMsg, HookRegistry};

verus! {

/// The action a token transfer asks for, as decoded from the message the
/// token contract embeds in its send notification. Anything that does not
/// decode to a stake instruction is `Unrecognized` and is rejected.
#[derive(Clone, Copy, Debug, PartialEq, Eq, Structural)]
pub enum ReceiveAction {
    Stake,
    Unrecognized,
}

/// What an accepted unstake hands back: an immediate transfer amount when
/// no unstaking duration is configured, and the hook notifications fired
/// for the balance change.
#[derive(Debug)]
pub struct UnstakeOutcome {
    pub transfer: Option<u128>,
    pub hooks: Vec<HookMsg>,
}

/// The staking engine's full state.
#[derive(Debug)]
pub struct StakingEngine {
    pub config: Config,
    pub balances: SnapshotStore,
    pub total: SnapshotSeq,
    pub claims: ClaimsLedger,
    pub hooks: HookRegistry,
}

impl StakingEngine {
    /// All components are well-formed, balance heights never pass the
    /// total's last height, and at every height the total equals the sum
    /// of all staked balances.
    pub open spec fn wf(self) -> bool {
        &&& self.config.wf()
        &&& self.balances.wf()
        &&& self.total.wf()
        &&& self.claims.wf()
        &&& self.hooks.wf()
        &&& store_heights_at_most(self.balances@, self.total.last_height())
        &&& forall|h: int| #[trigger] sum_at(self.balances@, h)
            == self.total.value_at(h) as int
    }

    /// The staked balance of `key` as of height `h`.
    pub open spec fn balance_at(self, key: Seq<char>, h: int) -> u128 {
        lookup(self.balances@, key, h)
    }

    /// The total staked balance as of height `h`.
    pub open spec fn total_at(self, h: int) -> u128 {
        self.total.value_at(h)
    }

    /// The pending claims of `key`, in creation order.
    pub open spec fn pending_claims(self, key: Seq<char>) -> Seq<Claim> {
        self.claims.claims_for(key)
    }

    /// The greatest height written so far, or -1 before the first write.
    /// Operations execute under blocks of non-decreasing height.
    pub open spec fn bound(self) -> int {
        self.total.last_height()
    }

    /// Whether `a` is the configured owner.
    pub open spec fn is_owner(self, a: Seq<char>) -> bool {
        match self.config.owner {
            Some(o) => o@ == a,
            None => false,
        }
    }

    /// Whether `a` is the configured manager.
    pub open spec fn is_manager(self, a: Seq<char>) -> bool {
        match self.config.manager {
            Some(m) => m@ == a,
            None => false,
        }
    }

    /// Whether `a` may administer the contract at all.
    pub open spec fn is_admin(self, a: Seq<char>) -> bool {
        self.is_owner(a) || self.is_manager(a)
    }

    /// Why a receive would be rejected, or `None` if it is accepted.
    pub open spec fn receive_error(
        self,
        sender: Seq<char>,
        action: ReceiveAction,
        amount: u128,
        block: BlockInfo,
    ) -> Option<ContractError> {
        if sender != self.config.token_address@ {
            Some(ContractError::Unauthorized)
        } else if action != ReceiveAction::Stake {
            Some(ContractError::InvalidReceiveAction)
        } else if amount == 0 {
            Some(ContractError::ZeroAmount)
        } else if self.total_at(block.height as int) + amount > u128::MAX {
            Some(ContractError::Overflow)
        } else {
            None
        }
    }

    /// Why an unstake would be rejected, or `None` if it is accepted.
    pub open spec fn unstake_error(
        self,
        staker: Seq<char>,
        amount: u128,
        block: BlockInfo,
    ) -> Option<ContractError> {
        if amount == 0 {
            Some(ContractError::ZeroAmount)
        } else if amount > self.balance_at(staker, block.height as int) {
            Some(ContractError::InsufficientStaked)
        } else {
            match self.config.unstaking_duration {
                None => None,
                Some(d) => if d.spec_after(block) is None {
                    Some(ContractError::Overflow)
                } else if self.pending_claims(staker).len() >= MAX_CLAIMS {
                    Some(ContractError::TooManyClaims)
                } else {
                    None
                },
            }
        }
    }

    /// Why a claim would be rejected, or `None` if it is accepted.
    pub open spec fn claim_error(self, staker: Seq<char>, block: BlockInfo)
        -> Option<ContractError> {
        let s = matured_sum(self.pending_claims(staker), block);
        if s > u128::MAX {
            Some(ContractError::Overflow)
        } else if s == 0 {
            Some(ContractError::NothingToClaim)
        } else {
            None
        }
    }

    /// Why a configuration update would be rejected, or `None`.
    pub open spec fn update_config_error(
        self,
        sender: Seq<char>,
        new_owner: Option<String>,
        new_manager: Option<String>,
        new_duration: Option<Duration>,
    ) -> Option<ContractError> {
        if !self.is_admin(sender) {
            Some(ContractError::Unauthorized)
        } else if opt_addr_view(new_owner) != opt_addr_view(self.config.owner)
            && !self.is_owner(sender) {
            Some(ContractError::Unauthorized)
        } else if opt_addr_view(new_manager) != opt_addr_view(self.config.manager)
            && !self.is_owner(sender) {
            Some(ContractError::Unauthorized)
        } else {
            match new_duration {
                Some(d) => if d.is_zero() {
                    Some(ContractError::InvalidDuration)
                } else {
                    None
                },
                None => None,
            }
        }
    }

    /// Instantiate the engine. A configured unstaking duration must not
    /// be zero-length; everything starts empty, so every address reads a
    /// balance of 0 at every height, as does the total.
    pub fn new(
        owner: Option<String>,
        manager: Option<String>,
        token_address: String,
        unstaking_duration: Option<Duration>,
    ) -> (r: Result<StakingEngine, ContractError>)
        ensures
            match r {
                Ok(e) => {
                    &&& match unstaking_duration { Some(d) => !d.is_zero(), None => true }
                    &&& e.wf()
                    &&& e.config == (Config {
                        owner,
                        manager,
                        token_address,
                        unstaking_duration,
                    })
                    &&& e.bound() == -1
                    &&& forall|k: Seq<char>| !has_key(e.balances@, k)
                    &&& forall|k: Seq<char>, h: int| #[trigger] e.balance_at(k, h) == 0
                    &&& forall|h: int| #[trigger] e.total_at(h) == 0
                    &&& forall|k: Seq<char>| #[trigger] e.pending_claims(k)
                        == Seq::<Claim>::empty()
                    &&& e.hooks@.len() == 0
                },
                Err(err) => {
                    &&& err == ContractError::InvalidDuration
                    &&& match unstaking_duration { Some(d) => d.is_zero(), None => false }
                },
            },
    {
        let zero_duration = match &unstaking_duration {
            Some(Duration::Height(h)) => *h == 0,
            Some(Duration::Time(t)) => *t == 0,
            None => false,
        };
        if zero_duration {
            return Err(ContractError::InvalidDuration);
        }
        let e = StakingEngine {
            config: Config { owner, manager, token_address, unstaking_duration },
            balances: SnapshotStore::new(),
            total: SnapshotSeq::new(),
            claims: ClaimsLedger::new(),
            hooks: HookRegistry::new(),
        };
        proof {
            assert forall|h: int| #[trigger] sum_at(e.balances@, h)
                == e.total.value_at(h) as int by {
                assert(sum_at(e.balances@, h) == 0);
                assert(e.total.value_at(h) == 0);
            }
        }
        Ok(e)
    }

    /// Whether `sender` is the configured owner.
    fn sender_is_owner(&self, sender: &String) -> (r: bool)
        ensures
            r == self.is_owner(sender@),
    {
        match &self.config.owner {
            Some(o) => *o == *sender,
            None => false,
        }
    }

    /// Whether `sender` is the configured manager.
    fn sender_is_manager(&self, sender: &String) -> (r: bool)
        ensures
            r == self.is_manager(sender@),
    {
        match &self.config.manager {
            Some(m) => *m == *sender,
            None => false,
        }
    }

    /// Stake `amount` for `staker`. The call stands for the token
    /// contract's transfer notification: it is accepted only from the
    /// configured token address, only with an embedded stake action, and
    /// only for a positive amount, so a balance is never credited without
    /// a matching incoming transfer. On success the staker's balance and
    /// the total are raised by `amount` from `block.height` on, and one
    /// notification per hook subscriber is returned.
    pub fn receive(
        &mut self,
        sender: &String,
        staker: &String,
        amount: u128,
        action: ReceiveAction,
        block: BlockInfo,
    ) -> (r: Result<Vec<HookMsg>, ContractError>)
        requires
            old(self).wf(),
            old(self).bound() <= block.height as int,
        ensures
            final(self).wf(),
            match r {
                Ok(msgs) => {
                    &&& old(self).receive_error(sender@, action, amount, block) is None
                    &&& final(self).bound() == block.height as int
                    &&& forall|k: Seq<char>, h: int| #[trigger] final(self).balance_at(k, h)
                        == if k == staker@ && h >= block.height as int {
                            (old(self).balance_at(staker@, block.height as int)
                                + amount) as u128
                        } else {
                            old(self).balance_at(k, h)
                        }
                    &&& forall|h: int| #[trigger] final(self).total_at(h)
                        == if h >= block.height as int {
                            (old(self).total_at(block.height as int) + amount) as u128
                        } else {
                            old(self).total_at(h)
                        }
                    &&& final(self).config == old(self).config
                    &&& final(self).claims == old(self).claims
                    &&& final(self).hooks == old(self).hooks
                    &&& msgs@.len() == old(self).hooks@.len()
                    &&& forall|i: int| 0 <= i < msgs@.len() ==> {
                        &&& (#[trigger] msgs@[i]).recipient@ == old(self).hooks@[i]@
                        &&& msgs@[i].staker@ == staker@
                        &&& msgs@[i].old_balance
                            == old(self).balance_at(staker@, block.height as int)
                        &&& msgs@[i].new_balance
                            == (old(self).balance_at(staker@, block.height as int)
                                + amount) as u128
                    }
                },
                Err(e) => {
                    &&& *final(self) == *old(self)
                    &&& old(self).receive_error(sender@, action, amount, block) == Some(e)
                },
            },
    {
        if !(*sender == self.config.token_address) {
            return Err(ContractError::Unauthorized);
        }
        match action {
            ReceiveAction::Stake => {},
            ReceiveAction::Unrecognized => {
                return Err(ContractError::InvalidReceiveAction);
            },
        }
        if amount == 0 {
            return Err(ContractError::ZeroAmount);
        }
        proof {
            lemma_heights_bounded_by_last(self.total@, block.height as int);
            lemma_value_at_or_above_all(self.total@, block.height as int);
            lemma_store_heights_mono(
                self.balances@,
                self.total.last_height(),
                block.height as int,
            );
        }
        let cur_total = self.total.read_latest();
        let new_total = match cur_total.checked_add(amount) {
            Some(t) => t,
            None => {
                return Err(ContractError::Overflow);
            },
        };
        let cur_bal = self.balances.read_at(staker, block.height);
        proof {
            lemma_lookup_le_sum(self.balances@, staker@, block.height as int);
            assert(sum_at(self.balances@, block.height as int)
                == self.total.value_at(block.height as int) as int);
        }
        let new_bal = cur_bal + amount;
        self.balances.write(staker, block.height, new_bal);
        self.total.write(block.height, new_total);
        let msgs = self.hooks.notify_all(staker, cur_bal, new_bal);
        proof {
            self.lemma_restore_consistency(
                *old(self),
                staker@,
                block.height as int,
                cur_bal,
                new_bal,
                new_total,
            );
        }
        Ok(msgs)
    }

    /// After paired writes of a key's balance and the total at one
    /// height, the sum of balances again matches the total everywhere.
    proof fn lemma_restore_consistency(
        self,
        prior: StakingEngine,
        staker: Seq<char>,
        height: int,
        cur_bal: u128,
        new_bal: u128,
        new_total: u128,
    )
        requires
            prior.wf(),
            prior.bound() <= height,
            cur_bal == lookup(prior.balances@, staker, height),
            new_bal as int - cur_bal as int
                == new_total as int - prior.total.value_at(height) as int,
            forall|k: Seq<char>, h: int| #[trigger] lookup(self.balances@, k, h)
                == if k == staker && h >= height {
                    new_bal
                } else {
                    lookup(prior.balances@, k, h)
                },
            forall|h: int| #[trigger] sum_at(self.balances@, h)
                == sum_at(prior.balances@, h)
                    + if h >= height { new_bal - lookup(prior.balances@, staker, h) } else { 0 },
            forall|h: int| #[trigger] self.total.value_at(h)
                == if h >= height { new_total } else { prior.total.value_at(h) },
        ensures
            forall|h: int| #[trigger] sum_at(self.balances@, h)
                == self.total.value_at(h) as int,
    {
        assert forall|h: int| #[trigger] sum_at(self.balances@, h)
            == self.total.value_at(h) as int by {
            assert(sum_at(prior.balances@, h) == prior.total.value_at(h) as int);
            if h >= height {
                lemma_store_heights_mono(prior.balances@, prior.bound(), height);
                lemma_lookup_stable_above(prior.balances@, staker, height, h);
                lemma_heights_bounded_by_last(prior.total@, height);
                lemma_value_at_or_above_all(prior.total@, height);
                lemma_value_at_or_above_all(prior.total@, h);
            }
        }
    }

    /// Unstake `amount` for `staker`. The amount leaves the staked
    /// balance and the total at `block.height`. With a configured
    /// duration a pending claim maturing at `block + duration` is
    /// created, bounded by `MAX_CLAIMS`; without one, the amount is
    /// immediately transferable and returned in the outcome. Hook
    /// subscribers are notified with the lowered balance.
    pub fn unstake(
        &mut self,
        staker: &String,
        amount: u128,
        block: BlockInfo,
    ) -> (r: Result<UnstakeOutcome, ContractError>)
        requires
            old(self).wf(),
            old(self).bound() <= block.height as int,
        ensures
            final(self).wf(),
            match r {
                Ok(out) => {
                    &&& old(self).unstake_error(staker@, amount, block) is None
                    &&& final(self).bound() == block.height as int
                    &&& forall|k: Seq<char>, h: int| #[trigger] final(self).balance_at(k, h)
                        == if k == staker@ && h >= block.height as int {
                            (old(self).balance_at(staker@, block.height as int)
                                - amount) as u128
                        } else {
                            old(self).balance_at(k, h)
                        }
                    &&& forall|h: int| #[trigger] final(self).total_at(h)
                        == if h >= block.height as int {
                            (old(self).total_at(block.height as int) - amount) as u128
                        } else {
                            old(self).total_at(h)
                        }
                    &&& match old(self).config.unstaking_duration {
                        None => {
                            &&& out.transfer == Some(amount)
                            &&& final(self).claims == old(self).claims
                        },
                        Some(d) => {
                            &&& out.transfer is None
                            &&& final(self).pending_claims(staker@)
                                == old(self).pending_claims(staker@).push(Claim {
                                    amount,
                                    release_at: d.spec_after(block)->0,
                                })
                            &&& forall|k: Seq<char>| k != staker@
                                ==> #[trigger] final(self).pending_claims(k)
                                    == old(self).pending_claims(k)
                        },
                    }
                    &&& final(self).config == old(self).config
                    &&& final(self).hooks == old(self).hooks
                    &&& out.hooks@.len() == old(self).hooks@.len()
                    &&& forall|i: int| 0 <= i < out.hooks@.len() ==> {
                        &&& (#[trigger] out.hooks@[i]).recipient@ == old(self).hooks@[i]@
                        &&& out.hooks@[i].staker@ == staker@
                        &&& out.hooks@[i].old_balance
                            == old(self).balance_at(staker@, block.height as int)
                        &&& out.hooks@[i].new_balance
                            == (old(self).balance_at(staker@, block.height as int)
                                - amount) as u128
                    }
                },
                Err(e) => {
                    &&& *final(self) == *old(self)
                    &&& old(self).unstake_error(staker@, amount, block) == Some(e)
                },
            },
    {
        if amount == 0 {
            return Err(ContractError::ZeroAmount);
        }
        let cur_bal = self.balances.read_at(staker, block.height);
        if amount > cur_bal {
            return Err(ContractError::InsufficientStaked);
        }
        let mut transfer: Option<u128> = None;
        match &self.config.unstaking_duration {
            None => {
                transfer = Some(amount);
            },
            Some(d) => {
                let release_at = match d.after(&block) {
                    Some(x) => x,
                    None => {
                        return Err(ContractError::Overflow);
                    },
                };
                match self.claims.create_claim(staker, amount, release_at) {
                    Ok(()) => {},
                    Err(e) => {
                        return Err(e);
                    },
                }
            },
        }
        proof {
            lemma_heights_bounded_by_last(self.total@, block.height as int);
            lemma_value_at_or_above_all(self.total@, block.height as int);
            lemma_store_heights_mono(
                self.balances@,
                self.total.last_height(),
                block.height as int,
            );
            lemma_lookup_le_sum(self.balances@, staker@, block.height as int);
            assert(sum_at(self.balances@, block.height as int)
                == self.total.value_at(block.height as int) as int);
        }
        let cur_total = self.total.read_latest();
        let new_total = cur_total - amount;
        let new_bal = cur_bal - amount;
        self.balances.write(staker, block.height, new_bal);
        self.total.write(block.height, new_total);
        let msgs = self.hooks.notify_all(staker, cur_bal, new_bal);
        proof {
            self.lemma_restore_consistency(
                *old(self),
                staker@,
                block.height as int,
                cur_bal,
                new_bal,
                new_total,
            );
        }
        Ok(UnstakeOutcome { transfer, hooks: msgs })
    }

    /// Release every matured claim of `staker` under `block` and return
    /// the summed amount, to be transferred out in one instruction.
    /// Finding nothing matured is an error and mutates nothing.
    pub fn claim(&mut self, staker: &String, block: BlockInfo)
        -> (r: Result<u128, ContractError>)
        requires
            old(self).wf(),
        ensures
            final(self).wf(),
            match r {
                Ok(amt) => {
                    &&& old(self).claim_error(staker@, block) is None
                    &&& amt > 0
                    &&& amt as int
                        == matured_sum(old(self).pending_claims(staker@), block)
                    &&& final(self).pending_claims(staker@)
                        == unmatured(old(self).pending_claims(staker@), block)
                    &&& forall|k: Seq<char>| k != staker@
                        ==> #[trigger] final(self).pending_claims(k)
                            == old(self).pending_claims(k)
                    &&& final(self).balances == old(self).balances
                    &&& final(self).total == old(self).total
                    &&& final(self).config == old(self).config
                    &&& final(self).hooks == old(self).hooks
                },
                Err(e) => {
                    &&& *final(self) == *old(self)
                    &&& old(self).claim_error(staker@, block) == Some(e)
                },
            },
    {
        match self.claims.release_matured(staker, &block) {
            Ok(amt) => {
                if amt == 0 {
                    Err(ContractError::NothingToClaim)
                } else {
                    Ok(amt)
                }
            },
            Err(e) => Err(e),
        }
    }

    /// Replace owner, manager and unstaking duration. Any admin may call;
    /// only the owner may change who owner or manager is; a new duration
    /// must not be zero-length. The change is prospective only: balances,
    /// the total and every already-created claim stay untouched.
    pub fn update_config(
        &mut self,
        sender: &String,
        new_owner: Option<String>,
        new_manager: Option<String>,
        new_duration: Option<Duration>,
    ) -> (r: Result<(), ContractError>)
        requires
            old(self).wf(),
        ensures
            final(self).wf(),
            match r {
                Ok(()) => {
                    &&& old(self).update_config_error(
                        sender@, new_owner, new_manager, new_duration) is None
                    &&& final(self).config == (Config {
                        owner: new_owner,
                        manager: new_manager,
                        token_address: old(self).config.token_address,
                        unstaking_duration: new_duration,
                    })
                    &&& final(self).balances == old(self).balances
                    &&& final(self).total == old(self).total
                    &&& final(self).claims == old(self).claims
                    &&& final(self).hooks == old(self).hooks
                },
                Err(e) => {
                    &&& *final(self) == *old(self)
                    &&& old(self).update_config_error(
                        sender@, new_owner, new_manager, new_duration) == Some(e)
                },
            },
    {
        let is_owner = self.sender_is_owner(sender);
        let is_manager = self.sender_is_manager(sender);
        if !is_owner && !is_manager {
            return Err(ContractError::Unauthorized);
        }
        if !crate::types::opt_addr_eq(&new_owner, &self.config.owner) && !is_owner {
            return Err(ContractError::Unauthorized);
        }
        if !crate::types::opt_addr_eq(&new_manager, &self.config.manager) && !is_owner {
            return Err(ContractError::Unauthorized);
        }
        let zero_duration = match &new_duration {
            Some(Duration::Height(h)) => *h == 0,
            Some(Duration::Time(t)) => *t == 0,
            None => false,
        };
        if zero_duration {
            return Err(ContractError::InvalidDuration);
        }
        self.config = Config {
            owner: new_owner,
            manager: new_manager,
            token_address: self.config.token_address.clone(),
            unstaking_duration: new_duration,
        };
        Ok(())
    }

    /// Subscribe `addr` to balance-change notifications. Admin only.
    pub fn add_hook(&mut self, sender: &String, addr: String)
        -> (r: Result<(), ContractError>)
        requires
            old(self).wf(),
        ensures
            final(self).wf(),
            match r {
                Ok(()) => {
                    &&& old(self).is_admin(sender@)
                    &&& !hooks_contains(old(self).hooks@, addr@)
                    &&& final(self).hooks@ == old(self).hooks@.push(addr)
                    &&& final(self).config == old(self).config
                    &&& final(self).balances == old(self).balances
                    &&& final(self).total == old(self).total
                    &&& final(self).claims == old(self).claims
                },
                Err(e) => {
                    &&& *final(self) == *old(self)
                    &&& if !old(self).is_admin(sender@) {
                        e == ContractError::Unauthorized
                    } else {
                        e == ContractError::HookAlreadyRegistered
                            && hooks_contains(old(self).hooks@, addr@)
                    }
                },
            },
    {
        let is_owner = self.sender_is_owner(sender);
        let is_manager = self.sender_is_manager(sender);
        if !is_owner && !is_manager {
            return Err(ContractError::Unauthorized);
        }
        self.hooks.subscribe(addr)
    }

    /// Unsubscribe `addr` from balance-change notifications. Admin only.
    pub fn remove_hook(&mut self, sender: &String, addr: &String)
        -> (r: Result<(), ContractError>)
        requires
            old(self).wf(),
        ensures
            final(self).wf(),
            match r {
                Ok(()) => {
                    &&& old(self).is_admin(sender@)
                    &&& exists|i: int| 0 <= i < old(self).hooks@.len()
                        && (#[trigger] old(self).hooks@[i])@ == addr@
                        && final(self).hooks@ == old(self).hooks@.remove(i)
                    &&& final(self).config == old(self).config
                    &&& final(self).balances == old(self).balances
                    &&& final(self).total == old(self).total
                    &&& final(self).claims == old(self).claims
                },
                Err(e) => {
                    &&& *final(self) == *old(self)
                    &&& if !old(self).is_admin(sender@) {
                        e == ContractError::Unauthorized
                    } else {
                        e == ContractError::HookNotRegistered
                            && !hooks_contains(old(self).hooks@, addr@)
                    }
                },
            },
    {
        let is_owner = self.sender_is_owner(sender);
        let is_manager = self.sender_is_manager(sender);
        if !is_owner && !is_manager {
            return Err(ContractError::Unauthorized);
        }
        self.hooks.unsubscribe(addr)
    }
}

/// Law: an address that was never staked for has no balance entry, and
/// reads a staked balance of 0 at every height.
pub proof fn lemma_never_staked_reads_zero(e: StakingEngine, key: Seq<char>)
    requires
        !has_key(e.balances@, key),
    ensures
        forall|h: int| #[trigger] e.balance_at(key, h) == 0,
{
    lemma_lookup_absent(e.balances@, key);
}

/// Law: at every height the total staked balance equals the sum, over
/// all addresses, of the staked balances at that height.
pub proof fn lemma_total_is_sum_of_balances(e: StakingEngine)
    requires
        e.wf(),
    ensures
        forall|h: int| #[trigger] e.total_at(h) as int == sum_at(e.balances@, h),
{
    assert forall|h: int| #[trigger] e.total_at(h) as int
        == sum_at(e.balances@, h) by {
        assert(sum_at(e.balances@, h) == e.total.value_at(h) as int);
    }
}

/// Law: the claim an unstake creates — starting from no pending claims —
/// releases exactly the unstaked amount once its maturity is reached,
/// and nothing before it. Together with `unstake`'s contract (which
/// pushes exactly this claim, or returns the amount at once when no
/// duration is configured) and `claim`'s contract (which releases the
/// matured sum and rejects a zero sum as `NothingToClaim`), this pins
/// the unstake-then-claim round trip.
pub proof fn lemma_unstake_then_claim(amount: u128, d: Duration, now: BlockInfo, later: BlockInfo)
    requires
        d.spec_after(now) is Some,
    ensures
        matured_sum(
            Seq::<Claim>::empty().push(Claim { amount, release_at: d.spec_after(now)->0 }),
            later,
        ) == if (d.spec_after(now)->0).spec_is_expired(later) { amount as int } else { 0 },
        !(d.spec_after(now)->0).spec_is_expired(later)
            ==> unmatured(
                Seq::<Claim>::empty().push(Claim { amount, release_at: d.spec_after(now)->0 }),
                later,
            ) == Seq::<Claim>::empty().push(Claim { amount, release_at: d.spec_after(now)->0 }),
        (d.spec_after(now)->0).spec_is_expired(later)
            ==> unmatured(
                Seq::<Claim>::empty().push(Claim { amount, release_at: d.spec_after(now)->0 }),
                later,
            ) == Seq::<Claim>::empty(),
{
    let c = Claim { amount, release_at: d.spec_after(now)->0 };
    assert(Seq::<Claim>::empty().push(c) =~= seq![c]);
    crate::claims::lemma_single_claim_release(c, later);
}

/// Law: when no write hits an address's balance between two heights, the
/// balance reads the same at both.
pub proof fn lemma_balance_stable_between(
    e: StakingEngine,
    key: Seq<char>,
    h1: int,
    h2: int,
)
    requires
        h1 <= h2,
        no_write_between(history_of(e.balances@, key), h1, h2),
    ensures
        e.balance_at(key, h1) == e.balance_at(key, h2),
{
    lemma_no_write_between(history_of(e.balances@, key), h1, h2);
}

} // verus!
