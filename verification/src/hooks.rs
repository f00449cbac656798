//! Hook registry.
//!
//! Subscribers are notified after every balance-affecting transition. The
//! registry is an ordered set: an address appears at most once, and
//! notifications are produced in subscription order. Dispatch is
//! fire-and-forget: the engine emits one message per subscriber and never
//! rolls a transition back on a subscriber's account.

use vstd::prelude::*;

use crate::types::ContractError;

verus! {

/// A balance-change notification addressed to one subscriber.
#[derive(Debug)]
pub struct HookMsg {
    pub recipient: String,
    pub staker: String,
    pub old_balance: u128,
    pub new_balance: u128,
}

/// No subscriber address appears twice.
pub open spec fn hooks_unique(s: Seq<String>) -> bool {
    forall|i: int, j: int| 0 <= i < j < s.len() ==> s[i]@ != s[j]@
}

/// Whether `a` is subscribed.
pub open spec fn hooks_contains(s: Seq<String>, a: Seq<char>) -> bool {
    exists|i: int| 0 <= i < s.len() && (#[trigger] s[i])@ == a
}

/// The ordered set of subscriber addresses.
#[derive(Debug)]
pub struct HookRegistry {
    subscribers: Vec<String>,
}

impl View for HookRegistry {
    type V = Seq<String>;

    closed spec fn view(&self) -> Seq<String> {
        self.subscribers@
    }
}

impl HookRegistry {
    pub open spec fn wf(self) -> bool {
        hooks_unique(self@)
    }

    /// An empty registry.
    pub fn new() -> (r: HookRegistry)
        ensures
            r.wf(),
            r@.len() == 0,
    {
        HookRegistry { subscribers: Vec::new() }
    }

    /// The index at which `addr` is subscribed, if any.
    fn find(&self, addr: &String) -> (r: Option<usize>)
        ensures
            match r {
                Some(i) => i < self@.len() && self@[i as int]@ == addr@,
                None => !hooks_contains(self@, addr@),
            },
    {
        let n = self.subscribers.len();
        let mut i: usize = 0;
        while i < n
            invariant
                n == self@.len(),
                i <= n,
                forall|j: int| 0 <= j < i ==> (#[trigger] self@[j])@ != addr@,
            decreases n - i,
        {
            if self.subscribers[i] == *addr {
                return Some(i);
            }
            i += 1;
        }
        None
    }

    /// Subscribe `addr`; rejected if it is already subscribed.
    pub fn subscribe(&mut self, addr: String) -> (r: Result<(), ContractError>)
        requires
            old(self).wf(),
        ensures
            final(self).wf(),
            match r {
                Ok(()) => {
                    &&& !hooks_contains(old(self)@, addr@)
                    &&& final(self)@ == old(self)@.push(addr)
                },
                Err(e) => {
                    &&& e == ContractError::HookAlreadyRegistered
                    &&& *final(self) == *old(self)
                    &&& hooks_contains(old(self)@, addr@)
                },
            },
    {
        let ghost prior = self@;
        match self.find(&addr) {
            Some(_) => Err(ContractError::HookAlreadyRegistered),
            None => {
                self.subscribers.push(addr);
                proof {
                    assert forall|i: int, j: int| 0 <= i < j < self@.len()
                        implies self@[i]@ != self@[j]@ by {
                        if j < self@.len() - 1 {
                            assert(self@[i] == prior[i] && self@[j] == prior[j]);
                        } else {
                            assert(self@[i] == prior[i]);
                        }
                    }
                }
                Ok(())
            },
        }
    }

    /// Unsubscribe `addr`; rejected if it is not subscribed. The
    /// remaining subscribers keep their order.
    pub fn unsubscribe(&mut self, addr: &String) -> (r: Result<(), ContractError>)
        requires
            old(self).wf(),
        ensures
            final(self).wf(),
            match r {
                Ok(()) => exists|i: int|
                    0 <= i < old(self)@.len() && (#[trigger] old(self)@[i])@ == addr@
                        && final(self)@ == old(self)@.remove(i),
                Err(e) => {
                    &&& e == ContractError::HookNotRegistered
                    &&& *final(self) == *old(self)
                    &&& !hooks_contains(old(self)@, addr@)
                },
            },
    {
        let ghost prior = self@;
        match self.find(addr) {
            Some(i) => {
                self.subscribers.remove(i);
                proof {
                    assert(prior[i as int]@ == addr@);
                    assert forall|a: int, b: int| 0 <= a < b < self@.len()
                        implies self@[a]@ != self@[b]@ by {
                        let pa = if a < i as int { a } else { a + 1 };
                        let pb = if b < i as int { b } else { b + 1 };
                        assert(self@[a] == prior[pa] && self@[b] == prior[pb]);
                    }
                }
                Ok(())
            },
            None => Err(ContractError::HookNotRegistered),
        }
    }

    /// One notification per subscriber, in subscription order, carrying
    /// the staker and the balance before and after the transition.
    pub fn notify_all(&self, staker: &String, old_balance: u128, new_balance: u128)
        -> (msgs: Vec<HookMsg>)
        ensures
            msgs@.len() == self@.len(),
            forall|i: int| 0 <= i < msgs@.len() ==> {
                &&& (#[trigger] msgs@[i]).recipient@ == self@[i]@
                &&& msgs@[i].staker@ == staker@
                &&& msgs@[i].old_balance == old_balance
                &&& msgs@[i].new_balance == new_balance
            },
    {
        let n = self.subscribers.len();
        let mut msgs: Vec<HookMsg> = Vec::new();
        let mut i: usize = 0;
        while i < n
            invariant
                n == self@.len(),
                i <= n,
                msgs@.len() == i,
                forall|j: int| 0 <= j < i ==> {
                    &&& (#[trigger] msgs@[j]).recipient@ == self@[j]@
                    &&& msgs@[j].staker@ == staker@
                    &&& msgs@[j].old_balance == old_balance
                    &&& msgs@[j].new_balance == new_balance
                },
            decreases n - i,
        {
            let m = HookMsg {
                recipient: self.subscribers[i].clone(),
                staker: staker.clone(),
                old_balance,
                new_balance,
            };
            msgs.push(m);
            i += 1;
        }
        msgs
    }

    /// The subscriber addresses, copied in subscription order.
    pub fn list(&self) -> (r: Vec<String>)
        ensures
            r@.len() == self@.len(),
            forall|i: int| 0 <= i < r@.len() ==> (#[trigger] r@[i])@ == self@[i]@,
    {
        let n = self.subscribers.len();
        let mut r: Vec<String> = Vec::new();
        let mut i: usize = 0;
        while i < n
            invariant
                n == self@.len(),
                i <= n,
                r@.len() == i,
                forall|j: int| 0 <= j < i ==> (#[trigger] r@[j])@ == self@[j]@,
            decreases n - i,
        {
            r.push(self.subscribers[i].clone());
            i += 1;
        }
        r
    }
}

} // verus!
