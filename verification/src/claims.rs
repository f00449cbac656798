//! Pending-claims ledger.
//!
//! Unstaking does not return tokens at once: it creates a claim that
//! matures once its expiration is reached. Each address holds an ordered,
//! bounded list of claims; releasing removes every matured claim in one
//! action and hands back the sum of their amounts.

use vstd::prelude::*;

use crate::types::{BlockInfo, ContractError, Expiration};

verus! {

/// Most pending claims one address may hold at a time. An unstake that
/// would create one more is rejected until matured claims are released.
pub const MAX_CLAIMS: usize = 100;

/// A pending withdrawal: `amount` becomes transferable once `release_at`
/// is reached.
#[derive(Clone, Copy, Debug, PartialEq, Eq, Structural)]
pub struct Claim {
    pub amount: u128,
    pub release_at: Expiration,
}

/// One address together with its pending claims, in creation order.
#[derive(Debug)]
pub struct ClaimsEntry {
    pub key: String,
    pub claims: Vec<Claim>,
}

/// The claims recorded for `key`, or the empty sequence if no entry
/// holds it.
pub open spec fn claims_of(s: Seq<ClaimsEntry>, key: Seq<char>) -> Seq<Claim>
    decreases s.len(),
{
    if s.len() == 0 {
        Seq::empty()
    } else if s[0].key@ == key {
        s[0].claims@
    } else {
        claims_of(s.drop_first(), key)
    }
}

/// Keys are unique, no list exceeds `MAX_CLAIMS`, and every recorded
/// amount is positive.
pub open spec fn claims_wf(s: Seq<ClaimsEntry>) -> bool {
    &&& forall|i: int, j: int| 0 <= i < j < s.len() ==> s[i].key@ != s[j].key@
    &&& forall|i: int| 0 <= i < s.len() ==> (#[trigger] s[i]).claims@.len() <= MAX_CLAIMS
    &&& forall|i: int, c: int| 0 <= i < s.len() && 0 <= c < s[i].claims@.len()
        ==> (#[trigger] s[i].claims@[c]).amount > 0
}

/// The summed amount of every claim matured under `b`.
pub open spec fn matured_sum(cs: Seq<Claim>, b: BlockInfo) -> int
    decreases cs.len(),
{
    if cs.len() == 0 {
        0
    } else {
        matured_sum(cs.drop_last(), b)
            + if cs.last().release_at.spec_is_expired(b) {
                cs.last().amount as int
            } else {
                0
            }
    }
}

/// The claims not yet matured under `b`, in their original order.
pub open spec fn unmatured(cs: Seq<Claim>, b: BlockInfo) -> Seq<Claim>
    decreases cs.len(),
{
    if cs.len() == 0 {
        Seq::empty()
    } else if cs.last().release_at.spec_is_expired(b) {
        unmatured(cs.drop_last(), b)
    } else {
        unmatured(cs.drop_last(), b).push(cs.last())
    }
}

/// Releasing never lengthens a claim list.
pub proof fn lemma_unmatured_len(cs: Seq<Claim>, b: BlockInfo)
    ensures
        unmatured(cs, b).len() <= cs.len(),
    decreases cs.len(),
{
    if cs.len() > 0 {
        lemma_unmatured_len(cs.drop_last(), b);
    }
}

/// Every claim kept by a release was already recorded.
pub proof fn lemma_unmatured_subset(cs: Seq<Claim>, b: BlockInfo)
    ensures
        forall|c: int| 0 <= c < unmatured(cs, b).len()
            ==> exists|d: int| 0 <= d < cs.len()
                && cs[d] == #[trigger] unmatured(cs, b)[c],
    decreases cs.len(),
{
    if cs.len() > 0 {
        lemma_unmatured_subset(cs.drop_last(), b);
        let u = unmatured(cs, b);
        let v = unmatured(cs.drop_last(), b);
        assert forall|c: int| 0 <= c < u.len()
            implies exists|d: int| 0 <= d < cs.len() && cs[d] == #[trigger] u[c] by {
            if cs.last().release_at.spec_is_expired(b) || c < u.len() - 1 {
                assert(u[c] == v[c]);
                let d = choose|d: int|
                    0 <= d < cs.drop_last().len() && cs.drop_last()[d] == v[c];
                assert(cs[d] == u[c]);
            } else {
                assert(cs[cs.len() - 1] == u[c]);
            }
        }
    }
}

/// The matured sum of a prefix never exceeds that of the whole list.
pub proof fn lemma_matured_sum_take(cs: Seq<Claim>, b: BlockInfo, j: int)
    requires
        0 <= j <= cs.len(),
    ensures
        matured_sum(cs.take(j), b) <= matured_sum(cs, b),
    decreases cs.len(),
{
    if j == cs.len() {
        assert(cs.take(j) =~= cs);
    } else {
        assert(cs.take(j) =~= cs.drop_last().take(j));
        lemma_matured_sum_take(cs.drop_last(), b, j);
    }
}

/// Law: a single pending claim releases exactly its amount at or after
/// its maturity, and nothing before it.
pub proof fn lemma_single_claim_release(c: Claim, b: BlockInfo)
    ensures
        c.release_at.spec_is_expired(b) ==> matured_sum(seq![c], b) == c.amount as int
            && unmatured(seq![c], b) == Seq::<Claim>::empty(),
        !c.release_at.spec_is_expired(b) ==> matured_sum(seq![c], b) == 0
            && unmatured(seq![c], b) == seq![c],
{
    let s = seq![c];
    assert(s.len() == 1);
    assert(s.last() == c);
    assert(s.drop_last() =~= Seq::<Claim>::empty());
    assert(matured_sum(s.drop_last(), b) == 0);
    assert(unmatured(s.drop_last(), b) == Seq::<Claim>::empty());
    if c.release_at.spec_is_expired(b) {
        assert(matured_sum(s, b) == matured_sum(s.drop_last(), b) + c.amount as int);
        assert(unmatured(s, b) == unmatured(s.drop_last(), b));
    } else {
        assert(matured_sum(s, b) == matured_sum(s.drop_last(), b));
        assert(unmatured(s, b) == unmatured(s.drop_last(), b).push(c));
        assert(unmatured(s, b) =~= s);
    }
}

/// The entry holding the key of entry `i` is entry `i`, under unique keys.
proof fn lemma_claims_of_index(s: Seq<ClaimsEntry>, i: int)
    requires
        0 <= i < s.len(),
        forall|j: int, k: int| 0 <= j < k < s.len() ==> s[j].key@ != s[k].key@,
    ensures
        claims_of(s, s[i].key@) == s[i].claims@,
    decreases s.len(),
{
    if i > 0 {
        assert(s[0].key@ != s[i].key@);
        assert(s.drop_first()[i - 1] == s[i]);
        lemma_claims_of_index(s.drop_first(), i - 1);
    }
}

/// A key no entry holds has no claims.
pub proof fn lemma_claims_of_absent(s: Seq<ClaimsEntry>, key: Seq<char>)
    requires
        forall|i: int| 0 <= i < s.len() ==> (#[trigger] s[i]).key@ != key,
    ensures
        claims_of(s, key) == Seq::<Claim>::empty(),
    decreases s.len(),
{
    if s.len() > 0 {
        assert(forall|i: int| 0 <= i < s.drop_first().len()
            ==> (#[trigger] s.drop_first()[i]).key@ != key);
        lemma_claims_of_absent(s.drop_first(), key);
    }
}

/// Appending an entry for an absent key gives that key its claims and
/// leaves every other key's claims as they were.
proof fn lemma_claims_of_push(s: Seq<ClaimsEntry>, e: ClaimsEntry)
    ensures
        forall|k: Seq<char>| k != e.key@
            ==> #[trigger] claims_of(s.push(e), k) == claims_of(s, k),
        (forall|i: int| 0 <= i < s.len() ==> (#[trigger] s[i]).key@ != e.key@)
            ==> claims_of(s.push(e), e.key@) == e.claims@,
    decreases s.len(),
{
    let t = s.push(e);
    if s.len() == 0 {
        assert(t[0] == e);
        assert(t.drop_first() =~= Seq::<ClaimsEntry>::empty());
        assert forall|k: Seq<char>| k != e.key@
            implies #[trigger] claims_of(t, k) == claims_of(s, k) by {
            assert(claims_of(t, k) == claims_of(t.drop_first(), k));
        }
    } else {
        assert(t[0] == s[0]);
        assert(t.drop_first() =~= s.drop_first().push(e));
        assert(forall|i: int| 0 <= i < s.drop_first().len()
            ==> #[trigger] s.drop_first()[i] == s[i + 1]);
        lemma_claims_of_push(s.drop_first(), e);
        assert forall|k: Seq<char>| k != e.key@
            implies #[trigger] claims_of(t, k) == claims_of(s, k) by {
            if s[0].key@ != k {
                assert(claims_of(t, k) == claims_of(t.drop_first(), k));
                assert(claims_of(t.drop_first(), k)
                    == claims_of(s.drop_first().push(e), k));
                assert(claims_of(s, k) == claims_of(s.drop_first(), k));
            }
        }
        if forall|i: int| 0 <= i < s.len() ==> (#[trigger] s[i]).key@ != e.key@ {
            assert(s[0].key@ != e.key@);
            assert(claims_of(t, e.key@) == claims_of(t.drop_first(), e.key@));
            assert(claims_of(t.drop_first(), e.key@)
                == claims_of(s.drop_first().push(e), e.key@));
        }
    }
}

/// Replacing entry `i` (same key) rewrites that key's claims and leaves
/// every other key's claims as they were.
proof fn lemma_claims_of_update(s: Seq<ClaimsEntry>, i: int, e: ClaimsEntry)
    requires
        0 <= i < s.len(),
        s[i].key@ == e.key@,
        forall|j: int| 0 <= j < s.len() && j != i ==> (#[trigger] s[j]).key@ != e.key@,
    ensures
        forall|k: Seq<char>| #[trigger] claims_of(s.update(i, e), k)
            == if k == e.key@ { e.claims@ } else { claims_of(s, k) },
    decreases s.len(),
{
    let t = s.update(i, e);
    if i == 0 {
        assert(t[0] == e);
        assert(t.drop_first() =~= s.drop_first());
        assert forall|k: Seq<char>| #[trigger] claims_of(t, k)
            == if k == e.key@ { e.claims@ } else { claims_of(s, k) } by {
            if k != e.key@ {
                assert(claims_of(t, k) == claims_of(t.drop_first(), k));
                assert(claims_of(s, k) == claims_of(s.drop_first(), k));
            }
        }
    } else {
        assert(t[0] == s[0]);
        assert(s[0].key@ != e.key@);
        assert(t.drop_first() =~= s.drop_first().update(i - 1, e));
        assert(s.drop_first()[i - 1] == s[i]);
        assert forall|j: int| 0 <= j < s.drop_first().len() && j != i - 1
            implies (#[trigger] s.drop_first()[j]).key@ != e.key@ by {
            assert(s.drop_first()[j] == s[j + 1]);
        }
        lemma_claims_of_update(s.drop_first(), i - 1, e);
        assert forall|k: Seq<char>| #[trigger] claims_of(t, k)
            == if k == e.key@ { e.claims@ } else { claims_of(s, k) } by {
            if k == s[0].key@ {
                assert(claims_of(t, k) == s[0].claims@);
            } else {
                assert(claims_of(t, k) == claims_of(t.drop_first(), k));
                assert(claims_of(s, k) == claims_of(s.drop_first(), k));
            }
        }
    }
}

/// One bounded, ordered claim list per address.
#[derive(Debug)]
pub struct ClaimsLedger {
    entries: Vec<ClaimsEntry>,
}

impl View for ClaimsLedger {
    type V = Seq<ClaimsEntry>;

    closed spec fn view(&self) -> Seq<ClaimsEntry> {
        self.entries@
    }
}

impl ClaimsLedger {
    pub open spec fn wf(self) -> bool {
        claims_wf(self@)
    }

    /// The claims pending for `key`, in creation order.
    pub open spec fn claims_for(self, key: Seq<char>) -> Seq<Claim> {
        claims_of(self@, key)
    }

    /// An empty ledger: no address has pending claims.
    pub fn new() -> (r: ClaimsLedger)
        ensures
            r.wf(),
            r@.len() == 0,
            forall|k: Seq<char>| #[trigger] r.claims_for(k) == Seq::<Claim>::empty(),
    {
        let r = ClaimsLedger { entries: Vec::new() };
        proof {
            assert forall|k: Seq<char>| #[trigger] r.claims_for(k)
                == Seq::<Claim>::empty() by {
                lemma_claims_of_absent(r@, k);
            }
        }
        r
    }

    /// The index of the entry holding `key`, if any.
    fn find(&self, key: &String) -> (r: Option<usize>)
        ensures
            match r {
                Some(i) => i < self@.len() && self@[i as int].key@ == key@,
                None => forall|j: int| 0 <= j < self@.len()
                    ==> (#[trigger] self@[j]).key@ != key@,
            },
    {
        let n = self.entries.len();
        let mut i: usize = 0;
        while i < n
            invariant
                n == self@.len(),
                i <= n,
                forall|j: int| 0 <= j < i ==> (#[trigger] self@[j]).key@ != key@,
            decreases n - i,
        {
            if self.entries[i].key == *key {
                return Some(i);
            }
            i += 1;
        }
        None
    }

    /// Append a claim of `amount` maturing at `release_at` for `key`,
    /// unless `key` already holds `MAX_CLAIMS` claims. The capacity check
    /// comes before the insertion, so a rejection mutates nothing.
    pub fn create_claim(&mut self, key: &String, amount: u128, release_at: Expiration)
        -> (r: Result<(), ContractError>)
        requires
            old(self).wf(),
            amount > 0,
        ensures
            final(self).wf(),
            match r {
                Ok(()) => {
                    &&& old(self).claims_for(key@).len() < MAX_CLAIMS
                    &&& final(self).claims_for(key@)
                        == old(self).claims_for(key@).push(Claim { amount, release_at })
                    &&& forall|k: Seq<char>| k != key@
                        ==> #[trigger] final(self).claims_for(k) == old(self).claims_for(k)
                },
                Err(e) => {
                    &&& e == ContractError::TooManyClaims
                    &&& *final(self) == *old(self)
                    &&& old(self).claims_for(key@).len() == MAX_CLAIMS
                },
            },
    {
        let ghost prior = self@;
        let c = Claim { amount, release_at };
        match self.find(key) {
            Some(i) => {
                proof {
                    lemma_claims_of_index(prior, i as int);
                }
                if self.entries[i].claims.len() >= MAX_CLAIMS {
                    return Err(ContractError::TooManyClaims);
                }
                let mut entry = self.entries.remove(i);
                entry.claims.push(c);
                let ghost ne = entry;
                self.entries.insert(i, entry);
                proof {
                    assert(self@ =~= prior.update(i as int, ne));
                    assert forall|j: int| 0 <= j < prior.len() && j != i as int
                        implies (#[trigger] prior[j]).key@ != ne.key@ by {}
                    lemma_claims_of_update(prior, i as int, ne);
                    assert forall|ii: int, cc: int|
                        0 <= ii < self@.len() && 0 <= cc < self@[ii].claims@.len()
                        implies (#[trigger] self@[ii].claims@[cc]).amount > 0 by {
                        if ii == i as int && cc == self@[ii].claims@.len() - 1 {
                        } else {
                            assert(prior[ii].claims@[cc].amount > 0);
                        }
                    }
                }
                Ok(())
            },
            None => {
                let mut claims: Vec<Claim> = Vec::new();
                claims.push(c);
                let entry = ClaimsEntry { key: key.clone(), claims };
                let ghost ne = entry;
                self.entries.push(entry);
                proof {
                    lemma_claims_of_absent(prior, key@);
                    lemma_claims_of_push(prior, ne);
                    assert(claims_of(self@, key@) == ne.claims@);
                    assert(ne.claims@ =~= claims_of(prior, key@).push(c));
                    assert forall|i: int, j: int| 0 <= i < j < self@.len()
                        implies self@[i].key@ != self@[j].key@ by {
                        if j < self@.len() - 1 {
                            assert(self@[i] == prior[i] && self@[j] == prior[j]);
                        } else {
                            assert(self@[i] == prior[i]);
                        }
                    }
                    assert forall|ii: int, cc: int|
                        0 <= ii < self@.len() && 0 <= cc < self@[ii].claims@.len()
                        implies (#[trigger] self@[ii].claims@[cc]).amount > 0 by {
                        if ii < self@.len() - 1 {
                            assert(prior[ii].claims@[cc].amount > 0);
                        }
                    }
                }
                Ok(())
            },
        }
    }

    /// Remove every claim of `key` matured under `block` and return the
    /// sum of their amounts. A sum of 0 is not an error and mutates
    /// nothing; a sum past `u128::MAX` is rejected before any mutation.
    pub fn release_matured(&mut self, key: &String, block: &BlockInfo)
        -> (r: Result<u128, ContractError>)
        requires
            old(self).wf(),
        ensures
            final(self).wf(),
            match r {
                Ok(amt) => {
                    &&& amt as int == matured_sum(old(self).claims_for(key@), *block)
                    &&& amt > 0 ==> final(self).claims_for(key@)
                        == unmatured(old(self).claims_for(key@), *block)
                        && (forall|k: Seq<char>| k != key@
                            ==> #[trigger] final(self).claims_for(k)
                                == old(self).claims_for(k))
                    &&& amt == 0 ==> *final(self) == *old(self)
                },
                Err(e) => {
                    &&& e == ContractError::Overflow
                    &&& *final(self) == *old(self)
                    &&& matured_sum(old(self).claims_for(key@), *block) > u128::MAX
                },
            },
    {
        let ghost prior = self@;
        let i = match self.find(key) {
            Some(i) => i,
            None => {
                proof {
                    lemma_claims_of_absent(prior, key@);
                }
                return Ok(0);
            },
        };
        proof {
            lemma_claims_of_index(prior, i as int);
        }
        let ghost cs = prior[i as int].claims@;
        let n = self.entries[i].claims.len();
        let mut kept: Vec<Claim> = Vec::new();
        let mut total: u128 = 0;
        let mut j: usize = 0;
        while j < n
            invariant
                i < self@.len(),
                *self == *old(self),
                old(self).wf(),
                self@ == prior,
                cs == prior[i as int].claims@,
                claims_of(prior, key@) == cs,
                n == cs.len(),
                j <= n,
                total as int == matured_sum(cs.take(j as int), *block),
                kept@ == unmatured(cs.take(j as int), *block),
            decreases n - j,
        {
            let c = self.entries[i].claims[j];
            proof {
                assert(cs.take(j as int + 1).drop_last() =~= cs.take(j as int));
                assert(cs.take(j as int + 1).last() == cs[j as int]);
            }
            if c.release_at.is_expired(block) {
                total = match total.checked_add(c.amount) {
                    Some(t) => t,
                    None => {
                        proof {
                            lemma_matured_sum_take(cs, *block, j as int + 1);
                        }
                        return Err(ContractError::Overflow);
                    },
                };
            } else {
                kept.push(c);
            }
            j += 1;
        }
        proof {
            assert(cs.take(n as int) =~= cs);
        }
        if total == 0 {
            return Ok(0);
        }
        let mut entry = self.entries.remove(i);
        entry.claims = kept;
        let ghost ne = entry;
        self.entries.insert(i, entry);
        proof {
            assert(self@ =~= prior.update(i as int, ne));
            assert forall|j2: int| 0 <= j2 < prior.len() && j2 != i as int
                implies (#[trigger] prior[j2]).key@ != ne.key@ by {}
            lemma_claims_of_update(prior, i as int, ne);
            lemma_unmatured_len(cs, *block);
            lemma_unmatured_subset(cs, *block);
            assert forall|ii: int, cc: int|
                0 <= ii < self@.len() && 0 <= cc < self@[ii].claims@.len()
                implies (#[trigger] self@[ii].claims@[cc]).amount > 0 by {
                if ii == i as int {
                    assert(self@[ii].claims@[cc] == unmatured(cs, *block)[cc]);
                    let d = choose|d: int| 0 <= d < cs.len() && cs[d] == unmatured(cs, *block)[cc];
                    assert(prior[i as int].claims@[d].amount > 0);
                } else {
                    assert(prior[ii].claims@[cc].amount > 0);
                }
            }
        }
        Ok(total)
    }

    /// The claims pending for `key`, copied in creation order.
    pub fn list(&self, key: &String) -> (r: Vec<Claim>)
        requires
            self.wf(),
        ensures
            r@ == self.claims_for(key@),
    {
        match self.find(key) {
            Some(i) => {
                proof {
                    lemma_claims_of_index(self@, i as int);
                }
                let n = self.entries[i].claims.len();
                let mut r: Vec<Claim> = Vec::new();
                let mut j: usize = 0;
                while j < n
                    invariant
                        i < self@.len(),
                        n == self@[i as int].claims@.len(),
                        j <= n,
                        r@ == self@[i as int].claims@.take(j as int),
                    decreases n - j,
                {
                    r.push(self.entries[i].claims[j]);
                    proof {
                        assert(self@[i as int].claims@.take(j as int + 1)
                            =~= self@[i as int].claims@.take(j as int).push(
                                self@[i as int].claims@[j as int]));
                    }
                    j += 1;
                }
                proof {
                    assert(self@[i as int].claims@.take(n as int) =~= self@[i as int].claims@);
                }
                r
            },
            None => {
                proof {
                    lemma_claims_of_absent(self@, key@);
                }
                Vec::new()
            },
        }
    }
}

} // verus!
