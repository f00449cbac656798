//! Checkpointed value histories.
//!
//! A [`SnapshotSeq`] records, as a sequence of `(height, amount)`
//! checkpoints strictly increasing in height, every change of one tracked
//! quantity, and answers "what was the value as of height `h`" by binary
//! search for the latest checkpoint at or below `h`. A [`SnapshotStore`]
//! keeps one such history per address and additionally relates the
//! histories to their pointwise sum, which the engine uses to keep the
//! global total consistent with the per-address balances.

use vstd::prelude::*;

verus! {

/// A recorded `(height, amount)` pair: as of `height`, the tracked value
/// became `amount`.
#[derive(Clone, Copy, Debug, PartialEq, Eq, Structural)]
pub struct Checkpoint {
    pub height: u64,
    pub amount: u128,
}

/// The value a checkpoint sequence gives at height `h`: the amount of the
/// latest checkpoint whose height is at most `h`, or 0 if there is none.
pub open spec fn value_at(s: Seq<Checkpoint>, h: int) -> u128
    decreases s.len(),
{
    if s.len() == 0 {
        0
    } else if s.last().height <= h {
        s.last().amount
    } else {
        value_at(s.drop_last(), h)
    }
}

/// Checkpoint heights are strictly increasing.
pub open spec fn heights_increasing(s: Seq<Checkpoint>) -> bool {
    forall|i: int, j: int| 0 <= i < j < s.len() ==> s[i].height < s[j].height
}

/// Every checkpoint height is at most `bound`.
pub open spec fn heights_at_most(s: Seq<Checkpoint>, bound: int) -> bool {
    forall|i: int| 0 <= i < s.len() ==> (#[trigger] s[i]).height <= bound
}

/// No checkpoint height lies in the half-open interval `(h1, h2]`.
pub open spec fn no_write_between(s: Seq<Checkpoint>, h1: int, h2: int) -> bool {
    forall|i: int| 0 <= i < s.len()
        ==> (#[trigger] s[i]).height <= h1 || s[i].height > h2
}

/// Law: between two writes the recorded value is stable. If no checkpoint
/// falls in `(h1, h2]`, the value at `h1` equals the value at `h2`.
pub proof fn lemma_no_write_between(s: Seq<Checkpoint>, h1: int, h2: int)
    requires
        h1 <= h2,
        no_write_between(s, h1, h2),
    ensures
        value_at(s, h1) == value_at(s, h2),
    decreases s.len(),
{
    if s.len() > 0 {
        assert(s.last() == s[s.len() - 1]);
        assert(forall|i: int| 0 <= i < s.drop_last().len()
            ==> #[trigger] s.drop_last()[i] == s[i]);
        lemma_no_write_between(s.drop_last(), h1, h2);
    }
}

/// When every checkpoint lies at or below `h`, the value at `h` is the
/// amount of the last checkpoint.
pub proof fn lemma_value_at_or_above_all(s: Seq<Checkpoint>, h: int)
    requires
        heights_at_most(s, h),
    ensures
        value_at(s, h) == if s.len() == 0 { 0u128 } else { s.last().amount },
{
    if s.len() > 0 {
        assert(s.last() == s[s.len() - 1]);
    }
}

/// The value at `h` is the amount of the checkpoint at index `i`, when
/// that checkpoint is at or below `h` and its successor (if any) is above.
proof fn lemma_value_at_index(s: Seq<Checkpoint>, h: int, i: int)
    requires
        heights_increasing(s),
        0 <= i < s.len(),
        s[i].height <= h,
        i + 1 < s.len() ==> s[i + 1].height > h,
    ensures
        value_at(s, h) == s[i].amount,
    decreases s.len(),
{
    if i == s.len() - 1 {
        assert(s.last() == s[i]);
    } else {
        assert(s.last() == s[s.len() - 1]);
        assert(s[i + 1].height <= s[s.len() - 1].height);
        assert(forall|k: int| 0 <= k < s.drop_last().len()
            ==> #[trigger] s.drop_last()[k] == s[k]);
        lemma_value_at_index(s.drop_last(), h, i);
    }
}

/// The value at `h` is 0 when even the first checkpoint is above `h`.
proof fn lemma_value_at_before_first(s: Seq<Checkpoint>, h: int)
    requires
        heights_increasing(s),
        s.len() > 0 ==> s[0].height > h,
    ensures
        value_at(s, h) == 0,
    decreases s.len(),
{
    if s.len() > 0 {
        assert(s.last() == s[s.len() - 1]);
        assert(s[0].height <= s[s.len() - 1].height);
        assert(forall|k: int| 0 <= k < s.drop_last().len()
            ==> #[trigger] s.drop_last()[k] == s[k]);
        lemma_value_at_before_first(s.drop_last(), h);
    }
}

/// One checkpointed history: the full record of changes of one tracked
/// quantity, ordered by strictly increasing height.
#[derive(Debug)]
pub struct SnapshotSeq {
    checkpoints: Vec<Checkpoint>,
}

impl View for SnapshotSeq {
    type V = Seq<Checkpoint>;

    closed spec fn view(&self) -> Seq<Checkpoint> {
        self.checkpoints@
    }
}

impl SnapshotSeq {
    /// Heights strictly increase along the history.
    pub open spec fn wf(self) -> bool {
        heights_increasing(self@)
    }

    /// The recorded value as of height `h`.
    pub open spec fn value_at(self, h: int) -> u128 {
        value_at(self@, h)
    }

    /// The most recent recorded value, regardless of height.
    pub open spec fn latest(self) -> u128 {
        if self@.len() == 0 {
            0
        } else {
            self@.last().amount
        }
    }

    /// The height of the most recent checkpoint, or -1 for an empty
    /// history, so that every height is admissible for the first write.
    pub open spec fn last_height(self) -> int {
        if self@.len() == 0 {
            -1
        } else {
            self@.last().height as int
        }
    }

    /// An empty history: every height reads as 0.
    pub fn new() -> (r: SnapshotSeq)
        ensures
            r.wf(),
            r@.len() == 0,
            r.last_height() == -1,
            forall|h: int| #[trigger] r.value_at(h) == 0,
    {
        SnapshotSeq { checkpoints: Vec::new() }
    }

    /// Record that the value became `amount` as of `height`. A write at
    /// the height of the last checkpoint amends that checkpoint; a write
    /// at a greater height appends a new one.
    pub fn write(&mut self, height: u64, amount: u128)
        requires
            old(self).wf(),
            old(self).last_height() <= height as int,
        ensures
            final(self).wf(),
            final(self).last_height() == height as int,
            final(self).latest() == amount,
            heights_at_most(old(self)@, height as int),
            heights_at_most(final(self)@, height as int),
            forall|h: int| #[trigger] final(self).value_at(h)
                == if h >= height as int { amount } else { old(self).value_at(h) },
    {
        proof {
            assert forall|i: int| 0 <= i < self@.len()
                implies (#[trigger] self@[i]).height <= height as int by {
                assert(self@.last() == self@[self@.len() - 1]);
                if i < self@.len() - 1 {
                    assert(self@[i].height < self@[self@.len() - 1].height);
                }
            }
        }
        let ghost prior = self@;
        let n = self.checkpoints.len();
        let cp = Checkpoint { height, amount };
        if n > 0 && self.checkpoints[n - 1].height == height {
            self.checkpoints.pop();
            self.checkpoints.push(cp);
            proof {
                assert(self@ =~= prior.drop_last().push(cp));
                lemma_write_amend(prior, cp, height as int);
            }
        } else {
            self.checkpoints.push(cp);
            proof {
                assert(self@ =~= prior.push(cp));
                lemma_write_append(prior, cp, height as int);
            }
        }
        proof {
            assert(self@.last() == cp);
        }
    }

    /// The recorded value as of `height`, by binary search for the latest
    /// checkpoint at or below it.
    pub fn read_at(&self, height: u64) -> (r: u128)
        requires
            self.wf(),
        ensures
            r == self.value_at(height as int),
    {
        let n = self.checkpoints.len();
        if n == 0 || self.checkpoints[0].height > height {
            proof {
                lemma_value_at_before_first(self@, height as int);
            }
            return 0;
        }
        let mut lo: usize = 0;
        let mut hi: usize = n - 1;
        while lo < hi
            invariant
                self.wf(),
                lo <= hi < self@.len(),
                self@[lo as int].height <= height,
                hi + 1 < self@.len() ==> self@[hi as int + 1].height > height,
            decreases hi - lo,
        {
            let mid = hi - (hi - lo) / 2;
            if self.checkpoints[mid].height <= height {
                lo = mid;
            } else {
                hi = mid - 1;
            }
        }
        proof {
            lemma_value_at_index(self@, height as int, lo as int);
        }
        self.checkpoints[lo].amount
    }

    /// The most recent recorded value, regardless of the current height.
    pub fn read_latest(&self) -> (r: u128)
        ensures
            r == self.latest(),
    {
        let n = self.checkpoints.len();
        if n == 0 {
            0
        } else {
            self.checkpoints[n - 1].amount
        }
    }
}

/// Effect on `value_at` of amending the last checkpoint of `s` (whose
/// height equals `cp.height`) to `cp`.
proof fn lemma_write_amend(s: Seq<Checkpoint>, cp: Checkpoint, height: int)
    requires
        heights_increasing(s),
        heights_at_most(s, height),
        s.len() > 0,
        s.last().height == height,
        cp.height == height,
    ensures
        heights_increasing(s.drop_last().push(cp)),
        heights_at_most(s.drop_last().push(cp), height),
        forall|h: int| #[trigger] value_at(s.drop_last().push(cp), h)
            == if h >= height { cp.amount } else { value_at(s, h) },
{
    let t = s.drop_last().push(cp);
    assert(s.last() == s[s.len() - 1]);
    assert forall|i: int| 0 <= i < t.len() implies (#[trigger] t[i]).height <= height by {
        if i < t.len() - 1 {
            assert(t[i] == s[i]);
        }
    }
    assert forall|i: int, j: int| 0 <= i < j < t.len()
        implies t[i].height < t[j].height by {
        if j < t.len() - 1 {
            assert(t[i] == s[i] && t[j] == s[j]);
        } else {
            assert(t[i] == s[i]);
            assert(s[i].height < s[s.len() - 1].height);
        }
    }
    assert forall|h: int| #[trigger] value_at(t, h)
        == if h >= height { cp.amount } else { value_at(s, h) } by {
        assert(t.last() == cp);
        if h >= height {
            assert(value_at(t, h) == cp.amount);
        } else {
            assert(value_at(t, h) == value_at(t.drop_last(), h));
            assert(value_at(s, h) == value_at(s.drop_last(), h));
            assert(t.drop_last() =~= s.drop_last());
        }
    }
}

/// Effect on `value_at` of appending a checkpoint at or above every
/// recorded height.
proof fn lemma_write_append(s: Seq<Checkpoint>, cp: Checkpoint, height: int)
    requires
        heights_increasing(s),
        heights_at_most(s, height),
        s.len() > 0 ==> s.last().height < height,
        cp.height == height,
    ensures
        heights_increasing(s.push(cp)),
        heights_at_most(s.push(cp), height),
        forall|h: int| #[trigger] value_at(s.push(cp), h)
            == if h >= height { cp.amount } else { value_at(s, h) },
{
    let t = s.push(cp);
    assert(s.len() > 0 ==> s.last() == s[s.len() - 1]);
    assert forall|i: int| 0 <= i < t.len() implies (#[trigger] t[i]).height <= height by {
        if i < t.len() - 1 {
            assert(t[i] == s[i]);
        }
    }
    assert forall|i: int, j: int| 0 <= i < j < t.len()
        implies t[i].height < t[j].height by {
        if j < t.len() - 1 {
            assert(t[i] == s[i] && t[j] == s[j]);
        } else {
            assert(t[i] == s[i]);
            assert(s[i].height <= s[s.len() - 1].height);
        }
    }
    assert forall|h: int| #[trigger] value_at(t, h)
        == if h >= height { cp.amount } else { value_at(s, h) } by {
        assert(t.last() == cp);
        if h >= height {
            assert(value_at(t, h) == cp.amount);
        } else {
            assert(value_at(t, h) == value_at(t.drop_last(), h));
            assert(t.drop_last() =~= s);
        }
    }
}

/// One address together with the history of its staked balance.
#[derive(Debug)]
pub struct BalanceEntry {
    pub key: String,
    pub history: SnapshotSeq,
}

/// The checkpoint history recorded for `key`: that of the entry holding
/// `key`, or the empty history if no entry does.
pub open spec fn history_of(s: Seq<BalanceEntry>, key: Seq<char>) -> Seq<Checkpoint>
    decreases s.len(),
{
    if s.len() == 0 {
        Seq::empty()
    } else if s[0].key@ == key {
        s[0].history@
    } else {
        history_of(s.drop_first(), key)
    }
}

/// The value recorded for `key` as of height `h`.
pub open spec fn lookup(s: Seq<BalanceEntry>, key: Seq<char>, h: int) -> u128 {
    value_at(history_of(s, key), h)
}

/// The sum, over all entries, of the values recorded as of height `h`.
pub open spec fn sum_at(s: Seq<BalanceEntry>, h: int) -> int
    decreases s.len(),
{
    if s.len() == 0 {
        0
    } else {
        value_at(s[0].history@, h) + sum_at(s.drop_first(), h)
    }
}

/// Whether some entry holds `key`.
pub open spec fn has_key(s: Seq<BalanceEntry>, key: Seq<char>) -> bool {
    exists|i: int| 0 <= i < s.len() && (#[trigger] s[i]).key@ == key
}

/// Histories are well-formed and no two entries share a key.
pub open spec fn store_wf(s: Seq<BalanceEntry>) -> bool {
    &&& forall|i: int| 0 <= i < s.len() ==> (#[trigger] s[i]).history.wf()
    &&& forall|i: int, j: int| 0 <= i < j < s.len() ==> s[i].key@ != s[j].key@
}

/// Every checkpoint height in every entry is at most `bound`.
pub open spec fn store_heights_at_most(s: Seq<BalanceEntry>, bound: int) -> bool {
    forall|i: int| 0 <= i < s.len()
        ==> heights_at_most((#[trigger] s[i]).history@, bound)
}

/// Law: an address no entry holds reads as 0 at every height.
pub proof fn lemma_lookup_absent(s: Seq<BalanceEntry>, key: Seq<char>)
    requires
        !has_key(s, key),
    ensures
        history_of(s, key) == Seq::<Checkpoint>::empty(),
        forall|h: int| #[trigger] lookup(s, key, h) == 0,
    decreases s.len(),
{
    if s.len() > 0 {
        assert(s[0].key@ != key);
        assert(!has_key(s.drop_first(), key)) by {
            if has_key(s.drop_first(), key) {
                let i = choose|i: int|
                    0 <= i < s.drop_first().len()
                        && (#[trigger] s.drop_first()[i]).key@ == key;
                assert(s[i + 1].key@ == key);
            }
        }
        lemma_lookup_absent(s.drop_first(), key);
    }
}

/// Under unique keys, the history recorded for the key of entry `i` is
/// that entry's history.
proof fn lemma_history_of_index(s: Seq<BalanceEntry>, i: int)
    requires
        0 <= i < s.len(),
        forall|j: int, k: int| 0 <= j < k < s.len() ==> s[j].key@ != s[k].key@,
    ensures
        history_of(s, s[i].key@) == s[i].history@,
    decreases s.len(),
{
    if i > 0 {
        assert(s[0].key@ != s[i].key@);
        assert(s.drop_first()[i - 1] == s[i]);
        lemma_history_of_index(s.drop_first(), i - 1);
    }
}

/// Appending an entry leaves every other key's history as it was, and
/// gives the new entry's key its history when the key was absent.
proof fn lemma_history_of_push(s: Seq<BalanceEntry>, e: BalanceEntry)
    ensures
        forall|k: Seq<char>| k != e.key@
            ==> #[trigger] history_of(s.push(e), k) == history_of(s, k),
        !has_key(s, e.key@) ==> history_of(s.push(e), e.key@) == e.history@,
    decreases s.len(),
{
    let t = s.push(e);
    if s.len() == 0 {
        assert(t[0] == e);
        assert(t.drop_first() =~= Seq::<BalanceEntry>::empty());
        assert forall|k: Seq<char>| k != e.key@
            implies #[trigger] history_of(t, k) == history_of(s, k) by {
            assert(history_of(t, k) == history_of(t.drop_first(), k));
        }
    } else {
        assert(t[0] == s[0]);
        assert(t.drop_first() =~= s.drop_first().push(e));
        assert(!has_key(s, e.key@) ==> !has_key(s.drop_first(), e.key@)) by {
            if has_key(s.drop_first(), e.key@) {
                let i = choose|i: int|
                    0 <= i < s.drop_first().len()
                        && (#[trigger] s.drop_first()[i]).key@ == e.key@;
                assert(s[i + 1].key@ == e.key@);
            }
        }
        lemma_history_of_push(s.drop_first(), e);
        assert forall|k: Seq<char>| k != e.key@
            implies #[trigger] history_of(t, k) == history_of(s, k) by {
            if s[0].key@ != k {
                assert(history_of(t, k) == history_of(t.drop_first(), k));
                assert(history_of(t.drop_first(), k)
                    == history_of(s.drop_first().push(e), k));
                assert(history_of(s, k) == history_of(s.drop_first(), k));
            }
        }
        if !has_key(s, e.key@) {
            assert(s[0].key@ != e.key@);
            assert(history_of(t, e.key@) == history_of(t.drop_first(), e.key@));
            assert(history_of(t.drop_first(), e.key@)
                == history_of(s.drop_first().push(e), e.key@));
        }
    }
}

/// Appending an entry adds its value to the sum at every height.
proof fn lemma_sum_at_push(s: Seq<BalanceEntry>, e: BalanceEntry)
    ensures
        forall|h: int| #[trigger] sum_at(s.push(e), h)
            == sum_at(s, h) + value_at(e.history@, h),
    decreases s.len(),
{
    let t = s.push(e);
    if s.len() == 0 {
        assert(t[0] == e);
        assert(t.drop_first() =~= Seq::<BalanceEntry>::empty());
        assert forall|h: int| #[trigger] sum_at(t, h)
            == sum_at(s, h) + value_at(e.history@, h) by {
            assert(sum_at(t, h) == value_at(t[0].history@, h) + sum_at(t.drop_first(), h));
            assert(sum_at(t.drop_first(), h) == 0);
            assert(sum_at(s, h) == 0);
        }
    } else {
        assert(t[0] == s[0]);
        assert(t.drop_first() =~= s.drop_first().push(e));
        lemma_sum_at_push(s.drop_first(), e);
        assert forall|h: int| #[trigger] sum_at(t, h)
            == sum_at(s, h) + value_at(e.history@, h) by {
            assert(sum_at(t, h) == value_at(t[0].history@, h) + sum_at(t.drop_first(), h));
            assert(sum_at(t.drop_first(), h) == sum_at(s.drop_first().push(e), h));
            assert(sum_at(s.drop_first().push(e), h)
                == sum_at(s.drop_first(), h) + value_at(e.history@, h));
            assert(sum_at(s, h) == value_at(s[0].history@, h) + sum_at(s.drop_first(), h));
        }
    }
}

/// Replacing entry `i` (same key) rewrites that key's history and leaves
/// every other key's history as it was.
proof fn lemma_history_of_update(s: Seq<BalanceEntry>, i: int, e: BalanceEntry)
    requires
        0 <= i < s.len(),
        s[i].key@ == e.key@,
        forall|j: int| 0 <= j < s.len() && j != i ==> (#[trigger] s[j]).key@ != e.key@,
    ensures
        forall|k: Seq<char>| #[trigger] history_of(s.update(i, e), k)
            == if k == e.key@ { e.history@ } else { history_of(s, k) },
    decreases s.len(),
{
    let t = s.update(i, e);
    if i == 0 {
        assert(t[0] == e);
        assert(t.drop_first() =~= s.drop_first());
        assert forall|k: Seq<char>| #[trigger] history_of(t, k)
            == if k == e.key@ { e.history@ } else { history_of(s, k) } by {
            if k != e.key@ {
                assert(history_of(t, k) == history_of(t.drop_first(), k));
                assert(history_of(s, k) == history_of(s.drop_first(), k));
            }
        }
    } else {
        assert(t[0] == s[0]);
        assert(s[0].key@ != e.key@);
        assert(t.drop_first() =~= s.drop_first().update(i - 1, e));
        assert(s.drop_first()[i - 1] == s[i]);
        assert forall|j: int| 0 <= j < s.drop_first().len() && j != i - 1
            implies (#[trigger] s.drop_first()[j]).key@ != e.key@ by {
            assert(s.drop_first()[j] == s[j + 1]);
        }
        lemma_history_of_update(s.drop_first(), i - 1, e);
        assert forall|k: Seq<char>| #[trigger] history_of(t, k)
            == if k == e.key@ { e.history@ } else { history_of(s, k) } by {
            if k == s[0].key@ {
                assert(history_of(t, k) == s[0].history@);
            } else {
                assert(history_of(t, k) == history_of(t.drop_first(), k));
                assert(history_of(s, k) == history_of(s.drop_first(), k));
            }
        }
    }
}

/// Replacing entry `i` shifts the sum at every height by the difference
/// between the new and the old value of that entry.
proof fn lemma_sum_at_update(s: Seq<BalanceEntry>, i: int, e: BalanceEntry)
    requires
        0 <= i < s.len(),
    ensures
        forall|h: int| #[trigger] sum_at(s.update(i, e), h)
            == sum_at(s, h) - value_at(s[i].history@, h) + value_at(e.history@, h),
    decreases s.len(),
{
    let t = s.update(i, e);
    if i == 0 {
        assert(t[0] == e);
        assert(t.drop_first() =~= s.drop_first());
        assert forall|h: int| #[trigger] sum_at(t, h)
            == sum_at(s, h) - value_at(s[i].history@, h) + value_at(e.history@, h) by {
            assert(sum_at(t, h) == value_at(t[0].history@, h) + sum_at(t.drop_first(), h));
            assert(sum_at(s, h) == value_at(s[0].history@, h) + sum_at(s.drop_first(), h));
            assert(sum_at(t.drop_first(), h) == sum_at(s.drop_first(), h));
        }
    } else {
        assert(t[0] == s[0]);
        assert(t.drop_first() =~= s.drop_first().update(i - 1, e));
        assert(s.drop_first()[i - 1] == s[i]);
        lemma_sum_at_update(s.drop_first(), i - 1, e);
        assert forall|h: int| #[trigger] sum_at(t, h)
            == sum_at(s, h) - value_at(s[i].history@, h) + value_at(e.history@, h) by {
            assert(sum_at(t, h) == value_at(t[0].history@, h) + sum_at(t.drop_first(), h));
            assert(sum_at(t.drop_first(), h) == sum_at(s.drop_first().update(i - 1, e), h));
            assert(sum_at(s.drop_first().update(i - 1, e), h)
                == sum_at(s.drop_first(), h) - value_at(s.drop_first()[i - 1].history@, h)
                    + value_at(e.history@, h));
            assert(sum_at(s, h) == value_at(s[0].history@, h) + sum_at(s.drop_first(), h));
        }
    }
}

/// A height bound stays a bound when raised.
pub proof fn lemma_heights_at_most_mono(s: Seq<Checkpoint>, b1: int, b2: int)
    requires
        heights_at_most(s, b1),
        b1 <= b2,
    ensures
        heights_at_most(s, b2),
{
}

/// A store-wide height bound stays a bound when raised.
pub proof fn lemma_store_heights_mono(s: Seq<BalanceEntry>, b1: int, b2: int)
    requires
        store_heights_at_most(s, b1),
        b1 <= b2,
    ensures
        store_heights_at_most(s, b2),
{
    assert forall|i: int| 0 <= i < s.len()
        implies heights_at_most((#[trigger] s[i]).history@, b2) by {
        lemma_heights_at_most_mono(s[i].history@, b1, b2);
    }
}

/// In a well-formed history the last height bounds every height.
pub proof fn lemma_heights_bounded_by_last(s: Seq<Checkpoint>, b: int)
    requires
        heights_increasing(s),
        s.len() > 0 ==> s.last().height <= b,
    ensures
        heights_at_most(s, b),
{
    assert forall|i: int| 0 <= i < s.len()
        implies (#[trigger] s[i]).height <= b by {
        assert(s.last() == s[s.len() - 1]);
        if i < s.len() - 1 {
            assert(s[i].height < s[s.len() - 1].height);
        }
    }
}

/// A bound on every height of a store also bounds the heights of any
/// single key's history.
pub proof fn lemma_history_heights(s: Seq<BalanceEntry>, key: Seq<char>, b: int)
    requires
        store_heights_at_most(s, b),
    ensures
        heights_at_most(history_of(s, key), b),
    decreases s.len(),
{
    if s.len() > 0 {
        if s[0].key@ == key {
            assert(heights_at_most(s[0].history@, b));
        } else {
            assert(forall|i: int| 0 <= i < s.drop_first().len()
                ==> #[trigger] s.drop_first()[i] == s[i + 1]);
            lemma_history_heights(s.drop_first(), key, b);
        }
    }
}

/// Above a bound on every recorded height, a key's reading no longer
/// changes: the value at `h` equals the value at `b` for any `h >= b`.
pub proof fn lemma_lookup_stable_above(s: Seq<BalanceEntry>, key: Seq<char>, b: int, h: int)
    requires
        store_heights_at_most(s, b),
        b <= h,
    ensures
        lookup(s, key, h) == lookup(s, key, b),
{
    lemma_history_heights(s, key, b);
    let hist = history_of(s, key);
    assert(heights_at_most(hist, h));
    lemma_value_at_or_above_all(hist, b);
    lemma_value_at_or_above_all(hist, h);
}

/// The sum of recorded values is never negative.
pub proof fn lemma_sum_at_nonneg(s: Seq<BalanceEntry>, h: int)
    ensures
        sum_at(s, h) >= 0,
    decreases s.len(),
{
    if s.len() > 0 {
        lemma_sum_at_nonneg(s.drop_first(), h);
    }
}

/// No single recorded value exceeds the sum of all of them.
pub proof fn lemma_lookup_le_sum(s: Seq<BalanceEntry>, key: Seq<char>, h: int)
    ensures
        lookup(s, key, h) <= sum_at(s, h),
    decreases s.len(),
{
    if s.len() == 0 {
        assert(history_of(s, key) =~= Seq::<Checkpoint>::empty());
    } else {
        lemma_sum_at_nonneg(s.drop_first(), h);
        if s[0].key@ == key {
            assert(lookup(s, key, h) == value_at(s[0].history@, h));
        } else {
            lemma_lookup_le_sum(s.drop_first(), key, h);
        }
    }
}

/// One checkpointed history per address, with unique keys. An entry is
/// created lazily by the first write for its key and never removed, so
/// the full history stays available.
#[derive(Debug)]
pub struct SnapshotStore {
    entries: Vec<BalanceEntry>,
}

impl View for SnapshotStore {
    type V = Seq<BalanceEntry>;

    closed spec fn view(&self) -> Seq<BalanceEntry> {
        self.entries@
    }
}

impl SnapshotStore {
    pub open spec fn wf(self) -> bool {
        store_wf(self@)
    }

    /// The value recorded for `key` as of height `h`.
    pub open spec fn value_of(self, key: Seq<char>, h: int) -> u128 {
        lookup(self@, key, h)
    }

    /// An empty store: every key reads as 0 at every height.
    pub fn new() -> (r: SnapshotStore)
        ensures
            r.wf(),
            r@.len() == 0,
            forall|k: Seq<char>| !has_key(r@, k),
            forall|k: Seq<char>, h: int| #[trigger] lookup(r@, k, h) == 0,
            forall|h: int| #[trigger] sum_at(r@, h) == 0,
    {
        let r = SnapshotStore { entries: Vec::new() };
        proof {
            assert forall|k: Seq<char>, h: int| #[trigger] lookup(r@, k, h) == 0 by {
                lemma_lookup_absent(r@, k);
            }
        }
        r
    }

    /// The index of the entry holding `key`, if any.
    fn find(&self, key: &String) -> (r: Option<usize>)
        ensures
            match r {
                Some(i) => i < self@.len() && self@[i as int].key@ == key@,
                None => !has_key(self@, key@),
            },
    {
        let n = self.entries.len();
        let mut i: usize = 0;
        while i < n
            invariant
                n == self@.len(),
                i <= n,
                forall|j: int| 0 <= j < i ==> (#[trigger] self@[j]).key@ != key@,
            decreases n - i,
        {
            if self.entries[i].key == *key {
                return Some(i);
            }
            i += 1;
        }
        None
    }

    /// Record that the value for `key` became `amount` as of `height`.
    /// The write rewrites `key`'s reading from `height` on, leaves every
    /// other key's reading alone at every height, and shifts the sum from
    /// `height` on by the difference against `key`'s prior reading.
    pub fn write(&mut self, key: &String, height: u64, amount: u128)
        requires
            old(self).wf(),
            store_heights_at_most(old(self)@, height as int),
        ensures
            final(self).wf(),
            store_heights_at_most(final(self)@, height as int),
            forall|k: Seq<char>| #[trigger] has_key(final(self)@, k)
                == (has_key(old(self)@, k) || k == key@),
            forall|k: Seq<char>, h: int| #[trigger] lookup(final(self)@, k, h)
                == if k == key@ && h >= height as int {
                    amount
                } else {
                    lookup(old(self)@, k, h)
                },
            forall|h: int| #[trigger] sum_at(final(self)@, h)
                == sum_at(old(self)@, h)
                    + if h >= height as int {
                        amount - lookup(old(self)@, key@, h)
                    } else {
                        0
                    },
    {
        let ghost prior = self@;
        match self.find(key) {
            Some(i) => {
                let mut entry = self.entries.remove(i);
                proof {
                    assert(heights_at_most(entry.history@, height as int));
                    assert(entry.history.last_height() <= height as int) by {
                        if entry.history@.len() > 0 {
                            assert(entry.history@.last()
                                == entry.history@[entry.history@.len() - 1]);
                        }
                    }
                }
                entry.history.write(height, amount);
                let ghost ne = entry;
                self.entries.insert(i, entry);
                proof {
                    assert(self@ =~= prior.update(i as int, ne));
                    lemma_history_of_index(prior, i as int);
                    assert forall|j: int| 0 <= j < prior.len() && j != i as int
                        implies (#[trigger] prior[j]).key@ != ne.key@ by {}
                    lemma_history_of_update(prior, i as int, ne);
                    lemma_sum_at_update(prior, i as int, ne);
                    assert forall|k: Seq<char>, h: int| #[trigger] lookup(self@, k, h)
                        == if k == key@ && h >= height as int {
                            amount
                        } else {
                            lookup(prior, k, h)
                        } by {
                        assert(history_of(self@, k) == history_of(prior.update(i as int, ne), k));
                        if k == key@ {
                            assert(history_of(self@, k) == ne.history@);
                            assert(ne.history.value_at(h) == value_at(ne.history@, h));
                        } else {
                            assert(history_of(self@, k) == history_of(prior, k));
                        }
                    }
                    assert forall|h: int| #[trigger] sum_at(self@, h)
                        == sum_at(prior, h)
                            + if h >= height as int {
                                amount - lookup(prior, key@, h)
                            } else {
                                0
                            } by {
                        assert(sum_at(self@, h) == sum_at(prior.update(i as int, ne), h));
                        assert(sum_at(prior.update(i as int, ne), h)
                            == sum_at(prior, h) - value_at(prior[i as int].history@, h)
                                + value_at(ne.history@, h));
                        assert(lookup(prior, key@, h) == value_at(prior[i as int].history@, h));
                        assert(ne.history.value_at(h) == value_at(ne.history@, h));
                    }
                    assert forall|k: Seq<char>| #[trigger] has_key(self@, k)
                        == (has_key(prior, k) || k == key@) by {
                        if has_key(prior, k) {
                            let w = choose|w: int|
                                0 <= w < prior.len() && (#[trigger] prior[w]).key@ == k;
                            assert(self@[w].key@ == k);
                        }
                        if has_key(self@, k) {
                            let w = choose|w: int|
                                0 <= w < self@.len() && (#[trigger] self@[w]).key@ == k;
                            assert(prior[w].key@ == k || k == key@);
                        }
                        if k == key@ {
                            assert(self@[i as int].key@ == k);
                        }
                    }
                }
            },
            None => {
                let mut hist = SnapshotSeq::new();
                hist.write(height, amount);
                let entry = BalanceEntry { key: key.clone(), history: hist };
                let ghost ne = entry;
                self.entries.push(entry);
                proof {
                    lemma_lookup_absent(prior, key@);
                    lemma_history_of_push(prior, ne);
                    lemma_sum_at_push(prior, ne);
                    assert(self@ == prior.push(ne));
                    assert forall|k: Seq<char>, h: int| #[trigger] lookup(self@, k, h)
                        == if k == key@ && h >= height as int {
                            amount
                        } else {
                            lookup(prior, k, h)
                        } by {
                        if k == key@ {
                            assert(history_of(self@, k) == ne.history@);
                            assert(ne.history.value_at(h) == value_at(ne.history@, h));
                            assert(value_at(history_of(prior, k), h) == 0);
                        } else {
                            assert(history_of(self@, k) == history_of(prior, k));
                        }
                    }
                    assert forall|h: int| #[trigger] sum_at(self@, h)
                        == sum_at(prior, h)
                            + if h >= height as int {
                                amount - lookup(prior, key@, h)
                            } else {
                                0
                            } by {
                        assert(sum_at(self@, h)
                            == sum_at(prior, h) + value_at(ne.history@, h));
                        assert(ne.history.value_at(h) == value_at(ne.history@, h));
                        assert(lookup(prior, key@, h) == 0);
                    }
                    assert forall|j: int| 0 <= j < prior.len()
                        implies (#[trigger] prior[j]).key@ != key@ by {}
                    assert forall|i: int, j: int| 0 <= i < j < self@.len()
                        implies self@[i].key@ != self@[j].key@ by {
                        if j < self@.len() - 1 {
                            assert(self@[i] == prior[i] && self@[j] == prior[j]);
                        } else {
                            assert(self@[i] == prior[i]);
                        }
                    }
                    assert forall|k: Seq<char>| #[trigger] has_key(self@, k)
                        == (has_key(prior, k) || k == key@) by {
                        if has_key(prior, k) {
                            let w = choose|w: int|
                                0 <= w < prior.len() && (#[trigger] prior[w]).key@ == k;
                            assert(self@[w].key@ == k);
                        }
                        if has_key(self@, k) {
                            let w = choose|w: int|
                                0 <= w < self@.len() && (#[trigger] self@[w]).key@ == k;
                            assert(w < prior.len() ==> prior[w].key@ == k);
                        }
                        if k == key@ {
                            assert(self@[self@.len() - 1].key@ == k);
                        }
                    }
                }
            },
        }
    }

    /// The value recorded for `key` as of `height`.
    pub fn read_at(&self, key: &String, height: u64) -> (r: u128)
        requires
            self.wf(),
        ensures
            r == self.value_of(key@, height as int),
    {
        match self.find(key) {
            Some(i) => {
                proof {
                    lemma_history_of_index(self@, i as int);
                }
                self.entries[i].history.read_at(height)
            },
            None => {
                proof {
                    lemma_lookup_absent(self@, key@);
                }
                0
            },
        }
    }

    /// The most recent value recorded for `key`, regardless of height.
    pub fn read_latest(&self, key: &String) -> (r: u128)
        requires
            self.wf(),
        ensures
            r == if history_of(self@, key@).len() == 0 {
                0u128
            } else {
                history_of(self@, key@).last().amount
            },
    {
        match self.find(key) {
            Some(i) => {
                proof {
                    lemma_history_of_index(self@, i as int);
                }
                self.entries[i].history.read_latest()
            },
            None => {
                proof {
                    lemma_lookup_absent(self@, key@);
                }
                0
            },
        }
    }
}

} // verus!

