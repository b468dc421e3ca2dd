//! The aggregator's state: a frequency table from address token to count.
//!
//! Keys are unique and every stored count is at least one. The table is
//! mutated through `observe` alone, which increments-or-initializes one
//! address. The order in which addresses are first seen fixes the storage
//! order, but every contract below speaks only of the per-address counts,
//! which no order can change.

use vstd::prelude::*;

use crate::bytes::bytes_eq;

verus! {

/// Mapping from address token to occurrence count.
pub struct FrequencyTable {
    /// The distinct address tokens, in first-seen order.
    pub keys: Vec<Vec<u8>>,
    /// `counts[i]` is the number of observations of `keys[i]`.
    pub counts: Vec<u64>,
}

/// The tokens as byte strings.
pub open spec fn keys_view(t: FrequencyTable) -> Seq<Seq<u8>> {
    t.keys@.map_values(|k: Vec<u8>| k@)
}

/// The stored counts.
pub open spec fn counts_view(t: FrequencyTable) -> Seq<u64> {
    t.counts@
}

/// Well-formedness: the two columns line up, keys are distinct, and no
/// count is zero.
pub open spec fn wf(t: FrequencyTable) -> bool {
    &&& t.keys@.len() == t.counts@.len()
    &&& forall|i: int, j: int|
        0 <= i < j < keys_view(t).len() ==> keys_view(t)[i] != keys_view(t)[j]
    &&& forall|i: int| 0 <= i < counts_view(t).len() ==> counts_view(t)[i] >= 1
}

/// Whether the table has an entry for `a`.
pub open spec fn has_key(t: FrequencyTable, a: Seq<u8>) -> bool {
    exists|i: int| 0 <= i < keys_view(t).len() && keys_view(t)[i] == a
}

/// Index of the entry for `a`, when one exists.
pub open spec fn key_index(t: FrequencyTable, a: Seq<u8>) -> int {
    choose|i: int| 0 <= i < keys_view(t).len() && keys_view(t)[i] == a
}

/// The count recorded for `a`: zero when `a` has no entry.
pub open spec fn lookup(t: FrequencyTable, a: Seq<u8>) -> nat {
    if has_key(t, a) {
        counts_view(t)[key_index(t, a)] as nat
    } else {
        0
    }
}

/// Sum of the counts of `cs[..]`.
pub open spec fn sum_counts(cs: Seq<u64>) -> nat
    decreases cs.len(),
{
    if cs.len() == 0 {
        0
    } else {
        cs.first() as nat + sum_counts(cs.drop_first())
    }
}

/// Total number of observations recorded in the table.
pub open spec fn total(t: FrequencyTable) -> nat {
    sum_counts(counts_view(t))
}

/// In a well-formed table, the entry at any index `i` with key `a` is the
/// entry `lookup` speaks of.
pub proof fn lemma_lookup_at(t: FrequencyTable, i: int)
    requires
        wf(t),
        0 <= i < keys_view(t).len(),
    ensures
        lookup(t, keys_view(t)[i]) == counts_view(t)[i],
        key_index(t, keys_view(t)[i]) == i,
{
    let a = keys_view(t)[i];
    assert(has_key(t, a));
    let j = key_index(t, a);
    assert(0 <= j < keys_view(t).len() && keys_view(t)[j] == a);
    if i != j {
        assert(keys_view(t)[i] != keys_view(t)[j]);
    }
}

/// In a well-formed table, an address has an entry exactly when its
/// recorded count is positive: no entry ever holds a zero count.
pub proof fn lemma_has_key_lookup(t: FrequencyTable)
    requires
        wf(t),
    ensures
        forall|a: Seq<u8>| has_key(t, a) <==> lookup(t, a) > 0,
{
    assert forall|a: Seq<u8>| has_key(t, a) implies lookup(t, a) > 0 by {
        let j = key_index(t, a);
        assert(0 <= j < keys_view(t).len() && keys_view(t)[j] == a);
        lemma_lookup_at(t, j);
    }
}

/// Summing is stable under appending one count.
proof fn lemma_sum_push(cs: Seq<u64>, c: u64)
    ensures
        sum_counts(cs.push(c)) == sum_counts(cs) + c,
    decreases cs.len(),
{
    if cs.len() == 0 {
        assert(cs.push(c).drop_first() =~= cs);
    } else {
        assert(cs.push(c).drop_first() =~= cs.drop_first().push(c));
        lemma_sum_push(cs.drop_first(), c);
    }
}

/// Raising one count by one raises the sum by one.
proof fn lemma_sum_update(cs: Seq<u64>, i: int, c: u64)
    requires
        0 <= i < cs.len(),
    ensures
        sum_counts(cs.update(i, c)) == sum_counts(cs) - cs[i] + c,
    decreases cs.len(),
{
    if i == 0 {
        assert(cs.update(0, c).drop_first() =~= cs.drop_first());
    } else {
        assert(cs.update(i, c).drop_first() =~= cs.drop_first().update(i - 1, c));
        lemma_sum_update(cs.drop_first(), i - 1, c);
    }
}

impl FrequencyTable {
    /// An empty table: no keys, no observations.
    pub fn new() -> (r: FrequencyTable)
        ensures
            wf(r),
            keys_view(r).len() == 0,
            forall|a: Seq<u8>| lookup(r, a) == 0,
            total(r) == 0,
    {
        let r = FrequencyTable { keys: Vec::new(), counts: Vec::new() };
        assert(keys_view(r) =~= Seq::<Seq<u8>>::empty());
        r
    }

    /// Number of distinct addresses seen so far.
    pub fn distinct_count(&self) -> (r: usize)
        requires
            wf(*self),
        ensures
            r == keys_view(*self).len(),
    {
        self.keys.len()
    }

    /// The count recorded for `addr`, zero if it was never observed.
    pub fn count_of(&self, addr: &Vec<u8>) -> (r: u64)
        requires
            wf(*self),
        ensures
            r == lookup(*self, addr@),
    {
        let n = self.keys.len();
        let mut i: usize = 0;
        while i < n
            invariant
                wf(*self),
                n == keys_view(*self).len(),
                0 <= i <= n,
                forall|j: int| 0 <= j < i ==> keys_view(*self)[j] != addr@,
            decreases n - i,
        {
            if bytes_eq(&self.keys[i], addr) {
                proof {
                    lemma_lookup_at(*self, i as int);
                }
                return self.counts[i];
            }
            i += 1;
        }
        proof {
            assert(!has_key(*self, addr@));
        }
        0
    }

    /// Records one observation of `addr`: its count rises by one and it
    /// gains an entry if it had none; every other address is untouched.
    pub fn observe(&mut self, addr: Vec<u8>)
        requires
            wf(*old(self)),
            lookup(*old(self), addr@) < u64::MAX,
        ensures
            wf(*final(self)),
            lookup(*final(self), addr@) == lookup(*old(self), addr@) + 1,
            forall|b: Seq<u8>|
                b != addr@ ==> lookup(*final(self), b) == lookup(*old(self), b),
            has_key(*final(self), addr@),
            forall|b: Seq<u8>| has_key(*old(self), b) ==> has_key(*final(self), b),
            forall|b: Seq<u8>| has_key(*final(self), b) ==> has_key(*old(self), b) || b == addr@,
            total(*final(self)) == total(*old(self)) + 1,
            keys_view(*final(self)).len() == keys_view(*old(self)).len() + (
            if has_key(*old(self), addr@) {
                0int
            } else {
                1int
            }),
    {
        let n = self.keys.len();
        let mut i: usize = 0;
        while i < n
            invariant
                *self == *old(self),
                wf(*self),
                n == keys_view(*self).len(),
                0 <= i <= n,
                forall|j: int| 0 <= j < i ==> keys_view(*self)[j] != addr@,
                lookup(*self, addr@) < u64::MAX,
            decreases n - i,
        {
            if bytes_eq(&self.keys[i], &addr) {
                proof {
                    lemma_lookup_at(*self, i as int);
                }
                let c = self.counts[i];
                assert(c < u64::MAX);
                self.counts[i] = c + 1;
                proof {
                    let told = *old(self);
                    let tnew = *self;
                    assert(keys_view(tnew) =~= keys_view(told));
                    assert(counts_view(tnew) =~= counts_view(told).update(i as int, (c + 1) as u64));
                    lemma_sum_update(counts_view(told), i as int, (c + 1) as u64);
                    assert forall|b: Seq<u8>|
                        b != addr@ implies lookup(tnew, b) == lookup(told, b) by {
                        if has_key(tnew, b) {
                            let j = key_index(tnew, b);
                            assert(j != i);
                            lemma_lookup_at(tnew, j);
                            lemma_lookup_at(told, j);
                        } else {
                            assert(!has_key(told, b));
                        }
                    }
                    lemma_lookup_at(tnew, i as int);
                }
                return ;
            }
            i += 1;
        }
        proof {
            assert(!has_key(*self, addr@));
            assert(lookup(*self, addr@) == 0);
        }
        self.keys.push(addr);
        self.counts.push(1);
        proof {
            let told = *old(self);
            let tnew = *self;
            let a = keys_view(tnew)[n as int];
            assert(keys_view(tnew) =~= keys_view(told).push(a));
            assert(counts_view(tnew) =~= counts_view(told).push(1u64));
            lemma_sum_push(counts_view(told), 1u64);
            assert(wf(tnew));
            lemma_lookup_at(tnew, n as int);
            assert forall|b: Seq<u8>| has_key(told, b) implies has_key(tnew, b) by {
                let j = key_index(told, b);
                assert(0 <= j < keys_view(told).len() && keys_view(told)[j] == b);
                assert(keys_view(tnew)[j] == b);
            }
            assert forall|b: Seq<u8>| b != a implies lookup(tnew, b) == lookup(told, b) by {
                if has_key(tnew, b) {
                    let j = key_index(tnew, b);
                    assert(j != n);
                    lemma_lookup_at(tnew, j);
                    lemma_lookup_at(told, j);
                } else {
                    if has_key(told, b) {
                        let j = key_index(told, b);
                        assert(0 <= j < keys_view(told).len() && keys_view(told)[j] == b);
                        assert(keys_view(tnew)[j] == b);
                    }
                }
            }
        }
    }
}

} // verus!
