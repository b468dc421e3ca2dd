//! The ranking path: the top-`k` entries of a frequency table.
//!
//! Entries are ordered by count descending; ties are broken by the address
//! bytes ascending, so the ranking is deterministic whatever order the
//! table stored its entries in.

use vstd::prelude::*;

use crate::bytes::{
    bytes_le, copy_bytes, lemma_lex_le_total, lemma_lex_le_transitive, lex_le,
};
use crate::table::{
    counts_view, has_key, key_index, keys_view, lookup, wf, FrequencyTable,
};
use crate::table::lemma_lookup_at;

verus! {

/// Ranked entries as byte strings with counts.
pub open spec fn view_entries(es: Seq<(Vec<u8>, u64)>) -> Seq<(Seq<u8>, u64)> {
    es.map_values(|e: (Vec<u8>, u64)| (e.0@, e.1))
}

/// `x` ranks at or above `y`: a larger count, or an equal count and an
/// address no later in lexicographic order.
pub open spec fn entry_ge(x: (Seq<u8>, u64), y: (Seq<u8>, u64)) -> bool {
    x.1 > y.1 || (x.1 == y.1 && lex_le(x.0, y.0))
}

/// Whether address `a` appears among the ranked entries.
pub open spec fn in_result(rv: Seq<(Seq<u8>, u64)>, a: Seq<u8>) -> bool {
    exists|i: int| 0 <= i < rv.len() && rv[i].0 == a
}

proof fn lemma_entry_ge_refl(x: (Seq<u8>, u64))
    ensures
        entry_ge(x, x),
{
    lemma_lex_le_total(x.0, x.0);
}

proof fn lemma_entry_ge_total(x: (Seq<u8>, u64), y: (Seq<u8>, u64))
    ensures
        entry_ge(x, y) || entry_ge(y, x),
{
    lemma_lex_le_total(x.0, y.0);
}

proof fn lemma_entry_ge_trans(x: (Seq<u8>, u64), y: (Seq<u8>, u64), z: (Seq<u8>, u64))
    requires
        entry_ge(x, y),
        entry_ge(y, z),
    ensures
        entry_ge(x, z),
{
    if x.1 == y.1 && y.1 == z.1 {
        lemma_lex_le_transitive(x.0, y.0, z.0);
    }
}

/// Decides `entry_ge` on entries.
fn entry_before(a: &(Vec<u8>, u64), b: &(Vec<u8>, u64)) -> (r: bool)
    ensures
        r == entry_ge((a.0@, a.1), (b.0@, b.1)),
{
    if a.1 > b.1 {
        true
    } else if a.1 < b.1 {
        false
    } else {
        bytes_le(&a.0, &b.0)
    }
}

impl FrequencyTable {
    /// The top-`k` ranking: at most `k` entries of the table, sorted by
    /// count descending with lexicographic tie-break, every entry a true
    /// (address, count) pair of the table, no address twice, and nothing
    /// left out that would rank above anything included. For `k` at or
    /// beyond the number of distinct addresses, every entry is included.
    pub fn top(&self, k: usize) -> (r: Vec<(Vec<u8>, u64)>)
        requires
            wf(*self),
        ensures
            ({
                let rv = view_entries(r@);
                let n = keys_view(*self).len();
                &&& rv.len() == if k as int <= n {
                    k as int
                } else {
                    n as int
                }
                &&& forall|i: int, j: int| 0 <= i < j < rv.len() ==> entry_ge(rv[i], rv[j])
                &&& forall|i: int|
                    0 <= i < rv.len() ==> has_key(*self, rv[i].0) && lookup(*self, rv[i].0)
                        == rv[i].1
                &&& forall|i: int, j: int| 0 <= i < j < rv.len() ==> rv[i].0 != rv[j].0
                &&& forall|a: Seq<u8>|
                    has_key(*self, a) && !in_result(rv, a) ==> (forall|i: int|
                        0 <= i < rv.len() ==> entry_ge(rv[i], (a, lookup(*self, a) as u64)))
                &&& k as int >= n ==> (forall|a: Seq<u8>|
                    has_key(*self, a) ==> in_result(rv, a))
            }),
    {
        let t = self;
        let n = t.keys.len();
        let mut work: Vec<(Vec<u8>, u64)> = Vec::new();
        let mut i: usize = 0;
        while i < n
            invariant
                wf(*t),
                n == keys_view(*t).len(),
                0 <= i <= n,
                work@.len() == i,
                forall|j: int|
                    0 <= j < i ==> #[trigger] view_entries(work@)[j] == (
                    keys_view(*t)[j],
                    counts_view(*t)[j],
                ),
            decreases n - i,
        {
            let key = copy_bytes(&t.keys[i]);
            let c = t.counts[i];
            let ghost prev = work@;
            work.push((key, c));
            proof {
                assert(view_entries(work@) =~= view_entries(prev).push((key@, c)));
            }
            i += 1;
        }
        proof {
            assert forall|j: int|
                0 <= j < view_entries(work@).len() implies has_key(*t, view_entries(work@)[j].0)
                && lookup(*t, view_entries(work@)[j].0) == view_entries(work@)[j].1 by {
                lemma_lookup_at(*t, j);
            }
            assert forall|a: Seq<u8>| has_key(*t, a) implies in_result(
                view_entries(work@),
                a,
            ) by {
                let j = key_index(*t, a);
                assert(0 <= j < keys_view(*t).len() && keys_view(*t)[j] == a);
                assert(view_entries(work@)[j].0 == a);
            }
        }
        let m: usize = if k <= n {
            k
        } else {
            n
        };
        let mut out: Vec<(Vec<u8>, u64)> = Vec::new();
        while out.len() < m
            invariant
                wf(*t),
                n == keys_view(*t).len(),
                m == if k as int <= n {
                    k as int
                } else {
                    n as int
                },
                out@.len() + work@.len() == n,
                out@.len() <= m,
                forall|i: int, j: int|
                    0 <= i < j < view_entries(out@).len() ==> entry_ge(
                        view_entries(out@)[i],
                        view_entries(out@)[j],
                    ),
                forall|i: int, j: int|
                    0 <= i < view_entries(out@).len() && 0 <= j < view_entries(work@).len()
                        ==> entry_ge(view_entries(out@)[i], view_entries(work@)[j]),
                forall|i: int|
                    0 <= i < view_entries(out@).len() ==> has_key(*t, view_entries(out@)[i].0)
                        && lookup(*t, view_entries(out@)[i].0) == view_entries(out@)[i].1,
                forall|j: int|
                    0 <= j < view_entries(work@).len() ==> has_key(*t, view_entries(work@)[j].0)
                        && lookup(*t, view_entries(work@)[j].0) == view_entries(work@)[j].1,
                forall|i: int, j: int|
                    0 <= i < j < view_entries(out@).len() ==> view_entries(out@)[i].0
                        != view_entries(out@)[j].0,
                forall|i: int, j: int|
                    0 <= i < j < view_entries(work@).len() ==> view_entries(work@)[i].0
                        != view_entries(work@)[j].0,
                forall|i: int, j: int|
                    0 <= i < view_entries(out@).len() && 0 <= j < view_entries(work@).len()
                        ==> view_entries(out@)[i].0 != view_entries(work@)[j].0,
                forall|a: Seq<u8>|
                    has_key(*t, a) ==> in_result(view_entries(out@), a) || in_result(
                        view_entries(work@),
                        a,
                    ),
            decreases m - out@.len(),
        {
            let wn = work.len();
            assert(wn > 0);
            let mut best: usize = 0;
            let mut idx: usize = 1;
            proof {
                lemma_entry_ge_refl(view_entries(work@)[0]);
            }
            while idx < wn
                invariant
                    wn == work@.len(),
                    0 <= best < idx <= wn,
                    forall|u: int|
                        0 <= u < idx ==> entry_ge(
                            view_entries(work@)[best as int],
                            view_entries(work@)[u],
                        ),
                decreases wn - idx,
            {
                proof {
                    lemma_entry_ge_refl(view_entries(work@)[best as int]);
                }
                if entry_before(&work[idx], &work[best]) {
                    proof {
                        assert forall|u: int|
                            0 <= u < idx + 1 implies entry_ge(
                            view_entries(work@)[idx as int],
                            view_entries(work@)[u],
                        ) by {
                            lemma_entry_ge_refl(view_entries(work@)[idx as int]);
                            if u < idx {
                                lemma_entry_ge_trans(
                                    view_entries(work@)[idx as int],
                                    view_entries(work@)[best as int],
                                    view_entries(work@)[u],
                                );
                            }
                        }
                    }
                    best = idx;
                } else {
                    proof {
                        lemma_entry_ge_total(
                            view_entries(work@)[idx as int],
                            view_entries(work@)[best as int],
                        );
                    }
                }
                idx += 1;
            }
            proof {
                lemma_entry_ge_refl(view_entries(work@)[best as int]);
            }
            let ghost old_work = work@;
            let ghost old_out = out@;
            let e = work.remove(best);
            out.push(e);
            proof {
                assert(view_entries(work@) =~= view_entries(old_work).remove(best as int));
                assert(view_entries(out@) =~= view_entries(old_out).push(
                    view_entries(old_work)[best as int],
                ));
                assert forall|a: Seq<u8>|
                    has_key(*t, a) implies in_result(view_entries(out@), a) || in_result(
                    view_entries(work@),
                    a,
                ) by {
                    if in_result(view_entries(old_out), a) {
                        let w = choose|w: int|
                            0 <= w < view_entries(old_out).len() && view_entries(old_out)[w].0
                                == a;
                        assert(view_entries(out@)[w].0 == a);
                    } else if in_result(view_entries(old_work), a) {
                        let w = choose|w: int|
                            0 <= w < view_entries(old_work).len() && view_entries(old_work)[w].0
                                == a;
                        if w == best {
                            assert(view_entries(out@)[view_entries(old_out).len() as int].0 == a);
                        } else if w < best {
                            assert(view_entries(work@)[w].0 == a);
                        } else {
                            assert(view_entries(work@)[w - 1].0 == a);
                        }
                    }
                }
            }
        }
        proof {
            let rv = view_entries(out@);
            if m == n {
                assert(work@.len() == 0);
            }
            assert forall|a: Seq<u8>|
                has_key(*t, a) && !in_result(rv, a) implies (forall|i: int|
                0 <= i < rv.len() ==> entry_ge(rv[i], (a, lookup(*t, a) as u64))) by {
                let w = choose|w: int|
                    0 <= w < view_entries(work@).len() && view_entries(work@)[w].0 == a;
                assert(view_entries(work@)[w].1 == lookup(*t, a));
                assert(view_entries(work@)[w] == (a, lookup(*t, a) as u64));
            }
        }
        out
    }
}

} // verus!
