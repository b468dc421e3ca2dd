//! Scan orchestration: folds the extractor's matches into a frequency
//! table, and the laws that make the fold order-independent.
//!
//! The contracts speak of `matches_of`, the number of lines whose first
//! IPv4-shaped token is a given address. That number depends only on the
//! multiset of lines, so any dispatch order — including a concurrent one
//! whose interleaving is unknown — yields the same table.

use vstd::prelude::*;

use crate::extract::{extract, extract_spec};
use crate::table::{
    has_key, lookup, total, wf, FrequencyTable,
};

verus! {

/// The lines of a vector of byte strings, as byte strings.
pub open spec fn lines_view(ls: Seq<Vec<u8>>) -> Seq<Seq<u8>> {
    ls.map_values(|l: Vec<u8>| l@)
}

/// Number of lines of `ls` whose extracted token is exactly `a`.
pub open spec fn matches_of(ls: Seq<Seq<u8>>, a: Seq<u8>) -> nat
    decreases ls.len(),
{
    if ls.len() == 0 {
        0
    } else {
        (if extract_spec(ls.first()) == Some(a) {
            1nat
        } else {
            0nat
        }) + matches_of(ls.drop_first(), a)
    }
}

/// Number of lines of `ls` that hold any token at all.
pub open spec fn matched_lines(ls: Seq<Seq<u8>>) -> nat
    decreases ls.len(),
{
    if ls.len() == 0 {
        0
    } else {
        (if extract_spec(ls.first()) is Some {
            1nat
        } else {
            0nat
        }) + matched_lines(ls.drop_first())
    }
}

proof fn lemma_matches_push(ls: Seq<Seq<u8>>, x: Seq<u8>, a: Seq<u8>)
    ensures
        matches_of(ls.push(x), a) == matches_of(ls, a) + (if extract_spec(x) == Some(a) {
            1nat
        } else {
            0nat
        }),
    decreases ls.len(),
{
    if ls.len() == 0 {
        assert(ls.push(x).drop_first() =~= ls);
    } else {
        assert(ls.push(x).drop_first() =~= ls.drop_first().push(x));
        lemma_matches_push(ls.drop_first(), x, a);
    }
}

proof fn lemma_matched_push(ls: Seq<Seq<u8>>, x: Seq<u8>)
    ensures
        matched_lines(ls.push(x)) == matched_lines(ls) + (if extract_spec(x) is Some {
            1nat
        } else {
            0nat
        }),
    decreases ls.len(),
{
    if ls.len() == 0 {
        assert(ls.push(x).drop_first() =~= ls);
    } else {
        assert(ls.push(x).drop_first() =~= ls.drop_first().push(x));
        lemma_matched_push(ls.drop_first(), x);
    }
}

proof fn lemma_matches_le_len(ls: Seq<Seq<u8>>, a: Seq<u8>)
    ensures
        matches_of(ls, a) <= ls.len(),
    decreases ls.len(),
{
    if ls.len() != 0 {
        lemma_matches_le_len(ls.drop_first(), a);
    }
}

proof fn lemma_matches_remove(ls: Seq<Seq<u8>>, j: int, a: Seq<u8>)
    requires
        0 <= j < ls.len(),
    ensures
        matches_of(ls, a) == matches_of(ls.remove(j), a) + (if extract_spec(ls[j]) == Some(a) {
            1nat
        } else {
            0nat
        }),
    decreases j,
{
    if j == 0 {
        assert(ls.remove(0) =~= ls.drop_first());
    } else {
        assert(ls.remove(j).drop_first() =~= ls.drop_first().remove(j - 1));
        lemma_matches_remove(ls.drop_first(), j - 1, a);
    }
}

proof fn lemma_matched_remove(ls: Seq<Seq<u8>>, j: int)
    requires
        0 <= j < ls.len(),
    ensures
        matched_lines(ls) == matched_lines(ls.remove(j)) + (if extract_spec(ls[j]) is Some {
            1nat
        } else {
            0nat
        }),
    decreases j,
{
    if j == 0 {
        assert(ls.remove(0) =~= ls.drop_first());
    } else {
        assert(ls.remove(j).drop_first() =~= ls.drop_first().remove(j - 1));
        lemma_matched_remove(ls.drop_first(), j - 1);
    }
}

proof fn lemma_matches_perm(l1: Seq<Seq<u8>>, l2: Seq<Seq<u8>>, a: Seq<u8>)
    requires
        l1.to_multiset() == l2.to_multiset(),
    ensures
        matches_of(l1, a) == matches_of(l2, a),
    decreases l1.len(),
{
    broadcast use vstd::seq_lib::group_to_multiset_ensures;

    if l1.len() == 0 {
        assert(l1.to_multiset().len() == 0);
        assert(l2.to_multiset().len() == l2.len());
    } else {
        let x = l1[0];
        assert(l1.contains(x));
        assert(l2.to_multiset().count(x) > 0);
        assert(l2.contains(x));
        let j = choose|j: int| 0 <= j < l2.len() && l2[j] == x;
        assert(l1.remove(0).to_multiset() == l1.to_multiset().remove(x));
        assert(l2.remove(j).to_multiset() == l2.to_multiset().remove(x));
        lemma_matches_perm(l1.remove(0), l2.remove(j), a);
        lemma_matches_remove(l1, 0, a);
        lemma_matches_remove(l2, j, a);
    }
}

proof fn lemma_matched_perm(l1: Seq<Seq<u8>>, l2: Seq<Seq<u8>>)
    requires
        l1.to_multiset() == l2.to_multiset(),
    ensures
        matched_lines(l1) == matched_lines(l2),
    decreases l1.len(),
{
    broadcast use vstd::seq_lib::group_to_multiset_ensures;

    if l1.len() == 0 {
        assert(l1.to_multiset().len() == 0);
        assert(l2.to_multiset().len() == l2.len());
    } else {
        let x = l1[0];
        assert(l1.contains(x));
        assert(l2.to_multiset().count(x) > 0);
        assert(l2.contains(x));
        let j = choose|j: int| 0 <= j < l2.len() && l2[j] == x;
        assert(l1.remove(0).to_multiset() == l1.to_multiset().remove(x));
        assert(l2.remove(j).to_multiset() == l2.to_multiset().remove(x));
        lemma_matched_perm(l1.remove(0), l2.remove(j));
        lemma_matched_remove(l1, 0);
        lemma_matched_remove(l2, j);
    }
}

/// Law: the counts depend only on the multiset of lines. Two inputs that
/// are permutations of one another — any order, any interleaving — give
/// the same count for every address and the same matched-line total.
pub proof fn lemma_counts_commute(l1: Seq<Seq<u8>>, l2: Seq<Seq<u8>>)
    requires
        l1.to_multiset() == l2.to_multiset(),
    ensures
        forall|a: Seq<u8>| matches_of(l1, a) == matches_of(l2, a),
        matched_lines(l1) == matched_lines(l2),
{
    assert forall|a: Seq<u8>| matches_of(l1, a) == matches_of(l2, a) by {
        lemma_matches_perm(l1, l2, a);
    }
    lemma_matched_perm(l1, l2);
}

/// Law: scanning the same input twice into two independent tables yields
/// tables with the same keys and the same count for every address.
pub proof fn lemma_rescan_identical(ls: Seq<Seq<u8>>, t1: FrequencyTable, t2: FrequencyTable)
    requires
        wf(t1),
        wf(t2),
        forall|a: Seq<u8>| lookup(t1, a) == matches_of(ls, a),
        forall|a: Seq<u8>| lookup(t2, a) == matches_of(ls, a),
    ensures
        forall|a: Seq<u8>| lookup(t1, a) == lookup(t2, a),
        forall|a: Seq<u8>| has_key(t1, a) <==> has_key(t2, a),
{
    crate::table::lemma_has_key_lookup(t1);
    crate::table::lemma_has_key_lookup(t2);
}

/// Builds the frequency table of a batch of lines: each line contributes
/// its first token, lines without one contribute nothing. The resulting
/// counts are exactly `matches_of`, and the counts sum to the number of
/// matched lines.
pub fn scan_lines(lines: &Vec<Vec<u8>>) -> (t: FrequencyTable)
    ensures
        wf(t),
        forall|a: Seq<u8>| lookup(t, a) == matches_of(lines_view(lines@), a),
        forall|a: Seq<u8>| has_key(t, a) <==> matches_of(lines_view(lines@), a) > 0,
        total(t) == matched_lines(lines_view(lines@)),
{
    let ghost all: Seq<Seq<u8>> = lines_view(lines@);
    let mut t = FrequencyTable::new();
    let n = lines.len();
    let mut i: usize = 0;
    assert(all.take(0) =~= Seq::<Seq<u8>>::empty());
    while i < n
        invariant
            wf(t),
            0 <= i <= n,
            n == lines@.len(),
            all == lines_view(lines@),
            all.len() == n,
            forall|a: Seq<u8>| lookup(t, a) == matches_of(all.take(i as int), a),
            total(t) == matched_lines(all.take(i as int)),
        decreases n - i,
    {
        let ghost prefix = all.take(i as int);
        let line = &lines[i];
        assert(line@ == all[i as int]);
        assert(all.take(i + 1) =~= prefix.push(all[i as int]));
        match extract(line) {
            Some(addr) => {
                proof {
                    lemma_matches_le_len(prefix, addr@);
                    assert(usize::MAX <= u64::MAX);
                    assert(lookup(t, addr@) < u64::MAX);
                }
                t.observe(addr);
                proof {
                    assert forall|a: Seq<u8>|
                        lookup(t, a) == matches_of(all.take(i + 1), a) by {
                        lemma_matches_push(prefix, all[i as int], a);
                    }
                    lemma_matched_push(prefix, all[i as int]);
                }
            },
            None => {
                proof {
                    assert forall|a: Seq<u8>|
                        lookup(t, a) == matches_of(all.take(i + 1), a) by {
                        lemma_matches_push(prefix, all[i as int], a);
                    }
                    lemma_matched_push(prefix, all[i as int]);
                }
            },
        }
        i += 1;
    }
    proof {
        assert(all.take(n as int) =~= all);
        crate::table::lemma_has_key_lookup(t);
    }
    t
}

} // verus!
