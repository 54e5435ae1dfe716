//! Frequent itemset mining with the level-wise Apriori algorithm.

pub mod candidates;
pub mod itemset;
pub mod support;

use vstd::prelude::*;

use crate::candidates::{admissible, generate_subsets, in_cands};
use crate::itemset::{distinct, holds, ItemSet};
use crate::support::{
    counted, first_pass, frequent, is_level, lemma_frequent_occurs,
    lemma_occurrences_antimonotone, lemma_occurs_in_some, occurrences, recount, MinSupport,
};

verus! {

/// The length of the longest transaction of `sets`.
pub open spec fn widest(sets: Seq<Vec<u64>>) -> nat
    decreases sets.len(),
{
    if sets.len() == 0 {
        0
    } else {
        let w = widest(sets.drop_last());
        if sets.last()@.len() > w {
            sets.last()@.len()
        } else {
            w
        }
    }
}

proof fn lemma_widest(sets: Seq<Vec<u64>>, t: int)
    requires
        0 <= t < sets.len(),
    ensures
        sets[t]@.len() <= widest(sets),
    decreases sets.len(),
{
    if t < sets.len() - 1 {
        lemma_widest(sets.drop_last(), t);
    }
}

/// An itemset that is frequent stays frequent when items are taken out of it.
pub proof fn lemma_frequent_subset(sets: Seq<Vec<u64>>, m: MinSupport, small: Set<u64>, big: Set<u64>)
    requires
        small.subset_of(big),
        frequent(sets, m, big),
    ensures
        frequent(sets, m, small),
{
    lemma_occurrences_antimonotone(sets, small, big);
    let cs = occurrences(sets, small);
    let cb = occurrences(sets, big);
    assert(cs * m.den >= cb * m.den) by (nonlinear_arith)
        requires
            cs >= cb,
    ;
}

/// A frequent set of at least `k` items has a frequent subset of exactly `k` items.
proof fn lemma_frequent_of_size(sets: Seq<Vec<u64>>, m: MinSupport, s: Set<u64>, k: nat) -> (t: Set<u64>)
    requires
        s.finite(),
        s.len() >= k,
        frequent(sets, m, s),
    ensures
        t.finite(),
        t.len() == k,
        t.subset_of(s),
        frequent(sets, m, t),
    decreases s.len(),
{
    if s.len() == k {
        s
    } else {
        let x = s.choose();
        assert(s.contains(x));
        lemma_frequent_subset(sets, m, s.remove(x), s);
        lemma_frequent_of_size(sets, m, s.remove(x), k)
    }
}

/// `r` is the complete answer for `sets` and `m`: each of its itemsets is
/// non-empty, frequent, listed once and carries its exact count, and every
/// non-empty frequent set of items is among them.
pub open spec fn mined(sets: Seq<Vec<u64>>, m: MinSupport, r: Seq<ItemSet>) -> bool {
    &&& counted(sets, r)
    &&& distinct(r)
    &&& forall|j: int|
        0 <= j < r.len() ==> (#[trigger] r[j]).items@.len() > 0 && frequent(sets, m, r[j].members())
    &&& forall|s: Set<u64>| s.finite() && s.len() > 0 && #[trigger] frequent(sets, m, s) ==> holds(r, s)
}

/// The frequent itemsets of `sets`: every non-empty set of items whose share
/// of the transactions is strictly above `min_support`, each once, with the
/// number of transactions that contain it.
pub fn apriori(sets: Vec<Vec<u64>>, min_support: MinSupport) -> (r: Vec<ItemSet>)
    ensures
        mined(sets@, min_support, r@),
{
    let m = min_support;
    let (mut large, n) = first_pass(&sets, m);
    let mut output: Vec<ItemSet> = Vec::new();
    let ghost mut k: nat = 1;
    while large.len() > 0
        invariant
            k >= 1,
            k <= widest(sets@) + 1,
            n == sets@.len(),
            is_level(sets@, m, large@, k),
            counted(sets@, output@),
            distinct(output@),
            forall|j: int|
                0 <= j < output@.len() ==> 1 <= (#[trigger] output@[j]).items@.len() < k
                    && frequent(sets@, m, output@[j].members()),
            forall|s: Set<u64>|
                s.finite() && 0 < s.len() < k && #[trigger] frequent(sets@, m, s) ==> holds(
                    output@,
                    s,
                ),
        decreases widest(sets@) + 1 - k,
    {
        // The itemsets of a non-empty level lie within some transaction, so
        // `k` never passes the longest one.
        proof {
            let e = large@[0];
            e.items@.unique_seq_to_set();
            lemma_frequent_occurs(sets@, m, e.members());
            let t = lemma_occurs_in_some(sets@, e.members());
            sets@[t]@.lemma_cardinality_of_set();
            vstd::set_lib::lemma_len_subset(e.members(), sets@[t]@.to_set());
            lemma_widest(sets@, t);
        }
        // The current level joins the result once its candidates are formed.
        let cands = generate_subsets(&large, Ghost(k));
        let ghost prev = output@;
        let ghost level = large@;
        output.append(&mut large);
        proof {
            assert forall|j: int| 0 <= j < level.len() implies (#[trigger] level[j]).members().len() == k by {
                level[j].items@.unique_seq_to_set();
            }
            assert forall|j: int| 0 <= j < prev.len() implies (#[trigger] prev[j]).members().len() < k by {
                prev[j].items@.unique_seq_to_set();
            }
            assert(output@ == prev + level);
            assert forall|i: int, j: int|
                0 <= i < output@.len() && 0 <= j < output@.len() && i != j
                implies #[trigger] output@[i].members() != #[trigger] output@[j].members() by {
                if i < prev.len() && j >= prev.len() {
                    assert(output@[i] == prev[i]);
                    assert(output@[j] == level[j - prev.len()]);
                } else if i >= prev.len() && j < prev.len() {
                    assert(output@[j] == prev[j]);
                    assert(output@[i] == level[i - prev.len()]);
                } else if i < prev.len() {
                    assert(output@[i] == prev[i] && output@[j] == prev[j]);
                } else {
                    assert(output@[i] == level[i - prev.len()] && output@[j] == level[j - prev.len()]);
                }
            }
            assert forall|s: Set<u64>|
                s.finite() && 0 < s.len() < k + 1 && #[trigger] frequent(sets@, m, s) implies holds(output@, s) by {
                if s.len() < k {
                    let j = choose|j: int| 0 <= j < prev.len() && #[trigger] prev[j].members() == s;
                    assert(output@[j] == prev[j]);
                } else {
                    assert(holds(level, s));
                    let j = choose|j: int| 0 <= j < level.len() && #[trigger] level[j].members() == s;
                    assert(output@[prev.len() + j] == level[j]);
                }
            }
        }
        let next = recount(&sets, n, m, &cands);
        proof {
            assert forall|j: int| 0 <= j < next@.len() implies (#[trigger] next@[j]).items@.len() == k + 1 by {
                let q = choose|q: int| 0 <= q < cands@.len() && next@[j].items@ == cands@[q]@;
            }
        }
        proof {
            assert forall|s: Set<u64>|
                s.finite() && s.len() == k + 1 && #[trigger] frequent(sets@, m, s) implies holds(next@, s) by {
                assert forall|x: u64| #[trigger] s.contains(x) implies holds(level, s.remove(x)) by {
                    lemma_frequent_subset(sets@, m, s.remove(x), s);
                }
                assert(admissible(level, s));
                assert(in_cands(cands@, s));
                let q = choose|q: int| 0 <= q < cands@.len() && #[trigger] cands@[q]@.to_set() == s;
                assert(frequent(sets@, m, cands@[q]@.to_set()));
            }
        }
        large = next;
        proof {
            k = k + 1;
        }
    }
    proof {
        assert forall|s: Set<u64>|
            s.finite() && s.len() > 0 && #[trigger] frequent(sets@, m, s) implies holds(output@, s) by {
            if s.len() >= k {
                let t = lemma_frequent_of_size(sets@, m, s, k);
                assert(holds(large@, t));
            }
        }
    }
    output
}

/// Every itemset returned with more than one item has each of its subsets
/// one item smaller returned as well.
pub proof fn lemma_result_closed_under_subsets(sets: Seq<Vec<u64>>, m: MinSupport, r: Seq<ItemSet>, j: int, x: u64)
    requires
        mined(sets, m, r),
        0 <= j < r.len(),
        r[j].items@.len() > 1,
        r[j].members().contains(x),
    ensures
        holds(r, r[j].members().remove(x)),
{
    let s = r[j].members();
    r[j].items@.unique_seq_to_set();
    lemma_frequent_subset(sets, m, s.remove(x), s);
    assert(s.remove(x).len() > 0);
}

/// Every itemset returned occurs in exactly `count` of the transactions, and
/// its support, `count / total`, is taken over all of them.
pub proof fn lemma_result_counts(sets: Seq<Vec<u64>>, m: MinSupport, r: Seq<ItemSet>, j: int)
    requires
        mined(sets, m, r),
        0 <= j < r.len(),
    ensures
        r[j].count == occurrences(sets, r[j].members()),
        r[j].total == sets.len(),
{
}

/// A non-empty set of items whose share of the transactions equals the
/// minimum support is not returned; one whose share is above it is.
pub proof fn lemma_threshold_is_strict(sets: Seq<Vec<u64>>, m: MinSupport, r: Seq<ItemSet>, s: Set<u64>)
    requires
        mined(sets, m, r),
        s.finite(),
        s.len() > 0,
    ensures
        occurrences(sets, s) * m.den == m.num * sets.len() ==> !holds(r, s),
        occurrences(sets, s) * m.den > m.num * sets.len() ==> holds(r, s),
{
    if holds(r, s) {
        let j = choose|j: int| 0 <= j < r.len() && #[trigger] r[j].members() == s;
        assert(frequent(sets, m, r[j].members()));
    }
    if occurrences(sets, s) * m.den > m.num * sets.len() {
        assert(frequent(sets, m, s));
    }
}

} // verus!
