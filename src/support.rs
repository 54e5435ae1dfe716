use vstd::prelude::*;

use crate::itemset::{contains_item, distinct, holds, is_subset, ItemSet};

verus! {

/// The minimum support, as the fraction `num / den` of the transactions.
/// An itemset is frequent when its share of the transactions is strictly
/// greater than this fraction.
#[derive(Debug, Clone, Copy)]
pub struct MinSupport {
    pub num: u64,
    pub den: u64,
}

/// The number of transactions in `sets` whose items include all of `s`.
pub open spec fn occurrences(sets: Seq<Vec<u64>>, s: Set<u64>) -> nat
    decreases sets.len(),
{
    if sets.len() == 0 {
        0
    } else {
        occurrences(sets.drop_last(), s) + if s.subset_of(sets.last()@.to_set()) {
            1nat
        } else {
            0nat
        }
    }
}

/// `count` out of `total` is a share strictly above `m`.
pub open spec fn exceeds(count: nat, total: nat, m: MinSupport) -> bool {
    count * m.den > m.num * total
}

/// `s` is frequent in `sets` with respect to `m`.
pub open spec fn frequent(sets: Seq<Vec<u64>>, m: MinSupport, s: Set<u64>) -> bool {
    exceeds(occurrences(sets, s), sets.len(), m)
}

/// No set occurs in more transactions than there are.
pub proof fn lemma_occurrences_bounded(sets: Seq<Vec<u64>>, s: Set<u64>)
    ensures
        occurrences(sets, s) <= sets.len(),
    decreases sets.len(),
{
    if sets.len() > 0 {
        lemma_occurrences_bounded(sets.drop_last(), s);
    }
}

/// A set occurs in every transaction that holds a superset of it.
pub proof fn lemma_occurrences_antimonotone(sets: Seq<Vec<u64>>, small: Set<u64>, big: Set<u64>)
    requires
        small.subset_of(big),
    ensures
        occurrences(sets, big) <= occurrences(sets, small),
    decreases sets.len(),
{
    if sets.len() > 0 {
        lemma_occurrences_antimonotone(sets.drop_last(), small, big);
    }
}

/// A set that occurs somewhere lies within one transaction.
pub proof fn lemma_occurs_in_some(sets: Seq<Vec<u64>>, s: Set<u64>) -> (t: int)
    requires
        occurrences(sets, s) > 0,
    ensures
        0 <= t < sets.len(),
        s.subset_of(sets[t]@.to_set()),
    decreases sets.len(),
{
    if s.subset_of(sets.last()@.to_set()) {
        sets.len() - 1
    } else {
        lemma_occurs_in_some(sets.drop_last(), s)
    }
}

/// A frequent set occurs at least once.
pub proof fn lemma_frequent_occurs(sets: Seq<Vec<u64>>, m: MinSupport, s: Set<u64>)
    requires
        frequent(sets, m, s),
    ensures
        occurrences(sets, s) > 0,
{
    assert(0nat * m.den == 0) by (nonlinear_arith);
    assert(m.num * sets.len() >= 0) by (nonlinear_arith);
}

/// The number of transactions of `sets` that contain every item of `items`.
pub fn count_containing(sets: &Vec<Vec<u64>>, items: &Vec<u64>) -> (c: u64)
    ensures
        c == occurrences(sets@, items@.to_set()),
{
    let mut c: u64 = 0;
    let mut i: usize = 0;
    while i < sets.len()
        invariant
            0 <= i <= sets.len(),
            c == occurrences(sets@.subrange(0, i as int), items@.to_set()),
        decreases sets.len() - i,
    {
        proof {
            let pre = sets@.subrange(0, i + 1);
            assert(pre.drop_last() =~= sets@.subrange(0, i as int));
            lemma_occurrences_bounded(pre, items@.to_set());
        }
        if is_subset(items, &sets[i]) {
            c = c + 1;
        }
        i = i + 1;
    }
    proof {
        assert(sets@.subrange(0, sets@.len() as int) =~= sets@);
    }
    c
}

/// Whether `count` transactions out of `total` are a share above `m`.
pub fn exceeds_min(count: u64, total: u64, m: MinSupport) -> (r: bool)
    ensures
        r == exceeds(count as nat, total as nat, m),
{
    proof {
        assert(count as nat * m.den as nat <= u64::MAX as nat * u64::MAX as nat) by (nonlinear_arith);
        assert(m.num as nat * total as nat <= u64::MAX as nat * u64::MAX as nat) by (nonlinear_arith);
    }
    (count as u128) * (m.den as u128) > (m.num as u128) * (total as u128)
}

} // verus!

verus! {

/// Each itemset of `l` lists its items once and carries its exact count in
/// `sets`, out of the number of transactions.
pub open spec fn counted(sets: Seq<Vec<u64>>, l: Seq<ItemSet>) -> bool {
    forall|j: int|
        0 <= j < l.len() ==> {
            &&& (#[trigger] l[j]).wf()
            &&& l[j].count == occurrences(sets, l[j].members())
            &&& l[j].total == sets.len()
        }
}

/// `l` is the frequent level of size `k`: exactly the frequent sets of `k`
/// items, each once and with its count.
pub open spec fn is_level(sets: Seq<Vec<u64>>, m: MinSupport, l: Seq<ItemSet>, k: nat) -> bool {
    &&& counted(sets, l)
    &&& distinct(l)
    &&& forall|j: int|
        0 <= j < l.len() ==> (#[trigger] l[j]).items.len() == k && frequent(sets, m, l[j].members())
    &&& forall|s: Set<u64>|
        s.finite() && s.len() == k && #[trigger] frequent(sets, m, s) ==> holds(l, s)
}

/// Every identifier that occurs in some transaction, each once.
fn universe(sets: &Vec<Vec<u64>>) -> (u: Vec<u64>)
    ensures
        u@.no_duplicates(),
        forall|t: int, k: int|
            0 <= t < sets@.len() && 0 <= k < sets@[t]@.len() ==> u@.contains(#[trigger] sets@[t]@[k]),
{
    let mut u: Vec<u64> = Vec::new();
    let mut i: usize = 0;
    while i < sets.len()
        invariant
            0 <= i <= sets.len(),
            u@.no_duplicates(),
            forall|t: int, k: int|
                0 <= t < i && 0 <= k < sets@[t]@.len() ==> u@.contains(#[trigger] sets@[t]@[k]),
        decreases sets.len() - i,
    {
        let row = &sets[i];
        let mut j: usize = 0;
        while j < row.len()
            invariant
                0 <= i < sets.len(),
                row == sets@[i as int],
                0 <= j <= row.len(),
                u@.no_duplicates(),
                forall|t: int, k: int|
                    0 <= t < i && 0 <= k < sets@[t]@.len() ==> u@.contains(#[trigger] sets@[t]@[k]),
                forall|k: int| 0 <= k < j ==> u@.contains(#[trigger] row@[k]),
            decreases row.len() - j,
        {
            let x = row[j];
            if !contains_item(&u, x) {
                let ghost before = u@;
                u.push(x);
                proof {
                    assert forall|y: u64| before.contains(y) implies u@.contains(y) by {
                        let k = choose|k: int| 0 <= k < before.len() && before[k] == y;
                        assert(u@[k] == y);
                    }
                    assert(u@[before.len() as int] == x);
                }
            }
            j = j + 1;
        }
        i = i + 1;
    }
    u
}

/// The frequent single items of `sets`, with the number of transactions.
pub fn first_pass(sets: &Vec<Vec<u64>>, m: MinSupport) -> (r: (Vec<ItemSet>, u64))
    ensures
        r.1 == sets@.len(),
        is_level(sets@, m, r.0@, 1),
{
    let n = sets.len() as u64;
    let u = universe(sets);
    let mut large: Vec<ItemSet> = Vec::new();
    let mut i: usize = 0;
    while i < u.len()
        invariant
            0 <= i <= u.len(),
            n == sets@.len(),
            u@.no_duplicates(),
            counted(sets@, large@),
            forall|j: int|
                0 <= j < large@.len() ==> (#[trigger] large@[j]).items.len() == 1
                    && frequent(sets@, m, large@[j].members())
                    && exists|p: int| 0 <= p < i && large@[j].members() == set![u@[p]],
            distinct(large@),
            forall|p: int|
                0 <= p < i && #[trigger] frequent(sets@, m, set![u@[p]]) ==> holds(large@, set![u@[p]]),
        decreases u.len() - i,
    {
        let x = u[i];
        let mut single: Vec<u64> = Vec::new();
        single.push(x);
        proof {
            assert(single@.to_set() =~= set![x]) by {
                assert(single@[0] == x);
            }
            lemma_occurrences_bounded(sets@, set![x]);
        }
        let c = count_containing(sets, &single);
        let ghost before = large@;
        if exceeds_min(c, n, m) {
            large.push(ItemSet { items: single, count: c, total: n });
            proof {
                assert forall|j: int| 0 <= j < before.len() implies large@[j].members() != set![x] by {
                    let p = choose|p: int| 0 <= p < i && before[j].members() == set![u@[p]];
                    assert(set![u@[p]].contains(u@[p]));
                }
                assert(large@[before.len() as int].members() == set![x]);
            }
        }
        proof {
            assert forall|p: int|
                0 <= p < i + 1 && #[trigger] frequent(sets@, m, set![u@[p]]) implies holds(large@, set![u@[p]]) by {
                if p < i {
                    let j = choose|j: int| 0 <= j < before.len() && #[trigger] before[j].members() == set![u@[p]];
                    assert(large@[j] == before[j]);
                } else {
                    assert(large@[before.len() as int].members() == set![x]);
                }
            }
        }
        i = i + 1;
    }
    proof {
        assert forall|s: Set<u64>|
            s.finite() && s.len() == 1 && #[trigger] frequent(sets@, m, s) implies holds(large@, s) by {
            lemma_frequent_occurs(sets@, m, s);
            let t = lemma_occurs_in_some(sets@, s);
            let x = s.choose();
            assert(s.contains(x));
            assert(s =~= set![x]) by {
                assert forall|y: u64| s.contains(y) implies y == x by {
                    if y != x {
                        assert(s.remove(x).contains(y));
                        assert(s.remove(x).len() == 0);
                    }
                }
            }
            assert(sets@[t]@.to_set().contains(x));
            let k = choose|k: int| 0 <= k < sets@[t]@.len() && sets@[t]@[k] == x;
            assert(u@.contains(sets@[t]@[k]));
            let p = choose|p: int| 0 <= p < u@.len() && u@[p] == x;
        }
    }
    (large, n)
}

} // verus!

verus! {

/// A copy of `v`.
pub(crate) fn copy_items(v: &Vec<u64>) -> (r: Vec<u64>)
    ensures
        r@ == v@,
{
    let mut r: Vec<u64> = Vec::new();
    let mut i: usize = 0;
    while i < v.len()
        invariant
            0 <= i <= v.len(),
            r@ == v@.subrange(0, i as int),
        decreases v.len() - i,
    {
        r.push(v[i]);
        proof {
            assert(r@ =~= v@.subrange(0, i + 1));
        }
        i = i + 1;
    }
    proof {
        assert(r@ =~= v@);
    }
    r
}

/// Counts each candidate of `cands` over all of `sets` (`n` of them) and
/// keeps, in order, those whose share is above `m`.
pub fn recount(sets: &Vec<Vec<u64>>, n: u64, m: MinSupport, cands: &Vec<Vec<u64>>) -> (r: Vec<ItemSet>)
    requires
        n == sets@.len(),
        forall|q: int| 0 <= q < cands@.len() ==> (#[trigger] cands@[q])@.no_duplicates(),
        forall|q1: int, q2: int|
            0 <= q1 < cands@.len() && 0 <= q2 < cands@.len() && q1 != q2 ==> #[trigger] cands@[q1]@.to_set()
                != #[trigger] cands@[q2]@.to_set(),
    ensures
        counted(sets@, r@),
        distinct(r@),
        forall|j: int|
            0 <= j < r@.len() ==> frequent(sets@, m, (#[trigger] r@[j]).members()) && exists|q: int|
                0 <= q < cands@.len() && r@[j].items@ == cands@[q]@,
        forall|q: int|
            0 <= q < cands@.len() && #[trigger] frequent(sets@, m, cands@[q]@.to_set()) ==> holds(
                r@,
                cands@[q]@.to_set(),
            ),
{
    let mut next: Vec<ItemSet> = Vec::new();
    let mut i: usize = 0;
    while i < cands.len()
        invariant
            0 <= i <= cands.len(),
            n == sets@.len(),
            forall|q: int| 0 <= q < cands@.len() ==> (#[trigger] cands@[q])@.no_duplicates(),
            forall|q1: int, q2: int|
                0 <= q1 < cands@.len() && 0 <= q2 < cands@.len() && q1 != q2 ==> #[trigger] cands@[q1]@.to_set()
                    != #[trigger] cands@[q2]@.to_set(),
            counted(sets@, next@),
            distinct(next@),
            forall|j: int|
                0 <= j < next@.len() ==> frequent(sets@, m, (#[trigger] next@[j]).members()) && exists|q: int|
                    0 <= q < i && next@[j].items@ == cands@[q]@,
            forall|q: int|
                0 <= q < i && #[trigger] frequent(sets@, m, cands@[q]@.to_set()) ==> holds(
                    next@,
                    cands@[q]@.to_set(),
                ),
        decreases cands.len() - i,
    {
        proof {
            lemma_occurrences_bounded(sets@, cands@[i as int]@.to_set());
        }
        let c = count_containing(sets, &cands[i]);
        let ghost before = next@;
        let ghost s = cands@[i as int]@.to_set();
        if exceeds_min(c, n, m) {
            let items = copy_items(&cands[i]);
            next.push(ItemSet { items, count: c, total: n });
            proof {
                assert(next@[before.len() as int].members() == s);
                assert forall|j: int| 0 <= j < before.len() implies before[j].members() != s by {
                    let q = choose|q: int| 0 <= q < i && before[j].items@ == cands@[q]@;
                }
            }
        }
        proof {
            assert forall|q: int|
                0 <= q < i + 1 && #[trigger] frequent(sets@, m, cands@[q]@.to_set()) implies holds(
                    next@,
                    cands@[q]@.to_set(),
                ) by {
                if q < i {
                    let j = choose|j: int| 0 <= j < before.len() && #[trigger] before[j].members() == cands@[q]@.to_set();
                    assert(next@[j] == before[j]);
                } else {
                    assert(next@[before.len() as int].members() == s);
                }
            }
            assert forall|j: int| 0 <= j < next@.len() implies frequent(sets@, m, (#[trigger] next@[j]).members())
                && exists|q: int| 0 <= q < i + 1 && next@[j].items@ == cands@[q]@ by {
                if j < before.len() {
                    assert(next@[j] == before[j]);
                    let q = choose|q: int| 0 <= q < i && before[j].items@ == cands@[q]@;
                    assert(0 <= q < i + 1 && next@[j].items@ == cands@[q]@);
                } else {
                    assert(next@[j].items@ == cands@[i as int]@);
                }
            }
        }
        i = i + 1;
    }
    next
}

} // verus!
