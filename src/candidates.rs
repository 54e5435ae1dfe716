use vstd::prelude::*;

use crate::itemset::{contains_item, holds, same_members, ItemSet};
use crate::support::copy_items;

verus! {

/// Every subset of `s` that lacks one of its items is held by `l`.
pub open spec fn admissible(l: Seq<ItemSet>, s: Set<u64>) -> bool {
    forall|x: u64| #[trigger] s.contains(x) ==> holds(l, s.remove(x))
}

/// Some candidate of `r` lists exactly the members `s`.
pub open spec fn in_cands(r: Seq<Vec<u64>>, s: Set<u64>) -> bool {
    exists|q: int| 0 <= q < r.len() && #[trigger] r[q]@.to_set() == s
}

/// The candidates of `r` are admissible for `l`, list `k + 1` items each
/// once, and are pairwise different as sets.
pub open spec fn cands_ok(l: Seq<ItemSet>, r: Seq<Vec<u64>>, k: nat) -> bool {
    &&& forall|q: int|
        0 <= q < r.len() ==> {
            &&& (#[trigger] r[q])@.no_duplicates()
            &&& r[q]@.len() == k + 1
            &&& admissible(l, r[q]@.to_set())
        }
    &&& forall|q1: int, q2: int|
        0 <= q1 < r.len() && 0 <= q2 < r.len() && q1 != q2 ==> #[trigger] r[q1]@.to_set()
            != #[trigger] r[q2]@.to_set()
}

/// `new` keeps every entry of `old`, at the same place.
pub open spec fn extends(new: Seq<Vec<u64>>, old: Seq<Vec<u64>>) -> bool {
    &&& old.len() <= new.len()
    &&& forall|q: int| 0 <= q < old.len() ==> new[q] == old[q]
}

/// The set that the join forms from the `p`-th item of `l[a]` and the itemset `l[b]`.
pub open spec fn joined(l: Seq<ItemSet>, a: int, b: int, p: int) -> Set<u64> {
    l[b].members().insert(l[a].items@[p])
}

/// Where the join of item `p` of `l[a]` onto `l[b]` yields a new admissible set, `r` holds it.
pub open spec fn covered(l: Seq<ItemSet>, r: Seq<Vec<u64>>, a: int, b: int, p: int) -> bool {
    (!l[b].members().contains(l[a].items@[p]) && admissible(l, joined(l, a, b, p))) ==> in_cands(
        r,
        joined(l, a, b, p),
    )
}

/// Every join step before `(a0, b0, p0)`, in the order of the loops, is covered by `r`.
pub open spec fn done_upto(l: Seq<ItemSet>, r: Seq<Vec<u64>>, a0: int, b0: int, p0: int) -> bool {
    forall|a: int, b: int, p: int|
        0 <= a < l.len() && 0 <= b < l.len() && 0 <= p < l[a].items@.len() && (a < a0 || (a == a0
            && b < b0) || (a == a0 && b == b0 && p < p0)) ==> #[trigger] covered(l, r, a, b, p)
}

proof fn lemma_extends_keeps(new: Seq<Vec<u64>>, old: Seq<Vec<u64>>)
    requires
        extends(new, old),
    ensures
        forall|s: Set<u64>| in_cands(old, s) ==> #[trigger] in_cands(new, s),
{
    assert forall|s: Set<u64>| in_cands(old, s) implies #[trigger] in_cands(new, s) by {
        let q = choose|q: int| 0 <= q < old.len() && #[trigger] old[q]@.to_set() == s;
        assert(new[q] == old[q]);
    }
}

/// Whether some itemset of `l` has exactly the members listed in `v`.
fn in_level(l: &Vec<ItemSet>, v: &Vec<u64>) -> (r: bool)
    ensures
        r == holds(l@, v@.to_set()),
{
    let mut j: usize = 0;
    while j < l.len()
        invariant
            0 <= j <= l.len(),
            forall|q: int| 0 <= q < j ==> (#[trigger] l@[q]).members() != v@.to_set(),
        decreases l.len() - j,
    {
        if same_members(&l[j].items, v) {
            proof {
                assert(l@[j as int].members() == v@.to_set());
            }
            return true;
        }
        j = j + 1;
    }
    false
}

/// Whether some candidate of `r` lists the same items as `v`.
fn has_candidate(r: &Vec<Vec<u64>>, v: &Vec<u64>) -> (b: bool)
    ensures
        b == in_cands(r@, v@.to_set()),
{
    let mut j: usize = 0;
    while j < r.len()
        invariant
            0 <= j <= r.len(),
            forall|q: int| 0 <= q < j ==> (#[trigger] r@[q])@.to_set() != v@.to_set(),
        decreases r.len() - j,
    {
        if same_members(&r[j], v) {
            proof {
                assert(r@[j as int]@.to_set() == v@.to_set());
            }
            return true;
        }
        j = j + 1;
    }
    false
}

/// The items of `v` other than `x`.
fn without(v: &Vec<u64>, x: u64) -> (r: Vec<u64>)
    ensures
        r@.to_set() == v@.to_set().remove(x),
{
    let mut r: Vec<u64> = Vec::new();
    let mut i: usize = 0;
    while i < v.len()
        invariant
            0 <= i <= v.len(),
            forall|y: u64| r@.contains(y) <==> (y != x && exists|k: int| 0 <= k < i && v@[k] == y),
        decreases v.len() - i,
    {
        let y = v[i];
        let ghost before = r@;
        if y != x {
            r.push(y);
            proof {
                assert forall|z: u64| before.contains(z) implies r@.contains(z) by {
                    let k = choose|k: int| 0 <= k < before.len() && before[k] == z;
                    assert(r@[k] == z);
                }
                assert(r@[before.len() as int] == y);
                assert forall|z: u64| r@.contains(z) implies before.contains(z) || z == y by {
                    let k = choose|k: int| 0 <= k < r@.len() && r@[k] == z;
                    if k < before.len() {
                        assert(before[k] == z);
                    }
                }
            }
        }
        proof {
            assert forall|z: u64| r@.contains(z) <==> (z != x && exists|k: int| 0 <= k < i + 1 && v@[k] == z) by {
                if z != x && exists|k: int| 0 <= k < i + 1 && v@[k] == z {
                    let k = choose|k: int| 0 <= k < i + 1 && v@[k] == z;
                    if k < i {
                        assert(exists|k: int| 0 <= k < i && v@[k] == z);
                        assert(before.contains(z));
                    } else {
                        assert(z == y);
                        assert(y != x);
                        assert(r@[before.len() as int] == y);
                    }
                }
                if r@.contains(z) {
                    if z == y {
                        assert(v@[i as int] == z);
                    } else {
                        assert(before.contains(z));
                        let k = choose|k: int| 0 <= k < i && v@[k] == z;
                        assert(0 <= k < i + 1 && v@[k] == z);
                    }
                }
            }
        }
        i = i + 1;
    }
    proof {
        assert forall|z: u64| r@.to_set().contains(z) <==> v@.to_set().remove(x).contains(z) by {
            if v@.contains(z) {
                let k = choose|k: int| 0 <= k < v@.len() && v@[k] == z;
                assert(exists|k: int| 0 <= k < i && v@[k] == z);
            }
        }
        assert(r@.to_set() =~= v@.to_set().remove(x));
    }
    r
}

/// Whether every subset of `cand` that lacks one item is an itemset of `l`.
fn passes_prune(l: &Vec<ItemSet>, cand: &Vec<u64>) -> (r: bool)
    ensures
        r == admissible(l@, cand@.to_set()),
{
    let mut i: usize = 0;
    while i < cand.len()
        invariant
            0 <= i <= cand.len(),
            forall|q: int| 0 <= q < i ==> holds(l@, cand@.to_set().remove(#[trigger] cand@[q])),
        decreases cand.len() - i,
    {
        let sub = without(cand, cand[i]);
        if !in_level(l, &sub) {
            proof {
                assert(cand@.to_set().contains(cand@[i as int]));
            }
            return false;
        }
        i = i + 1;
    }
    proof {
        assert forall|x: u64| #[trigger] cand@.to_set().contains(x) implies holds(l@, cand@.to_set().remove(x)) by {
            let q = choose|q: int| 0 <= q < cand@.len() && cand@[q] == x;
        }
    }
    true
}

/// Adds `cand` to `cands` when it passes the prune and is not there yet.
fn add_candidate(cands: &mut Vec<Vec<u64>>, l: &Vec<ItemSet>, cand: Vec<u64>, Ghost(k): Ghost<nat>)
    requires
        cands_ok(l@, old(cands)@, k),
        cand@.no_duplicates(),
        cand@.len() == k + 1,
    ensures
        cands_ok(l@, final(cands)@, k),
        extends(final(cands)@, old(cands)@),
        admissible(l@, cand@.to_set()) ==> in_cands(final(cands)@, cand@.to_set()),
{
    if passes_prune(l, &cand) && !has_candidate(cands, &cand) {
        let ghost s = cand@.to_set();
        cands.push(cand);
        proof {
            let last = cands@.len() - 1;
            assert(cands@[last]@.to_set() == s);
        }
    }
}

} // verus!

verus! {

/// The candidates of the next level, built from the itemsets `l` of `k`
/// items each: every set formed by adding to an itemset of `l` an item that
/// another itemset of `l` has and it lacks, kept only when each of its
/// subsets one item smaller is in `l`, and listed once.
pub(crate) fn generate_subsets(l: &Vec<ItemSet>, Ghost(k): Ghost<nat>) -> (r: Vec<Vec<u64>>)
    requires
        k >= 1,
        forall|j: int| 0 <= j < l@.len() ==> (#[trigger] l@[j]).wf() && l@[j].items@.len() == k,
    ensures
        cands_ok(l@, r@, k),
        forall|s: Set<u64>|
            s.finite() && s.len() == k + 1 && admissible(l@, s) ==> #[trigger] in_cands(r@, s),
{
    let mut r: Vec<Vec<u64>> = Vec::new();
    let mut a: usize = 0;
    while a < l.len()
        invariant
            0 <= a <= l.len(),
            forall|j: int| 0 <= j < l@.len() ==> (#[trigger] l@[j]).wf() && l@[j].items@.len() == k,
            cands_ok(l@, r@, k),
            done_upto(l@, r@, a as int, 0, 0),
        decreases l.len() - a,
    {
        let mut b: usize = 0;
        while b < l.len()
            invariant
                0 <= a < l.len(),
                0 <= b <= l.len(),
                forall|j: int| 0 <= j < l@.len() ==> (#[trigger] l@[j]).wf() && l@[j].items@.len() == k,
                cands_ok(l@, r@, k),
                done_upto(l@, r@, a as int, b as int, 0),
            decreases l.len() - b,
        {
            let mut p: usize = 0;
            while p < l[a].items.len()
                invariant
                    0 <= a < l.len(),
                    0 <= b < l.len(),
                    0 <= p <= l@[a as int].items@.len(),
                    forall|j: int| 0 <= j < l@.len() ==> (#[trigger] l@[j]).wf() && l@[j].items@.len() == k,
                    cands_ok(l@, r@, k),
                    done_upto(l@, r@, a as int, b as int, p as int),
                decreases l@[a as int].items@.len() - p,
            {
                let x = l[a].items[p];
                let ghost before = r@;
                if !contains_item(&l[b].items, x) {
                    let mut cand = copy_items(&l[b].items);
                    cand.push(x);
                    proof {
                        let bi = l@[b as int].items@;
                        assert(cand@ =~= bi.push(x));
                        assert forall|s: int, t: int| 0 <= s < cand@.len() && 0 <= t < cand@.len() && s != t
                            implies cand@[s] != cand@[t] by {
                            if s == bi.len() {
                                assert(cand@[t] == bi[t]);
                                assert(bi[t] != x) by {
                                    if bi[t] == x {
                                        assert(bi.contains(x));
                                    }
                                }
                            } else if t == bi.len() {
                                assert(cand@[s] == bi[s]);
                                assert(bi[s] != x) by {
                                    if bi[s] == x {
                                        assert(bi.contains(x));
                                    }
                                }
                            }
                        }
                        assert(cand@.to_set() =~= joined(l@, a as int, b as int, p as int)) by {
                            assert forall|z: u64| cand@.to_set().contains(z) <==> bi.to_set().insert(x).contains(z) by {
                                if bi.contains(z) {
                                    let q = choose|q: int| 0 <= q < bi.len() && bi[q] == z;
                                    assert(cand@[q] == z);
                                }
                                if z == x {
                                    assert(cand@[bi.len() as int] == x);
                                }
                                if cand@.contains(z) && z != x {
                                    let q = choose|q: int| 0 <= q < cand@.len() && cand@[q] == z;
                                    assert(bi[q] == z);
                                }
                            }
                        }
                    }
                    add_candidate(&mut r, l, cand, Ghost(k));
                    proof {
                        lemma_extends_keeps(r@, before);
                    }
                }
                proof {
                    assert forall|a1: int, b1: int, p1: int|
                        0 <= a1 < l@.len() && 0 <= b1 < l@.len() && 0 <= p1 < l@[a1].items@.len()
                            && (a1 < a || (a1 == a && b1 < b) || (a1 == a && b1 == b && p1 < p + 1))
                        implies #[trigger] covered(l@, r@, a1, b1, p1) by {
                        if !(a1 == a && b1 == b && p1 == p) {
                            assert(covered(l@, before, a1, b1, p1));
                        }
                    }
                }
                p = p + 1;
            }
            b = b + 1;
        }
        a = a + 1;
    }
    proof {
        assert forall|s: Set<u64>|
            s.finite() && s.len() == k + 1 && admissible(l@, s) implies #[trigger] in_cands(r@, s) by {
            let i = s.choose();
            assert(s.contains(i));
            let rest = s.remove(i);
            assert(holds(l@, rest));
            let b = choose|b: int| 0 <= b < l@.len() && #[trigger] l@[b].members() == rest;
            assert(rest.len() == k);
            let j = rest.choose();
            assert(rest.contains(j));
            assert(holds(l@, s.remove(j)));
            let a = choose|a: int| 0 <= a < l@.len() && #[trigger] l@[a].members() == s.remove(j);
            assert(s.remove(j).contains(i));
            assert(l@[a].items@.to_set().contains(i));
            let p = choose|p: int| 0 <= p < l@[a].items@.len() && l@[a].items@[p] == i;
            assert(covered(l@, r@, a, b, p));
            assert(joined(l@, a, b, p) =~= s);
        }
    }
    r
}

} // verus!
