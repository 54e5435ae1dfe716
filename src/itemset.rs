use vstd::prelude::*;
use vstd::std_specs::cmp::PartialEqSpec;

verus! {

/// A set of item identifiers together with the number of transactions that
/// contain it (`count`) out of the number scanned (`total`).
///
/// Its identity is the set of its items: the order in which `items` lists
/// them, and the counters, play no part in `==`.
#[derive(Debug)]
pub struct ItemSet {
    pub items: Vec<u64>,
    pub count: u64,
    pub total: u64,
}

impl ItemSet {
    /// The identifiers held, as a set.
    pub open spec fn members(&self) -> Set<u64> {
        self.items@.to_set()
    }

    /// Each identifier is listed once.
    pub open spec fn wf(&self) -> bool {
        self.items@.no_duplicates()
    }

    /// An itemset of the given identifiers, each kept once, with zero counts.
    pub fn new(items: Vec<u64>) -> (r: ItemSet)
        ensures
            r.wf(),
            r.members() == items@.to_set(),
            r.count == 0,
            r.total == 0,
    {
        let mut kept: Vec<u64> = Vec::new();
        let mut i: usize = 0;
        while i < items.len()
            invariant
                0 <= i <= items.len(),
                kept@.no_duplicates(),
                forall|y: u64|
                    kept@.contains(y) <==> exists|k: int| 0 <= k < i && items@[k] == y,
            decreases items.len() - i,
        {
            let x = items[i];
            let ghost before = kept@;
            if !contains_item(&kept, x) {
                kept.push(x);
                proof {
                    assert(kept@ =~= before.push(x));
                    assert forall|y: u64| #[trigger] kept@.contains(y) implies before.contains(y) || y == x by {
                        let k = choose|k: int| 0 <= k < kept@.len() && kept@[k] == y;
                        if k < before.len() {
                            assert(before[k] == y);
                        }
                    }
                    assert forall|y: u64| before.contains(y) implies #[trigger] kept@.contains(y) by {
                        let k = choose|k: int| 0 <= k < before.len() && before[k] == y;
                        assert(kept@[k] == y);
                    }
                    assert(kept@[before.len() as int] == x);
                }
            }
            proof {
                assert forall|y: u64| kept@.contains(y) <==> exists|k: int| 0 <= k < i + 1 && items@[k] == y by {
                    if exists|k: int| 0 <= k < i + 1 && items@[k] == y {
                        let k = choose|k: int| 0 <= k < i + 1 && items@[k] == y;
                        if k < i {
                            assert(exists|k: int| 0 <= k < i && items@[k] == y);
                        }
                    }
                    if kept@.contains(y) && y != x {
                        assert(before.contains(y));
                    }
                }
            }
            i = i + 1;
        }
        proof {
            assert forall|y: u64| kept@.to_set().contains(y) <==> items@.to_set().contains(y) by {
                if items@.contains(y) {
                    let k = choose|k: int| 0 <= k < items@.len() && items@[k] == y;
                    assert(exists|k: int| 0 <= k < i && items@[k] == y);
                }
            }
            assert(kept@.to_set() =~= items@.to_set());
        }
        ItemSet { items: kept, count: 0, total: 0 }
    }
}

/// Some itemset of `l` has exactly the members `s`.
pub open spec fn holds(l: Seq<ItemSet>, s: Set<u64>) -> bool {
    exists|j: int| 0 <= j < l.len() && #[trigger] l[j].members() == s
}

/// No two itemsets of `l` have the same members.
pub open spec fn distinct(l: Seq<ItemSet>) -> bool {
    forall|i: int, j: int|
        0 <= i < l.len() && 0 <= j < l.len() && i != j ==> #[trigger] l[i].members() != #[trigger] l[j].members()
}

/// Whether `v` lists `x`.
pub fn contains_item(v: &Vec<u64>, x: u64) -> (r: bool)
    ensures
        r == v@.contains(x),
{
    let mut i: usize = 0;
    while i < v.len()
        invariant
            0 <= i <= v.len(),
            forall|k: int| 0 <= k < i ==> v@[k] != x,
        decreases v.len() - i,
    {
        if v[i] == x {
            return true;
        }
        i = i + 1;
    }
    false
}

/// Whether every identifier listed in `a` is listed in `b`.
pub fn is_subset(a: &Vec<u64>, b: &Vec<u64>) -> (r: bool)
    ensures
        r == a@.to_set().subset_of(b@.to_set()),
{
    let mut i: usize = 0;
    while i < a.len()
        invariant
            0 <= i <= a.len(),
            forall|k: int| 0 <= k < i ==> b@.contains(#[trigger] a@[k]),
        decreases a.len() - i,
    {
        if !contains_item(b, a[i]) {
            proof {
                assert(a@.to_set().contains(a@[i as int]));
            }
            return false;
        }
        i = i + 1;
    }
    proof {
        assert forall|y: u64| a@.to_set().contains(y) implies b@.to_set().contains(y) by {
            let k = choose|k: int| 0 <= k < a@.len() && a@[k] == y;
        }
    }
    true
}

/// Whether `a` and `b` list the same identifiers, in any order.
pub fn same_members(a: &Vec<u64>, b: &Vec<u64>) -> (r: bool)
    ensures
        r == (a@.to_set() == b@.to_set()),
{
    let ab = is_subset(a, b);
    let ba = is_subset(b, a);
    proof {
        if ab && ba {
            assert(a@.to_set() =~= b@.to_set());
        }
    }
    ab && ba
}

impl PartialEq for ItemSet {
    fn eq(&self, other: &ItemSet) -> (r: bool) {
        same_members(&self.items, &other.items)
    }
}

impl vstd::std_specs::cmp::PartialEqSpecImpl for ItemSet {
    open spec fn obeys_eq_spec() -> bool {
        true
    }

    open spec fn eq_spec(&self, other: &ItemSet) -> bool {
        self.members() == other.members()
    }
}

/// Two itemsets whose items are the same identifiers listed in different
/// orders are equal.
pub proof fn lemma_identity_ignores_order(a: ItemSet, b: ItemSet)
    requires
        a.items@.to_multiset() == b.items@.to_multiset(),
    ensures
        a.eq_spec(&b),
{
    a.items@.to_multiset_ensures();
    b.items@.to_multiset_ensures();
    assert forall|x: u64| a.members().contains(x) <==> b.members().contains(x) by {
        assert(a.items@.contains(x) <==> a.items@.to_multiset().count(x) > 0);
        assert(b.items@.contains(x) <==> b.items@.to_multiset().count(x) > 0);
    }
    assert(a.members() =~= b.members());
}

} // verus!
