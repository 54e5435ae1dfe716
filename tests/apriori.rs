use recommendation::apriori;
use recommendation::itemset::{contains_item, is_subset, same_members, ItemSet};
use recommendation::support::{count_containing, exceeds_min, first_pass, MinSupport};

fn sample() -> Vec<Vec<u64>> {
    vec![
        vec![1, 2, 3, 4],
        vec![1, 2, 4],
        vec![1, 2],
        vec![2, 3, 4],
        vec![2, 3],
        vec![3, 4],
        vec![2, 4],
    ]
}

fn find<'a>(output: &'a [ItemSet], items: Vec<u64>) -> Option<&'a ItemSet> {
    let probe = ItemSet::new(items);
    output.iter().find(|s| **s == probe)
}

fn brute_count(sets: &[Vec<u64>], items: &[u64]) -> u64 {
    sets.iter()
        .filter(|t| items.iter().all(|x| t.contains(x)))
        .count() as u64
}

#[test]
fn it_works() {
    let sets = sample();

    let output = apriori(sets, MinSupport { num: 42, den: 100 });

    let pairs: Vec<&ItemSet> = output.iter().filter(|s| s.items.len() == 2).collect();
    assert_eq!(pairs.len(), 4);
    assert!(output.iter().all(|s| s.items.len() <= 2));

    let set1output = find(&output, vec![4, 2]);
    let set2output = find(&output, vec![3, 2]);
    let set3output = find(&output, vec![1, 2]);
    let set4output = find(&output, vec![3, 4]);

    assert!(set1output.is_some());
    assert!(set2output.is_some());
    assert!(set3output.is_some());
    assert!(set4output.is_some());

    println!("Output: {:?}", output);
}

#[test]
fn end_to_end_counts() {
    let output = apriori(sample(), MinSupport { num: 42, den: 100 });
    assert_eq!(output.len(), 8);
    let expected: Vec<(Vec<u64>, u64)> = vec![
        (vec![1], 3),
        (vec![2], 6),
        (vec![3], 4),
        (vec![4], 5),
        (vec![1, 2], 3),
        (vec![2, 3], 3),
        (vec![2, 4], 4),
        (vec![3, 4], 3),
    ];
    for (items, count) in expected {
        let found = find(&output, items.clone()).expect("itemset missing");
        assert_eq!(found.count, count);
        assert_eq!(found.total, 7);
    }
    assert!(find(&output, vec![2, 3, 4]).is_none());
    assert!(find(&output, vec![1, 4]).is_none());
}

#[test]
fn empty_transactions_give_nothing() {
    let output = apriori(Vec::new(), MinSupport { num: 0, den: 1 });
    assert!(output.is_empty());
}

#[test]
fn support_of_one_gives_nothing() {
    let output = apriori(sample(), MinSupport { num: 1, den: 1 });
    assert!(output.is_empty());
}

#[test]
fn threshold_is_strict() {
    let sets = vec![vec![1, 2], vec![1], vec![2], vec![3]];
    // {1} and {2} are in exactly half of the transactions.
    let at = apriori(sets.clone(), MinSupport { num: 1, den: 2 });
    assert!(at.is_empty());
    let below = apriori(sets, MinSupport { num: 49, den: 100 });
    assert_eq!(below.len(), 2);
    assert_eq!(find(&below, vec![1]).unwrap().count, 2);
    assert_eq!(find(&below, vec![2]).unwrap().count, 2);
}

#[test]
fn zero_threshold_keeps_every_occurring_set() {
    let sets = vec![vec![5, 6, 7]];
    let output = apriori(sets, MinSupport { num: 0, den: 1 });
    assert_eq!(output.len(), 7);
    let whole = find(&output, vec![7, 5, 6]).unwrap();
    assert_eq!(whole.count, 1);
    assert_eq!(whole.total, 1);
}

#[test]
fn third_level_is_reached() {
    let sets = vec![
        vec![1, 2, 3],
        vec![3, 2, 1],
        vec![1, 2, 3, 4],
        vec![4],
        vec![1, 4],
    ];
    let output = apriori(sets, MinSupport { num: 1, den: 2 });
    let triple = find(&output, vec![2, 3, 1]).expect("triple missing");
    assert_eq!(triple.count, 3);
    assert_eq!(output.len(), 8);
    assert!(find(&output, vec![4]).is_some());
    assert!(find(&output, vec![1, 4]).is_none());
}

#[test]
fn returned_sets_have_returned_subsets() {
    let output = apriori(sample(), MinSupport { num: 1, den: 7 });
    for s in output.iter() {
        if s.items.len() > 1 {
            for x in s.items.iter() {
                let rest: Vec<u64> = s.items.iter().cloned().filter(|y| y != x).collect();
                assert!(find(&output, rest).is_some());
            }
        }
    }
}

#[test]
fn returned_counts_match_a_scan() {
    let sets = sample();
    let output = apriori(sets.clone(), MinSupport { num: 1, den: 10 });
    assert!(!output.is_empty());
    for s in output.iter() {
        assert_eq!(s.count, brute_count(&sets, &s.items));
        assert_eq!(s.total, sets.len() as u64);
        assert!(s.count * 10 > sets.len() as u64);
    }
}

#[test]
fn results_are_listed_once() {
    let output = apriori(sample(), MinSupport { num: 0, den: 1 });
    for i in 0..output.len() {
        for j in 0..output.len() {
            if i != j {
                assert!(output[i] != output[j]);
            }
        }
    }
}

#[test]
fn identity_ignores_insertion_order() {
    let a = ItemSet::new(vec![3, 1, 2]);
    let b = ItemSet::new(vec![2, 3, 1]);
    assert!(a == b);
    let c = ItemSet::new(vec![1, 2]);
    assert!(a != c);
}

#[test]
fn new_keeps_each_item_once() {
    let s = ItemSet::new(vec![4, 4, 2, 4]);
    assert_eq!(s.items, vec![4, 2]);
    assert_eq!(s.count, 0);
    assert_eq!(s.total, 0);
}

#[test]
fn item_queries() {
    assert!(contains_item(&vec![1, 5, 9], 5));
    assert!(!contains_item(&vec![1, 5, 9], 4));
    assert!(is_subset(&vec![9, 1], &vec![1, 5, 9]));
    assert!(!is_subset(&vec![9, 2], &vec![1, 5, 9]));
    assert!(same_members(&vec![1, 2, 2], &vec![2, 1]));
    assert!(!same_members(&vec![1, 2, 3], &vec![2, 1]));
}

#[test]
fn counting_transactions() {
    let sets = sample();
    assert_eq!(count_containing(&sets, &vec![2, 4]), 4);
    assert_eq!(count_containing(&sets, &vec![]), 7);
    assert_eq!(count_containing(&sets, &vec![1, 3]), 1);
    assert_eq!(count_containing(&sets, &vec![8]), 0);
}

#[test]
fn share_comparison() {
    assert!(exceeds_min(3, 7, MinSupport { num: 42, den: 100 }));
    assert!(!exceeds_min(2, 7, MinSupport { num: 42, den: 100 }));
    assert!(!exceeds_min(1, 2, MinSupport { num: 1, den: 2 }));
    assert!(exceeds_min(u64::MAX, u64::MAX, MinSupport { num: u64::MAX - 1, den: u64::MAX }));
}

#[test]
fn first_pass_singletons() {
    let (large, n) = first_pass(&sample(), MinSupport { num: 1, den: 2 });
    assert_eq!(n, 7);
    assert_eq!(large.len(), 3);
    assert_eq!(find(&large, vec![2]).unwrap().count, 6);
    assert_eq!(find(&large, vec![3]).unwrap().count, 4);
    assert_eq!(find(&large, vec![4]).unwrap().count, 5);
    assert!(find(&large, vec![1]).is_none());
}
