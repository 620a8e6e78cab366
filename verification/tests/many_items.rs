use inventory::names::{compare_names, NameOrder};
use inventory::sorting::sort_by_name;
use inventory::{update_inventory, update_inventory_sort_first};
use std::collections::BTreeMap;

const NAMES: [&str; 12] = [
    "anvil", "bolt", "bolts", "Bolt", "cog", "", "gear", "ge", "nut", "\u{e9}crou", "washer", "z",
];

fn next(seed: &mut u64) -> u64 {
    *seed = seed.wrapping_mul(6364136223846793005).wrapping_add(1442695040888963407);
    *seed >> 33
}

fn inventory_of(seed: &mut u64, length: usize, large: bool) -> Vec<(i32, &'static str)> {
    let mut items = Vec::new();
    for _ in 0..length {
        let name = NAMES[(next(seed) % 12) as usize];
        let quantity = if large {
            (next(seed) as u32) as i32
        } else {
            (next(seed) % 2001) as i32 - 1000
        };
        items.push((quantity, name));
    }
    items
}

fn without_repeats(items: &[(i32, &'static str)]) -> Vec<(i32, &'static str)> {
    let mut kept: Vec<(i32, &'static str)> = Vec::new();
    for item in items {
        if !kept.iter().any(|other| other.1 == item.1) {
            kept.push(*item);
        }
    }
    kept
}

fn totals(items: &[(i32, &'static str)]) -> BTreeMap<&'static str, i32> {
    let mut sums = BTreeMap::new();
    for (quantity, name) in items {
        let sum = sums.entry(*name).or_insert(0i32);
        *sum = sum.wrapping_add(*quantity);
    }
    sums
}

#[test]
fn sums_are_the_totals_under_each_name() {
    let mut seed = 7;
    for round in 0..60 {
        let current = inventory_of(&mut seed, round % 23, round % 2 == 0);
        let incoming = inventory_of(&mut seed, (round * 7) % 19, round % 3 == 0);
        let mut all = current.clone();
        all.extend(incoming.iter().copied());
        let expected: Vec<(i32, &str)> =
            totals(&all).into_iter().map(|(name, sum)| (sum, name)).collect();
        assert_eq!(update_inventory(current, incoming), expected);
    }
}

#[test]
fn pairs_keep_the_totals_under_each_name() {
    let mut seed = 11;
    for round in 0..60 {
        let current = inventory_of(&mut seed, round % 17, round % 2 == 1);
        let incoming = inventory_of(&mut seed, (round * 5) % 21, round % 4 == 0);
        let mut all = current.clone();
        all.extend(incoming.iter().copied());
        let merged = update_inventory_sort_first(current, incoming);
        assert_eq!(totals(&merged), totals(&all));
        for pair in merged.windows(2) {
            assert!(pair[0].1 <= pair[1].1);
        }
    }
}

#[test]
fn pairs_are_sums_where_no_name_repeats() {
    let mut seed = 13;
    for round in 0..60 {
        let current = without_repeats(&inventory_of(&mut seed, round % 29, round % 2 == 0));
        let incoming = without_repeats(&inventory_of(&mut seed, (round * 3) % 31, false));
        let in_pairs = update_inventory_sort_first(current.clone(), incoming.clone());
        let in_sums = update_inventory(current.clone(), incoming.clone());
        assert_eq!(in_pairs, in_sums);
        for pair in in_pairs.windows(2) {
            assert!(pair[0].1 < pair[1].1);
        }
        for (quantity, name) in &in_pairs {
            let held: i64 = current.iter().filter(|item| item.1 == *name).map(|item| item.0 as i64).sum();
            let more: i64 = incoming.iter().filter(|item| item.1 == *name).map(|item| item.0 as i64).sum();
            if i32::MIN as i64 <= held + more && held + more <= i32::MAX as i64 {
                assert_eq!(*quantity as i64, held + more);
            }
        }
    }
}

#[test]
fn pairs_follow_the_walk_over_both_sorted_inventories() {
    let mut seed = 17;
    for round in 0..60 {
        let current = inventory_of(&mut seed, round % 13, false);
        let incoming = inventory_of(&mut seed, (round * 11) % 15, false);
        let mut left = current.clone();
        let mut right = incoming.clone();
        left.sort_by_key(|item| item.1);
        right.sort_by_key(|item| item.1);
        let mut expected = Vec::new();
        let (mut i, mut j) = (0, 0);
        while i < left.len() || j < right.len() {
            if j == right.len() || (i < left.len() && left[i].1 < right[j].1) {
                expected.push(left[i]);
                i += 1;
            } else if i == left.len() || right[j].1 < left[i].1 {
                expected.push(right[j]);
                j += 1;
            } else {
                expected.push((left[i].0 + right[j].0, left[i].1));
                i += 1;
                j += 1;
            }
        }
        assert_eq!(update_inventory_sort_first(current, incoming), expected);
    }
}

#[test]
fn sorting_agrees_with_the_standard_stable_sort() {
    let mut seed = 19;
    for round in 0..80 {
        let items = inventory_of(&mut seed, round, true);
        let mut expected = items.clone();
        expected.sort_by_key(|item| item.1);
        assert_eq!(sort_by_name(items), expected);
    }
}

#[test]
fn comparing_agrees_with_the_standard_order_on_every_pair() {
    for a in NAMES {
        for b in NAMES {
            let expected = if a < b {
                NameOrder::Before
            } else if a > b {
                NameOrder::After
            } else {
                NameOrder::Same
            };
            assert_eq!(compare_names(a, b), expected);
        }
    }
}

#[test]
fn merging_takes_names_that_outlive_the_call() {
    let owned: Vec<String> = (0..5).map(|at| format!("item-{}", 4 - at)).collect();
    let current: Vec<(i32, &str)> = owned.iter().map(|name| (1, name.as_str())).collect();
    let incoming: Vec<(i32, &str)> = owned.iter().rev().map(|name| (10, name.as_str())).collect();
    let merged = update_inventory_sort_first(current.clone(), incoming.clone());
    let expected: Vec<(i32, &str)> =
        vec![(11, "item-0"), (11, "item-1"), (11, "item-2"), (11, "item-3"), (11, "item-4")];
    assert_eq!(merged, expected);
    assert_eq!(update_inventory(current, incoming), expected);
}
