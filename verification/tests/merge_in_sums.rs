use inventory::accumulating::update_inventory;
use inventory::merging::update_inventory_sort_first;

#[test]
fn sums_shared_name_and_keeps_the_rest() {
    let merged = update_inventory(vec![(1, "apple"), (3, "banana")], vec![(2, "banana"), (5, "cherry")]);
    assert_eq!(merged, vec![(1, "apple"), (5, "banana"), (5, "cherry")]);
}

#[test]
fn summing_with_empty_incoming_keeps_current() {
    assert_eq!(update_inventory(vec![(1, "x")], vec![]), vec![(1, "x")]);
}

#[test]
fn summing_into_empty_current_sorts_incoming() {
    assert_eq!(update_inventory(vec![], vec![(4, "z"), (2, "a")]), vec![(2, "a"), (4, "z")]);
}

#[test]
fn summing_nothing_with_nothing_gives_nothing() {
    assert_eq!(update_inventory(vec![], vec![]), Vec::<(i32, &str)>::new());
}

#[test]
fn names_within_one_inventory_are_summed() {
    assert_eq!(update_inventory(vec![(1, "a"), (2, "a")], vec![]), vec![(3, "a")]);
    assert_eq!(update_inventory(vec![(1, "a"), (2, "a")], vec![(10, "a")]), vec![(13, "a")]);
    assert_eq!(
        update_inventory(
            vec![(1, "a"), (7, "b"), (2, "a")],
            vec![(10, "a"), (20, "a"), (30, "a"), (5, "c")],
        ),
        vec![(63, "a"), (7, "b"), (5, "c")]
    );
}

#[test]
fn the_two_merges_part_on_repeated_names() {
    let current = vec![(1, "a"), (2, "a")];
    let in_pairs = update_inventory_sort_first(current.clone(), vec![]);
    let in_sums = update_inventory(current, vec![]);
    assert_eq!(in_pairs, vec![(1, "a"), (2, "a")]);
    assert_eq!(in_sums, vec![(3, "a")]);
    assert_ne!(in_pairs, in_sums);
}

#[test]
fn the_two_merges_agree_without_repeated_names() {
    let current = vec![(21, "Bowling Ball"), (2, "Dirty Sock"), (1, "Hair Pin"), (5, "Microphone")];
    let incoming = vec![(2, "Hair Pin"), (3, "Half-Eaten Apple"), (67, "Bowling Ball"), (7, "Toothpaste")];
    let in_pairs = update_inventory_sort_first(current.clone(), incoming.clone());
    let in_sums = update_inventory(current, incoming);
    assert_eq!(in_pairs, in_sums);
    assert_eq!(in_sums[0], (88, "Bowling Ball"));
    assert_eq!(in_sums.len(), 6);
}

#[test]
fn long_sums_wrap_around() {
    let merged = update_inventory(
        vec![(i32::MAX, "a"), (i32::MAX, "a"), (5, "b")],
        vec![(3, "a"), (i32::MIN, "b"), (-6, "b")],
    );
    assert_eq!(merged, vec![(1, "a"), (i32::MAX, "b")]);
}

#[test]
fn ledger_grows_at_the_front_in_the_middle_and_at_the_end() {
    let merged = update_inventory(
        vec![(1, "m"), (2, "a"), (3, "z"), (4, "g"), (5, "t")],
        vec![(6, "n"), (7, "a"), (8, "zz"), (9, "")],
    );
    assert_eq!(
        merged,
        vec![(9, ""), (9, "a"), (4, "g"), (1, "m"), (6, "n"), (5, "t"), (3, "z"), (8, "zz")]
    );
}

#[test]
fn summing_keeps_the_totals_whichever_side_comes_first() {
    let one = vec![(4, "d"), (1, "a"), (3, "c"), (8, "a")];
    let other = vec![(7, "c"), (2, "b"), (5, "a")];
    let merged = update_inventory(one.clone(), other.clone());
    assert_eq!(merged, update_inventory(other, one));
    assert_eq!(merged, vec![(14, "a"), (2, "b"), (10, "c"), (4, "d")]);
}
