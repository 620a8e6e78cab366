use inventory::merging::update_inventory_sort_first;
use inventory::sorting::sort_by_name;

#[test]
fn merges_shared_name_and_keeps_the_rest() {
    let current = vec![(1, "apple"), (3, "banana")];
    let incoming = vec![(2, "banana"), (5, "cherry")];
    let merged = update_inventory_sort_first(current, incoming);
    assert_eq!(merged, vec![(1, "apple"), (5, "banana"), (5, "cherry")]);
}

#[test]
fn merging_with_empty_incoming_keeps_current() {
    let merged = update_inventory_sort_first(vec![(1, "x")], vec![]);
    assert_eq!(merged, vec![(1, "x")]);
}

#[test]
fn merging_into_empty_current_sorts_incoming() {
    let merged = update_inventory_sort_first(vec![], vec![(4, "z"), (2, "a")]);
    assert_eq!(merged, vec![(2, "a"), (4, "z")]);
}

#[test]
fn merging_nothing_with_nothing_gives_nothing() {
    let merged = update_inventory_sort_first(vec![], vec![]);
    assert_eq!(merged, Vec::<(i32, &str)>::new());
}

#[test]
fn unsorted_inputs_come_out_ascending() {
    let current = vec![(21, "Bowling Ball"), (2, "Dirty Sock"), (1, "Hair Pin"), (5, "Microphone")];
    let incoming = vec![(2, "Hair Pin"), (3, "Half-Eaten Apple"), (67, "Bowling Ball"), (7, "Toothpaste")];
    let merged = update_inventory_sort_first(current, incoming);
    assert_eq!(
        merged,
        vec![
            (88, "Bowling Ball"),
            (2, "Dirty Sock"),
            (3, "Hair Pin"),
            (3, "Half-Eaten Apple"),
            (5, "Microphone"),
            (7, "Toothpaste"),
        ]
    );
}

#[test]
fn names_within_one_inventory_stay_apart() {
    let merged = update_inventory_sort_first(vec![(1, "a"), (2, "a")], vec![]);
    assert_eq!(merged, vec![(1, "a"), (2, "a")]);
    let merged = update_inventory_sort_first(vec![], vec![(2, "a"), (1, "a")]);
    assert_eq!(merged, vec![(2, "a"), (1, "a")]);
}

#[test]
fn repeated_names_are_added_in_pairs() {
    let merged = update_inventory_sort_first(vec![(1, "a"), (2, "a")], vec![(10, "a")]);
    assert_eq!(merged, vec![(11, "a"), (2, "a")]);
    let merged = update_inventory_sort_first(vec![(10, "a")], vec![(1, "a"), (2, "a")]);
    assert_eq!(merged, vec![(11, "a"), (2, "a")]);
    let merged = update_inventory_sort_first(
        vec![(1, "a"), (7, "b"), (2, "a")],
        vec![(10, "a"), (20, "a"), (30, "a"), (5, "c")],
    );
    assert_eq!(merged, vec![(11, "a"), (22, "a"), (30, "a"), (7, "b"), (5, "c")]);
}

#[test]
fn negative_quantities_are_added_like_any_other() {
    let merged = update_inventory_sort_first(vec![(-5, "nut"), (4, "bolt")], vec![(3, "nut"), (-4, "bolt")]);
    assert_eq!(merged, vec![(0, "bolt"), (-2, "nut")]);
}

#[test]
fn sums_past_the_largest_quantity_wrap_around() {
    let merged = update_inventory_sort_first(vec![(i32::MAX, "a")], vec![(1, "a")]);
    assert_eq!(merged, vec![(i32::MIN, "a")]);
    let merged = update_inventory_sort_first(vec![(i32::MIN, "a")], vec![(-1, "a")]);
    assert_eq!(merged, vec![(i32::MAX, "a")]);
    let merged = update_inventory_sort_first(vec![(i32::MAX, "a")], vec![(i32::MAX, "a")]);
    assert_eq!(merged, vec![(-2, "a")]);
}

#[test]
fn merging_with_empty_is_sorting() {
    let inventory = vec![(3, "pear"), (1, "fig"), (9, "pear"), (2, "apple"), (4, "fig")];
    let sorted = sort_by_name(inventory.clone());
    assert_eq!(update_inventory_sort_first(inventory.clone(), vec![]), sorted);
    assert_eq!(update_inventory_sort_first(vec![], inventory), sorted);
    assert_eq!(sorted, vec![(2, "apple"), (1, "fig"), (4, "fig"), (3, "pear"), (9, "pear")]);
}

#[test]
fn exchanging_the_sides_changes_nothing() {
    let one = vec![(4, "d"), (1, "a"), (3, "c"), (8, "a")];
    let other = vec![(7, "c"), (2, "b"), (5, "a")];
    let merged = update_inventory_sort_first(one.clone(), other.clone());
    assert_eq!(merged, update_inventory_sort_first(other, one));
    assert_eq!(merged, vec![(6, "a"), (8, "a"), (2, "b"), (10, "c"), (4, "d")]);
}

#[test]
fn output_is_ascending_and_without_repeats_for_inputs_without_repeats() {
    let current = vec![(1, "kiwi"), (2, "Kiwi"), (3, "kiwis"), (4, ""), (5, "k"), (6, "ki wi")];
    let incoming = vec![(10, "kiwis"), (20, "kiw"), (30, ""), (40, "Kiwi"), (50, "lime")];
    let merged = update_inventory_sort_first(current, incoming);
    for pair in merged.windows(2) {
        assert!(pair[0].1 < pair[1].1);
    }
    assert_eq!(
        merged,
        vec![
            (34, ""),
            (42, "Kiwi"),
            (5, "k"),
            (6, "ki wi"),
            (20, "kiw"),
            (1, "kiwi"),
            (13, "kiwis"),
            (50, "lime"),
        ]
    );
}

#[test]
fn names_are_ordered_by_code_point() {
    let merged = update_inventory_sort_first(
        vec![(1, "\u{e9}clair"), (2, "zebra"), (3, "\u{1f34e}")],
        vec![(4, "eclair"), (5, "\u{4e2d}"), (6, "\u{e9}clair")],
    );
    assert_eq!(
        merged,
        vec![(4, "eclair"), (2, "zebra"), (7, "\u{e9}clair"), (5, "\u{4e2d}"), (3, "\u{1f34e}")]
    );
}
