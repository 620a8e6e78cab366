use inventory::names::{compare_names, NameOrder};
use inventory::sorting::sort_by_name;

#[test]
fn compares_names_position_by_position() {
    assert_eq!(compare_names("apple", "banana"), NameOrder::Before);
    assert_eq!(compare_names("banana", "apple"), NameOrder::After);
    assert_eq!(compare_names("apple", "apple"), NameOrder::Same);
    assert_eq!(compare_names("apple", "apply"), NameOrder::Before);
    assert_eq!(compare_names("Apple", "apple"), NameOrder::Before);
}

#[test]
fn a_name_stands_after_its_own_beginning() {
    assert_eq!(compare_names("", ""), NameOrder::Same);
    assert_eq!(compare_names("", "a"), NameOrder::Before);
    assert_eq!(compare_names("a", ""), NameOrder::After);
    assert_eq!(compare_names("ab", "abc"), NameOrder::Before);
    assert_eq!(compare_names("abc", "ab"), NameOrder::After);
}

#[test]
fn compares_names_beyond_ascii_as_the_standard_order_does() {
    let names = [
        "", "a", "z", "zebra", "\u{e9}", "\u{e9}clair", "e\u{301}clair", "\u{7ff}", "\u{800}",
        "\u{ffff}", "\u{10000}", "\u{4e2d}\u{6587}", "\u{1f34e}", "\u{1f34e}a", "~", "\u{7f}",
        "\u{80}",
    ];
    for a in names {
        for b in names {
            let expected = if a < b {
                NameOrder::Before
            } else if a == b {
                NameOrder::Same
            } else {
                NameOrder::After
            };
            assert_eq!(compare_names(a, b), expected, "{:?} against {:?}", a, b);
        }
    }
}

#[test]
fn sorts_by_name_and_keeps_the_order_under_one_name() {
    let sorted = sort_by_name(vec![(2, "b"), (1, "a"), (3, "b"), (0, "a"), (9, "c"), (-1, "b")]);
    assert_eq!(sorted, vec![(1, "a"), (0, "a"), (2, "b"), (3, "b"), (-1, "b"), (9, "c")]);
}

#[test]
fn sorts_as_the_standard_stable_sort_does() {
    let names = ["pear", "fig", "apple", "kiwi", "fig", "date", "pear", "apple", "fig", "", "lime"];
    let mut inventory = Vec::new();
    for round in 0..7 {
        for (at, name) in names.iter().enumerate() {
            inventory.push((round * 100 + at as i32, *name));
        }
    }
    let mut expected = inventory.clone();
    expected.sort_by_key(|item| item.1);
    assert_eq!(sort_by_name(inventory), expected);
}

#[test]
fn sorts_the_short_and_the_sorted() {
    assert_eq!(sort_by_name(vec![]), Vec::<(i32, &str)>::new());
    assert_eq!(sort_by_name(vec![(5, "only")]), vec![(5, "only")]);
    assert_eq!(sort_by_name(vec![(1, "b"), (2, "a")]), vec![(2, "a"), (1, "b")]);
    assert_eq!(sort_by_name(vec![(1, "a"), (2, "b"), (3, "c")]), vec![(1, "a"), (2, "b"), (3, "c")]);
    assert_eq!(sort_by_name(vec![(3, "c"), (2, "b"), (1, "a")]), vec![(1, "a"), (2, "b"), (3, "c")]);
}
