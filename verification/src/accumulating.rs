//! Merging two inventories by keeping a ledger: one item for each name, in
//! ascending order of the names, to which each quantity is added in turn.

use vstd::prelude::*;
use crate::laws::{lemma_merge_in_sums_distinct, lemma_merge_of_nothing};
use crate::lines::{
    lemma_quantities_concat, lemma_quantities_present, lemma_quantities_push, lemma_total_push,
    lemma_wrapped, line_of, lines, merges_in_sums, names_ascending, names_distinct,
    quantities_under, summed, sums_up, total, wrapped, Line,
};
use crate::names::{
    compare_names, lemma_name_at_most_then_before, lemma_name_before_then_at_most,
    lemma_names_trichotomy, name_at_most, name_before, NameOrder,
};

verus! {

/// Looks for `name` in a ledger that is ascending by name. Returns the place
/// of an item that bears it, or else, as the error, the place where an item
/// under that name would keep the ledger ascending.
fn find_name(ledger: &Vec<(i32, &str)>, name: &str) -> (place: Result<usize, usize>)
    requires
        names_ascending(lines(ledger@)),
    ensures
        place matches Ok(at) ==> at < ledger.len() && ledger[at as int].1@ == name@,
        place matches Err(at) ==> at <= ledger.len(),
        place matches Err(at) ==> forall|k: int|
            0 <= k < at ==> name_before((#[trigger] ledger[k]).1@, name@),
        place matches Err(at) ==> forall|k: int|
            at <= k < ledger.len() ==> name_before(name@, (#[trigger] ledger[k]).1@),
{
    let mut low: usize = 0;
    let mut high: usize = ledger.len();
    while low < high
        invariant
            low <= high <= ledger.len(),
            names_ascending(lines(ledger@)),
            forall|k: int| 0 <= k < low ==> name_before((#[trigger] ledger[k]).1@, name@),
            forall|k: int|
                high <= k < ledger.len() ==> name_before(name@, (#[trigger] ledger[k]).1@),
        decreases high - low,
    {
        let middle = low + (high - low) / 2;
        match compare_names(ledger[middle].1, name) {
            NameOrder::Same => {
                return Ok(middle);
            },
            NameOrder::Before => {
                proof {
                    assert forall|k: int| 0 <= k < middle + 1 implies name_before(
                        (#[trigger] ledger[k]).1@,
                        name@,
                    ) by {
                        if k < middle {
                            assert(name_at_most(
                                lines(ledger@)[k].name,
                                lines(ledger@)[middle as int].name,
                            ));
                            lemma_name_at_most_then_before(
                                ledger[k].1@,
                                ledger[middle as int].1@,
                                name@,
                            );
                        }
                    }
                }
                low = middle + 1;
            },
            NameOrder::After => {
                proof {
                    assert forall|k: int| middle <= k < ledger.len() implies name_before(
                        name@,
                        (#[trigger] ledger[k]).1@,
                    ) by {
                        if middle < k {
                            assert(name_at_most(
                                lines(ledger@)[middle as int].name,
                                lines(ledger@)[k].name,
                            ));
                            lemma_name_before_then_at_most(
                                name@,
                                ledger[middle as int].1@,
                                ledger[k].1@,
                            );
                        }
                    }
                }
                high = middle;
            },
        }
    }
    Err(low)
}

/// What a ledger holds under `name` once `line` is credited to it: under the
/// name of `line` the sum of what it held there and the quantity of `line`,
/// under any other name what it held.
spec fn credited(held: Seq<i32>, line: Line, name: Seq<char>) -> Seq<i32> {
    if line.name == name {
        seq![wrapped(total(held) + line.quantity)]
    } else {
        held
    }
}

/// A line set in place of a line of the same name changes what is held
/// under that name alone.
proof fn lemma_quantities_replaced(ledger: Seq<Line>, at: int, line: Line, name: Seq<char>)
    requires
        0 <= at < ledger.len(),
        ledger[at].name == line.name,
        quantities_under(ledger, line.name).len() <= 1,
    ensures
        quantities_under(ledger, line.name) == seq![ledger[at].quantity],
        quantities_under(ledger.update(at, line), name) == (if line.name == name {
            seq![line.quantity]
        } else {
            quantities_under(ledger, name)
        }),
{
    let front = ledger.take(at);
    let back = ledger.skip(at + 1);
    assert(ledger =~= front.push(ledger[at]) + back);
    assert(ledger.update(at, line) =~= front.push(line) + back);
    lemma_quantities_concat(front.push(ledger[at]), back, line.name);
    lemma_quantities_push(front, ledger[at], line.name);
    lemma_quantities_concat(front.push(ledger[at]), back, name);
    lemma_quantities_concat(front.push(line), back, name);
    lemma_quantities_push(front, ledger[at], name);
    lemma_quantities_push(front, line, name);
    if line.name == name {
        assert(quantities_under(ledger, name) =~= seq![ledger[at].quantity]);
        assert(quantities_under(front, name).len() == 0);
        assert(quantities_under(back, name).len() == 0);
        assert(quantities_under(ledger.update(at, line), name) =~= seq![line.quantity]);
    }
}

/// A line set among the lines of a ledger adds its quantity under its own
/// name alone.
proof fn lemma_quantities_inserted(ledger: Seq<Line>, at: int, line: Line, name: Seq<char>)
    requires
        0 <= at <= ledger.len(),
        quantities_under(ledger, line.name).len() == 0,
    ensures
        quantities_under(ledger.insert(at, line), name) == (if line.name == name {
            seq![line.quantity]
        } else {
            quantities_under(ledger, name)
        }),
{
    let front = ledger.take(at);
    let back = ledger.skip(at);
    assert(ledger =~= front + back);
    assert(ledger.insert(at, line) =~= front.push(line) + back);
    lemma_quantities_concat(front, back, name);
    lemma_quantities_concat(front.push(line), back, name);
    lemma_quantities_push(front, line, name);
    if line.name == name {
        assert(quantities_under(front, name).len() == 0);
        assert(quantities_under(back, name).len() == 0);
        assert(quantities_under(ledger.insert(at, line), name) =~= seq![line.quantity]);
    }
}

/// Credits an item to a ledger: its quantity is added to the item that the
/// ledger holds under its name, or the item is set in its place among the
/// others where the ledger holds none.
fn credit<'a>(ledger: &mut Vec<(i32, &'a str)>, item: (i32, &'a str))
    requires
        names_ascending(lines(old(ledger)@)),
        forall|name: Seq<char>| (#[trigger] quantities_under(lines(old(ledger)@), name)).len() <= 1,
    ensures
        names_ascending(lines(final(ledger)@)),
        forall|name: Seq<char>| #[trigger]
            quantities_under(lines(final(ledger)@), name) == credited(
                quantities_under(lines(old(ledger)@), name),
                line_of(item),
                name,
            ),
{
    let ghost before = lines(ledger@);
    let ghost line = line_of(item);
    match find_name(ledger, item.1) {
        Ok(at) => {
            let held = ledger[at];
            let sum = held.0.wrapping_add(item.0);
            ledger.set(at, (sum, held.1));
            proof {
                let after = lines(ledger@);
                let set = Line { quantity: sum, name: line.name };
                assert(after =~= before.update(at as int, set));
                assert(quantities_under(before, line.name).len() <= 1);
                lemma_wrapped(held.0 as int, item.0 as int);
                assert forall|name: Seq<char>| #[trigger]
                    quantities_under(after, name) == credited(
                        quantities_under(before, name),
                        line,
                        name,
                    ) by {
                    lemma_quantities_replaced(before, at as int, set, name);
                    if line.name == name {
                        assert(total(seq![held.0]) == held.0) by {
                            lemma_total_push(Seq::<i32>::empty(), held.0);
                            assert(seq![held.0] =~= Seq::<i32>::empty().push(held.0));
                        }
                    }
                }
                assert forall|i: int, j: int| 0 <= i < j < after.len() implies name_at_most(
                    #[trigger] after[i].name,
                    #[trigger] after[j].name,
                ) by {
                    assert(name_at_most(before[i].name, before[j].name));
                }
            }
        },
        Err(at) => {
            ledger.insert(at, item);
            proof {
                let after = lines(ledger@);
                assert(after =~= before.insert(at as int, line));
                lemma_quantities_present(before, line.name);
                if quantities_under(before, line.name).len() > 0 {
                    let k = choose|k: int|
                        0 <= k < before.len() && #[trigger] before[k].name == line.name;
                    assert(old(ledger)[k].1@ == line.name);
                    lemma_names_trichotomy(line.name, line.name);
                }
                lemma_wrapped(item.0 as int, 0);
                assert forall|name: Seq<char>| #[trigger]
                    quantities_under(after, name) == credited(
                        quantities_under(before, name),
                        line,
                        name,
                    ) by {
                    lemma_quantities_inserted(before, at as int, line, name);
                }
                assert forall|i: int, j: int| 0 <= i < j < after.len() implies name_at_most(
                    #[trigger] after[i].name,
                    #[trigger] after[j].name,
                ) by {
                    if j < at {
                        assert(name_at_most(before[i].name, before[j].name));
                    } else if j == at {
                        assert(name_before(old(ledger)[i].1@, line.name));
                        lemma_names_trichotomy(before[i].name, line.name);
                    } else if i < at {
                        assert(name_at_most(before[i].name, before[j - 1].name));
                    } else if i == at {
                        assert(name_before(line.name, old(ledger)[j - 1].1@));
                        lemma_names_trichotomy(line.name, before[j - 1].name);
                    } else {
                        assert(name_at_most(before[i - 1].name, before[j - 1].name));
                    }
                }
            }
        },
    }
}

/// A ledger that sums up some lines sums up one line more once that line is
/// credited to it.
proof fn lemma_sums_up_credited(seen: Seq<Line>, ledger: Seq<Line>, line: Line, after: Seq<Line>)
    requires
        sums_up(seen, ledger),
        names_ascending(after),
        forall|name: Seq<char>| #[trigger]
            quantities_under(after, name) == credited(quantities_under(ledger, name), line, name),
    ensures
        sums_up(seen.push(line), after),
{
    assert forall|name: Seq<char>| #[trigger]
        quantities_under(after, name) == summed(quantities_under(seen.push(line), name)) by {
        lemma_quantities_push(seen, line, name);
        if line.name == name {
            let held = quantities_under(seen, name);
            lemma_total_push(held, line.quantity);
            if held.len() == 0 {
                assert(total(quantities_under(ledger, name)) == 0);
            } else {
                lemma_total_push(Seq::<i32>::empty(), wrapped(total(held)));
                assert(seq![wrapped(total(held))] =~= Seq::<i32>::empty().push(
                    wrapped(total(held)),
                ));
                lemma_wrapped(total(held), line.quantity as int);
            }
        }
    }
}

/// Merges two inventories into one that is ascending by name and holds each
/// name once.
///
/// The items of `cur_inv` and then those of `new_inv` are credited to a
/// ledger that starts empty. The quantity under a name is the sum of all the
/// quantities that the two inventories hold under it, added as
/// `i32::wrapping_add` adds them, so every pair of inventories is merged.
pub fn update_inventory<'a>(cur_inv: Vec<(i32, &'a str)>, new_inv: Vec<(i32, &'a str)>) -> (merged:
    Vec<(i32, &'a str)>)
    ensures
        merges_in_sums(lines(cur_inv@), lines(new_inv@), lines(merged@)),
        names_ascending(lines(merged@)),
        names_distinct(lines(merged@)),
        cur_inv.len() == 0 && new_inv.len() == 0 ==> merged.len() == 0,
{
    let mut items = cur_inv;
    let mut more = new_inv;
    items.append(&mut more);
    let ghost all = lines(cur_inv@) + lines(new_inv@);
    let mut ledger: Vec<(i32, &'a str)> = Vec::new();
    let mut k: usize = 0;
    proof {
        assert(lines(items@) =~= all);
        assert(lines(ledger@) =~= Seq::<Line>::empty());
        assert(all.take(0) =~= Seq::<Line>::empty());
    }
    while k < items.len()
        invariant
            k <= items.len(),
            lines(items@) == all,
            sums_up(all.take(k as int), lines(ledger@)),
        decreases items.len() - k,
    {
        let ghost before = lines(ledger@);
        proof {
            assert forall|name: Seq<char>| (#[trigger] quantities_under(before, name)).len()
                <= 1 by {}
        }
        credit(&mut ledger, items[k]);
        proof {
            lemma_sums_up_credited(all.take(k as int), before, all[k as int], lines(ledger@));
            assert(all.take(k as int + 1) =~= all.take(k as int).push(all[k as int]));
        }
        k = k + 1;
    }
    proof {
        assert(all.take(k as int) =~= all);
        lemma_merge_in_sums_distinct(lines(cur_inv@), lines(new_inv@), lines(ledger@));
        if cur_inv.len() == 0 && new_inv.len() == 0 {
            assert(lines(cur_inv@) =~= Seq::<Line>::empty());
            assert(lines(new_inv@) =~= Seq::<Line>::empty());
            lemma_merge_of_nothing(lines(ledger@));
        }
    }
    ledger
}

} // verus!
