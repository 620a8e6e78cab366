//! The mathematical model of an inventory: a sequence of lines, each a
//! quantity under a name, and what can be said of such a sequence name by
//! name.

use vstd::prelude::*;
use crate::names::{lemma_name_at_most_transitive, name_at_most};

verus! {

/// One line of an inventory as the contracts see it.
pub struct Line {
    pub quantity: i32,
    pub name: Seq<char>,
}

/// The line that an item stands for.
pub open spec fn line_of(item: (i32, &str)) -> Line {
    Line { quantity: item.0, name: item.1@ }
}

/// The lines of an inventory, in its order.
pub open spec fn lines(inventory: Seq<(i32, &str)>) -> Seq<Line> {
    Seq::new(inventory.len(), |i: int| line_of(inventory[i]))
}

/// The quantities that `lines` holds under `name`, in the order of `lines`.
pub open spec fn quantities_under(lines: Seq<Line>, name: Seq<char>) -> Seq<i32>
    decreases lines.len(),
{
    if lines.len() == 0 {
        Seq::empty()
    } else if lines.last().name == name {
        quantities_under(lines.drop_last(), name).push(lines.last().quantity)
    } else {
        quantities_under(lines.drop_last(), name)
    }
}

/// No line stands before a line whose name stands before its own.
pub open spec fn names_ascending(lines: Seq<Line>) -> bool {
    forall|i: int, j: int|
        0 <= i < j < lines.len() ==> name_at_most(
            #[trigger] lines[i].name,
            #[trigger] lines[j].name,
        )
}

/// No two lines share a name.
pub open spec fn names_distinct(lines: Seq<Line>) -> bool {
    forall|i: int, j: int|
        0 <= i < j < lines.len() ==> #[trigger] lines[i].name != #[trigger] lines[j].name
}

/// The sum of a sequence of quantities.
pub open spec fn total(quantities: Seq<i32>) -> int
    decreases quantities.len(),
{
    if quantities.len() == 0 {
        0
    } else {
        total(quantities.drop_last()) + quantities.last()
    }
}

/// The 32-bit quantity that a sum comes to: the one value from `i32::MIN` to
/// `i32::MAX` that differs from `sum` by a multiple of 2^32.
pub open spec fn wrapped(sum: int) -> i32 {
    ((sum + 0x8000_0000) % 0x1_0000_0000 - 0x8000_0000) as i32
}

/// The quantities of two inventories under one name, added in pairs: the
/// first to the first, the second to the second, and so on, with what has no
/// partner kept as it is.
pub open spec fn paired_sums(current: Seq<i32>, incoming: Seq<i32>) -> Seq<i32> {
    Seq::new(
        if current.len() >= incoming.len() {
            current.len()
        } else {
            incoming.len()
        },
        |k: int|
            if k < current.len() && k < incoming.len() {
                wrapped(current[k] + incoming[k])
            } else if k < current.len() {
                current[k]
            } else {
                incoming[k]
            },
    )
}

/// The quantities under one name brought into one: nothing where there is
/// none, else their sum as a 32-bit quantity.
pub open spec fn summed(quantities: Seq<i32>) -> Seq<i32> {
    if quantities.len() == 0 {
        Seq::empty()
    } else {
        seq![wrapped(total(quantities))]
    }
}

/// `sorted` holds the lines of `lines` in ascending order of their names,
/// those under one name in the order in which `lines` has them.
pub open spec fn sorts_by_name(lines: Seq<Line>, sorted: Seq<Line>) -> bool {
    &&& names_ascending(sorted)
    &&& forall|name: Seq<char>| #[trigger]
        quantities_under(sorted, name) == quantities_under(lines, name)
}

/// `merged` is ascending by name and holds under each name the quantities of
/// `current` and `incoming` under that name, added in pairs.
pub open spec fn merges_in_pairs(
    current: Seq<Line>,
    incoming: Seq<Line>,
    merged: Seq<Line>,
) -> bool {
    &&& names_ascending(merged)
    &&& forall|name: Seq<char>| #[trigger]
        quantities_under(merged, name) == paired_sums(
            quantities_under(current, name),
            quantities_under(incoming, name),
        )
}

/// `ledger` is ascending by name and holds under each name of `lines` one
/// quantity: the sum of all that `lines` holds under it.
pub open spec fn sums_up(lines: Seq<Line>, ledger: Seq<Line>) -> bool {
    &&& names_ascending(ledger)
    &&& forall|name: Seq<char>| #[trigger]
        quantities_under(ledger, name) == summed(quantities_under(lines, name))
}

/// `merged` is ascending by name and holds under each name of `current` and
/// `incoming` one quantity: the sum of all that the two hold under it.
pub open spec fn merges_in_sums(
    current: Seq<Line>,
    incoming: Seq<Line>,
    merged: Seq<Line>,
) -> bool {
    sums_up(current + incoming, merged)
}

/// The lines of an inventory with one more item are its lines with one more
/// line.
pub proof fn lemma_lines_push(inventory: Seq<(i32, &str)>, item: (i32, &str))
    ensures
        lines(inventory.push(item)) == lines(inventory).push(line_of(item)),
{
    assert(lines(inventory.push(item)) =~= lines(inventory).push(line_of(item)));
}

/// A line put at the end adds its quantity under its own name and nothing
/// under any other.
pub proof fn lemma_quantities_push(lines: Seq<Line>, line: Line, name: Seq<char>)
    ensures
        quantities_under(lines.push(line), name) == (if line.name == name {
            quantities_under(lines, name).push(line.quantity)
        } else {
            quantities_under(lines, name)
        }),
{
    assert(lines.push(line).drop_last() =~= lines);
}

/// Adding in pairs comes to the same with the two sides exchanged.
pub proof fn lemma_paired_sums_symmetric(current: Seq<i32>, incoming: Seq<i32>)
    ensures
        paired_sums(current, incoming) == paired_sums(incoming, current),
{
    assert(paired_sums(current, incoming) =~= paired_sums(incoming, current));
}

/// A sum with one more quantity is the sum and that quantity.
pub proof fn lemma_total_push(quantities: Seq<i32>, quantity: i32)
    ensures
        total(quantities.push(quantity)) == total(quantities) + quantity,
{
    assert(quantities.push(quantity).drop_last() =~= quantities);
}

/// Under each name, two sequences of lines set end to end hold what the
/// first holds and then what the second holds.
pub proof fn lemma_quantities_concat(first: Seq<Line>, second: Seq<Line>, name: Seq<char>)
    ensures
        quantities_under(first + second, name) == quantities_under(first, name) + quantities_under(
            second,
            name,
        ),
    decreases second.len(),
{
    if second.len() == 0 {
        assert(first + second =~= first);
        assert(quantities_under(first, name) + quantities_under(second, name)
            =~= quantities_under(first, name));
    } else {
        lemma_quantities_concat(first, second.drop_last(), name);
        assert((first + second).drop_last() =~= first + second.drop_last());
        assert(quantities_under(first + second, name) =~= quantities_under(first, name)
            + quantities_under(second, name));
    }
}

/// A name has a quantity in `lines` exactly when a line of `lines` bears it.
pub proof fn lemma_quantities_present(lines: Seq<Line>, name: Seq<char>)
    ensures
        quantities_under(lines, name).len() > 0 <==> exists|i: int|
            0 <= i < lines.len() && #[trigger] lines[i].name == name,
        quantities_under(lines, name).len() <= lines.len(),
    decreases lines.len(),
{
    if lines.len() > 0 {
        let front = lines.drop_last();
        lemma_quantities_present(front, name);
        if quantities_under(lines, name).len() > 0 {
            if lines.last().name == name {
                assert(lines[lines.len() - 1].name == name);
            } else {
                let i = choose|i: int| 0 <= i < front.len() && #[trigger] front[i].name == name;
                assert(lines[i].name == name);
            }
        }
        if exists|i: int| 0 <= i < lines.len() && #[trigger] lines[i].name == name {
            let i = choose|i: int| 0 <= i < lines.len() && #[trigger] lines[i].name == name;
            if i < lines.len() - 1 {
                assert(front[i].name == name);
            }
        }
    }
}

/// What is ascending stays so when lines are left out at either end.
pub proof fn lemma_ascending_subrange(lines: Seq<Line>, from: int, to: int)
    requires
        names_ascending(lines),
        0 <= from <= to <= lines.len(),
    ensures
        names_ascending(lines.subrange(from, to)),
{
    let part = lines.subrange(from, to);
    assert forall|i: int, j: int| 0 <= i < j < part.len() implies name_at_most(
        #[trigger] part[i].name,
        #[trigger] part[j].name,
    ) by {
        assert(name_at_most(lines[from + i].name, lines[from + j].name));
    }
}

/// A line whose name no line of an ascending sequence follows can be put at
/// its end.
pub proof fn lemma_ascending_push(lines: Seq<Line>, line: Line)
    requires
        names_ascending(lines),
        lines.len() > 0 ==> name_at_most(lines.last().name, line.name),
    ensures
        names_ascending(lines.push(line)),
{
    let longer = lines.push(line);
    assert forall|i: int, j: int| 0 <= i < j < longer.len() implies name_at_most(
        #[trigger] longer[i].name,
        #[trigger] longer[j].name,
    ) by {
        if j == lines.len() {
            if i < lines.len() - 1 {
                assert(name_at_most(lines[i].name, lines[lines.len() - 1].name));
                lemma_name_at_most_transitive(lines[i].name, lines.last().name, line.name);
            }
        } else {
            assert(name_at_most(lines[i].name, lines[j].name));
        }
    }
}

/// A sequence of lines has distinct names exactly when it holds at most one
/// quantity under each name.
pub proof fn lemma_distinct_is_one_each(lines: Seq<Line>)
    ensures
        names_distinct(lines) <==> forall|name: Seq<char>| #[trigger]
            quantities_under(lines, name).len() <= 1,
    decreases lines.len(),
{
    if lines.len() > 0 {
        let front = lines.drop_last();
        let last = lines.last();
        lemma_distinct_is_one_each(front);
        lemma_quantities_present(front, last.name);
        if names_distinct(lines) {
            assert forall|i: int, j: int| 0 <= i < j < front.len() implies #[trigger] front[i].name
                != #[trigger] front[j].name by {
                assert(lines[i].name != lines[j].name);
            }
            if quantities_under(front, last.name).len() > 0 {
                let i = choose|i: int|
                    0 <= i < front.len() && #[trigger] front[i].name == last.name;
                assert(lines[i].name != lines[lines.len() - 1].name);
            }
            assert forall|name: Seq<char>| #[trigger]
                quantities_under(lines, name).len() <= 1 by {
                assert(quantities_under(front, name).len() <= 1);
            }
        }
        if forall|name: Seq<char>| #[trigger] quantities_under(lines, name).len() <= 1 {
            assert forall|name: Seq<char>| #[trigger]
                quantities_under(front, name).len() <= 1 by {
                assert(quantities_under(lines, name).len() <= 1);
            }
            assert(quantities_under(lines, last.name).len() <= 1);
            assert forall|i: int, j: int| 0 <= i < j < lines.len() implies #[trigger] lines[i].name
                != #[trigger] lines[j].name by {
                if j < lines.len() - 1 {
                    assert(front[i].name != front[j].name);
                } else {
                    assert(front[i].name == lines[i].name);
                }
            }
        }
    } else {
        assert forall|name: Seq<char>| #[trigger] quantities_under(lines, name).len() <= 1 by {}
    }
}

/// What a sum comes to differs from it by a multiple of 2^32; a sum that is
/// a 32-bit quantity comes to itself; a sum comes to the same whether or
/// not a part of it was brought to 32 bits before; and the sum of two 32-bit
/// quantities comes to what `wrapping_add` gives.
pub proof fn lemma_wrapped(part: int, more: int)
    ensures
        wrapped(part) == (part + 0x8000_0000) % 0x1_0000_0000 - 0x8000_0000,
        i32::MIN <= part <= i32::MAX ==> wrapped(part) == part,
        wrapped(wrapped(part) + more) == wrapped(part + more),
        i32::MIN <= part <= i32::MAX && i32::MIN <= more <= i32::MAX ==> wrapped(part + more)
            == (part as i32).wrapping_add(more as i32),
{
}

} // verus!
