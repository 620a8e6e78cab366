//! What holds of every merge, stated over the lines of the inventories.

use vstd::prelude::*;
use vstd::seq_lib::to_multiset_build;
use crate::lines::{
    lemma_ascending_subrange, lemma_distinct_is_one_each, lemma_quantities_concat,
    lemma_quantities_present, lemma_total_push, lemma_wrapped, merges_in_pairs, merges_in_sums,
    names_ascending, names_distinct, paired_sums, quantities_under, sorts_by_name, summed, total,
    wrapped, Line,
};
use crate::names::{lemma_names_trichotomy, name_at_most};

verus! {

/// A sequence of lines that holds no quantity under any name holds no line.
pub proof fn lemma_no_quantities_no_lines(lines: Seq<Line>)
    requires
        forall|name: Seq<char>| (#[trigger] quantities_under(lines, name)).len() == 0,
    ensures
        lines == Seq::<Line>::empty(),
{
    if lines.len() > 0 {
        lemma_quantities_present(lines, lines[0].name);
    }
}

/// Two sequences of lines that are ascending by name and hold the same
/// quantities under each name are the same sequence: to say that a result is
/// ascending and what it holds under each name is to say all of it.
pub proof fn lemma_ascending_lines_determined(one: Seq<Line>, other: Seq<Line>)
    requires
        names_ascending(one),
        names_ascending(other),
        forall|name: Seq<char>| #[trigger]
            quantities_under(one, name) == quantities_under(other, name),
    ensures
        one == other,
    decreases one.len(),
{
    if one.len() == 0 {
        assert forall|name: Seq<char>| (#[trigger] quantities_under(other, name)).len() == 0 by {
            assert(quantities_under(one, name) == quantities_under(other, name));
        }
        lemma_no_quantities_no_lines(other);
        assert(one =~= other);
    } else if other.len() == 0 {
        assert forall|name: Seq<char>| (#[trigger] quantities_under(one, name)).len() == 0 by {
            assert(quantities_under(one, name) == quantities_under(other, name));
        }
        lemma_no_quantities_no_lines(one);
    } else {
        let a = one.last();
        let b = other.last();
        assert(quantities_under(one, a.name) == quantities_under(other, a.name));
        assert(quantities_under(one, b.name) == quantities_under(other, b.name));
        lemma_quantities_present(other, a.name);
        let k = choose|k: int| 0 <= k < other.len() && #[trigger] other[k].name == a.name;
        assert(name_at_most(a.name, b.name)) by {
            if k < other.len() - 1 {
                assert(name_at_most(other[k].name, other[other.len() - 1].name));
            } else {
                lemma_names_trichotomy(a.name, a.name);
            }
        }
        lemma_quantities_present(one, b.name);
        let m = choose|m: int| 0 <= m < one.len() && #[trigger] one[m].name == b.name;
        assert(name_at_most(b.name, a.name)) by {
            if m < one.len() - 1 {
                assert(name_at_most(one[m].name, one[one.len() - 1].name));
            } else {
                lemma_names_trichotomy(b.name, b.name);
            }
        }
        lemma_names_trichotomy(a.name, b.name);
        assert(a.name == b.name);
        assert(quantities_under(one, a.name).last() == a.quantity);
        assert(quantities_under(other, a.name).last() == b.quantity);
        assert(a == b);
        let front = one.drop_last();
        let other_front = other.drop_last();
        assert forall|name: Seq<char>| #[trigger]
            quantities_under(front, name) == quantities_under(other_front, name) by {
            assert(quantities_under(one, name) == quantities_under(other, name));
            if name == a.name {
                assert(quantities_under(front, name) =~= quantities_under(one, name).drop_last());
                assert(quantities_under(other_front, name) =~= quantities_under(
                    other,
                    name,
                ).drop_last());
            }
        }
        lemma_ascending_subrange(one, 0, one.len() - 1);
        lemma_ascending_subrange(other, 0, other.len() - 1);
        lemma_ascending_lines_determined(front, other_front);
        assert(one =~= front.push(a));
        assert(other =~= other_front.push(b));
    }
}

/// A line occurs in a sequence of lines as often as its quantity occurs
/// among the quantities under its name.
proof fn lemma_line_count(lines: Seq<Line>, line: Line)
    ensures
        lines.to_multiset().count(line) == quantities_under(
            lines,
            line.name,
        ).to_multiset().count(line.quantity),
    decreases lines.len(),
{
    if lines.len() == 0 {
        lines.to_multiset_ensures();
        quantities_under(lines, line.name).to_multiset_ensures();
        assert(!lines.contains(line));
        assert(!quantities_under(lines, line.name).contains(line.quantity));
    } else {
        let front = lines.drop_last();
        let last = lines.last();
        lemma_line_count(front, line);
        assert(lines =~= front.push(last));
        to_multiset_build(front, last);
        if last.name == line.name {
            to_multiset_build(quantities_under(front, line.name), last.quantity);
        }
    }
}

/// Sorting by name rearranges: what comes out holds each line as often as
/// what went in, and so has its length.
pub proof fn lemma_sorted_is_rearranged(lines: Seq<Line>, sorted: Seq<Line>)
    requires
        sorts_by_name(lines, sorted),
    ensures
        sorted.to_multiset() == lines.to_multiset(),
        sorted.len() == lines.len(),
{
    assert forall|line: Line| sorted.to_multiset().count(line) == lines.to_multiset().count(
        line,
    ) by {
        lemma_line_count(lines, line);
        lemma_line_count(sorted, line);
    }
    assert(sorted.to_multiset() =~= lines.to_multiset());
    lines.to_multiset_ensures();
    sorted.to_multiset_ensures();
}

/// Sorting by name has one result, and it leaves what is ascending by name
/// as it is.
pub proof fn lemma_sorted_determined(lines: Seq<Line>, sorted: Seq<Line>, again: Seq<Line>)
    requires
        sorts_by_name(lines, sorted),
        sorts_by_name(lines, again) || (names_ascending(lines) && again == lines),
    ensures
        sorted == again,
{
    lemma_ascending_lines_determined(sorted, again);
}

/// Two inventories have one merge in pairs.
pub proof fn lemma_merge_in_pairs_determined(
    current: Seq<Line>,
    incoming: Seq<Line>,
    merged: Seq<Line>,
    again: Seq<Line>,
)
    requires
        merges_in_pairs(current, incoming, merged),
        merges_in_pairs(current, incoming, again),
    ensures
        merged == again,
{
    lemma_ascending_lines_determined(merged, again);
}

/// Two inventories have one merge in sums.
pub proof fn lemma_merge_in_sums_determined(
    current: Seq<Line>,
    incoming: Seq<Line>,
    merged: Seq<Line>,
    again: Seq<Line>,
)
    requires
        merges_in_sums(current, incoming, merged),
        merges_in_sums(current, incoming, again),
    ensures
        merged == again,
{
    lemma_ascending_lines_determined(merged, again);
}

/// The merge of nothing with nothing is nothing, in pairs as in sums.
pub proof fn lemma_merge_of_nothing(merged: Seq<Line>)
    requires
        merges_in_pairs(Seq::empty(), Seq::empty(), merged) || merges_in_sums(
            Seq::empty(),
            Seq::empty(),
            merged,
        ),
    ensures
        merged == Seq::<Line>::empty(),
{
    lemma_no_quantities_no_lines(merged);
}

/// To merge an inventory in pairs with an empty one, on either side, is to
/// sort it by name: each quantity stays as it is.
pub proof fn lemma_merge_with_nothing(lines: Seq<Line>, merged: Seq<Line>)
    ensures
        merges_in_pairs(lines, Seq::empty(), merged) <==> sorts_by_name(lines, merged),
        merges_in_pairs(Seq::empty(), lines, merged) <==> sorts_by_name(lines, merged),
{
    let nothing = Seq::<Line>::empty();
    assert forall|name: Seq<char>|
        paired_sums(#[trigger] quantities_under(lines, name), quantities_under(nothing, name))
            == quantities_under(lines, name) && paired_sums(
            quantities_under(nothing, name),
            quantities_under(lines, name),
        ) == quantities_under(lines, name) by {
        assert(paired_sums(quantities_under(lines, name), quantities_under(nothing, name))
            =~= quantities_under(lines, name));
        assert(paired_sums(quantities_under(nothing, name), quantities_under(lines, name))
            =~= quantities_under(lines, name));
    }
}

/// To merge in pairs with an empty inventory a second time changes nothing.
pub proof fn lemma_merge_with_nothing_twice(lines: Seq<Line>, once: Seq<Line>, twice: Seq<Line>)
    requires
        merges_in_pairs(lines, Seq::empty(), once),
        merges_in_pairs(once, Seq::empty(), twice),
    ensures
        twice == once,
{
    lemma_merge_with_nothing(once, twice);
    lemma_sorted_determined(once, twice, once);
}

/// A sum of all the quantities of two sequences set end to end is the sum of
/// the two sums.
pub proof fn lemma_total_concat(first: Seq<i32>, second: Seq<i32>)
    ensures
        total(first + second) == total(first) + total(second),
    decreases second.len(),
{
    if second.len() == 0 {
        assert(first + second =~= first);
    } else {
        lemma_total_concat(first, second.drop_last());
        assert((first + second).drop_last() =~= first + second.drop_last());
    }
}

/// Adding in pairs keeps the sum: what the pairs add up to comes to the
/// same 32-bit quantity as all the quantities of both sides together.
pub proof fn lemma_paired_sums_total(current: Seq<i32>, incoming: Seq<i32>)
    ensures
        wrapped(total(paired_sums(current, incoming))) == wrapped(
            total(current) + total(incoming),
        ),
    decreases current.len() + incoming.len(),
{
    let pairs = paired_sums(current, incoming);
    if current.len() == 0 && incoming.len() == 0 {
        assert(pairs =~= Seq::<i32>::empty());
    } else if current.len() > incoming.len() {
        let front = current.drop_last();
        lemma_paired_sums_total(front, incoming);
        assert(pairs =~= paired_sums(front, incoming).push(current.last()));
        lemma_total_push(paired_sums(front, incoming), current.last());
        lemma_wrapped(total(paired_sums(front, incoming)), current.last() as int);
        lemma_wrapped(total(front) + total(incoming), current.last() as int);
    } else if incoming.len() > current.len() {
        let front = incoming.drop_last();
        lemma_paired_sums_total(current, front);
        assert(pairs =~= paired_sums(current, front).push(incoming.last()));
        lemma_total_push(paired_sums(current, front), incoming.last());
        lemma_wrapped(total(paired_sums(current, front)), incoming.last() as int);
        lemma_wrapped(total(current) + total(front), incoming.last() as int);
    } else {
        let front = current.drop_last();
        let other_front = incoming.drop_last();
        let sum = current.last() + incoming.last();
        lemma_paired_sums_total(front, other_front);
        assert(pairs =~= paired_sums(front, other_front).push(wrapped(sum)));
        lemma_total_push(paired_sums(front, other_front), wrapped(sum));
        lemma_wrapped(sum, total(paired_sums(front, other_front)));
        lemma_wrapped(total(paired_sums(front, other_front)), sum);
        lemma_wrapped(total(front) + total(other_front), sum);
    }
}

/// A merge in pairs keeps the sum under each name: what the merged
/// inventory holds under a name adds up, as a 32-bit quantity, to all that
/// the two inventories hold under it. Where no sum leaves the 32 bits, the
/// sums are the same.
pub proof fn lemma_merge_in_pairs_keeps_totals(
    current: Seq<Line>,
    incoming: Seq<Line>,
    merged: Seq<Line>,
    name: Seq<char>,
)
    requires
        merges_in_pairs(current, incoming, merged),
    ensures
        wrapped(total(quantities_under(merged, name))) == wrapped(
            total(quantities_under(current, name)) + total(quantities_under(incoming, name)),
        ),
        wrapped(total(quantities_under(merged, name))) == wrapped(
            total(quantities_under(current + incoming, name)),
        ),
{
    lemma_paired_sums_total(quantities_under(current, name), quantities_under(incoming, name));
    lemma_quantities_concat(current, incoming, name);
    lemma_total_concat(quantities_under(current, name), quantities_under(incoming, name));
}

/// What two inventories hold under one name brought into one quantity:
/// nothing where neither holds any, else the sum of all as a 32-bit quantity.
pub open spec fn one_sum(current: Seq<i32>, incoming: Seq<i32>) -> Seq<i32> {
    if current.len() + incoming.len() == 0 {
        Seq::empty()
    } else {
        seq![wrapped(total(current) + total(incoming))]
    }
}

/// Of two inventories that each hold no name twice, the merge in pairs holds
/// no name twice, and it is their merge in sums: under each name of either
/// it holds the sum of what the two hold under it.
pub proof fn lemma_merge_in_pairs_of_distinct(
    current: Seq<Line>,
    incoming: Seq<Line>,
    merged: Seq<Line>,
)
    requires
        merges_in_pairs(current, incoming, merged),
        names_distinct(current),
        names_distinct(incoming),
    ensures
        names_distinct(merged),
        merges_in_sums(current, incoming, merged),
        forall|name: Seq<char>| #[trigger]
            quantities_under(merged, name) == one_sum(
                quantities_under(current, name),
                quantities_under(incoming, name),
            ),
{
    lemma_distinct_is_one_each(current);
    lemma_distinct_is_one_each(incoming);
    lemma_distinct_is_one_each(merged);
    assert forall|name: Seq<char>|
        (#[trigger] quantities_under(merged, name)).len() <= 1 && quantities_under(merged, name)
            == summed(quantities_under(current + incoming, name)) && quantities_under(
            merged,
            name,
        ) == one_sum(quantities_under(current, name), quantities_under(incoming, name)) by {
        let held = quantities_under(current, name);
        let more = quantities_under(incoming, name);
        let pairs = paired_sums(held, more);
        lemma_quantities_concat(current, incoming, name);
        lemma_total_concat(held, more);
        lemma_paired_sums_total(held, more);
        if pairs.len() > 0 {
            assert(pairs =~= seq![pairs[0]]);
            assert(total(pairs) == pairs[0]) by {
                lemma_total_push(Seq::<i32>::empty(), pairs[0]);
            }
        }
    }
}

/// The two merges agree on inventories that each hold no name twice.
pub proof fn lemma_merges_agree_on_distinct(
    current: Seq<Line>,
    incoming: Seq<Line>,
    in_pairs: Seq<Line>,
    in_sums: Seq<Line>,
)
    requires
        names_distinct(current),
        names_distinct(incoming),
        merges_in_pairs(current, incoming, in_pairs),
        merges_in_sums(current, incoming, in_sums),
    ensures
        in_pairs == in_sums,
{
    lemma_merge_in_pairs_of_distinct(current, incoming, in_pairs);
    lemma_merge_in_sums_determined(current, incoming, in_pairs, in_sums);
}

/// A merge in sums holds no name twice, whatever the inventories hold.
pub proof fn lemma_merge_in_sums_distinct(
    current: Seq<Line>,
    incoming: Seq<Line>,
    merged: Seq<Line>,
)
    requires
        merges_in_sums(current, incoming, merged),
    ensures
        names_distinct(merged),
{
    lemma_distinct_is_one_each(merged);
}

/// Which inventory is the current and which the incoming one makes no
/// difference to the lines of their merge, in pairs as in sums.
pub proof fn lemma_merge_sides_exchange(
    current: Seq<Line>,
    incoming: Seq<Line>,
    merged: Seq<Line>,
)
    ensures
        merges_in_pairs(current, incoming, merged) <==> merges_in_pairs(
            incoming,
            current,
            merged,
        ),
        merges_in_sums(current, incoming, merged) <==> merges_in_sums(incoming, current, merged),
{
    assert forall|name: Seq<char>|
        paired_sums(#[trigger] quantities_under(current, name), quantities_under(incoming, name))
            == paired_sums(quantities_under(incoming, name), quantities_under(current, name))
            && summed(quantities_under(current + incoming, name)) == summed(
            quantities_under(incoming + current, name),
        ) by {
        let held = quantities_under(current, name);
        let more = quantities_under(incoming, name);
        assert(paired_sums(held, more) =~= paired_sums(more, held));
        lemma_quantities_concat(current, incoming, name);
        lemma_quantities_concat(incoming, current, name);
        lemma_total_concat(held, more);
        lemma_total_concat(more, held);
    }
    if merges_in_pairs(current, incoming, merged) {
        assert forall|name: Seq<char>| #[trigger]
            quantities_under(merged, name) == paired_sums(
                quantities_under(incoming, name),
                quantities_under(current, name),
            ) by {
            assert(quantities_under(merged, name) == paired_sums(
                quantities_under(current, name),
                quantities_under(incoming, name),
            ));
        }
    }
    if merges_in_pairs(incoming, current, merged) {
        assert forall|name: Seq<char>| #[trigger]
            quantities_under(merged, name) == paired_sums(
                quantities_under(current, name),
                quantities_under(incoming, name),
            ) by {
            assert(quantities_under(merged, name) == paired_sums(
                quantities_under(incoming, name),
                quantities_under(current, name),
            ));
        }
    }
    if merges_in_sums(current, incoming, merged) {
        assert forall|name: Seq<char>| #[trigger]
            quantities_under(merged, name) == summed(
                quantities_under(incoming + current, name),
            ) by {
            assert(quantities_under(merged, name) == summed(
                quantities_under(current + incoming, name),
            ));
        }
    }
    if merges_in_sums(incoming, current, merged) {
        assert forall|name: Seq<char>| #[trigger]
            quantities_under(merged, name) == summed(
                quantities_under(current + incoming, name),
            ) by {
            assert(quantities_under(merged, name) == summed(
                quantities_under(incoming + current, name),
            ));
        }
    }
}

} // verus!
