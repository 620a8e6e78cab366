//! Sorting an inventory by name, lines under one name kept in their order.

use vstd::prelude::*;
use crate::laws::lemma_sorted_is_rearranged;
use crate::lines::{
    lemma_ascending_push, lemma_lines_push, lemma_quantities_concat, lemma_quantities_present,
    lemma_quantities_push, lines, names_ascending, quantities_under, sorts_by_name, Line,
};
use crate::names::{
    compare_names, lemma_name_before_then_at_most, lemma_names_trichotomy, name_at_most,
    name_before, NameOrder,
};

verus! {

/// Where a walk through two ascending runs stands after `taken_left` lines
/// of `left` and `taken_right` lines of `right` went to `out`, a line of
/// `right` only where its name stood before that of the next line of `left`.
spec fn run_merge_stands(
    left: Seq<Line>,
    right: Seq<Line>,
    taken_left: int,
    taken_right: int,
    out: Seq<Line>,
) -> bool {
    &&& 0 <= taken_left <= left.len()
    &&& 0 <= taken_right <= right.len()
    &&& names_ascending(left)
    &&& names_ascending(right)
    &&& names_ascending(out)
    &&& out.len() > 0 && taken_left < left.len() ==> name_at_most(
        out.last().name,
        left[taken_left].name,
    )
    &&& out.len() > 0 && taken_right < right.len() ==> name_at_most(
        out.last().name,
        right[taken_right].name,
    )
    &&& forall|k: int|
        0 <= k < taken_right && taken_left < left.len() ==> name_before(
            #[trigger] right[k].name,
            left[taken_left].name,
        )
    &&& forall|name: Seq<char>| #[trigger]
        quantities_under(out, name) == quantities_under(left.take(taken_left), name)
            + quantities_under(right.take(taken_right), name)
}

/// The walk goes on with the next line of `left` where `right` is used up or
/// its next line does not stand before it.
proof fn lemma_run_merge_takes_left(
    left: Seq<Line>,
    right: Seq<Line>,
    taken_left: int,
    taken_right: int,
    out: Seq<Line>,
)
    requires
        run_merge_stands(left, right, taken_left, taken_right, out),
        taken_left < left.len(),
        taken_right < right.len() ==> name_at_most(left[taken_left].name, right[taken_right].name),
    ensures
        run_merge_stands(left, right, taken_left + 1, taken_right, out.push(left[taken_left])),
{
    let next = left[taken_left];
    let longer = out.push(next);
    lemma_ascending_push(out, next);
    if taken_left + 1 < left.len() {
        assert(name_at_most(left[taken_left].name, left[taken_left + 1].name));
        assert forall|k: int| 0 <= k < taken_right implies name_before(
            #[trigger] right[k].name,
            left[taken_left + 1].name,
        ) by {
            lemma_name_before_then_at_most(
                right[k].name,
                left[taken_left].name,
                left[taken_left + 1].name,
            );
        }
    }
    let seen_right = right.take(taken_right);
    assert forall|name: Seq<char>| #[trigger]
        quantities_under(longer, name) == quantities_under(left.take(taken_left + 1), name)
            + quantities_under(seen_right, name) by {
        lemma_quantities_push(out, next, name);
        lemma_quantities_push(left.take(taken_left), next, name);
        assert(left.take(taken_left + 1) =~= left.take(taken_left).push(next));
        if next.name == name {
            lemma_quantities_present(seen_right, name);
            if quantities_under(seen_right, name).len() > 0 {
                let k = choose|k: int|
                    0 <= k < seen_right.len() && #[trigger] seen_right[k].name == name;
                assert(name_before(right[k].name, left[taken_left].name));
                lemma_names_trichotomy(name, name);
            }
            assert(quantities_under(longer, name) =~= quantities_under(
                left.take(taken_left + 1),
                name,
            ) + quantities_under(seen_right, name));
        }
    }
}

/// The walk goes on with the next line of `right` where `left` is used up or
/// its next line stands after it.
proof fn lemma_run_merge_takes_right(
    left: Seq<Line>,
    right: Seq<Line>,
    taken_left: int,
    taken_right: int,
    out: Seq<Line>,
)
    requires
        run_merge_stands(left, right, taken_left, taken_right, out),
        taken_right < right.len(),
        taken_left < left.len() ==> name_before(right[taken_right].name, left[taken_left].name),
    ensures
        run_merge_stands(left, right, taken_left, taken_right + 1, out.push(right[taken_right])),
{
    let next = right[taken_right];
    let longer = out.push(next);
    lemma_ascending_push(out, next);
    if taken_left < left.len() {
        lemma_names_trichotomy(next.name, left[taken_left].name);
    }
    if taken_right + 1 < right.len() {
        assert(name_at_most(right[taken_right].name, right[taken_right + 1].name));
    }
    assert forall|name: Seq<char>| #[trigger]
        quantities_under(longer, name) == quantities_under(left.take(taken_left), name)
            + quantities_under(right.take(taken_right + 1), name) by {
        lemma_quantities_push(out, next, name);
        lemma_quantities_push(right.take(taken_right), next, name);
        assert(right.take(taken_right + 1) =~= right.take(taken_right).push(next));
        assert(quantities_under(longer, name) =~= quantities_under(left.take(taken_left), name)
            + quantities_under(right.take(taken_right + 1), name));
    }
}

/// Brings two runs that are ascending by name into one, a line of `left`
/// before the lines of `right` under the same name.
fn merge_runs<'a>(left: &Vec<(i32, &'a str)>, right: &Vec<(i32, &'a str)>) -> (out: Vec<
    (i32, &'a str),
>)
    requires
        names_ascending(lines(left@)),
        names_ascending(lines(right@)),
    ensures
        names_ascending(lines(out@)),
        forall|name: Seq<char>| #[trigger]
            quantities_under(lines(out@), name) == quantities_under(lines(left@), name)
                + quantities_under(lines(right@), name),
        out.len() == left.len() + right.len(),
{
    let mut out: Vec<(i32, &'a str)> = Vec::new();
    let mut i: usize = 0;
    let mut j: usize = 0;
    proof {
        assert(lines(out@) =~= Seq::<Line>::empty());
        assert(lines(left@).take(0) =~= Seq::<Line>::empty());
        assert(lines(right@).take(0) =~= Seq::<Line>::empty());
    }
    while i < left.len() || j < right.len()
        invariant
            run_merge_stands(lines(left@), lines(right@), i as int, j as int, lines(out@)),
            out.len() == i + j,
        decreases left.len() - i + right.len() - j,
    {
        let from_left = if j >= right.len() {
            true
        } else if i >= left.len() {
            false
        } else {
            match compare_names(right[j].1, left[i].1) {
                NameOrder::Before => false,
                _ => true,
            }
        };
        if from_left {
            proof {
                lemma_run_merge_takes_left(
                    lines(left@),
                    lines(right@),
                    i as int,
                    j as int,
                    lines(out@),
                );
                lemma_lines_push(out@, left@[i as int]);
            }
            out.push(left[i]);
            i = i + 1;
        } else {
            proof {
                lemma_run_merge_takes_right(
                    lines(left@),
                    lines(right@),
                    i as int,
                    j as int,
                    lines(out@),
                );
                lemma_lines_push(out@, right@[j as int]);
            }
            out.push(right[j]);
            j = j + 1;
        }
    }
    proof {
        assert(lines(left@).take(i as int) =~= lines(left@));
        assert(lines(right@).take(j as int) =~= lines(right@));
    }
    out
}

/// Sorts an inventory by name. Items under one name keep the order in which
/// the inventory has them.
pub fn sort_by_name<'a>(inventory: Vec<(i32, &'a str)>) -> (sorted: Vec<(i32, &'a str)>)
    ensures
        sorts_by_name(lines(inventory@), lines(sorted@)),
        lines(sorted@).to_multiset() == lines(inventory@).to_multiset(),
        sorted.len() == inventory.len(),
    decreases inventory.len(),
{
    if inventory.len() <= 1 {
        return inventory;
    }
    let ghost whole = lines(inventory@);
    let half = inventory.len() / 2;
    let mut left = inventory;
    let right = left.split_off(half);
    let ghost first = lines(left@);
    let ghost second = lines(right@);
    proof {
        assert(whole =~= first + second);
    }
    let left = sort_by_name(left);
    let right = sort_by_name(right);
    let sorted = merge_runs(&left, &right);
    proof {
        assert forall|name: Seq<char>| #[trigger]
            quantities_under(lines(sorted@), name) == quantities_under(whole, name) by {
            lemma_quantities_concat(first, second, name);
            assert(quantities_under(lines(left@), name) == quantities_under(first, name));
            assert(quantities_under(lines(right@), name) == quantities_under(second, name));
        }
        lemma_sorted_is_rearranged(whole, lines(sorted@));
    }
    sorted
}

} // verus!
