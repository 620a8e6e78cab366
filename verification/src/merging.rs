//! Merging two inventories by sorting both and walking them side by side.

use vstd::prelude::*;
use crate::laws::{
    lemma_merge_in_pairs_keeps_totals, lemma_merge_in_pairs_of_distinct, lemma_merge_of_nothing,
    lemma_merge_with_nothing,
};
use crate::lines::{
    lemma_ascending_push, lemma_lines_push, lemma_paired_sums_symmetric, lemma_quantities_push,
    lemma_wrapped, lines, merges_in_pairs, merges_in_sums, names_ascending, names_distinct,
    paired_sums, quantities_under, sorts_by_name, total, wrapped, Line,
};
use crate::names::{
    compare_names, lemma_name_before_then_at_most, lemma_names_trichotomy, name_at_most,
    name_before, NameOrder,
};
use crate::sorting::sort_by_name;

verus! {

/// Where the walk stands after `taken_current` lines of `current` and
/// `taken_incoming` lines of `incoming`, both ascending by name, went to
/// `out`: under each name `out` holds what was taken, added in pairs, and
/// the side that gave more lines under a name has passed that name.
spec fn pair_merge_stands(
    current: Seq<Line>,
    incoming: Seq<Line>,
    taken_current: int,
    taken_incoming: int,
    out: Seq<Line>,
) -> bool {
    &&& 0 <= taken_current <= current.len()
    &&& 0 <= taken_incoming <= incoming.len()
    &&& names_ascending(current)
    &&& names_ascending(incoming)
    &&& names_ascending(out)
    &&& out.len() > 0 && taken_current < current.len() ==> name_at_most(
        out.last().name,
        current[taken_current].name,
    )
    &&& out.len() > 0 && taken_incoming < incoming.len() ==> name_at_most(
        out.last().name,
        incoming[taken_incoming].name,
    )
    &&& forall|name: Seq<char>| #[trigger]
        quantities_under(out, name) == paired_sums(
            quantities_under(current.take(taken_current), name),
            quantities_under(incoming.take(taken_incoming), name),
        )
    &&& forall|name: Seq<char>|
        taken_incoming < incoming.len() && (#[trigger] quantities_under(
            current.take(taken_current),
            name,
        )).len() > quantities_under(incoming.take(taken_incoming), name).len() ==> name_before(
            name,
            incoming[taken_incoming].name,
        )
    &&& forall|name: Seq<char>|
        taken_current < current.len() && (#[trigger] quantities_under(
            incoming.take(taken_incoming),
            name,
        )).len() > quantities_under(current.take(taken_current), name).len() ==> name_before(
            name,
            current[taken_current].name,
        )
}

/// The walk stands as well with the two sides exchanged.
proof fn lemma_pair_merge_exchanged(
    current: Seq<Line>,
    incoming: Seq<Line>,
    taken_current: int,
    taken_incoming: int,
    out: Seq<Line>,
)
    requires
        pair_merge_stands(current, incoming, taken_current, taken_incoming, out),
    ensures
        pair_merge_stands(incoming, current, taken_incoming, taken_current, out),
{
    assert forall|name: Seq<char>| #[trigger]
        quantities_under(out, name) == paired_sums(
            quantities_under(incoming.take(taken_incoming), name),
            quantities_under(current.take(taken_current), name),
        ) by {
        lemma_paired_sums_symmetric(
            quantities_under(current.take(taken_current), name),
            quantities_under(incoming.take(taken_incoming), name),
        );
    }
}

/// The walk goes on with the next line of `current` alone where `incoming`
/// is used up or its next line stands after it.
proof fn lemma_pair_merge_takes_one(
    current: Seq<Line>,
    incoming: Seq<Line>,
    taken_current: int,
    taken_incoming: int,
    out: Seq<Line>,
)
    requires
        pair_merge_stands(current, incoming, taken_current, taken_incoming, out),
        taken_current < current.len(),
        taken_incoming < incoming.len() ==> name_before(
            current[taken_current].name,
            incoming[taken_incoming].name,
        ),
    ensures
        pair_merge_stands(
            current,
            incoming,
            taken_current + 1,
            taken_incoming,
            out.push(current[taken_current]),
        ),
{
    let next = current[taken_current];
    let longer = out.push(next);
    let seen = current.take(taken_current);
    let seen_more = current.take(taken_current + 1);
    let seen_incoming = incoming.take(taken_incoming);
    assert(seen_more =~= seen.push(next));
    lemma_ascending_push(out, next);
    lemma_names_trichotomy(next.name, next.name);
    if taken_incoming < incoming.len() {
        lemma_names_trichotomy(next.name, incoming[taken_incoming].name);
    }
    if taken_current + 1 < current.len() {
        assert(name_at_most(current[taken_current].name, current[taken_current + 1].name));
    }
    assert(quantities_under(seen_incoming, next.name).len() <= quantities_under(
        seen,
        next.name,
    ).len());
    assert forall|name: Seq<char>| #[trigger]
        quantities_under(longer, name) == paired_sums(
            quantities_under(seen_more, name),
            quantities_under(seen_incoming, name),
        ) by {
        lemma_quantities_push(out, next, name);
        lemma_quantities_push(seen, next, name);
        assert(quantities_under(longer, name) =~= paired_sums(
            quantities_under(seen_more, name),
            quantities_under(seen_incoming, name),
        ));
    }
    assert forall|name: Seq<char>|
        taken_incoming < incoming.len() && (#[trigger] quantities_under(seen_more, name)).len()
            > quantities_under(seen_incoming, name).len() implies name_before(
        name,
        incoming[taken_incoming].name,
    ) by {
        lemma_quantities_push(seen, next, name);
        if name != next.name {
            assert(quantities_under(seen, name).len() > quantities_under(
                seen_incoming,
                name,
            ).len());
        }
    }
    assert forall|name: Seq<char>|
        taken_current + 1 < current.len() && (#[trigger] quantities_under(
            seen_incoming,
            name,
        )).len() > quantities_under(seen_more, name).len() implies name_before(
        name,
        current[taken_current + 1].name,
    ) by {
        lemma_quantities_push(seen, next, name);
        assert(quantities_under(seen_incoming, name).len() > quantities_under(seen, name).len());
        lemma_name_before_then_at_most(
            name,
            current[taken_current].name,
            current[taken_current + 1].name,
        );
    }
}

/// Two lines under one name as one line: the name with the sum of the two
/// quantities.
spec fn both_in_one(one: Line, other: Line) -> Line {
    Line { quantity: wrapped(one.quantity + other.quantity), name: one.name }
}

/// The walk goes on with the next lines of both sides added into one where
/// they bear the same name.
proof fn lemma_pair_merge_takes_both(
    current: Seq<Line>,
    incoming: Seq<Line>,
    taken_current: int,
    taken_incoming: int,
    out: Seq<Line>,
)
    requires
        pair_merge_stands(current, incoming, taken_current, taken_incoming, out),
        taken_current < current.len(),
        taken_incoming < incoming.len(),
        current[taken_current].name == incoming[taken_incoming].name,
    ensures
        pair_merge_stands(
            current,
            incoming,
            taken_current + 1,
            taken_incoming + 1,
            out.push(both_in_one(current[taken_current], incoming[taken_incoming])),
        ),
{
    let one = current[taken_current];
    let other = incoming[taken_incoming];
    let both = both_in_one(one, other);
    let longer = out.push(both);
    let seen = current.take(taken_current);
    let seen_more = current.take(taken_current + 1);
    let seen_incoming = incoming.take(taken_incoming);
    let seen_incoming_more = incoming.take(taken_incoming + 1);
    assert(seen_more =~= seen.push(one));
    assert(seen_incoming_more =~= seen_incoming.push(other));
    lemma_ascending_push(out, both);
    lemma_names_trichotomy(one.name, one.name);
    if taken_current + 1 < current.len() {
        assert(name_at_most(current[taken_current].name, current[taken_current + 1].name));
    }
    if taken_incoming + 1 < incoming.len() {
        assert(name_at_most(incoming[taken_incoming].name, incoming[taken_incoming + 1].name));
    }
    assert(quantities_under(seen_incoming, one.name).len() == quantities_under(
        seen,
        one.name,
    ).len());
    assert forall|name: Seq<char>| #[trigger]
        quantities_under(longer, name) == paired_sums(
            quantities_under(seen_more, name),
            quantities_under(seen_incoming_more, name),
        ) by {
        lemma_quantities_push(out, both, name);
        lemma_quantities_push(seen, one, name);
        lemma_quantities_push(seen_incoming, other, name);
        assert(quantities_under(longer, name) =~= paired_sums(
            quantities_under(seen_more, name),
            quantities_under(seen_incoming_more, name),
        ));
    }
    assert forall|name: Seq<char>|
        taken_incoming + 1 < incoming.len() && (#[trigger] quantities_under(
            seen_more,
            name,
        )).len() > quantities_under(seen_incoming_more, name).len() implies name_before(
        name,
        incoming[taken_incoming + 1].name,
    ) by {
        lemma_quantities_push(seen, one, name);
        lemma_quantities_push(seen_incoming, other, name);
        assert(quantities_under(seen, name).len() > quantities_under(seen_incoming, name).len());
        lemma_name_before_then_at_most(
            name,
            incoming[taken_incoming].name,
            incoming[taken_incoming + 1].name,
        );
    }
    assert forall|name: Seq<char>|
        taken_current + 1 < current.len() && (#[trigger] quantities_under(
            seen_incoming_more,
            name,
        )).len() > quantities_under(seen_more, name).len() implies name_before(
        name,
        current[taken_current + 1].name,
    ) by {
        lemma_quantities_push(seen, one, name);
        lemma_quantities_push(seen_incoming, other, name);
        assert(quantities_under(seen_incoming, name).len() > quantities_under(seen, name).len());
        lemma_name_before_then_at_most(
            name,
            current[taken_current].name,
            current[taken_current + 1].name,
        );
    }
}

/// Merges two inventories into one that is ascending by name.
///
/// Both are sorted by name, items under one name kept in their order, and
/// walked side by side. Under each name the first item of `cur_inv` and the
/// first of `new_inv` come out as one item with the sum of their quantities,
/// then the second of each, and so on; the items of one inventory that find
/// no partner in the other come out as they are. Quantities are added as
/// `i32::wrapping_add` adds them, so every pair of inventories is merged.
pub fn update_inventory_sort_first<'a>(
    cur_inv: Vec<(i32, &'a str)>,
    new_inv: Vec<(i32, &'a str)>,
) -> (merged: Vec<(i32, &'a str)>)
    ensures
        merges_in_pairs(lines(cur_inv@), lines(new_inv@), lines(merged@)),
        names_ascending(lines(merged@)),
        names_distinct(lines(cur_inv@)) && names_distinct(lines(new_inv@)) ==> names_distinct(
            lines(merged@),
        ) && merges_in_sums(lines(cur_inv@), lines(new_inv@), lines(merged@)),
        forall|name: Seq<char>|
            wrapped(total(#[trigger] quantities_under(lines(merged@), name))) == wrapped(
                total(quantities_under(lines(cur_inv@), name)) + total(
                    quantities_under(lines(new_inv@), name),
                ),
            ),
        new_inv.len() == 0 ==> sorts_by_name(lines(cur_inv@), lines(merged@)),
        cur_inv.len() == 0 ==> sorts_by_name(lines(new_inv@), lines(merged@)),
        cur_inv.len() == 0 && new_inv.len() == 0 ==> merged.len() == 0,
{
    let current = sort_by_name(cur_inv);
    let incoming = sort_by_name(new_inv);
    let mut merged: Vec<(i32, &'a str)> = Vec::new();
    let mut i: usize = 0;
    let mut j: usize = 0;
    proof {
        assert(lines(merged@) =~= Seq::<Line>::empty());
        assert(lines(current@).take(0) =~= Seq::<Line>::empty());
        assert(lines(incoming@).take(0) =~= Seq::<Line>::empty());
        assert forall|name: Seq<char>| #[trigger]
            quantities_under(lines(merged@), name) == paired_sums(
                quantities_under(lines(current@).take(0), name),
                quantities_under(lines(incoming@).take(0), name),
            ) by {
            assert(quantities_under(lines(merged@), name) =~= paired_sums(
                quantities_under(lines(current@).take(0), name),
                quantities_under(lines(incoming@).take(0), name),
            ));
        }
    }
    while i < current.len() || j < incoming.len()
        invariant
            pair_merge_stands(
                lines(current@),
                lines(incoming@),
                i as int,
                j as int,
                lines(merged@),
            ),
        decreases current.len() - i + incoming.len() - j,
    {
        let order = if j >= incoming.len() {
            NameOrder::Before
        } else if i >= current.len() {
            NameOrder::After
        } else {
            compare_names(current[i].1, incoming[j].1)
        };
        match order {
            NameOrder::Same => {
                let one = current[i];
                let other = incoming[j];
                let both = (one.0.wrapping_add(other.0), one.1);
                proof {
                    lemma_pair_merge_takes_both(
                        lines(current@),
                        lines(incoming@),
                        i as int,
                        j as int,
                        lines(merged@),
                    );
                    lemma_wrapped(one.0 as int, other.0 as int);
                    lemma_lines_push(merged@, both);
                }
                merged.push(both);
                i = i + 1;
                j = j + 1;
            },
            NameOrder::Before => {
                proof {
                    lemma_pair_merge_takes_one(
                        lines(current@),
                        lines(incoming@),
                        i as int,
                        j as int,
                        lines(merged@),
                    );
                    lemma_lines_push(merged@, current@[i as int]);
                }
                merged.push(current[i]);
                i = i + 1;
            },
            NameOrder::After => {
                proof {
                    lemma_pair_merge_exchanged(
                        lines(current@),
                        lines(incoming@),
                        i as int,
                        j as int,
                        lines(merged@),
                    );
                    lemma_pair_merge_takes_one(
                        lines(incoming@),
                        lines(current@),
                        j as int,
                        i as int,
                        lines(merged@),
                    );
                    lemma_pair_merge_exchanged(
                        lines(incoming@),
                        lines(current@),
                        j as int + 1,
                        i as int,
                        lines(merged@).push(lines(incoming@)[j as int]),
                    );
                    lemma_lines_push(merged@, incoming@[j as int]);
                }
                merged.push(incoming[j]);
                j = j + 1;
            },
        }
    }
    proof {
        assert(lines(current@).take(i as int) =~= lines(current@));
        assert(lines(incoming@).take(j as int) =~= lines(incoming@));
        let held = lines(cur_inv@);
        let more = lines(new_inv@);
        let out = lines(merged@);
        assert forall|name: Seq<char>| #[trigger]
            quantities_under(out, name) == paired_sums(
                quantities_under(held, name),
                quantities_under(more, name),
            ) by {
            assert(quantities_under(lines(current@), name) == quantities_under(held, name));
            assert(quantities_under(lines(incoming@), name) == quantities_under(more, name));
        }
        if names_distinct(held) && names_distinct(more) {
            lemma_merge_in_pairs_of_distinct(held, more, out);
        }
        assert forall|name: Seq<char>|
            wrapped(total(#[trigger] quantities_under(out, name))) == wrapped(
                total(quantities_under(held, name)) + total(quantities_under(more, name)),
            ) by {
            lemma_merge_in_pairs_keeps_totals(held, more, out, name);
        }
        if new_inv.len() == 0 {
            assert(more =~= Seq::<Line>::empty());
            lemma_merge_with_nothing(held, out);
        }
        if cur_inv.len() == 0 {
            assert(held =~= Seq::<Line>::empty());
            lemma_merge_with_nothing(more, out);
            if new_inv.len() == 0 {
                lemma_merge_of_nothing(out);
            }
        }
    }
    merged
}

} // verus!
