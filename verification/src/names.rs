//! The order of names: by code point, position by position, the shorter of
//! two names first where one is the beginning of the other.

use vstd::prelude::*;
use vstd::std_specs::iter::IteratorSpec;

verus! {

/// Whether name `a` stands strictly before name `b`.
pub open spec fn name_before(a: Seq<char>, b: Seq<char>) -> bool
    decreases a.len(),
{
    if b.len() == 0 {
        false
    } else if a.len() == 0 {
        true
    } else if a[0] == b[0] {
        name_before(a.drop_first(), b.drop_first())
    } else {
        a[0] < b[0]
    }
}

/// Of two names exactly one holds: the first stands before the second, they
/// are the same, or the second stands before the first.
pub proof fn lemma_names_trichotomy(a: Seq<char>, b: Seq<char>)
    ensures
        name_before(a, b) || a == b || name_before(b, a),
        !(name_before(a, b) && a == b),
        !(name_before(b, a) && a == b),
        !(name_before(a, b) && name_before(b, a)),
    decreases a.len(),
{
    if a.len() == 0 || b.len() == 0 {
        if a.len() == 0 && b.len() == 0 {
            assert(a =~= b);
        }
    } else if a[0] == b[0] {
        lemma_names_trichotomy(a.drop_first(), b.drop_first());
        if a.drop_first() == b.drop_first() {
            assert(a =~= seq![a[0]] + a.drop_first());
            assert(b =~= seq![b[0]] + b.drop_first());
        }
    }
}

/// The order of names carries over: what stands before a name stands before
/// all that the name stands before.
pub proof fn lemma_name_before_transitive(a: Seq<char>, b: Seq<char>, c: Seq<char>)
    requires
        name_before(a, b),
        name_before(b, c),
    ensures
        name_before(a, c),
    decreases a.len(),
{
    if a.len() > 0 && a[0] == b[0] && b[0] == c[0] {
        lemma_name_before_transitive(a.drop_first(), b.drop_first(), c.drop_first());
    }
}

/// Whether name `a` stands before name `b` or is the same name.
pub open spec fn name_at_most(a: Seq<char>, b: Seq<char>) -> bool {
    !name_before(b, a)
}

/// A name that stands before another stands before all that follow the other.
pub proof fn lemma_name_before_then_at_most(a: Seq<char>, b: Seq<char>, c: Seq<char>)
    requires
        name_before(a, b),
        name_at_most(b, c),
    ensures
        name_before(a, c),
{
    lemma_names_trichotomy(b, c);
    if name_before(b, c) {
        lemma_name_before_transitive(a, b, c);
    }
}

/// What does not follow a name stands before all that the name stands before.
pub proof fn lemma_name_at_most_then_before(a: Seq<char>, b: Seq<char>, c: Seq<char>)
    requires
        name_at_most(a, b),
        name_before(b, c),
    ensures
        name_before(a, c),
{
    lemma_names_trichotomy(a, b);
    if name_before(a, b) {
        lemma_name_before_transitive(a, b, c);
    }
}

/// `name_at_most` carries over as `name_before` does.
pub proof fn lemma_name_at_most_transitive(a: Seq<char>, b: Seq<char>, c: Seq<char>)
    requires
        name_at_most(a, b),
        name_at_most(b, c),
    ensures
        name_at_most(a, c),
{
    if name_before(c, a) {
        lemma_name_before_then_at_most(c, a, b);
    }
}

/// Two names that begin with the same code point are the same exactly when
/// what follows it is the same.
spec fn same_after_first(a: Seq<char>, b: Seq<char>) -> bool {
    a.len() > 0 && b.len() > 0 && a[0] == b[0] ==> (a == b <==> a.drop_first() == b.drop_first())
}

proof fn lemma_same_after_first(a: Seq<char>, b: Seq<char>)
    ensures
        same_after_first(a, b),
{
    if a.len() > 0 && b.len() > 0 && a[0] == b[0] && a.drop_first() == b.drop_first() {
        assert(a =~= seq![a[0]] + a.drop_first());
        assert(b =~= seq![b[0]] + b.drop_first());
    }
}

/// How a first name stands to a second.
#[derive(Clone, Copy, Debug, PartialEq, Eq)]
pub enum NameOrder {
    Before,
    Same,
    After,
}

/// Compares two names by their code points, in one pass over both.
pub fn compare_names(a: &str, b: &str) -> (order: NameOrder)
    ensures
        order == NameOrder::Before <==> name_before(a@, b@),
        order == NameOrder::Same <==> a@ == b@,
        order == NameOrder::After <==> name_before(b@, a@),
{
    let mut xs = a.chars();
    let mut ys = b.chars();
    loop
        invariant
            xs.obeys_prophetic_iter_laws(),
            ys.obeys_prophetic_iter_laws(),
            xs.decrease() is Some,
            name_before(a@, b@) == name_before(xs.remaining(), ys.remaining()),
            name_before(b@, a@) == name_before(ys.remaining(), xs.remaining()),
            (a@ == b@) == (xs.remaining() == ys.remaining()),
        decreases xs.decrease()->0,
    {
        let ghost rest_a = xs.remaining();
        let ghost rest_b = ys.remaining();
        assert(same_after_first(rest_a, rest_b)) by {
            lemma_same_after_first(rest_a, rest_b);
        }
        let x = xs.next();
        let y = ys.next();
        match (x, y) {
            (None, None) => {
                assert(rest_a =~= rest_b);
                return NameOrder::Same;
            },
            (None, Some(_)) => {
                return NameOrder::Before;
            },
            (Some(_), None) => {
                return NameOrder::After;
            },
            (Some(c), Some(d)) => {
                if c < d {
                    return NameOrder::Before;
                } else if d < c {
                    return NameOrder::After;
                }
            },
        }
    }
}

} // verus!
