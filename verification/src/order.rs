//! The order of the dictionary on file names, and the least and the
//! greatest of a finite set of names.

use vstd::prelude::*;
use crate::names::{precedes, precedes_from};

verus! {

/// No name comes before itself.
pub proof fn lemma_precedes_irreflexive(a: Seq<char>)
    ensures
        !precedes(a, a),
{
    lemma_never_before_itself(a, 0);
}

proof fn lemma_never_before_itself(a: Seq<char>, i: int)
    requires
        0 <= i,
    ensures
        !precedes_from(a, a, i),
    decreases a.len() - i,
{
    if i < a.len() {
        lemma_never_before_itself(a, i + 1);
    }
}

/// Of two different names one comes before the other.
pub proof fn lemma_precedes_total(a: Seq<char>, b: Seq<char>)
    requires
        a != b,
    ensures
        precedes(a, b) || precedes(b, a),
{
    lemma_one_before_other(a, b, 0);
}

proof fn lemma_one_before_other(a: Seq<char>, b: Seq<char>, i: int)
    requires
        0 <= i <= a.len(),
        i <= b.len(),
        a.subrange(0, i) =~= b.subrange(0, i),
        a != b,
    ensures
        precedes_from(a, b, i) || precedes_from(b, a, i),
    decreases a.len() - i,
{
    if i >= a.len() && i >= b.len() {
        assert(a =~= a.subrange(0, i));
        assert(b =~= b.subrange(0, i));
    } else if i < a.len() && i < b.len() && a[i] == b[i] {
        assert(a.subrange(0, i + 1) =~= a.subrange(0, i).push(a[i]));
        assert(b.subrange(0, i + 1) =~= b.subrange(0, i).push(b[i]));
        lemma_one_before_other(a, b, i + 1);
    } else if i < a.len() && i < b.len() {
        vstd::utf8::char_u32_cast(a[i], a[i] as u32);
        vstd::utf8::char_u32_cast(b[i], b[i] as u32);
    }
}

/// A name that comes before a second, which comes before a third, comes
/// before the third.
pub proof fn lemma_precedes_transitive(a: Seq<char>, b: Seq<char>, c: Seq<char>)
    requires
        precedes(a, b),
        precedes(b, c),
    ensures
        precedes(a, c),
{
    lemma_before_chain(a, b, c, 0);
}

proof fn lemma_before_chain(a: Seq<char>, b: Seq<char>, c: Seq<char>, i: int)
    requires
        0 <= i,
        precedes_from(a, b, i),
        precedes_from(b, c, i),
    ensures
        precedes_from(a, c, i),
    decreases c.len() - i,
{
    if i < a.len() && i < b.len() && i < c.len() && a[i] == b[i] && b[i] == c[i] {
        lemma_before_chain(a, b, c, i + 1);
    }
}

/// Of two names at most one comes before the other.
pub proof fn lemma_precedes_asymmetric(a: Seq<char>, b: Seq<char>)
    ensures
        !(precedes(a, b) && precedes(b, a)),
{
    if precedes(a, b) && precedes(b, a) {
        lemma_precedes_transitive(a, b, a);
        lemma_precedes_irreflexive(a);
    }
}

/// Whether `n` is in `names` and no name of `names` comes before it.
pub open spec fn is_least(n: Seq<char>, names: Set<Seq<char>>) -> bool {
    names.contains(n) && forall|m: Seq<char>| names.contains(m) ==> !precedes(m, n)
}

/// Whether `n` is in `names` and comes before no name of `names`.
pub open spec fn is_greatest(n: Seq<char>, names: Set<Seq<char>>) -> bool {
    names.contains(n) && forall|m: Seq<char>| names.contains(m) ==> !precedes(n, m)
}

/// The least of the names, where there is one.
pub open spec fn least(names: Set<Seq<char>>) -> Seq<char> {
    choose|n: Seq<char>| is_least(n, names)
}

/// The greatest of the names, where there is one.
pub open spec fn greatest(names: Set<Seq<char>>) -> Seq<char> {
    choose|n: Seq<char>| is_greatest(n, names)
}

/// A set of names has one least name at most.
pub proof fn lemma_least_unique(a: Seq<char>, b: Seq<char>, names: Set<Seq<char>>)
    requires
        is_least(a, names),
        is_least(b, names),
    ensures
        a == b,
{
    if a != b {
        lemma_precedes_total(a, b);
    }
}

/// A set of names has one greatest name at most.
pub proof fn lemma_greatest_unique(a: Seq<char>, b: Seq<char>, names: Set<Seq<char>>)
    requires
        is_greatest(a, names),
        is_greatest(b, names),
    ensures
        a == b,
{
    if a != b {
        lemma_precedes_total(a, b);
    }
}

/// A finite set of names that is not empty has a least name.
pub proof fn lemma_least_exists(names: Set<Seq<char>>)
    requires
        names.finite(),
        names.len() > 0,
    ensures
        is_least(least(names), names),
    decreases names.len(),
{
    let x = names.choose();
    let rest = names.remove(x);
    if rest.len() == 0 {
        assert forall|m: Seq<char>| names.contains(m) implies !precedes(m, x) by {
            if m != x {
                assert(rest.contains(m));
            }
            lemma_precedes_irreflexive(x);
        }
        assert(is_least(x, names));
    } else {
        lemma_least_exists(rest);
        let l = least(rest);
        if precedes(x, l) {
            assert forall|m: Seq<char>| names.contains(m) implies !precedes(m, x) by {
                lemma_precedes_irreflexive(x);
                if m != x {
                    assert(rest.contains(m));
                    if precedes(m, x) {
                        lemma_precedes_transitive(m, x, l);
                    }
                }
            }
            assert(is_least(x, names));
        } else {
            assert forall|m: Seq<char>| names.contains(m) implies !precedes(m, l) by {
                if m != x {
                    assert(rest.contains(m));
                }
            }
            assert(is_least(l, names));
        }
    }
}

/// The names in ascending order.
pub open spec fn ascending(names: Set<Seq<char>>) -> Seq<Seq<char>>
    decreases names.len(),
{
    if names.finite() && names.len() > 0 && names.contains(least(names)) {
        seq![least(names)] + ascending(names.remove(least(names)))
    } else {
        Seq::empty()
    }
}

/// Where a name comes after every name of a finite set, the ascending
/// order of the set with that name is the ascending order of the set, and
/// then that name.
pub proof fn lemma_ascending_push(names: Set<Seq<char>>, last: Seq<char>)
    requires
        names.finite(),
        forall|m: Seq<char>| names.contains(m) ==> precedes(m, last),
    ensures
        ascending(names.insert(last)) == ascending(names).push(last),
    decreases names.len(),
{
    let all = names.insert(last);
    lemma_precedes_irreflexive(last);
    assert(!names.contains(last));
    if names.len() == 0 {
        assert(names =~= Set::empty());
        assert(is_least(last, all));
        lemma_least_exists(all);
        lemma_least_unique(last, least(all), all);
        assert(all.remove(last) =~= Set::<Seq<char>>::empty());
        assert(ascending(all.remove(last)) == Seq::<Seq<char>>::empty());
        assert(ascending(all) =~= ascending(names).push(last));
    } else {
        lemma_least_exists(names);
        let l = least(names);
        assert(is_least(l, all)) by {
            assert forall|m: Seq<char>| all.contains(m) implies !precedes(m, l) by {
                if m == last {
                    lemma_precedes_asymmetric(l, last);
                }
            }
        }
        lemma_least_exists(all);
        lemma_least_unique(l, least(all), all);
        assert(all.remove(l) =~= names.remove(l).insert(last));
        lemma_ascending_push(names.remove(l), last);
        assert(ascending(all) =~= ascending(names).push(last));
    }
}

/// A finite set of names that is not empty has a greatest name.
pub proof fn lemma_greatest_exists(names: Set<Seq<char>>)
    requires
        names.finite(),
        names.len() > 0,
    ensures
        is_greatest(greatest(names), names),
    decreases names.len(),
{
    let x = names.choose();
    let rest = names.remove(x);
    if rest.len() == 0 {
        assert forall|m: Seq<char>| names.contains(m) implies !precedes(x, m) by {
            if m != x {
                assert(rest.contains(m));
            }
            lemma_precedes_irreflexive(x);
        }
        assert(is_greatest(x, names));
    } else {
        lemma_greatest_exists(rest);
        let g = greatest(rest);
        if precedes(g, x) {
            assert forall|m: Seq<char>| names.contains(m) implies !precedes(x, m) by {
                lemma_precedes_irreflexive(x);
                if m != x {
                    assert(rest.contains(m));
                    if precedes(x, m) {
                        lemma_precedes_transitive(g, x, m);
                    }
                }
            }
            assert(is_greatest(x, names));
        } else {
            assert forall|m: Seq<char>| names.contains(m) implies !precedes(g, m) by {
                if m != x {
                    assert(rest.contains(m));
                }
            }
            assert(is_greatest(g, names));
        }
    }
}

/// Each name of the ascending order is a name of the set.
pub proof fn lemma_ascending_members(names: Set<Seq<char>>, i: int)
    requires
        0 <= i < ascending(names).len(),
    ensures
        names.contains(ascending(names)[i]),
    decreases names.len(),
{
    if i > 0 {
        lemma_ascending_members(names.remove(least(names)), i - 1);
    }
}

} // verus!
