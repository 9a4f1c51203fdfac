use std::cmp::Ordering;
use vstd::prelude::*;
use vstd::laws_cmp::{obeys_cmp, obeys_cmp_ord, obeys_cmp_partial_ord, obeys_partial_cmp_spec_properties};
use vstd::laws_eq::obeys_concrete_eq;
use vstd::relations::{sorted_by, total_ordering};
use vstd::seq_lib::lemma_sorted_unique;
use vstd::std_specs::cmp::{OrdSpec, PartialEqSpec, PartialOrdSpec};

verus! {

/// A value together with the time (milliseconds since the Unix epoch) at
/// which it was seen.
#[derive(Debug, Clone, PartialEq, Eq)]
pub struct LastSeen<T> {
    pub value: T,
    pub timestamp: u128,
}

impl<T> LastSeen<T> {
    /// `value` stamped with `timestamp`, the time it was seen in
    /// milliseconds since the Unix epoch.
    pub fn new(value: T, timestamp: u128) -> (r: LastSeen<T>)
        ensures
            r.value == value,
            r.timestamp == timestamp,
    {
        LastSeen { value, timestamp }
    }
}

/// A simulated block source at `height`: the block, or, when `height` is a
/// multiple of `error_period`, a transient error at that height.
pub fn simulated_block(height: u64, error_period: u64) -> (r: Result<u64, u64>)
    requires
        error_period > 0,
    ensures
        height % error_period == 0 ==> r == Err::<u64, u64>(height),
        height % error_period != 0 ==> r == Ok::<u64, u64>(height),
{
    if height % error_period == 0 {
        Err(height)
    } else {
        Ok(height)
    }
}

/// Every element is at most its successor.
pub open spec fn sorted_spec(s: Seq<u64>) -> bool {
    forall|i: int| 0 <= i < s.len() - 1 ==> #[trigger] s[i] <= s[i + 1]
}

/// No element equals its successor.
pub open spec fn no_sequential_duplicates_spec<T>(s: Seq<T>) -> bool {
    forall|i: int| 0 <= i < s.len() - 1 ==> #[trigger] s[i] != s[i + 1]
}

/// No element compares greater than its successor.
pub open spec fn in_order<T: PartialOrd>(s: Seq<T>) -> bool {
    forall|i: int|
        0 <= i < s.len() - 1 ==> #[trigger] s[i].partial_cmp_spec(&s[i + 1]) != Some(Ordering::Greater)
}

/// No element compares equal to its successor.
pub open spec fn no_equal_neighbours<T: PartialEq>(s: Seq<T>) -> bool {
    forall|i: int| 0 <= i < s.len() - 1 ==> !(#[trigger] s[i].eq_spec(&s[i + 1]))
}

/// Returns whether no element of `items` compares greater than the element
/// right after it. The result is stated for every type with a specified
/// comparison, the integer types among them.
pub fn is_sorted<T: PartialOrd>(items: &[T]) -> (r: bool)
    ensures
        T::obeys_partial_cmp_spec() ==> r == in_order(items@),
{
    let n = items.len();
    let mut i: usize = 1;
    while i < n
        invariant
            1 <= i,
            n == items@.len(),
            T::obeys_partial_cmp_spec() ==> forall|k: int|
                0 <= k < i - 1 && k < n - 1 ==> #[trigger] items@[k].partial_cmp_spec(&items@[k + 1]) != Some(Ordering::Greater),
        decreases n - i,
    {
        if items[i - 1] > items[i] {
            assert(T::obeys_partial_cmp_spec() ==> items@[i - 1].partial_cmp_spec(&items@[(i - 1) + 1]) == Some(Ordering::Greater));
            return false;
        }
        i = i + 1;
    }
    true
}

/// Returns whether no element of `items` compares equal to the element
/// right after it. The result is stated for every type with a specified
/// equality, the integer types among them.
pub fn no_sequential_duplicates<T: PartialEq>(items: &[T]) -> (r: bool)
    ensures
        T::obeys_eq_spec() ==> r == no_equal_neighbours(items@),
{
    let n = items.len();
    let mut i: usize = 1;
    while i < n
        invariant
            1 <= i,
            n == items@.len(),
            T::obeys_eq_spec() ==> forall|k: int|
                0 <= k < i - 1 && k < n - 1 ==> !(#[trigger] items@[k].eq_spec(&items@[k + 1])),
        decreases n - i,
    {
        if items[i - 1] == items[i] {
            assert(T::obeys_eq_spec() ==> items@[i - 1].eq_spec(&items@[(i - 1) + 1]));
            return false;
        }
        i = i + 1;
    }
    true
}

/// `s` with each run of equal neighbours cut down to its first element,
/// which is what `Vec::dedup` leaves.
pub open spec fn dedup<T>(s: Seq<T>) -> Seq<T>
    decreases s.len(),
{
    if s.len() <= 1 {
        s
    } else {
        let rest = dedup(s.drop_last());
        if s[s.len() - 2] == s.last() {
            rest
        } else {
            rest.push(s.last())
        }
    }
}

proof fn lemma_dedup_len<T>(s: Seq<T>)
    ensures
        dedup(s).len() <= s.len(),
    decreases s.len(),
{
    if s.len() > 1 {
        lemma_dedup_len(s.drop_last());
    }
}

/// A sequence has no equal neighbours exactly when `dedup` leaves it as it is.
pub proof fn law_no_duplicates_iff_dedup_keeps<T>(s: Seq<T>)
    ensures
        no_sequential_duplicates_spec(s) <==> dedup(s) == s,
    decreases s.len(),
{
    if s.len() > 1 {
        let front = s.drop_last();
        law_no_duplicates_iff_dedup_keeps(front);
        lemma_dedup_len(front);
        if no_sequential_duplicates_spec(s) {
            assert forall|i: int| 0 <= i < front.len() - 1 implies #[trigger] front[i] != front[i + 1] by {
                assert(s[i] != s[i + 1]);
            }
            assert(s[s.len() - 2] != s[s.len() - 1]);
            assert(dedup(s) =~= s);
        }
        if dedup(s) == s {
            if s[s.len() - 2] == s.last() {
                assert(dedup(s).len() < s.len());
            } else {
                assert(dedup(front) =~= dedup(s).drop_last());
                assert(dedup(front) == front);
                assert forall|i: int| 0 <= i < s.len() - 1 implies #[trigger] s[i] != s[i + 1] by {
                    if i < s.len() - 2 {
                        assert(front[i] != front[i + 1]);
                    }
                }
            }
        }
    }
}

/// The order `is_sorted` checks between neighbours, as a relation.
pub open spec fn not_above<T: PartialOrd>() -> spec_fn(T, T) -> bool {
    |a: T, b: T| a.partial_cmp_spec(&b) != Some(Ordering::Greater)
}

/// A lawful total order whose equality is equality of values.
pub open spec fn lawful_order<T: Ord>() -> bool {
    &&& obeys_cmp::<T>()
    &&& obeys_concrete_eq::<T>()
}

proof fn lemma_lawful_order_facts<T: Ord>()
    requires
        lawful_order::<T>(),
    ensures
        forall|a: T, b: T| #[trigger] a.partial_cmp_spec(&b) is Some,
        forall|a: T, b: T| #[trigger] a.partial_cmp_spec(&b) == Some(Ordering::Equal) <==> a == b,
        forall|a: T, b: T| #[trigger] a.eq_spec(&b) <==> a == b,
        forall|a: T, b: T| #[trigger] a.partial_cmp_spec(&b) == Some(Ordering::Less)
            <==> b.partial_cmp_spec(&a) == Some(Ordering::Greater),
        forall|a: T, b: T, c: T|
            a.partial_cmp_spec(&b) == Some(Ordering::Less) && #[trigger] b.partial_cmp_spec(&c) == Some(Ordering::Less)
                ==> #[trigger] a.partial_cmp_spec(&c) == Some(Ordering::Less),
        total_ordering(not_above::<T>()),
{
    reveal(obeys_cmp_partial_ord);
    reveal(obeys_cmp_ord);
    reveal(obeys_partial_cmp_spec_properties);
    reveal(obeys_concrete_eq);
    let leq = not_above::<T>();
    assert forall|a: T, b: T| #[trigger] a.partial_cmp_spec(&b) is Some by {
        assert(a.partial_cmp_spec(&b) == Some(a.cmp_spec(&b)));
    }
    assert forall|a: T, b: T, c: T| #[trigger] leq(a, b) && #[trigger] leq(b, c) implies leq(a, c) by {
        assert(a.partial_cmp_spec(&b) == Some(a.cmp_spec(&b)));
        assert(b.partial_cmp_spec(&c) == Some(b.cmp_spec(&c)));
        assert(a.partial_cmp_spec(&c) == Some(a.cmp_spec(&c)));
        if a.partial_cmp_spec(&b) == Some(Ordering::Equal) {
            assert(a.eq_spec(&b));
        }
        if b.partial_cmp_spec(&c) == Some(Ordering::Equal) {
            assert(b.eq_spec(&c));
        }
    }
    assert forall|a: T, b: T| #[trigger] leq(a, b) && #[trigger] leq(b, a) implies a == b by {
        assert(a.partial_cmp_spec(&b) == Some(a.cmp_spec(&b)));
        assert(b.partial_cmp_spec(&a) == Some(b.cmp_spec(&a)));
        assert(a.eq_spec(&b));
    }
    assert forall|a: T| #[trigger] leq(a, a) by {
        assert(a.eq_spec(&a));
    }
    assert forall|a: T, b: T| #[trigger] leq(a, b) || leq(b, a) by {
        assert(a.partial_cmp_spec(&b) == Some(a.cmp_spec(&b)));
    }
    assert(vstd::relations::reflexive(leq));
    assert(vstd::relations::transitive(leq));
    assert(vstd::relations::antisymmetric(leq));
    assert(vstd::relations::strongly_connected(leq));
}

proof fn lemma_in_order_pair<T: Ord>(s: Seq<T>, i: int, j: int)
    requires
        lawful_order::<T>(),
        in_order(s),
        0 <= i <= j < s.len(),
    ensures
        not_above::<T>()(s[i], s[j]),
    decreases j - i,
{
    lemma_lawful_order_facts::<T>();
    if i < j {
        lemma_in_order_pair(s, i, j - 1);
        assert(s[j - 1].partial_cmp_spec(&s[(j - 1) + 1]) != Some(Ordering::Greater));
        assert(not_above::<T>()(s[j - 1], s[j]));
    }
}

/// For a lawful total order (such as the integers'), a sequence passes
/// `is_sorted` exactly when sorting it leaves it as it is.
pub proof fn law_sorted_iff_sort_keeps<T: Ord>(s: Seq<T>)
    requires
        lawful_order::<T>(),
    ensures
        in_order(s) <==> s.sort_by(not_above::<T>()) == s,
{
    let leq = not_above::<T>();
    lemma_lawful_order_facts::<T>();
    s.lemma_sort_by_ensures(leq);
    let t = s.sort_by(leq);
    if in_order(s) {
        assert forall|i: int, j: int| 0 <= i < j < s.len() implies #[trigger] leq(s[i], s[j]) by {
            lemma_in_order_pair(s, i, j);
        }
        assert(sorted_by(s, leq));
        lemma_sorted_unique(s, t, leq);
    }
    if t == s {
        assert forall|i: int| 0 <= i < s.len() - 1 implies #[trigger] s[i].partial_cmp_spec(&s[i + 1]) != Some(Ordering::Greater) by {
            assert(leq(t[i], t[i + 1]));
        }
    }
}

/// For integers, `is_sorted` checks `<=` between neighbours.
pub proof fn law_in_order_for_integers(s: Seq<u64>)
    ensures
        in_order(s) <==> sorted_spec(s),
{
    if in_order(s) {
        assert forall|i: int| 0 <= i < s.len() - 1 implies #[trigger] s[i] <= s[i + 1] by {
            assert(s[i].partial_cmp_spec(&s[i + 1]) != Some(Ordering::Greater));
        }
    }
    if sorted_spec(s) {
        assert forall|i: int| 0 <= i < s.len() - 1 implies #[trigger] s[i].partial_cmp_spec(&s[i + 1]) != Some(Ordering::Greater) by {
            assert(s[i] <= s[i + 1]);
        }
    }
}

/// For a type whose equality is equality of values (such as the integers),
/// `no_sequential_duplicates` holds exactly when `dedup` leaves the sequence
/// as it is.
pub proof fn law_no_equal_neighbours_iff_dedup_keeps<T: PartialEq>(s: Seq<T>)
    requires
        obeys_concrete_eq::<T>(),
    ensures
        no_equal_neighbours(s) <==> no_sequential_duplicates_spec(s),
        no_equal_neighbours(s) <==> dedup(s) == s,
{
    reveal(obeys_concrete_eq);
    if no_equal_neighbours(s) {
        assert forall|i: int| 0 <= i < s.len() - 1 implies #[trigger] s[i] != s[i + 1] by {
            assert(!s[i].eq_spec(&s[i + 1]));
        }
    }
    if no_sequential_duplicates_spec(s) {
        assert forall|i: int| 0 <= i < s.len() - 1 implies !(#[trigger] s[i].eq_spec(&s[i + 1])) by {
            assert(s[i] != s[i + 1]);
        }
    }
    law_no_duplicates_iff_dedup_keeps(s);
}

/// For a lawful total order, a sequence is sorted with no equal neighbours
/// exactly when each element is less than the next.
pub proof fn law_sorted_without_repeats_iff_rising<T: Ord>(s: Seq<T>)
    requires
        lawful_order::<T>(),
    ensures
        (in_order(s) && no_equal_neighbours(s)) <==> forall|i: int|
            0 <= i < s.len() - 1 ==> #[trigger] s[i].partial_cmp_spec(&s[i + 1]) == Some(Ordering::Less),
{
    lemma_lawful_order_facts::<T>();
    if in_order(s) && no_equal_neighbours(s) {
        assert forall|i: int| 0 <= i < s.len() - 1 implies #[trigger] s[i].partial_cmp_spec(&s[i + 1]) == Some(Ordering::Less) by {
            assert(s[i].partial_cmp_spec(&s[i + 1]) != Some(Ordering::Greater));
            assert(!s[i].eq_spec(&s[i + 1]));
            assert(s[i].partial_cmp_spec(&s[i + 1]) is Some);
        }
    }
    if forall|i: int| 0 <= i < s.len() - 1 ==> #[trigger] s[i].partial_cmp_spec(&s[i + 1]) == Some(Ordering::Less) {
        assert forall|i: int| 0 <= i < s.len() - 1 implies !(#[trigger] s[i].eq_spec(&s[i + 1])) by {
            assert(s[i].partial_cmp_spec(&s[i + 1]) == Some(Ordering::Less));
        }
    }
}

/// A concatenation is sorted exactly when both parts are and the last item
/// of the first is not above the first item of the second.
pub proof fn law_in_order_concat<T: PartialOrd>(s: Seq<T>, t: Seq<T>)
    ensures
        in_order(s + t) <==> {
            &&& in_order(s)
            &&& in_order(t)
            &&& (s.len() == 0 || t.len() == 0 || s.last().partial_cmp_spec(&t[0]) != Some(Ordering::Greater))
        },
{
    let u = s + t;
    if in_order(u) {
        assert forall|i: int| 0 <= i < s.len() - 1 implies #[trigger] s[i].partial_cmp_spec(&s[i + 1]) != Some(Ordering::Greater) by {
            assert(u[i] == s[i] && u[i + 1] == s[i + 1]);
        }
        assert forall|i: int| 0 <= i < t.len() - 1 implies #[trigger] t[i].partial_cmp_spec(&t[i + 1]) != Some(Ordering::Greater) by {
            assert(u[s.len() + i] == t[i] && u[s.len() + i + 1] == t[i + 1]);
        }
        if s.len() > 0 && t.len() > 0 {
            assert(u[s.len() - 1] == s.last() && u[(s.len() - 1) + 1] == t[0]);
        }
    }
    if in_order(s) && in_order(t) && (s.len() == 0 || t.len() == 0 || s.last().partial_cmp_spec(&t[0]) != Some(Ordering::Greater)) {
        assert forall|i: int| 0 <= i < u.len() - 1 implies #[trigger] u[i].partial_cmp_spec(&u[i + 1]) != Some(Ordering::Greater) by {
            if i < s.len() - 1 {
                assert(u[i] == s[i] && u[i + 1] == s[i + 1]);
            } else if i == s.len() - 1 {
                assert(u[i] == s.last() && u[i + 1] == t[0]);
            } else {
                let j = i - s.len();
                assert(u[i] == t[j] && u[i + 1] == t[j + 1]);
            }
        }
    }
}

/// A concatenation has no equal neighbours exactly when neither part has
/// and the last item of the first does not equal the first of the second.
pub proof fn law_no_equal_neighbours_concat<T: PartialEq>(s: Seq<T>, t: Seq<T>)
    ensures
        no_equal_neighbours(s + t) <==> {
            &&& no_equal_neighbours(s)
            &&& no_equal_neighbours(t)
            &&& (s.len() == 0 || t.len() == 0 || !s.last().eq_spec(&t[0]))
        },
{
    let u = s + t;
    if no_equal_neighbours(u) {
        assert forall|i: int| 0 <= i < s.len() - 1 implies !(#[trigger] s[i].eq_spec(&s[i + 1])) by {
            assert(u[i] == s[i] && u[i + 1] == s[i + 1]);
        }
        assert forall|i: int| 0 <= i < t.len() - 1 implies !(#[trigger] t[i].eq_spec(&t[i + 1])) by {
            assert(u[s.len() + i] == t[i] && u[s.len() + i + 1] == t[i + 1]);
        }
        if s.len() > 0 && t.len() > 0 {
            assert(u[s.len() - 1] == s.last() && u[(s.len() - 1) + 1] == t[0]);
        }
    }
    if no_equal_neighbours(s) && no_equal_neighbours(t) && (s.len() == 0 || t.len() == 0 || !s.last().eq_spec(&t[0])) {
        assert forall|i: int| 0 <= i < u.len() - 1 implies !(#[trigger] u[i].eq_spec(&u[i + 1])) by {
            if i < s.len() - 1 {
                assert(u[i] == s[i] && u[i + 1] == s[i + 1]);
            } else if i == s.len() - 1 {
                assert(u[i] == s.last() && u[i + 1] == t[0]);
            } else {
                let j = i - s.len();
                assert(u[i] == t[j] && u[i + 1] == t[j + 1]);
            }
        }
    }
}

} // verus!
