//! Stable sorting by an order on values.
use vstd::prelude::*;

verus! {

/// Values with an order. The order is decided by views.
pub trait Ranked: View + Sized {
    /// Whether `a` comes before `b`.
    spec fn before(a: Self::V, b: Self::V) -> bool;

    /// Whether this value comes before the other.
    fn is_before(&self, other: &Self) -> (r: bool)
        ensures
            r == Self::before(self@, other@),
    ;

    /// Nothing comes both before and after a value.
    proof fn lemma_asymmetric(a: Self::V, b: Self::V)
        requires
            Self::before(a, b),
        ensures
            !Self::before(b, a),
    ;

    /// What comes before `c` comes before `b`, or `b` comes before `c`.
    proof fn lemma_weak(a: Self::V, b: Self::V, c: Self::V)
        requires
            Self::before(a, c),
        ensures
            Self::before(a, b) || Self::before(b, c),
    ;
}

/// The views of a list.
pub open spec fn views<T: View>(list: Seq<T>) -> Seq<T::V> {
    list.map_values(|x: T| x@)
}

/// An ordered list with one more value, in front of those that do not come before it.
pub open spec fn placed<T: Ranked>(list: Seq<T::V>, x: T::V) -> Seq<T::V>
    decreases list.len(),
{
    if list.len() == 0 || !T::before(list[0], x) {
        seq![x] + list
    } else {
        seq![list[0]] + placed::<T>(list.drop_first(), x)
    }
}

/// The list in order; values of which neither comes before the other stay as they are.
pub open spec fn ordered<T: Ranked>(list: Seq<T::V>) -> Seq<T::V>
    decreases list.len(),
{
    if list.len() == 0 {
        Seq::empty()
    } else {
        placed::<T>(ordered::<T>(list.drop_first()), list[0])
    }
}

/// No value comes before one that stands in front of it.
pub open spec fn in_order<T: Ranked>(list: Seq<T::V>) -> bool {
    forall|i: int, j: int| 0 <= i < j < list.len() ==> !T::before(#[trigger] list[j], #[trigger] list[i])
}

/// Where [`placed`] puts a value.
proof fn lemma_placed_at<T: Ranked>(list: Seq<T::V>, at: int, x: T::V)
    requires
        0 <= at <= list.len(),
        forall|i: int| 0 <= i < at ==> T::before(#[trigger] list[i], x),
        at < list.len() ==> !T::before(list[at], x),
    ensures
        placed::<T>(list, x) == list.insert(at, x),
    decreases at,
{
    if at == 0 {
        assert(seq![x] + list =~= list.insert(0, x));
    } else {
        let rest = list.drop_first();
        assert forall|i: int| 0 <= i < at - 1 implies T::before(#[trigger] rest[i], x) by {
            assert(rest[i] == list[i + 1]);
        }
        lemma_placed_at::<T>(rest, at - 1, x);
        assert(T::before(list[0], x));
        assert(seq![list[0]] + rest.insert(at - 1, x) =~= list.insert(at, x));
    }
}

/// Sorts a list.
pub fn sort_list<T: Ranked>(list: Vec<T>) -> (r: Vec<T>)
    ensures
        views(r@) == ordered::<T>(views(list@)),
{
    let mut rest = list;
    let mut out: Vec<T> = Vec::new();
    let ghost all = views(list@);
    let n: usize = rest.len();
    assert(all.subrange(n as int, n as int) =~= Seq::<T::V>::empty());
    assert(views(out@) =~= Seq::<T::V>::empty());
    while rest.len() > 0
        invariant
            rest@.len() <= n == all.len(),
            views(rest@) == all.subrange(0, rest@.len() as int),
            views(out@) == ordered::<T>(all.subrange(rest@.len() as int, n as int)),
        decreases rest@.len(),
    {
        let ghost k = rest@.len() as int;
        let ghost before = out@;
        let x = match rest.pop() {
            Some(x) => x,
            None => {
                return out;
            },
        };
        proof {
            assert(views(rest@) =~= all.subrange(0, k - 1));
            assert(x@ == all.subrange(0, k)[k - 1]);
            assert(all.subrange(k - 1, n as int).drop_first() =~= all.subrange(k, n as int));
        }
        let mut at: usize = 0;
        while at < out.len() && out[at].is_before(&x)
            invariant
                at <= out@.len(),
                forall|i: int| 0 <= i < at ==> T::before((#[trigger] out@[i])@, x@),
            decreases out@.len() - at,
        {
            at = at + 1;
        }
        proof {
            let list = views(out@);
            assert forall|i: int| 0 <= i < at implies T::before(#[trigger] list[i], x@) by {
                assert(T::before(out@[i]@, x@));
            }
            lemma_placed_at::<T>(list, at as int, x@);
            assert(views(out@.insert(at as int, x)) =~= list.insert(at as int, x@));
        }
        out.insert(at, x);
    }
    out
}

/// Placing a value adds it and keeps the rest.
proof fn lemma_placed<T: Ranked>(list: Seq<T::V>, x: T::V)
    requires
        in_order::<T>(list),
    ensures
        in_order::<T>(placed::<T>(list, x)),
        placed::<T>(list, x).to_multiset() == list.to_multiset().insert(x),
        placed::<T>(list, x).len() == list.len() + 1,
    decreases list.len(),
{
    broadcast use vstd::seq_lib::group_to_multiset_ensures;

    let longer = placed::<T>(list, x);
    if list.len() == 0 || !T::before(list[0], x) {
        assert(list.insert(0, x) =~= longer);
        assert forall|i: int, j: int| 0 <= i < j < longer.len() implies !T::before(
            #[trigger] longer[j],
            #[trigger] longer[i],
        ) by {
            if i > 0 {
                assert(!T::before(list[j - 1], list[i - 1]));
            } else if T::before(list[j - 1], x) {
                T::lemma_weak(list[j - 1], list[0], x);
                if j > 1 {
                    assert(!T::before(list[j - 1], list[0]));
                }
            }
        }
    } else {
        let rest = list.drop_first();
        assert forall|i: int, j: int| 0 <= i < j < rest.len() implies !T::before(
            #[trigger] rest[j],
            #[trigger] rest[i],
        ) by {
            assert(!T::before(list[j + 1], list[i + 1]));
        }
        lemma_placed::<T>(rest, x);
        let inner = placed::<T>(rest, x);
        assert(longer =~= inner.insert(0, list[0]));
        assert(list =~= rest.insert(0, list[0]));
        assert(longer.to_multiset() =~= list.to_multiset().insert(x));
        assert forall|i: int, j: int| 0 <= i < j < longer.len() implies !T::before(
            #[trigger] longer[j],
            #[trigger] longer[i],
        ) by {
            if i > 0 {
                assert(!T::before(inner[j - 1], inner[i - 1]));
            } else {
                let y = inner[j - 1];
                assert(inner.to_multiset().contains(y));
                if y == x {
                    T::lemma_asymmetric(list[0], x);
                } else {
                    assert(rest.to_multiset().count(y) > 0);
                    assert(rest.contains(y));
                    let m = choose|m: int| 0 <= m < rest.len() && rest[m] == y;
                    assert(!T::before(list[m + 1], list[0]));
                }
            }
        }
    }
}

/// Sorting keeps the values and puts them in order.
pub proof fn law_ordered<T: Ranked>(list: Seq<T::V>)
    ensures
        in_order::<T>(ordered::<T>(list)),
        ordered::<T>(list).to_multiset() == list.to_multiset(),
        ordered::<T>(list).len() == list.len(),
    decreases list.len(),
{
    broadcast use vstd::seq_lib::group_to_multiset_ensures;

    if list.len() > 0 {
        let rest = list.drop_first();
        law_ordered::<T>(rest);
        lemma_placed::<T>(ordered::<T>(rest), list[0]);
        assert(list =~= rest.insert(0, list[0]));
        assert(list.to_multiset() =~= rest.to_multiset().insert(list[0]));
    } else {
        assert(ordered::<T>(list) =~= list);
    }
}

/// A sorted list holds what the list holds.
pub proof fn lemma_ordered_contains<T: Ranked>(list: Seq<T::V>)
    ensures
        forall|x: T::V| #[trigger] ordered::<T>(list).contains(x) <==> list.contains(x),
{
    broadcast use vstd::seq_lib::group_to_multiset_ensures;

    law_ordered::<T>(list);
    assert forall|x: T::V| #[trigger] ordered::<T>(list).contains(x) <==> list.contains(x) by {
        assert(ordered::<T>(list).to_multiset().count(x) == list.to_multiset().count(x));
    }
}

} // verus!
