//! Stable sorting by an order that each element type brings along.

use vstd::prelude::*;

verus! {

/// A type whose values are ranked by a total preorder on their views.
pub trait Ranked: View {
    /// Whether `a` may stand before `b`.
    spec fn before(a: Self::V, b: Self::V) -> bool;

    /// Of two values one may stand before the other.
    proof fn before_total(a: Self::V, b: Self::V)
        ensures
            Self::before(a, b) || Self::before(b, a),
    ;

    /// The order is transitive.
    proof fn before_transitive(a: Self::V, b: Self::V, c: Self::V)
        requires
            Self::before(a, b),
            Self::before(b, c),
        ensures
            Self::before(a, c),
    ;

    /// Whether this value may stand before `other`.
    fn is_before(&self, other: &Self) -> (r: bool)
        ensures
            r == Self::before(self@, other@),
    ;
}

/// The views of a list of values.
pub open spec fn views<T: View>(s: Seq<T>) -> Seq<T::V> {
    Seq::new(s.len(), |i: int| s[i]@)
}

/// `s` with `x` put behind the last value that may stand before it.
pub open spec fn placed<T: Ranked>(s: Seq<T::V>, x: T::V) -> Seq<T::V>
    decreases s.len(),
{
    if s.len() == 0 {
        seq![x]
    } else if T::before(s.last(), x) {
        s.push(x)
    } else {
        placed::<T>(s.drop_last(), x).push(s.last())
    }
}

/// The values of `s` in ascending order; values that rank alike keep the
/// order in which they stand in `s`.
pub open spec fn ordered<T: Ranked>(s: Seq<T::V>) -> Seq<T::V>
    decreases s.len(),
{
    if s.len() == 0 {
        Seq::empty()
    } else {
        placed::<T>(ordered::<T>(s.drop_last()), s.last())
    }
}

/// Whether each value may stand before all that follow.
pub open spec fn ascending<T: Ranked>(s: Seq<T::V>) -> bool {
    forall|i: int, j: int| 0 <= i <= j < s.len() ==> T::before(#[trigger] s[i], #[trigger] s[j])
}

/// Whether two values rank alike.
pub open spec fn rank_alike<T: Ranked>(a: T::V, b: T::V) -> bool {
    T::before(a, b) && T::before(b, a)
}

/// The values of `s` that rank like `x`, in the order of `s`.
pub open spec fn alike<T: Ranked>(s: Seq<T::V>, x: T::V) -> Seq<T::V>
    decreases s.len(),
{
    if s.len() == 0 {
        Seq::empty()
    } else if rank_alike::<T>(s.last(), x) {
        alike::<T>(s.drop_last(), x).push(s.last())
    } else {
        alike::<T>(s.drop_last(), x)
    }
}

proof fn lemma_placed_ascending<T: Ranked>(s: Seq<T::V>, x: T::V)
    requires
        ascending::<T>(s),
    ensures
        ascending::<T>(placed::<T>(s, x)),
        placed::<T>(s, x).len() == s.len() + 1,
        forall|i: int|
            0 <= i < placed::<T>(s, x).len() ==> placed::<T>(s, x)[i] == x || s.contains(
                placed::<T>(s, x)[i],
            ),
    decreases s.len(),
{
    let r = placed::<T>(s, x);
    if s.len() == 0 {
        T::before_total(x, x);
    } else if T::before(s.last(), x) {
        T::before_total(x, x);
        assert forall|i: int, j: int| 0 <= i <= j < r.len() implies T::before(
            #[trigger] r[i],
            #[trigger] r[j],
        ) by {
            if j == s.len() && i < j {
                assert(T::before(s[i], s[s.len() - 1]));
                T::before_transitive(s[i], s.last(), x);
            }
        }
        assert forall|i: int| 0 <= i < r.len() implies r[i] == x || s.contains(r[i]) by {
            if i < s.len() {
                assert(s[i] == r[i]);
            }
        }
    } else {
        let t = s.drop_last();
        assert(ascending::<T>(t)) by {
            assert forall|i: int, j: int| 0 <= i <= j < t.len() implies T::before(
                #[trigger] t[i],
                #[trigger] t[j],
            ) by {
                assert(T::before(s[i], s[j]));
            }
        }
        lemma_placed_ascending::<T>(t, x);
        let q = placed::<T>(t, x);
        T::before_total(x, s.last());
        assert forall|i: int, j: int| 0 <= i <= j < r.len() implies T::before(
            #[trigger] r[i],
            #[trigger] r[j],
        ) by {
            if j < q.len() {
                assert(T::before(q[i], q[j]));
            } else {
                if i < q.len() {
                    assert(q[i] == x || t.contains(q[i]));
                    if q[i] != x {
                        let k = choose|k: int| 0 <= k < t.len() && t[k] == q[i];
                        assert(T::before(s[k], s[s.len() - 1]));
                    }
                } else {
                    T::before_total(s.last(), s.last());
                }
            }
        }
        assert forall|i: int| 0 <= i < r.len() implies r[i] == x || s.contains(r[i]) by {
            if i < q.len() {
                if q[i] != x {
                    let k = choose|k: int| 0 <= k < t.len() && t[k] == q[i];
                    assert(s[k] == r[i]);
                }
            } else {
                assert(s[s.len() - 1] == r[i]);
            }
        }
    }
}

/// Sorting puts the values in ascending order.
pub proof fn law_ordered_ascending<T: Ranked>(s: Seq<T::V>)
    ensures
        ascending::<T>(ordered::<T>(s)),
        ordered::<T>(s).len() == s.len(),
    decreases s.len(),
{
    if s.len() > 0 {
        law_ordered_ascending::<T>(s.drop_last());
        lemma_placed_ascending::<T>(ordered::<T>(s.drop_last()), s.last());
    }
}

proof fn lemma_placed_multiset<T: Ranked>(s: Seq<T::V>, x: T::V)
    ensures
        placed::<T>(s, x).to_multiset() == s.to_multiset().insert(x),
    decreases s.len(),
{
    broadcast use vstd::seq_lib::group_to_multiset_ensures;

    if s.len() == 0 {
        assert(s.push(x) == seq![x]);
        assert(s.push(x).to_multiset() == s.to_multiset().insert(x));
    } else if T::before(s.last(), x) {
    } else {
        let t = s.drop_last();
        lemma_placed_multiset::<T>(t, x);
        assert(t.push(s.last()) == s);
        assert(s.to_multiset() == t.to_multiset().insert(s.last()));
        assert(placed::<T>(s, x).to_multiset() == placed::<T>(t, x).to_multiset().insert(s.last()));
        assert(placed::<T>(s, x).to_multiset() =~= s.to_multiset().insert(x));
    }
}

/// Sorting neither loses nor adds a value.
pub proof fn law_ordered_same_values<T: Ranked>(s: Seq<T::V>)
    ensures
        ordered::<T>(s).to_multiset() == s.to_multiset(),
    decreases s.len(),
{
    broadcast use vstd::seq_lib::group_to_multiset_ensures;

    if s.len() > 0 {
        law_ordered_same_values::<T>(s.drop_last());
        lemma_placed_multiset::<T>(ordered::<T>(s.drop_last()), s.last());
        assert(s.drop_last().push(s.last()) == s);
    } else {
        assert(ordered::<T>(s) == s);
    }
}

proof fn lemma_placed_alike<T: Ranked>(s: Seq<T::V>, x: T::V, y: T::V)
    requires
        ascending::<T>(s),
    ensures
        alike::<T>(placed::<T>(s, x), y) == if rank_alike::<T>(x, y) {
            alike::<T>(s, y).push(x)
        } else {
            alike::<T>(s, y)
        },
    decreases s.len(),
{
    if s.len() == 0 {
        assert(seq![x].drop_last() == s);
    } else if T::before(s.last(), x) {
        assert(s.push(x).drop_last() == s);
    } else {
        let t = s.drop_last();
        assert forall|i: int, j: int| 0 <= i <= j < t.len() implies T::before(
            #[trigger] t[i],
            #[trigger] t[j],
        ) by {
            assert(T::before(s[i], s[j]));
        }
        lemma_placed_alike::<T>(t, x, y);
        let q = placed::<T>(t, x);
        assert(q.push(s.last()).drop_last() == q);
        if rank_alike::<T>(x, y) && rank_alike::<T>(s.last(), y) {
            T::before_transitive(s.last(), y, x);
        }
    }
}

/// Values that rank alike keep their order.
pub proof fn law_ordered_stable<T: Ranked>(s: Seq<T::V>, x: T::V)
    ensures
        alike::<T>(ordered::<T>(s), x) == alike::<T>(s, x),
    decreases s.len(),
{
    if s.len() > 0 {
        law_ordered_stable::<T>(s.drop_last(), x);
        law_ordered_ascending::<T>(s.drop_last());
        lemma_placed_alike::<T>(ordered::<T>(s.drop_last()), s.last(), x);
    }
}

/// The two lists as one: from the end, the value of `b` is taken where the one
/// of `a` may stand before it.
pub open spec fn woven<T: Ranked>(a: Seq<T::V>, b: Seq<T::V>) -> Seq<T::V>
    decreases a.len() + b.len(),
{
    if a.len() == 0 {
        b
    } else if b.len() == 0 {
        a
    } else if T::before(a.last(), b.last()) {
        woven::<T>(a, b.drop_last()).push(b.last())
    } else {
        woven::<T>(a.drop_last(), b).push(a.last())
    }
}

/// The last value of two lists as one is the last of one of them.
proof fn lemma_woven_last<T: Ranked>(a: Seq<T::V>, b: Seq<T::V>)
    requires
        a.len() + b.len() > 0,
    ensures
        woven::<T>(a, b).len() > 0,
        woven::<T>(a, b).last() == if b.len() == 0 || (a.len() > 0 && !T::before(
            a.last(),
            b.last(),
        )) {
            a.last()
        } else {
            b.last()
        },
{
}

/// To put a value in its place in two lists as one is to put it in its place in
/// the second.
proof fn lemma_woven_placed<T: Ranked>(a: Seq<T::V>, b: Seq<T::V>, x: T::V)
    ensures
        placed::<T>(woven::<T>(a, b), x) == woven::<T>(a, placed::<T>(b, x)),
    decreases a.len() + b.len(),
{
    let w = woven::<T>(a, b);
    let p = placed::<T>(b, x);
    if a.len() > 0 {
        let less = a.drop_last();
        lemma_woven_last::<T>(a, b);
        if b.len() == 0 {
            assert(p.drop_last() == b);
            if T::before(a.last(), x) {
                assert(woven::<T>(a, p) == woven::<T>(a, b).push(x));
            } else {
                lemma_woven_placed::<T>(less, b, x);
                assert(woven::<T>(less, b) == less);
            }
        } else if T::before(b.last(), x) {
            assert(p.drop_last() == b);
            if T::before(a.last(), x) {
                assert(T::before(w.last(), x));
            } else {
                if T::before(a.last(), b.last()) {
                    T::before_transitive(a.last(), b.last(), x);
                }
                lemma_woven_placed::<T>(less, b, x);
                assert(w.drop_last() == woven::<T>(less, b));
            }
        } else {
            assert(p.drop_last() == placed::<T>(b.drop_last(), x));
            if T::before(a.last(), b.last()) {
                lemma_woven_placed::<T>(a, b.drop_last(), x);
                assert(w.drop_last() == woven::<T>(a, b.drop_last()));
            } else {
                if T::before(a.last(), x) {
                    T::before_total(x, b.last());
                    T::before_transitive(a.last(), x, b.last());
                }
                lemma_woven_placed::<T>(less, b, x);
                assert(w.drop_last() == woven::<T>(less, b));
            }
        }
    }
}

/// Two lists that follow each other are sorted by sorting each and making them
/// one.
pub proof fn law_ordered_halves<T: Ranked>(a: Seq<T::V>, b: Seq<T::V>)
    ensures
        ordered::<T>(a + b) == woven::<T>(ordered::<T>(a), ordered::<T>(b)),
    decreases b.len(),
{
    if b.len() == 0 {
        assert(a + b == a);
    } else {
        law_ordered_halves::<T>(a, b.drop_last());
        assert((a + b).drop_last() == a + b.drop_last());
        lemma_woven_placed::<T>(ordered::<T>(a), ordered::<T>(b.drop_last()), b.last());
    }
}

/// Makes the two lists one.
fn weave<T: Ranked>(a: &mut Vec<T>, mut b: Vec<T>)
    ensures
        views(final(a)@) == woven::<T>(views(old(a)@), views(b@)),
{
    let ghost all = woven::<T>(views(a@), views(b@));
    let mut out: Vec<T> = Vec::new();
    assert(all == woven::<T>(views(a@), views(b@)) + views(out@).reverse());
    while a.len() > 0 && b.len() > 0
        invariant
            all == woven::<T>(views(a@), views(b@)) + views(out@).reverse(),
        decreases a.len() + b.len(),
    {
        let ghost (x, y, z) = (a@, b@, out@);
        let ghost w = woven::<T>(views(x), views(y));
        let next = if a[a.len() - 1].is_before(&b[b.len() - 1]) {
            b.pop()
        } else {
            a.pop()
        };
        if let Some(value) = next {
            out.push(value);
            assert(views(x).drop_last() == views(x.drop_last()));
            assert(views(y).drop_last() == views(y.drop_last()));
            assert(w.drop_last() == woven::<T>(views(a@), views(b@)));
            assert(w.last() == value@);
            assert(w.drop_last() + views(out@).reverse() == w + views(z).reverse());
        }
    }
    assert(woven::<T>(views(a@), views(b@)) == views(a@ + b@));
    a.append(&mut b);
    while out.len() > 0
        invariant
            all == views(a@) + views(out@).reverse(),
        decreases out.len(),
    {
        let ghost (x, z) = (a@, out@);
        if let Some(value) = out.pop() {
            a.push(value);
            assert(views(a@) + views(out@).reverse() == views(x) + views(z).reverse());
        }
    }
    assert(all == views(a@));
}

/// Sorts the list, keeping the order of values that rank alike.
pub fn sort<T: Ranked>(v: &mut Vec<T>)
    ensures
        views(final(v)@) == ordered::<T>(views(old(v)@)),
    decreases old(v)@.len(),
{
    let n: usize = v.len();
    if n > 1 {
        let ghost all = views(v@);
        let mut rest = v.split_off(n / 2);
        assert(all == views(v@) + views(rest@));
        proof {
            law_ordered_halves::<T>(views(v@), views(rest@));
        }
        sort(v);
        sort(&mut rest);
        weave(v, rest);
    } else {
        reveal_with_fuel(ordered, 2);
        assert(views(v@) == ordered::<T>(views(v@)));
    }
}

} // verus!
