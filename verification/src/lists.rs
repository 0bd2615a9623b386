//! Lists in strict order, and lists without repeats.
use vstd::prelude::*;

verus! {

/// Whether `lt` is a strict order as far as lists need it: of two values at
/// most one comes before the other, and none before itself.
pub open spec fn one_way<A>(lt: spec_fn(A, A) -> bool) -> bool {
    forall|a: A, b: A| #[trigger] lt(a, b) ==> !lt(b, a)
}

/// Whether each value of `s` comes before those behind it.
pub open spec fn in_order<A>(s: Seq<A>, lt: spec_fn(A, A) -> bool) -> bool {
    forall|i: int, j: int| 0 <= i < j < s.len() ==> lt(s[i], s[j])
}

/// Two lists in strict order that hold the same values are the same list: a
/// set of values has one list in order.
pub proof fn lemma_in_order_unique<A>(x: Seq<A>, y: Seq<A>, lt: spec_fn(A, A) -> bool)
    requires
        one_way(lt),
        in_order(x, lt),
        in_order(y, lt),
        forall|e: A| x.contains(e) <==> y.contains(e),
    ensures
        x == y,
    decreases x.len(),
{
    if x.len() == 0 {
        if y.len() > 0 {
            assert(y.contains(y[0]));
        }
        assert(x =~= y);
    } else if y.len() == 0 {
        assert(x.contains(x[0]));
    } else {
        assert(x.contains(x[0]));
        assert(y.contains(y[0]));
        let i = choose|i: int| 0 <= i < y.len() && y[i] == x[0];
        let j = choose|j: int| 0 <= j < x.len() && x[j] == y[0];
        if i > 0 && j > 0 {
            assert(lt(y[0], y[i]));
            assert(lt(x[0], x[j]));
        }
        assert(x[0] == y[0]);
        let xs = x.drop_first();
        let ys = y.drop_first();
        assert forall|e: A| xs.contains(e) <==> ys.contains(e) by {
            if xs.contains(e) {
                let k = choose|k: int| 0 <= k < xs.len() && xs[k] == e;
                assert(x[k + 1] == e);
                assert(lt(x[0], x[k + 1]));
                assert(x.contains(e));
                let t = choose|t: int| 0 <= t < y.len() && y[t] == e;
                assert(t > 0);
                assert(ys[t - 1] == e);
            }
            if ys.contains(e) {
                let k = choose|k: int| 0 <= k < ys.len() && ys[k] == e;
                assert(y[k + 1] == e);
                assert(lt(y[0], y[k + 1]));
                assert(y.contains(e));
                let t = choose|t: int| 0 <= t < x.len() && x[t] == e;
                assert(t > 0);
                assert(xs[t - 1] == e);
            }
        }
        assert forall|a: int, b: int| 0 <= a < b < xs.len() implies lt(xs[a], xs[b]) by {
            assert(lt(x[a + 1], x[b + 1]));
        }
        assert forall|a: int, b: int| 0 <= a < b < ys.len() implies lt(ys[a], ys[b]) by {
            assert(lt(y[a + 1], y[b + 1]));
        }
        lemma_in_order_unique(xs, ys, lt);
        assert(x =~= seq![x[0]] + xs);
        assert(y =~= seq![y[0]] + ys);
    }
}

/// A list in strict order stays in order when a value is put between those
/// that come before it and those that it comes before, and it then holds
/// that value beside what it held.
pub proof fn lemma_insert_in_order<A>(s: Seq<A>, k: int, e: A, lt: spec_fn(A, A) -> bool)
    requires
        in_order(s, lt),
        0 <= k <= s.len(),
        forall|i: int| 0 <= i < k ==> lt(#[trigger] s[i], e),
        forall|i: int| k <= i < s.len() ==> lt(e, #[trigger] s[i]),
    ensures
        in_order(s.insert(k, e), lt),
        forall|x: A| s.insert(k, e).contains(x) <==> s.contains(x) || x == e,
{
    let grown = s.insert(k, e);
    assert(grown[k] == e);
    assert forall|i: int, j: int| 0 <= i < j < grown.len() implies lt(grown[i], grown[j]) by {
        if j < k {
            assert(lt(s[i], s[j]));
        } else if j == k {
            assert(lt(s[i], e));
        } else if i < k {
            assert(lt(s[i], s[j - 1]));
        } else if i == k {
            assert(lt(e, s[j - 1]));
        } else {
            assert(lt(s[i - 1], s[j - 1]));
        }
    }
    assert forall|x: A| grown.contains(x) <==> s.contains(x) || x == e by {
        if grown.contains(x) {
            let i = choose|i: int| 0 <= i < grown.len() && grown[i] == x;
            if i < k {
                assert(s[i] == x);
            } else if i > k {
                assert(s[i - 1] == x);
            }
        }
        if s.contains(x) {
            let i = choose|i: int| 0 <= i < s.len() && s[i] == x;
            if i < k {
                assert(grown[i] == x);
            } else {
                assert(grown[i + 1] == x);
            }
        }
    }
}

/// A value that can be compared with another of its kind by what it holds.
pub trait SameView: View + Sized {
    /// Whether the two values hold the same.
    fn same_view(&self, other: &Self) -> (same: bool)
        ensures
            same == (self@ == other@),
    ;
}

impl SameView for String {
    fn same_view(&self, other: &Self) -> (same: bool) {
        *self == *other
    }
}

impl SameView for usize {
    fn same_view(&self, other: &Self) -> (same: bool) {
        *self == *other
    }
}

/// What the values of a list hold.
pub open spec fn views<T: View>(items: Seq<T>) -> Seq<T::V> {
    items.map_values(|x: T| x@)
}

/// Whether two values of the list hold the same.
pub fn has_repeat<T: SameView>(items: &Vec<T>) -> (found: bool)
    ensures
        found == !views(items@).no_duplicates(),
{
    let ghost held = views(items@);
    let mut i: usize = 0;
    while i < items.len()
        invariant
            i <= items@.len(),
            held == views(items@),
            forall|x: int, y: int| 0 <= x < i && x < y < held.len() ==> held[x] != held[y],
        decreases items@.len() - i,
    {
        let mut j: usize = i + 1;
        while j < items.len()
            invariant
                i < j <= items@.len(),
                held == views(items@),
                forall|y: int| i < y < j ==> held[i as int] != held[y],
            decreases items@.len() - j,
        {
            assert(held[i as int] == items@[i as int]@ && held[j as int] == items@[j as int]@);
            if items[i].same_view(&items[j]) {
                return true;
            }
            j = j + 1;
        }
        i = i + 1;
    }
    assert forall|x: int, y: int| 0 <= x < held.len() && 0 <= y < held.len() && x != y implies held[x]
        != held[y] by {
        if y < x {
            assert(held[y] != held[x]);
        }
    }
    false
}

} // verus!
