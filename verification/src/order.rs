//! Putting things in order.

use vstd::prelude::*;

verus! {

/// Things that can be put in order.
///
/// The order is total and transitive, which is what makes a sorted list mean
/// the same thing on every device.
pub trait Ranked: Sized {
    /// Whether this may stand before `other`.
    spec fn at_most(self, other: Self) -> bool;

    proof fn total(a: Self, b: Self)
        ensures
            a.at_most(b) || b.at_most(a),
    ;

    proof fn transitive(a: Self, b: Self, c: Self)
        requires
            a.at_most(b),
            b.at_most(c),
        ensures
            a.at_most(c),
    ;

    fn is_at_most(&self, other: &Self) -> (r: bool)
        ensures
            r == self.at_most(*other),
    ;
}

/// Whether each element may stand before every later one.
pub open spec fn in_order<T: Ranked>(s: Seq<T>) -> bool {
    forall|i: int, j: int| 0 <= i < j < s.len() ==> #[trigger] s[i].at_most(#[trigger] s[j])
}

/// Swapping two elements changes no count.
proof fn lemma_swap<T>(s: Seq<T>, i: int, j: int)
    requires
        0 <= i < j < s.len(),
    ensures
        s.update(i, s[j]).update(j, s[i]).to_multiset() == s.to_multiset(),
{
    broadcast use vstd::seq_lib::group_to_multiset_ensures;
    broadcast use vstd::multiset::group_multiset_axioms;

    let t = s.update(i, s[j]);
    assert(t[j] == s[j]);
    assert(t.update(j, s[i]).to_multiset() =~= s.to_multiset());
}

/// Put a list in order, keeping exactly its elements.
pub fn sort<T: Ranked + Copy>(v: &mut [T])
    ensures
        in_order(final(v)@),
        final(v)@.to_multiset() == old(v)@.to_multiset(),
        final(v)@.len() == old(v)@.len(),
{
    let n: usize = v.len();
    let mut i: usize = 1;
    while i < n
        invariant
            n == v@.len(),
            n == old(v)@.len(),
            1 <= i,
            v@.to_multiset() == old(v)@.to_multiset(),
            forall|a: int, b: int|
                0 <= a < b < i && b < n ==> #[trigger] v@[a].at_most(#[trigger] v@[b]),
        decreases n - i,
    {
        let mut j: usize = i;
        let mut placed: bool = false;
        while j > 0 && !placed
            invariant
                n == v@.len(),
                n == old(v)@.len(),
                j <= i < n,
                v@.to_multiset() == old(v)@.to_multiset(),
                forall|a: int, b: int|
                    0 <= a < b <= i && a != j && b != j ==> #[trigger] v@[a].at_most(
                        #[trigger] v@[b],
                    ),
                forall|b: int| j < b <= i ==> v@[j as int].at_most(#[trigger] v@[b]),
                placed ==> forall|a: int| 0 <= a < j ==> #[trigger] v@[a].at_most(v@[j as int]),
            decreases j, !placed as int,
        {
            let here = v[j];
            let before = v[j - 1];
            if before.is_at_most(&here) {
                proof {
                    assert forall|a: int| 0 <= a < j implies #[trigger] v@[a].at_most(
                        v@[j as int],
                    ) by {
                        if a < j - 1 {
                            T::transitive(v@[a], v@[j - 1], v@[j as int]);
                        }
                    }
                }
                placed = true;
            } else {
                proof {
                    T::total(before, here);
                    lemma_swap(v@, j - 1, j as int);
                }
                let ghost was = v@;
                v[j - 1] = here;
                v[j] = before;
                assert(v@ =~= was.update(j - 1, was[j as int]).update(j as int, was[j - 1]));
                j = j - 1;
            }
        }
        i = i + 1;
    }
}

/// There is one way to put things in a strict order: two lists of the same
/// things in it are the same list.
pub proof fn lemma_one_strict_order<A>(a: Seq<A>, b: Seq<A>, before: spec_fn(A, A) -> bool)
    requires
        forall|x: A, y: A| #[trigger] before(x, y) ==> !before(y, x),
        forall|i: int, j: int| 0 <= i < j < a.len() ==> before(#[trigger] a[i], #[trigger] a[j]),
        forall|i: int, j: int| 0 <= i < j < b.len() ==> before(#[trigger] b[i], #[trigger] b[j]),
        forall|x: A| #[trigger] a.contains(x) <==> b.contains(x),
    ensures
        a == b,
    decreases a.len(),
{
    if a.len() == 0 {
        if b.len() != 0 {
            assert(b.contains(b[0]));
            assert(a.contains(b[0]));
        }
        assert(a =~= b);
    } else {
        let (m, n) = (a.len() - 1, b.len() - 1);
        assert(a.contains(a[m]));
        let j = choose|j: int| 0 <= j < b.len() && b[j] == a[m];
        assert(b.contains(b[n]));
        assert(a.contains(b[n]));
        let i = choose|i: int| 0 <= i < a.len() && a[i] == b[n];
        if i < m && j < n {
            assert(before(a[i], a[m]));
            assert(before(b[j], b[n]));
        }
        assert(a[m] == b[n]);
        let (p, q) = (a.drop_last(), b.drop_last());
        assert forall|x: A| #[trigger] p.contains(x) <==> q.contains(x) by {
            if p.contains(x) {
                let k = choose|k: int| 0 <= k < p.len() && p[k] == x;
                assert(a[k] == x);
                assert(a.contains(x));
                assert(before(a[k], a[m]));
                let l = choose|l: int| 0 <= l < b.len() && b[l] == x;
                if l == n {
                    assert(before(x, x));
                }
                assert(q[l] == x);
            }
            if q.contains(x) {
                let k = choose|k: int| 0 <= k < q.len() && q[k] == x;
                assert(b[k] == x);
                assert(b.contains(x));
                assert(before(b[k], b[n]));
                assert(a.contains(x));
                let l = choose|l: int| 0 <= l < a.len() && a[l] == x;
                if l == m {
                    assert(before(x, x));
                }
                assert(p[l] == x);
            }
        }
        lemma_one_strict_order(p, q, before);
        assert(a =~= p.push(a[m]));
        assert(b =~= q.push(b[n]));
    }
}

} // verus!
