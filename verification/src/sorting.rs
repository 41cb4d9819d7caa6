//! Stable sorting by a total preorder, and the order of texts.

use vstd::prelude::*;

use crate::text;

verus! {

/// A type whose values have a rank; values of equal rank may differ.
pub trait Ranked: Sized {
    /// Whether `self` ranks no later than `other`.
    spec fn ranks(&self, other: &Self) -> bool;

    /// Any two values can be compared.
    proof fn lemma_total(a: &Self, b: &Self)
        ensures
            a.ranks(b) || b.ranks(a),
    ;

    /// The order is transitive.
    proof fn lemma_transitive(a: &Self, b: &Self, c: &Self)
        requires
            a.ranks(b),
            b.ranks(c),
        ensures
            a.ranks(c),
    ;

    /// Whether `self` ranks no later than `other`.
    fn ranked(&self, other: &Self) -> (before: bool)
        ensures
            before == self.ranks(other),
    ;
}

/// Whether no value ranks before an earlier one.
pub open spec fn sorted<T: Ranked>(s: Seq<T>) -> bool {
    forall|i: int, j: int|
        #![trigger s[i], s[j]]
        0 <= i <= j < s.len() ==> s[i].ranks(&s[j])
}

/// A sorted sequence with one more value, behind those that rank no later.
pub open spec fn inserted<T: Ranked>(s: Seq<T>, x: T) -> Seq<T>
    decreases s.len(),
{
    if s.len() == 0 {
        seq![x]
    } else if s.last().ranks(&x) {
        s.push(x)
    } else {
        inserted(s.drop_last(), x).push(s.last())
    }
}

/// The values in order, those of equal rank in their given order.
pub open spec fn stable_sorted<T: Ranked>(s: Seq<T>) -> Seq<T>
    decreases s.len(),
{
    if s.len() == 0 {
        s
    } else {
        inserted(stable_sorted(s.drop_last()), s.last())
    }
}

proof fn lemma_inserted<T: Ranked>(s: Seq<T>, x: T)
    requires
        sorted(s),
    ensures
        sorted(inserted(s, x)),
        inserted(s, x).len() == s.len() + 1,
        inserted(s, x).to_multiset() == s.to_multiset().insert(x),
        forall|k: int|
            0 <= k < inserted(s, x).len() ==> #[trigger] inserted(s, x)[k] == x || s.contains(
                inserted(s, x)[k],
            ),
    decreases s.len(),
{
    broadcast use vstd::seq_lib::group_to_multiset_ensures;

    T::lemma_total(&x, &x);
    let r = inserted(s, x);
    if s.len() == 0 {
        assert(r =~= s.push(x));
    } else if s.last().ranks(&x) {
        assert forall|i: int, j: int|
            #![trigger r[i], r[j]]
            0 <= i <= j < r.len() implies r[i].ranks(&r[j]) by {
            if j == s.len() && i < s.len() {
                assert(s[i].ranks(&s[s.len() - 1]));
                T::lemma_transitive(&s[i], &s.last(), &x);
            }
        }
        assert forall|k: int| 0 <= k < r.len() implies #[trigger] r[k] == x || s.contains(r[k]) by {
            if k < s.len() {
                assert(s[k] == r[k]);
            }
        }
    } else {
        let before = s.drop_last();
        assert forall|i: int, j: int|
            #![trigger before[i], before[j]]
            0 <= i <= j < before.len() implies before[i].ranks(&before[j]) by {
            assert(s[i].ranks(&s[j]));
        }
        lemma_inserted(before, x);
        let mid = inserted(before, x);
        T::lemma_total(&x, &s.last());
        assert forall|k: int| 0 <= k < mid.len() implies (#[trigger] mid[k]).ranks(&s.last()) by {
            if mid[k] != x {
                let m = before.index_of(mid[k]);
                assert(s[m].ranks(&s[s.len() - 1]));
            }
        }
        T::lemma_total(&s.last(), &s.last());
        assert forall|i: int, j: int|
            #![trigger r[i], r[j]]
            0 <= i <= j < r.len() implies r[i].ranks(&r[j]) by {
            if j < mid.len() {
                assert(mid[i].ranks(&mid[j]));
            } else if i < mid.len() {
                assert(mid[i].ranks(&s.last()));
            }
        }
        assert(s =~= before.push(s.last()));
        assert(r =~= mid.push(s.last()));
        assert(r.to_multiset() =~= s.to_multiset().insert(x));
        assert forall|k: int| 0 <= k < r.len() implies #[trigger] r[k] == x || s.contains(r[k]) by {
            if k < mid.len() {
                assert(r[k] == mid[k]);
                if mid[k] != x {
                    assert(s[before.index_of(mid[k])] == r[k]);
                }
            } else {
                assert(s[s.len() - 1] == r[k]);
            }
        }
    }
}

/// Stable sorting orders the values and keeps each as often as it occurs.
pub proof fn lemma_stable_sorted<T: Ranked>(s: Seq<T>)
    ensures
        sorted(stable_sorted(s)),
        stable_sorted(s).len() == s.len(),
        stable_sorted(s).to_multiset() == s.to_multiset(),
    decreases s.len(),
{
    broadcast use vstd::seq_lib::group_to_multiset_ensures;

    if s.len() > 0 {
        lemma_stable_sorted(s.drop_last());
        lemma_inserted(stable_sorted(s.drop_last()), s.last());
        assert(s =~= s.drop_last().push(s.last()));
        assert(s.to_multiset() =~= s.drop_last().to_multiset().insert(s.last()));
    }
}

fn insert_ranked<T: Ranked>(v: &mut Vec<T>, x: T)
    ensures
        final(v)@ == inserted(old(v)@, x),
{
    let mut at: usize = v.len();
    let ghost s = v@;
    assert(s.take(at as int) =~= s);
    assert(inserted(s, x) =~= inserted(s.take(at as int), x) + s.skip(at as int));
    while at > 0 && !v[at - 1].ranked(&x)
        invariant
            v@ == s,
            at <= s.len(),
            inserted(s, x) == inserted(s.take(at as int), x) + s.skip(at as int),
        decreases at,
    {
        proof {
            let t = s.take(at as int);
            assert(t.drop_last() =~= s.take(at - 1));
            assert(t.last() == s[at - 1]);
            assert(inserted(t, x) + s.skip(at as int) =~= inserted(s.take(at - 1), x) + s.skip(
                at - 1,
            ));
        }
        at = at - 1;
    }
    v.insert(at, x);
    proof {
        let t = s.take(at as int);
        if at == 0 {
            assert(t =~= Seq::<T>::empty());
        } else {
            assert(t.last() == s[at - 1]);
        }
        assert(inserted(t, x) =~= t.push(x));
        assert(v@ =~= inserted(s, x));
    }
}

/// Sorts the values; those of equal rank stay in their given order.
pub fn sort<T: Ranked>(values: Vec<T>) -> (out: Vec<T>)
    ensures
        out@ == stable_sorted(values@),
        sorted(out@),
        out@.to_multiset() == values@.to_multiset(),
{
    let ghost all = values@;
    let mut rest = values;
    let mut reversed: Vec<T> = Vec::new();
    while rest.len() > 0
        invariant
            all == rest@ + reversed@.reverse(),
        decreases rest@.len(),
    {
        let ghost before = rest@;
        let ghost taken = reversed@;
        if let Some(x) = rest.pop() {
            reversed.push(x);
            assert(rest@ + reversed@.reverse() =~= before + taken.reverse());
        }
    }
    assert(all =~= reversed@.reverse());
    let mut out: Vec<T> = Vec::new();
    assert(all.take(0) =~= Seq::<T>::empty());
    while reversed.len() > 0
        invariant
            reversed@.len() <= all.len(),
            all.skip(all.len() - reversed@.len()) == reversed@.reverse(),
            out@ == stable_sorted(all.take(all.len() - reversed@.len())),
        decreases reversed@.len(),
    {
        let ghost before = reversed@;
        let ghost n = all.len() - before.len();
        if let Some(x) = reversed.pop() {
            proof {
                assert(before.reverse()[0] == x);
                assert(all.skip(n)[0] == all[n]);
                assert(all.take(n + 1).drop_last() =~= all.take(n));
                assert(all.skip(n + 1) =~= reversed@.reverse()) by {
                    assert forall|k: int| 0 <= k < reversed@.len() implies #[trigger] all.skip(
                        n + 1,
                    )[k] == reversed@.reverse()[k] by {
                        assert(all.skip(n)[k + 1] == before.reverse()[k + 1]);
                    }
                }
            }
            insert_ranked(&mut out, x);
        }
    }
    proof {
        assert(all.take(all.len() as int) =~= all);
        lemma_stable_sorted(all);
    }
    out
}

/// Whether a text comes before another in the order of their code points.
pub open spec fn text_before(a: Seq<char>, b: Seq<char>) -> bool
    decreases a.len(),
{
    if b.len() == 0 {
        false
    } else if a.len() == 0 {
        true
    } else if a[0] != b[0] {
        a[0] < b[0]
    } else {
        text_before(a.skip(1), b.skip(1))
    }
}

/// Of two different texts exactly one comes first, and none comes before itself.
pub proof fn lemma_text_before_total(a: Seq<char>, b: Seq<char>)
    ensures
        a == b ==> !text_before(a, b),
        a != b ==> text_before(a, b) != text_before(b, a),
    decreases a.len(),
{
    if a.len() > 0 && b.len() > 0 {
        lemma_text_before_total(a.skip(1), b.skip(1));
        if a[0] == b[0] && a.skip(1) == b.skip(1) {
            assert(a =~= seq![a[0]] + a.skip(1));
            assert(b =~= seq![b[0]] + b.skip(1));
        }
    } else if a.len() == 0 && b.len() == 0 {
        assert(a =~= b);
    }
}

/// The order of texts is transitive.
pub proof fn lemma_text_before_transitive(a: Seq<char>, b: Seq<char>, c: Seq<char>)
    requires
        text_before(a, b),
        text_before(b, c),
    ensures
        text_before(a, c),
    decreases a.len(),
{
    if a.len() > 0 && a[0] == b[0] && b[0] == c[0] {
        lemma_text_before_transitive(a.skip(1), b.skip(1), c.skip(1));
    }
}

/// Whether a text comes before another in the order of their code points.
pub fn text_less(a: &str, b: &str) -> (less: bool)
    ensures
        less == text_before(a@, b@),
{
    let x = text::to_chars(a);
    let y = text::to_chars(b);
    let mut i: usize = 0;
    assert(x@.skip(0) =~= x@);
    assert(y@.skip(0) =~= y@);
    loop
        invariant
            x@ == a@,
            y@ == b@,
            i <= x@.len(),
            i <= y@.len(),
            text_before(a@, b@) == text_before(x@.skip(i as int), y@.skip(i as int)),
        decreases x@.len() - i,
    {
        if i == y.len() {
            return false;
        }
        if i == x.len() {
            return true;
        }
        if x[i] != y[i] {
            return x[i] < y[i];
        }
        assert(x@.skip(i as int).skip(1) =~= x@.skip(i + 1));
        assert(y@.skip(i as int).skip(1) =~= y@.skip(i + 1));
        i = i + 1;
    }
}

/// Whether two values rank alike.
pub open spec fn alike<T: Ranked>(a: T, b: T) -> bool {
    a.ranks(&b) && b.ranks(&a)
}

proof fn lemma_inserted_alike<T: Ranked>(s: Seq<T>, x: T, r: T)
    ensures
        inserted(s, x).filter(|y: T| alike(y, r)) == if alike(x, r) {
            s.filter(|y: T| alike(y, r)).push(x)
        } else {
            s.filter(|y: T| alike(y, r))
        },
    decreases s.len(),
{
    let p = |y: T| alike(y, r);
    reveal_with_fuel(Seq::filter, 2);
    if s.len() == 0 {
        assert(seq![x].drop_last() =~= Seq::<T>::empty());
        assert(seq![x].last() == x);
        assert(s =~= Seq::<T>::empty());
    } else if s.last().ranks(&x) {
        assert(s.push(x).drop_last() =~= s);
    } else {
        let rest = s.drop_last();
        let y = s.last();
        lemma_inserted_alike(rest, x, r);
        let all = inserted(rest, x).push(y);
        assert(all.drop_last() =~= inserted(rest, x));
        if alike(x, r) && alike(y, r) {
            T::lemma_transitive(&y, &r, &x);
        }
    }
}

/// Sorting is stable: values that rank alike keep their order.
pub proof fn law_alike_values_keep_their_order<T: Ranked>(s: Seq<T>, r: T)
    ensures
        stable_sorted(s).filter(|y: T| alike(y, r)) == s.filter(|y: T| alike(y, r)),
    decreases s.len(),
{
    reveal(Seq::filter);
    if s.len() > 0 {
        law_alike_values_keep_their_order(s.drop_last(), r);
        lemma_inserted_alike(stable_sorted(s.drop_last()), s.last(), r);
    }
}

/// Sorting gives the values in their order, and each as often as before.
pub proof fn law_sorted_values_are_in_order<T: Ranked>(s: Seq<T>)
    ensures
        stable_sorted(s).to_multiset() == s.to_multiset(),
        forall|i: int, j: int|
            #![trigger stable_sorted(s)[i], stable_sorted(s)[j]]
            0 <= i <= j < s.len() ==> stable_sorted(s)[i].ranks(&stable_sorted(s)[j]),
        stable_sorted(s).len() == s.len(),
{
    lemma_stable_sorted(s);
    assert(stable_sorted(s).len() == stable_sorted(s).to_multiset().len()) by {
        stable_sorted(s).to_multiset_ensures();
    }
    s.to_multiset_ensures();
}

/// A text stands before another where it is a proper beginning of it, or has the smaller character
/// at the first place where they differ.
pub proof fn law_texts_are_ordered_by_their_characters(a: Seq<char>, b: Seq<char>, n: int)
    requires
        0 <= n <= a.len(),
        n <= b.len(),
        a.take(n) == b.take(n),
        n == a.len() || n == b.len() || a[n] != b[n],
    ensures
        text_before(a, b) <==> n < b.len() && (n == a.len() || a[n] < b[n]),
    decreases n,
{
    if n > 0 {
        assert(a[0] == a.take(n)[0] && b[0] == b.take(n)[0]);
        assert(a.skip(1).take(n - 1) =~= a.take(n).skip(1));
        assert(b.skip(1).take(n - 1) =~= b.take(n).skip(1));
        law_texts_are_ordered_by_their_characters(a.skip(1), b.skip(1), n - 1);
    }
}

} // verus!
