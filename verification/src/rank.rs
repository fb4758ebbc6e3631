//! Stable sorting of values that are ranked against each other.

use vstd::prelude::*;
use vstd::seq_lib::*;

verus! {

/// Values with a rank: of any two, one ranks no later than the other, and
/// several may rank the same.
pub trait Ranked: Sized {
    /// Whether `self` ranks no later than `other`.
    spec fn ranks_le(&self, other: &Self) -> bool;

    /// Decides `ranks_le`.
    fn no_later_than(&self, other: &Self) -> (r: bool)
        ensures
            r == self.ranks_le(other),
    ;

    /// Of two values, one ranks no later than the other.
    proof fn lemma_total(a: &Self, b: &Self)
        ensures
            a.ranks_le(b) || b.ranks_le(a),
    ;

    /// Ranking is transitive.
    proof fn lemma_transitive(a: &Self, b: &Self, c: &Self)
        requires
            a.ranks_le(b),
            b.ranks_le(c),
        ensures
            a.ranks_le(c),
    ;
}

/// Whether `a` and `b` rank the same.
pub open spec fn ties<T: Ranked>(a: T, b: T) -> bool {
    a.ranks_le(&b) && b.ranks_le(&a)
}

/// The items of `s` that rank the same as `x`, in the order they have in `s`.
pub open spec fn peers<T: Ranked>(s: Seq<T>, x: T) -> Seq<T> {
    s.filter(|y: T| ties(x, y))
}

/// Whether no item of `s` ranks later than an item that follows it.
pub open spec fn is_ordered<T: Ranked>(s: Seq<T>) -> bool {
    forall|i: int, j: int| #![trigger s[i], s[j]] 0 <= i < j < s.len() ==> s[i].ranks_le(&s[j])
}

/// The number of items at the start of `s` that rank before `x`: the place
/// of the first item that `x` ranks no later than, or the length of `s`.
pub open spec fn slot<T: Ranked>(s: Seq<T>, x: T) -> int
    decreases s.len(),
{
    if s.len() == 0 || x.ranks_le(&s[0]) {
        0
    } else {
        1 + slot(s.drop_first(), x)
    }
}

/// The items of `s` in ascending rank, those that rank the same in the order
/// they have in `s`.
pub open spec fn sorted<T: Ranked>(s: Seq<T>) -> Seq<T>
    decreases s.len(),
{
    if s.len() == 0 {
        s
    } else {
        let rest = sorted(s.drop_first());
        rest.insert(slot(rest, s[0]), s[0])
    }
}

/// `slot(s, x)` is a place in `s` or its end; the items before it rank
/// before `x`, and `x` ranks no later than the item at it.
pub proof fn lemma_slot<T: Ranked>(s: Seq<T>, x: T)
    ensures
        0 <= slot(s, x) <= s.len(),
        forall|i: int| 0 <= i < slot(s, x) ==> !x.ranks_le(&#[trigger] s[i]),
        slot(s, x) < s.len() ==> x.ranks_le(&s[slot(s, x)]),
    decreases s.len(),
{
    if !(s.len() == 0 || x.ranks_le(&s[0])) {
        let tail = s.drop_first();
        lemma_slot(tail, x);
        assert forall|i: int| 0 <= i < slot(s, x) implies !x.ranks_le(&#[trigger] s[i]) by {
            if i > 0 {
                assert(s[i] == tail[i - 1]);
            }
        }
    }
}

/// Putting `x` at its slot keeps an ordered sequence ordered.
pub proof fn lemma_insert_ordered<T: Ranked>(s: Seq<T>, x: T)
    requires
        is_ordered(s),
    ensures
        is_ordered(s.insert(slot(s, x), x)),
{
    let p = slot(s, x);
    let r = s.insert(p, x);
    lemma_slot(s, x);
    s.insert_ensures(p, x);
    assert forall|i: int, j: int| #![trigger r[i], r[j]] 0 <= i < j < r.len() implies r[i].ranks_le(
        &r[j],
    ) by {
        if j < p {
            assert(r[i] == s[i] && r[j] == s[j]);
        } else if j == p {
            assert(r[i] == s[i]);
            T::lemma_total(&x, &s[i]);
        } else if i < p {
            assert(r[i] == s[i] && r[j] == s[j - 1]);
        } else if i == p {
            assert(r[j] == s[j - 1]);
            if j - 1 > p {
                T::lemma_transitive(&x, &s[p], &s[j - 1]);
            }
        } else {
            assert(r[i] == s[i - 1] && r[j] == s[j - 1]);
        }
    }
}

/// The sorted sequence is in ascending rank.
pub proof fn lemma_sorted_is_ordered<T: Ranked>(s: Seq<T>)
    ensures
        is_ordered(sorted(s)),
    decreases s.len(),
{
    if s.len() > 0 {
        lemma_sorted_is_ordered(s.drop_first());
        lemma_insert_ordered(sorted(s.drop_first()), s[0]);
    }
}

/// The sorted sequence holds the items of `s`, each as often as `s` does.
pub proof fn lemma_sorted_is_permutation<T: Ranked>(s: Seq<T>)
    ensures
        sorted(s).len() == s.len(),
        sorted(s).to_multiset() == s.to_multiset(),
    decreases s.len(),
{
    if s.len() > 0 {
        let rest = sorted(s.drop_first());
        lemma_sorted_is_permutation(s.drop_first());
        lemma_slot(rest, s[0]);
        to_multiset_insert(rest, slot(rest, s[0]), s[0]);
        to_multiset_insert(s.drop_first(), 0, s[0]);
        assert(s.drop_first().insert(0, s[0]) =~= s);
    }
}

/// Sorting is stable: the items that rank the same as `x` stand in the
/// sorted sequence in the order they have in `s`.
pub proof fn lemma_sorted_is_stable<T: Ranked>(s: Seq<T>, x: T)
    ensures
        peers(sorted(s), x) == peers(s, x),
    decreases s.len(),
{
    let same = |y: T| ties(x, y);
    if s.len() > 0 {
        let head = s[0];
        let tail = s.drop_first();
        let rest = sorted(tail);
        let p = slot(rest, head);
        lemma_sorted_is_stable(tail, x);
        lemma_slot(rest, head);
        let front = rest.subrange(0, p);
        let back = rest.subrange(p, rest.len() as int);
        assert(rest =~= front + back);
        assert(rest.insert(p, head) =~= front + (seq![head] + back));
        assert(s =~= seq![head] + tail);
        Seq::filter_distributes_over_add(front, back, same);
        Seq::filter_distributes_over_add(front, seq![head] + back, same);
        back.lemma_filter_prepend(head, same);
        tail.lemma_filter_prepend(head, same);
        if same(head) {
            assert forall|i: int| 0 <= i < front.len() implies !same(#[trigger] front[i]) by {
                assert(front[i] == rest[i]);
                if same(front[i]) {
                    T::lemma_transitive(&head, &x, &front[i]);
                }
            }
            front.lemma_all_neg_filter_empty(same);
            assert(front.filter(same) =~= Seq::<T>::empty());
            assert(sorted(s).filter(same) =~= s.filter(same));
        } else {
            assert(sorted(s).filter(same) =~= s.filter(same));
        }
    }
}

/// The items of `items` in ascending rank, those that rank the same in the
/// order in which they came.
pub fn sort_by_rank<T: Ranked>(items: Vec<T>) -> (out: Vec<T>)
    ensures
        out@ == sorted(items@),
        is_ordered(out@),
        out@.to_multiset() == items@.to_multiset(),
        forall|x: T| #[trigger] peers(out@, x) == peers(items@, x),
{
    let mut rest = items;
    let mut out: Vec<T> = Vec::new();
    assert(items@.skip(items@.len() as int) =~= Seq::<T>::empty());
    while rest.len() > 0
        invariant
            rest.len() <= items.len(),
            rest@ == items@.take(rest.len() as int),
            out@ == sorted(items@.skip(rest.len() as int)),
        decreases rest.len(),
    {
        let ghost before = rest@;
        let x = rest.pop().unwrap();
        let ghost old_out = out@;
        assert(items@.skip(rest.len() as int).drop_first() =~= items@.skip(rest.len() + 1));
        assert(rest@ =~= items@.take(rest.len() as int));
        let mut p: usize = 0;
        assert(out@.skip(0) == out@);
        while p < out.len() && !x.no_later_than(&out[p])
            invariant
                p <= out.len(),
                slot(out@, x) == p + slot(out@.skip(p as int), x),
            decreases out.len() - p,
        {
            assert(out@.skip(p as int).drop_first() == out@.skip(p + 1));
            p += 1;
        }
        out.insert(p, x);
    }
    assert(items@.skip(0) == items@);
    proof {
        lemma_sorted_is_ordered(items@);
        lemma_sorted_is_permutation(items@);
        assert forall|x: T| #[trigger] peers(out@, x) == peers(items@, x) by {
            lemma_sorted_is_stable(items@, x);
        }
    }
    out
}

} // verus!
