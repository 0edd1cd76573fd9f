use std::cmp::Ordering;
use vstd::prelude::*;
use crate::models::Element;

verus! {

broadcast use vstd::seq_lib::group_seq_properties;

/// An element with no parent sits at the top level of a twin.
pub open spec fn is_root(e: Element) -> bool {
    e.parent is None
}

/// The order of elements in a listing: those without a parent come before
/// those with one; elements alike in this are equal.
pub fn sort_elements(a: &Element, b: &Element) -> (r: Ordering)
    ensures
        r == sort_elements_spec(*a, *b),
{
    if (a.parent.is_none() && b.parent.is_none()) || (a.parent.is_some() && b.parent.is_some()) {
        Ordering::Equal
    } else if a.parent.is_some() {
        Ordering::Greater
    } else {
        Ordering::Less
    }
}

/// The elements as a stable sort by `sort_elements` leaves them: the
/// top-level elements in their order, then the others in their order.
pub open spec fn sorted_by_parent(s: Seq<Element>) -> Seq<Element> {
    s.filter(|e: Element| is_root(e)) + s.filter(|e: Element| !is_root(e))
}

/// Sorts elements stably by `sort_elements`.
pub fn sort_by_parent(elements: Vec<Element>) -> (r: Vec<Element>)
    ensures
        r@ == sorted_by_parent(elements@),
{
    let ghost s = elements@;
    let ghost root = |e: Element| is_root(e);
    let ghost child = |e: Element| !is_root(e);
    let mut roots: Vec<Element> = Vec::new();
    let mut others: Vec<Element> = Vec::new();
    let n = elements.len();
    proof {
        assert(s.take(0) =~= Seq::<Element>::empty());
        assert(Seq::<Element>::empty().filter(root) =~= Seq::<Element>::empty()) by {
            reveal(Seq::filter);
        }
        assert(Seq::<Element>::empty().filter(child) =~= Seq::<Element>::empty()) by {
            reveal(Seq::filter);
        }
    }
    for i in 0..n
        invariant
            n == elements@.len(),
            s == elements@,
            root == (|e: Element| is_root(e)),
            child == (|e: Element| !is_root(e)),
            roots@ == s.take(i as int).filter(root),
            others@ == s.take(i as int).filter(child),
    {
        proof {
            assert(s.take(i + 1) =~= s.take(i as int).push(s[i as int]));
            s.take(i as int).lemma_filter_push(s[i as int], root);
            s.take(i as int).lemma_filter_push(s[i as int], child);
        }
        let e = elements[i].duplicate();
        if e.parent.is_none() {
            roots.push(e);
        } else {
            others.push(e);
        }
    }
    proof {
        assert(s.take(n as int) =~= s);
    }
    let mut r = roots;
    let mut k: usize = 0;
    let ghost base = r@;
    while k < others.len()
        invariant
            k <= others@.len(),
            r@ =~= base + others@.take(k as int),
        decreases others@.len() - k,
    {
        let e = others[k].duplicate();
        r.push(e);
        proof {
            assert(others@.take(k + 1) =~= others@.take(k as int).push(others@[k as int]));
        }
        k = k + 1;
    }
    proof {
        assert(others@.take(others@.len() as int) =~= others@);
    }
    r
}

/// Sorting keeps the elements: the sorted listing holds each element as
/// many times as the input.
pub proof fn lemma_sort_is_permutation(s: Seq<Element>)
    ensures
        sorted_by_parent(s).to_multiset() =~= s.to_multiset(),
    decreases s.len(),
{
    let root = |e: Element| is_root(e);
    let child = |e: Element| !is_root(e);
    broadcast use vstd::seq_lib::to_multiset_build, vstd::seq_lib::lemma_multiset_commutative,
        vstd::multiset::group_multiset_axioms;
    if s.len() == 0 {
        reveal(Seq::filter);
        assert(sorted_by_parent(s) =~= s);
    } else {
        let t = s.drop_last();
        let x = s.last();
        lemma_sort_is_permutation(t);
        assert(s =~= t.push(x));
        t.lemma_filter_push(x, root);
        t.lemma_filter_push(x, child);
        assert(sorted_by_parent(t).to_multiset() =~= t.to_multiset());
    }
}

/// In the sorted listing no element with a parent comes before one without.
pub proof fn lemma_sorted_roots_first(s: Seq<Element>, i: int, j: int)
    requires
        0 <= i < j < sorted_by_parent(s).len(),
    ensures
        sort_elements_spec(sorted_by_parent(s)[i], sorted_by_parent(s)[j]) != Ordering::Greater,
{
    let root = |e: Element| is_root(e);
    let child = |e: Element| !is_root(e);
    let a = s.filter(root);
    let b = s.filter(child);
    let r = sorted_by_parent(s);
    if i < a.len() {
        s.lemma_filter_pred(root, i);
        assert(r[i] == a[i]);
    } else {
        s.lemma_filter_pred(child, i - a.len());
        s.lemma_filter_pred(child, j - a.len());
        assert(r[i] == b[i - a.len()]);
        assert(r[j] == b[j - a.len()]);
    }
    if j < a.len() {
        s.lemma_filter_pred(root, j);
        assert(r[j] == a[j]);
    }
}

proof fn lemma_filter_keeps(t: Seq<Element>, p: spec_fn(Element) -> bool, all: bool)
    requires
        forall|i: int| 0 <= i < t.len() ==> p(#[trigger] t[i]) == all,
    ensures
        t.filter(p) == (if all { t } else { Seq::empty() }),
    decreases t.len(),
{
    if t.len() == 0 {
        reveal(Seq::filter);
        assert(t.filter(p) =~= Seq::<Element>::empty());
        assert(t =~= Seq::<Element>::empty());
    } else {
        let d = t.drop_last();
        assert forall|i: int| 0 <= i < d.len() implies p(#[trigger] d[i]) == all by {
            assert(d[i] == t[i]);
        }
        lemma_filter_keeps(d, p, all);
        assert(t =~= d.push(t.last()));
        d.lemma_filter_push(t.last(), p);
        assert(p(t[t.len() - 1]) == all);
    }
}

/// Sorting keeps the order within each kind: the top-level elements of the
/// sorted listing are those of the input in their order, and so are the
/// elements with a parent.
pub proof fn lemma_sort_is_stable(s: Seq<Element>)
    ensures
        sorted_by_parent(s).filter(|e: Element| is_root(e)) == s.filter(|e: Element| is_root(e)),
        sorted_by_parent(s).filter(|e: Element| !is_root(e)) == s.filter(|e: Element| !is_root(e)),
{
    let root = |e: Element| is_root(e);
    let child = |e: Element| !is_root(e);
    let a = s.filter(root);
    let b = s.filter(child);
    assert forall|i: int| 0 <= i < a.len() implies root(#[trigger] a[i]) == true by {
        s.lemma_filter_pred(root, i);
    }
    assert forall|i: int| 0 <= i < a.len() implies child(#[trigger] a[i]) == false by {
        s.lemma_filter_pred(root, i);
    }
    assert forall|i: int| 0 <= i < b.len() implies root(#[trigger] b[i]) == false by {
        s.lemma_filter_pred(child, i);
    }
    assert forall|i: int| 0 <= i < b.len() implies child(#[trigger] b[i]) == true by {
        s.lemma_filter_pred(child, i);
    }
    lemma_filter_keeps(a, root, true);
    lemma_filter_keeps(a, child, false);
    lemma_filter_keeps(b, root, false);
    lemma_filter_keeps(b, child, true);
    Seq::filter_distributes_over_add(a, b, root);
    Seq::filter_distributes_over_add(a, b, child);
    assert(a + Seq::<Element>::empty() =~= a);
    assert(Seq::<Element>::empty() + b =~= b);
}

/// What `sort_elements` answers, as a function of the two elements.
pub open spec fn sort_elements_spec(a: Element, b: Element) -> Ordering {
    if is_root(a) == is_root(b) {
        Ordering::Equal
    } else if !is_root(a) {
        Ordering::Greater
    } else {
        Ordering::Less
    }
}

} // verus!
