use vstd::prelude::*;
use vstd::multiset::Multiset;
use crate::models::{Element, Source};
use crate::order::{is_root, lemma_sort_is_permutation, sorted_by_parent};
use crate::tree::{
    attach, elements_of, find_in, lemma_attach_keeps_occurs, lemma_elements_round, lemma_elements_tree_parts,
    lemma_find_complete, lemma_find_in, lemma_round_rest, node_at, occurs, parent_of, place, round, search_limit,
    settles, tree_parts, valid_path, Node,
};

verus! {

broadcast use vstd::multiset::group_multiset_axioms;

/// Levels for the elements of a twin: a top-level element is on level 1;
/// an element with a parent has its parent among the elements, and is one
/// level below every element with its parent's id; no level is deeper than
/// the search's limit (a parent is then at most one level above it, where
/// the search still finds it).  Such levels exist when the parents are
/// known, form no cycle, and no chain is deeper than that.
pub open spec fn leveled(es: Seq<Element>, lvl: spec_fn(Element) -> int) -> bool {
    forall|e: Element| #[trigger] es.contains(e) ==> {
        &&& 1 <= lvl(e) <= search_limit()
        &&& is_root(e) ==> lvl(e) == 1
        &&& !is_root(e) ==> exists|f: Element| #[trigger] es.contains(f) && f.id == e.parent.unwrap()
        &&& forall|f: Element| #[trigger] es.contains(f) && !is_root(e) && f.id == e.parent.unwrap()
            ==> lvl(e) == lvl(f) + 1
    }
}

/// Every node of the forest sits at the depth of its element's level.
pub open spec fn levels_right(nodes: Seq<Node>, lvl: spec_fn(Element) -> int) -> bool {
    forall|q: Seq<int>| #[trigger] valid_path(nodes, q) ==> lvl(node_at(nodes, q).element) == q.len()
}

/// Pending elements are trees of one element that names a parent.
pub open spec fn pending_leaves(s: Seq<Node>) -> bool {
    forall|j: int| 0 <= j < s.len() ==> (#[trigger] s[j]).children.len() == 0 && !is_root(s[j].element)
}

/// The state of the placing: the forest and the pending elements hold the
/// elements of the twin, the forest holds them at their levels, and the
/// pending elements are leaves with parents.
pub open spec fn placing_state(nodes: Seq<Node>, pending: Seq<Node>, es: Seq<Element>, lvl: spec_fn(Element) -> int) -> bool {
    &&& elements_of(nodes).add(elements_of(pending)) == es.to_multiset()
    &&& levels_right(nodes, lvl)
    &&& pending_leaves(pending)
}

proof fn lemma_path_counted(nodes: Seq<Node>, q: Seq<int>)
    requires
        valid_path(nodes, q),
    ensures
        elements_of(nodes).count(node_at(nodes, q).element) > 0,
    decreases nodes,
{
    let n = nodes.len();
    let d = nodes.drop_last();
    if q[0] < n - 1 {
        assert(d[q[0]] == nodes[q[0]]);
        assert(valid_path(d, q));
        assert(node_at(d, q) == node_at(nodes, q));
        lemma_path_counted(d, q);
    } else if q.len() > 1 {
        let c = nodes.last().children;
        assert(node_at(nodes, q) == node_at(c, q.drop_first()));
        lemma_path_counted(c, q.drop_first());
    }
}

proof fn lemma_counted_path(nodes: Seq<Node>, e: Element)
    requires
        elements_of(nodes).count(e) > 0,
    ensures
        exists|q: Seq<int>| #[trigger] valid_path(nodes, q) && node_at(nodes, q).element == e,
    decreases nodes,
{
    let n = nodes.len();
    if n == 0 {
        assert(false);
    }
    let d = nodes.drop_last();
    let c = nodes.last().children;
    if elements_of(d).count(e) > 0 {
        lemma_counted_path(d, e);
        let q = choose|q: Seq<int>| #[trigger] valid_path(d, q) && node_at(d, q).element == e;
        assert(nodes[q[0]] == d[q[0]]);
        assert(valid_path(nodes, q));
        assert(node_at(nodes, q) == node_at(d, q));
    } else if nodes.last().element == e {
        let q = seq![n - 1];
        assert(valid_path(nodes, q));
    } else {
        assert(elements_of(c).count(e) > 0);
        lemma_counted_path(c, e);
        let r = choose|r: Seq<int>| #[trigger] valid_path(c, r) && node_at(c, r).element == e;
        let q = seq![n - 1] + r;
        assert(q.drop_first() =~= r);
        assert(valid_path(nodes, q));
        assert(node_at(nodes, q) == node_at(c, r));
    }
}

proof fn lemma_counted_leaf(s: Seq<Node>, e: Element)
    requires
        pending_leaves(s),
        elements_of(s).count(e) > 0,
    ensures
        exists|j: int| 0 <= j < s.len() && (#[trigger] s[j]).element == e,
    decreases s.len(),
{
    let d = s.drop_last();
    assert(s.len() > 0);
    assert(elements_of(s.last().children) =~= Multiset::empty());
    if elements_of(d).count(e) > 0 {
        assert forall|j: int| 0 <= j < d.len() implies (#[trigger] d[j]).children.len() == 0 && !is_root(d[j].element) by {
            assert(d[j] == s[j]);
        }
        lemma_counted_leaf(d, e);
        let j = choose|j: int| 0 <= j < d.len() && (#[trigger] d[j]).element == e;
        assert(s[j] == d[j]);
    } else {
        assert(s[s.len() - 1].element == e);
    }
}

/// The paths of a forest after attaching a leaf: the old paths, to the
/// same elements, and the path to the leaf, one longer than `p`.
proof fn lemma_attach_paths(nodes: Seq<Node>, p: Seq<int>, x: Node, q: Seq<int>)
    requires
        valid_path(nodes, p),
        x.children.len() == 0,
        valid_path(attach(nodes, p, x), q),
    ensures
        (valid_path(nodes, q) && node_at(attach(nodes, p, x), q).element == node_at(nodes, q).element
            && node_at(attach(nodes, p, x), q).sources == node_at(nodes, q).sources)
            || (q.len() == p.len() + 1 && node_at(attach(nodes, p, x), q) == x),
    decreases p.len(),
{
    let a = attach(nodes, p, x);
    let n = nodes[p[0]];
    if q[0] != p[0] {
        assert(a[q[0]] == nodes[q[0]]);
    } else if p.len() == 1 {
        let c = n.children.push(x);
        assert(a[p[0]].children == c);
        if q.len() > 1 {
            let r = q.drop_first();
            assert(valid_path(a[q[0]].children, r));
            assert(valid_path(c, r));
            if r[0] < n.children.len() {
                assert(c[r[0]] == n.children[r[0]]);
                assert(valid_path(n.children, r));
                assert(node_at(c, r) == node_at(n.children, r));
            } else {
                assert(c[r[0]] == x);
                if r.len() > 1 {
                    assert(valid_path(c[r[0]].children, r.drop_first()));
                }
                assert(r.len() == 1);
                assert(node_at(a, q) == node_at(c, r));
            }
        }
    } else {
        let c = attach(n.children, p.drop_first(), x);
        assert(a[p[0]].children == c);
        if q.len() > 1 {
            lemma_attach_paths(n.children, p.drop_first(), x, q.drop_first());
            assert(node_at(a, q) == node_at(c, q.drop_first()));
        }
    }
    if valid_path(nodes, q) {
        crate::tree::lemma_attach_keeps_path(nodes, p, x, q);
    }
}

proof fn lemma_round_keeps_occurs(nodes: Seq<Node>, pending: Seq<Node>, id: u128)
    requires
        occurs(nodes, id, 1),
    ensures
        occurs(round(nodes, pending).0, id, 1),
    decreases pending.len(),
{
    if pending.len() > 0 {
        let prev = round(nodes, pending.drop_last());
        let x = pending.last();
        lemma_round_keeps_occurs(nodes, pending.drop_last(), id);
        match find_in(prev.0, parent_of(x), 1) {
            Some(p) => {
                lemma_find_in(prev.0, parent_of(x), 1);
                lemma_attach_keeps_occurs(prev.0, p, x, id);
            },
            None => {},
        }
    }
}

/// A pass places the pending element at `j` when the forest holds its
/// parent within the levels the search covers, so fewer remain pending.
proof fn lemma_round_shrinks(nodes: Seq<Node>, pending: Seq<Node>, j: int)
    requires
        0 <= j < pending.len(),
        occurs(nodes, parent_of(pending[j]), 1),
    ensures
        round(nodes, pending).1.len() < pending.len(),
    decreases pending.len(),
{
    let pd = pending.drop_last();
    let prev = round(nodes, pd);
    let x = pending.last();
    lemma_round_rest(nodes, pd);
    if j == pending.len() - 1 {
        lemma_round_keeps_occurs(nodes, pd, parent_of(x));
        lemma_find_complete(prev.0, parent_of(x), 1);
    } else {
        assert(pd[j] == pending[j]);
        lemma_round_shrinks(nodes, pd, j);
    }
}

/// A pass keeps the forest's elements at their levels: a pending element
/// goes under a node with its parent's id, one level below it.
proof fn lemma_round_levels(nodes: Seq<Node>, pending: Seq<Node>, es: Seq<Element>, lvl: spec_fn(Element) -> int)
    requires
        leveled(es, lvl),
        levels_right(nodes, lvl),
        pending_leaves(pending),
        forall|e: Element| #[trigger] elements_of(nodes).add(elements_of(pending)).count(e) > 0 ==> es.contains(e),
    ensures
        levels_right(round(nodes, pending).0, lvl),
    decreases pending.len(),
{
    if pending.len() > 0 {
        let pd = pending.drop_last();
        let x = pending.last();
        assert(pending =~= pd.push(x));
        crate::tree::lemma_elements_push(pd, x);
        assert forall|j: int| 0 <= j < pd.len() implies (#[trigger] pd[j]).children.len() == 0 && !is_root(pd[j].element) by {
            assert(pd[j] == pending[j]);
        }
        assert forall|e: Element| #[trigger] elements_of(nodes).add(elements_of(pd)).count(e) > 0 implies es.contains(e) by {
            assert(elements_of(nodes).add(elements_of(pending)).count(e) > 0);
        }
        lemma_round_levels(nodes, pd, es, lvl);
        let prev = round(nodes, pd);
        lemma_elements_round(nodes, pd);
        assert(round(nodes, pending) == place(prev, x));
        match find_in(prev.0, parent_of(x), 1) {
            Some(p) => {
                lemma_find_in(prev.0, parent_of(x), 1);
                let f = node_at(prev.0, p).element;
                lemma_path_counted(prev.0, p);
                assert(elements_of(prev.0).add(elements_of(prev.1)).count(f) > 0);
                assert(elements_of(nodes).add(elements_of(pd)).count(f) > 0);
                assert(es.contains(f));
                assert(pending[pending.len() - 1] == x);
                assert(elements_of(pending).count(x.element) > 0);
                assert(elements_of(nodes).add(elements_of(pending)).count(x.element) > 0);
                assert(es.contains(x.element));
                assert(lvl(x.element) == lvl(f) + 1);
                assert(lvl(f) == p.len());
                let a = attach(prev.0, p, x);
                assert forall|q: Seq<int>| #[trigger] valid_path(a, q) implies lvl(node_at(a, q).element) == q.len() by {
                    lemma_attach_paths(prev.0, p, x, q);
                }
            },
            None => {},
        }
    }
}

proof fn lemma_min_level(s: Seq<Node>, lvl: spec_fn(Element) -> int) -> (j0: int)
    requires
        s.len() > 0,
    ensures
        0 <= j0 < s.len(),
        forall|j: int| 0 <= j < s.len() ==> lvl(s[j0].element) <= lvl(#[trigger] s[j].element),
    decreases s.len(),
{
    if s.len() == 1 {
        0
    } else {
        let d = s.drop_last();
        let k = lemma_min_level(d, lvl);
        assert forall|j: int| 0 <= j < d.len() implies lvl(d[k].element) <= lvl(#[trigger] s[j].element) by {
            assert(lvl(d[k].element) <= lvl(d[j].element));
        }
        if lvl(s.last().element) < lvl(d[k].element) {
            s.len() - 1
        } else {
            k
        }
    }
}

/// In any state of the placing with pending elements, a pass places one.
proof fn lemma_state_progress(nodes: Seq<Node>, pending: Seq<Node>, es: Seq<Element>, lvl: spec_fn(Element) -> int)
    requires
        leveled(es, lvl),
        placing_state(nodes, pending, es, lvl),
        pending.len() > 0,
    ensures
        round(nodes, pending).1.len() < pending.len(),
{
    broadcast use vstd::seq_lib::to_multiset_contains;
    let j0 = lemma_min_level(pending, lvl);
    let x = pending[j0];
    let q0 = seq![j0];
    assert(valid_path(pending, q0));
    lemma_path_counted(pending, q0);
    assert(es.to_multiset().count(x.element) > 0);
    assert(es.contains(x.element));
    assert(!is_root(x.element));
    let f = choose|f: Element| #[trigger] es.contains(f) && f.id == x.element.parent.unwrap();
    assert(lvl(x.element) == lvl(f) + 1);
    assert(es.to_multiset().count(f) > 0);
    if elements_of(pending).count(f) > 0 {
        lemma_counted_leaf(pending, f);
        let j = choose|j: int| 0 <= j < pending.len() && (#[trigger] pending[j]).element == f;
        assert(lvl(x.element) <= lvl(pending[j].element));
        assert(false);
    }
    assert(elements_of(nodes).count(f) > 0);
    lemma_counted_path(nodes, f);
    let q = choose|q: Seq<int>| #[trigger] valid_path(nodes, q) && node_at(nodes, q).element == f;
    assert(q.len() == lvl(f));
    assert(valid_path(nodes, q) && q.len() <= search_limit() - 1 && node_at(nodes, q).element.id == parent_of(x));
    assert(occurs(nodes, parent_of(pending[j0]), 1));
    lemma_round_shrinks(nodes, pending, j0);
}

proof fn lemma_state_settles(nodes: Seq<Node>, pending: Seq<Node>, es: Seq<Element>, lvl: spec_fn(Element) -> int)
    requires
        leveled(es, lvl),
        placing_state(nodes, pending, es, lvl),
    ensures
        settles(nodes, pending),
    decreases pending.len(),
{
    broadcast use vstd::seq_lib::to_multiset_contains;
    if pending.len() > 0 {
        let r = round(nodes, pending);
        lemma_state_progress(nodes, pending, es, lvl);
        lemma_elements_round(nodes, pending);
        assert forall|e: Element| #[trigger] elements_of(nodes).add(elements_of(pending)).count(e) > 0 implies es.contains(e) by {
            assert(es.to_multiset().count(e) > 0);
        }
        lemma_round_levels(nodes, pending, es, lvl);
        lemma_round_rest(nodes, pending);
        assert forall|j: int| 0 <= j < r.1.len() implies (#[trigger] r.1[j]).children.len() == 0 && !is_root(r.1[j].element) by {
            assert(pending.contains(r.1[j]));
        }
        lemma_state_settles(r.0, r.1, es, lvl);
    }
}

proof fn lemma_tree_parts_leaves(es: Seq<Element>, ss: Seq<Seq<Source>>)
    ensures
        forall|i: int| 0 <= i < tree_parts(es, ss).0.len() ==>
            (#[trigger] tree_parts(es, ss).0[i]).children.len() == 0 && is_root(tree_parts(es, ss).0[i].element),
        pending_leaves(tree_parts(es, ss).1),
    decreases es.len(),
{
    if es.len() > 0 {
        lemma_tree_parts_leaves(es.drop_last(), ss);
        let prev = tree_parts(es.drop_last(), ss);
        let t = tree_parts(es, ss);
        assert forall|i: int| 0 <= i < t.0.len() implies (#[trigger] t.0[i]).children.len() == 0 && is_root(t.0[i].element) by {
            if i < prev.0.len() {
                assert(t.0[i] == prev.0[i]);
            }
        }
        assert forall|j: int| 0 <= j < t.1.len() implies (#[trigger] t.1[j]).children.len() == 0 && !is_root(t.1[j].element) by {
            if j < prev.1.len() {
                assert(t.1[j] == prev.1[j]);
            }
        }
    }
}

/// The rows of a twin settle when their parents can be given levels (see
/// `leveled`): every parent named is among the rows, the parents form no
/// cycle, and no chain is deeper than the search's limit.  The tree is then
/// built, whatever order the rows come in.
pub proof fn lemma_leveled_rows_settle(es: Seq<Element>, ss: Seq<Seq<Source>>, lvl: spec_fn(Element) -> int)
    requires
        leveled(es, lvl),
    ensures
        settles(tree_parts(es, ss).0, tree_parts(es, ss).1),
{
    let parts = tree_parts(es, ss);
    lemma_elements_tree_parts(es, ss);
    lemma_tree_parts_leaves(es, ss);
    assert forall|q: Seq<int>| #[trigger] valid_path(parts.0, q) implies lvl(node_at(parts.0, q).element) == q.len() by {
        assert(parts.0[q[0]].children.len() == 0);
        if q.len() > 1 {
            assert(valid_path(parts.0[q[0]].children, q.drop_first()));
        }
        assert(q.len() == 1);
        assert(es.to_multiset().count(parts.0[q[0]].element) > 0) by {
            lemma_path_counted(parts.0, q);
        }
        vstd::seq_lib::to_multiset_contains(es, parts.0[q[0]].element);
    }
    assert(elements_of(parts.0).add(elements_of(parts.1)) == es.to_multiset());
    lemma_state_settles(parts.0, parts.1, es, lvl);
}

/// The listing of a twin's elements as a tree is built, and holds the same
/// elements as the flat listing, whenever the rows read can be given levels:
/// known parents, no cycle, no chain deeper than the search reaches.
pub proof fn lemma_leveled_listing_agrees(v: Seq<Element>, ss: Seq<Seq<Source>>, lvl: spec_fn(Element) -> int)
    requires
        leveled(v, lvl),
    ensures
        settles(tree_parts(sorted_by_parent(v), ss).0, tree_parts(sorted_by_parent(v), ss).1),
        elements_of(crate::tree::settle(tree_parts(sorted_by_parent(v), ss).0, tree_parts(sorted_by_parent(v), ss).1))
            == v.to_multiset(),
{
    broadcast use vstd::seq_lib::to_multiset_contains;
    let w = sorted_by_parent(v);
    lemma_sort_is_permutation(v);
    assert forall|e: Element| #[trigger] w.contains(e) implies v.contains(e) by {
        assert(w.to_multiset().count(e) > 0);
    }
    assert forall|e: Element| #[trigger] v.contains(e) implies w.contains(e) by {
        assert(v.to_multiset().count(e) > 0);
    }
    assert(leveled(w, lvl));
    lemma_leveled_rows_settle(w, ss, lvl);
    crate::tree::lemma_tree_and_flat_listings_agree(v, ss);
}

/// The node carries one of the given elements with the sources given for it.
pub open spec fn carries(es: Seq<Element>, ss: Seq<Seq<Source>>, n: Node) -> bool {
    exists|i: int| 0 <= i < es.len() && #[trigger] es[i] == n.element && ss[i] == n.sources
}

/// Every node of the forest carries one of the given elements with its sources.
pub open spec fn all_carry(nodes: Seq<Node>, es: Seq<Element>, ss: Seq<Seq<Source>>) -> bool {
    forall|q: Seq<int>| #[trigger] valid_path(nodes, q) ==> carries(es, ss, node_at(nodes, q))
}

/// Pending trees of one element, each carrying its sources.
pub open spec fn leaves_carry(pending: Seq<Node>, es: Seq<Element>, ss: Seq<Seq<Source>>) -> bool {
    forall|j: int| 0 <= j < pending.len() ==> (#[trigger] pending[j]).children.len() == 0 && carries(es, ss, pending[j])
}

proof fn lemma_round_carries(nodes: Seq<Node>, pending: Seq<Node>, es: Seq<Element>, ss: Seq<Seq<Source>>)
    requires
        all_carry(nodes, es, ss),
        leaves_carry(pending, es, ss),
    ensures
        all_carry(round(nodes, pending).0, es, ss),
    decreases pending.len(),
{
    if pending.len() > 0 {
        let pd = pending.drop_last();
        let x = pending.last();
        assert forall|j: int| 0 <= j < pd.len() implies (#[trigger] pd[j]).children.len() == 0 && carries(es, ss, pd[j]) by {
            assert(pd[j] == pending[j]);
        }
        lemma_round_carries(nodes, pd, es, ss);
        let prev = round(nodes, pd);
        assert(round(nodes, pending) == place(prev, x));
        assert(pending[pending.len() - 1] == x);
        match find_in(prev.0, parent_of(x), 1) {
            Some(p) => {
                lemma_find_in(prev.0, parent_of(x), 1);
                let a = attach(prev.0, p, x);
                assert forall|q: Seq<int>| #[trigger] valid_path(a, q) implies carries(es, ss, node_at(a, q)) by {
                    lemma_attach_paths(prev.0, p, x, q);
                    if valid_path(prev.0, q) && node_at(a, q).element == node_at(prev.0, q).element
                        && node_at(a, q).sources == node_at(prev.0, q).sources {
                        assert(carries(es, ss, node_at(prev.0, q)));
                        let i = choose|i: int| 0 <= i < es.len() && #[trigger] es[i] == node_at(prev.0, q).element
                            && ss[i] == node_at(prev.0, q).sources;
                        assert(es[i] == node_at(a, q).element);
                    }
                }
            },
            None => {},
        }
    }
}

proof fn lemma_settle_carries(nodes: Seq<Node>, pending: Seq<Node>, es: Seq<Element>, ss: Seq<Seq<Source>>)
    requires
        all_carry(nodes, es, ss),
        leaves_carry(pending, es, ss),
    ensures
        all_carry(crate::tree::settle(nodes, pending), es, ss),
    decreases pending.len(),
{
    if pending.len() > 0 {
        let r = round(nodes, pending);
        lemma_round_carries(nodes, pending, es, ss);
        lemma_round_rest(nodes, pending);
        assert forall|j: int| 0 <= j < r.1.len() implies (#[trigger] r.1[j]).children.len() == 0 && carries(es, ss, r.1[j]) by {
            assert(pending.contains(r.1[j]));
        }
        if r.1.len() < pending.len() {
            lemma_settle_carries(r.0, r.1, es, ss);
        }
    }
}

proof fn lemma_tree_parts_carry(es: Seq<Element>, ss: Seq<Seq<Source>>)
    ensures
        leaves_carry(tree_parts(es, ss).0, es, ss),
        leaves_carry(tree_parts(es, ss).1, es, ss),
    decreases es.len(),
{
    if es.len() > 0 {
        let d = es.drop_last();
        lemma_tree_parts_carry(d, ss);
        let prev = tree_parts(d, ss);
        let t = tree_parts(es, ss);
        let k = es.len() - 1;
        assert(es[k] == es.last());
        assert forall|j: int| 0 <= j < prev.0.len() implies carries(es, ss, #[trigger] prev.0[j]) by {
            let i = choose|i: int| 0 <= i < d.len() && #[trigger] d[i] == prev.0[j].element && ss[i] == prev.0[j].sources;
            assert(es[i] == d[i]);
        }
        assert forall|j: int| 0 <= j < prev.1.len() implies carries(es, ss, #[trigger] prev.1[j]) by {
            let i = choose|i: int| 0 <= i < d.len() && #[trigger] d[i] == prev.1[j].element && ss[i] == prev.1[j].sources;
            assert(es[i] == d[i]);
        }
        assert forall|j: int| 0 <= j < t.0.len() implies (#[trigger] t.0[j]).children.len() == 0 && carries(es, ss, t.0[j]) by {
            if j < prev.0.len() {
                assert(t.0[j] == prev.0[j]);
            }
        }
        assert forall|j: int| 0 <= j < t.1.len() implies (#[trigger] t.1[j]).children.len() == 0 && carries(es, ss, t.1[j]) by {
            if j < prev.1.len() {
                assert(t.1[j] == prev.1[j]);
            }
        }
    }
}

/// In the tree of a twin every node, nested or top-level, carries the
/// sources given for its element: the node of an element `es[i]` holds
/// exactly `ss[i]`, none dropped, none taken from another element.
pub proof fn lemma_tree_nodes_carry_their_sources(es: Seq<Element>, ss: Seq<Seq<Source>>)
    ensures
        forall|q: Seq<int>| #[trigger] valid_path(crate::tree::settle(tree_parts(es, ss).0, tree_parts(es, ss).1), q)
            ==> exists|i: int| 0 <= i < es.len()
                && #[trigger] es[i] == node_at(crate::tree::settle(tree_parts(es, ss).0, tree_parts(es, ss).1), q).element
                && ss[i] == node_at(crate::tree::settle(tree_parts(es, ss).0, tree_parts(es, ss).1), q).sources,
{
    let parts = tree_parts(es, ss);
    lemma_tree_parts_carry(es, ss);
    assert forall|q: Seq<int>| #[trigger] valid_path(parts.0, q) implies carries(es, ss, node_at(parts.0, q)) by {
        assert(parts.0[q[0]].children.len() == 0);
        if q.len() > 1 {
            assert(valid_path(parts.0[q[0]].children, q.drop_first()));
        }
    }
    lemma_settle_carries(parts.0, parts.1, es, ss);
    let tree = crate::tree::settle(parts.0, parts.1);
    assert forall|q: Seq<int>| #[trigger] valid_path(tree, q) implies exists|i: int| 0 <= i < es.len()
        && #[trigger] es[i] == node_at(tree, q).element && ss[i] == node_at(tree, q).sources by {
        assert(carries(es, ss, node_at(tree, q)));
    }
}

} // verus!
