use vstd::prelude::*;
use crate::models::{Element, Source};
use vstd::multiset::Multiset;
use crate::order::{is_root, lemma_sort_is_permutation, sorted_by_parent};

verus! {

/// An element together with its sources and the elements nested under it.
#[derive(Debug, PartialEq)]
pub struct ElementSerialized {
    pub element: Element,
    pub sources: Vec<Source>,
    pub children: Vec<ElementSerialized>,
}

/// The mathematical value of an `ElementSerialized`.
pub struct Node {
    pub element: Element,
    pub sources: Seq<Source>,
    pub children: Seq<Node>,
}

impl ElementSerialized {
    pub open spec fn node(&self) -> Node
        decreases self,
    {
        Node { element: self.element, sources: self.sources@, children: forest(self.children@) }
    }
}

/// The values of a sequence of element trees.
pub open spec fn forest(s: Seq<ElementSerialized>) -> Seq<Node>
    decreases s,
{
    if s.len() == 0 {
        Seq::empty()
    } else {
        forest(s.drop_last()).push(s.last().node())
    }
}

pub proof fn lemma_forest(s: Seq<ElementSerialized>)
    ensures
        forest(s).len() == s.len(),
        forall|i: int| 0 <= i < s.len() ==> #[trigger] forest(s)[i] == s[i].node(),
    decreases s.len(),
{
    if s.len() > 0 {
        lemma_forest(s.drop_last());
    }
}

pub proof fn lemma_forest_update(s: Seq<ElementSerialized>, i: int, x: ElementSerialized)
    requires
        0 <= i < s.len(),
    ensures
        forest(s.update(i, x)) == forest(s).update(i, x.node()),
{
    lemma_forest(s);
    lemma_forest(s.update(i, x));
    assert(forest(s.update(i, x)) =~= forest(s).update(i, x.node()));
}

pub proof fn lemma_forest_push(s: Seq<ElementSerialized>, x: ElementSerialized)
    ensures
        forest(s.push(x)) == forest(s).push(x.node()),
{
    assert(s.push(x).drop_last() =~= s);
}

/// The parent an element names; only elements that have one are placed.
pub open spec fn parent_of(n: Node) -> u128 {
    n.element.parent.unwrap()
}

/// The level at which the search for an element stops looking further
/// down; the top level is level 1.
pub const SEARCH_LIMIT: usize = 10;

/// `SEARCH_LIMIT` as an integer.
pub open spec fn search_limit() -> int {
    SEARCH_LIMIT as int
}

/// Path of indices to the first node, in depth-first order, whose element
/// has the given id; the search covers the levels from `depth` to below the
/// limit.
pub open spec fn find_in(nodes: Seq<Node>, id: u128, depth: int) -> Option<Seq<int>>
    decreases search_limit() - depth, nodes.len() + 1,
{
    if depth >= search_limit() {
        None
    } else {
        find_from(nodes, id, depth, 0)
    }
}

/// The search of `find_in`, started at position `i` of `nodes`.
pub open spec fn find_from(nodes: Seq<Node>, id: u128, depth: int, i: int) -> Option<Seq<int>>
    decreases search_limit() - depth, nodes.len() - i,
{
    if depth >= search_limit() || i < 0 || i >= nodes.len() {
        None
    } else if nodes[i].element.id == id {
        Some(seq![i])
    } else {
        match find_in(nodes[i].children, id, depth + 1) {
            Some(p) => Some(seq![i] + p),
            None => find_from(nodes, id, depth, i + 1),
        }
    }
}

/// A path of exec indices read as integers.
pub open spec fn path_of(p: Seq<usize>) -> Seq<int> {
    p.map_values(|x: usize| x as int)
}

/// Looks for the element with the given id, depth first, among `elements`
/// and below them, on the levels from `count` to below the search limit.
/// Answers the path of indices that leads to it.
#[verifier::spinoff_prover]
pub fn find_element(elements: &Vec<ElementSerialized>, id: u128, count: usize) -> (r: Option<Vec<usize>>)
    ensures
        match r {
            Some(p) => find_in(forest(elements@), id, count as int) == Some(path_of(p@)),
            None => find_in(forest(elements@), id, count as int) is None,
        },
    decreases SEARCH_LIMIT - count,
{
    if count >= SEARCH_LIMIT {
        return None;
    }
    let ghost nodes = forest(elements@);
    proof {
        lemma_forest(elements@);
    }
    let n = elements.len();
    for i in 0..n
        invariant
            n == elements@.len(),
            nodes == forest(elements@),
            nodes.len() == n,
            count < SEARCH_LIMIT,
            forall|k: int| 0 <= k < n ==> #[trigger] nodes[k] == elements@[k].node(),
            find_in(nodes, id, count as int) == find_from(nodes, id, count as int, i as int),
    {
        if elements[i].element.id == id {
            let mut p: Vec<usize> = Vec::new();
            p.push(i);
            proof {
                assert(path_of(p@) =~= seq![i as int]);
            }
            return Some(p);
        }
        if elements[i].children.len() > 0 {
            let found = find_element(&elements[i].children, id, count + 1);
            match found {
                Some(sub) => {
                    let mut p: Vec<usize> = Vec::new();
                    p.push(i);
                    let mut k: usize = 0;
                    while k < sub.len()
                        invariant
                            k <= sub@.len(),
                            path_of(p@) =~= seq![i as int] + path_of(sub@).take(k as int),
                        decreases sub@.len() - k,
                    {
                        proof {
                            assert(path_of(sub@).take(k + 1) =~= path_of(sub@).take(k as int).push(sub@[k as int] as int));
                        }
                        let ghost old_p = p@;
                        p.push(sub[k]);
                        proof {
                            assert(path_of(p@) =~= path_of(old_p).push(sub@[k as int] as int));
                            assert(path_of(p@) =~= seq![i as int] + path_of(sub@).take(k + 1));
                        }
                        k = k + 1;
                    }
                    proof {
                        assert(path_of(sub@).take(sub@.len() as int) =~= path_of(sub@));
                    }
                    return Some(p);
                },
                None => {
                    assert(nodes[i as int].children == forest(elements@[i as int].children@));
                    assert(find_from(nodes, id, count as int, i as int) == find_from(nodes, id, count as int, i + 1));
                },
            }
        } else {
            proof {
                assert(nodes[i as int].children =~= Seq::<Node>::empty()) by {
                    lemma_forest(elements@[i as int].children@);
                }
                assert(find_from(nodes[i as int].children, id, count + 1, 0) is None);
            }
        }
    }
    None
}

/// `p` leads from `nodes` down to a node: each index is in range at its level.
pub open spec fn valid_path(nodes: Seq<Node>, p: Seq<int>) -> bool
    decreases p.len(),
{
    &&& p.len() >= 1
    &&& 0 <= p[0] < nodes.len()
    &&& (p.len() == 1 || valid_path(nodes[p[0]].children, p.drop_first()))
}

/// The node that a valid path leads to.
pub open spec fn node_at(nodes: Seq<Node>, p: Seq<int>) -> Node
    decreases p.len(),
{
    if p.len() <= 1 {
        nodes[p[0]]
    } else {
        node_at(nodes[p[0]].children, p.drop_first())
    }
}

/// The forest with `x` appended to the children of the node at `p`.
pub open spec fn attach(nodes: Seq<Node>, p: Seq<int>, x: Node) -> Seq<Node>
    decreases p.len(),
{
    if p.len() == 0 {
        nodes
    } else if p.len() == 1 {
        nodes.update(p[0], Node { children: nodes[p[0]].children.push(x), ..nodes[p[0]] })
    } else {
        nodes.update(p[0], Node { children: attach(nodes[p[0]].children, p.drop_first(), x), ..nodes[p[0]] })
    }
}

/// What a search finds is a node with the id sought, no deeper than the limit.
pub proof fn lemma_find_in(nodes: Seq<Node>, id: u128, depth: int)
    ensures
        find_in(nodes, id, depth) matches Some(p) ==> {
            &&& valid_path(nodes, p)
            &&& node_at(nodes, p).element.id == id
            &&& p.len() <= search_limit() - depth
        },
    decreases search_limit() - depth, nodes.len() + 1,
{
    if depth < search_limit() {
        lemma_find_from(nodes, id, depth, 0);
    }
}

pub proof fn lemma_find_from(nodes: Seq<Node>, id: u128, depth: int, i: int)
    ensures
        find_from(nodes, id, depth, i) matches Some(p) ==> {
            &&& valid_path(nodes, p)
            &&& node_at(nodes, p).element.id == id
            &&& p.len() <= search_limit() - depth
        },
    decreases search_limit() - depth, nodes.len() - i,
{
    if depth >= search_limit() || i < 0 || i >= nodes.len() {
    } else if nodes[i].element.id == id {
    } else {
        lemma_find_in(nodes[i].children, id, depth + 1);
        match find_in(nodes[i].children, id, depth + 1) {
            Some(q) => {
                let p = seq![i] + q;
                assert(p.drop_first() =~= q);
            },
            None => {
                lemma_find_from(nodes, id, depth, i + 1);
            },
        }
    }
}

/// Some node among `nodes`, or below them on the levels from `depth` to
/// below the search limit, has the element with the id: a path no longer
/// than the levels left leads to it.
pub open spec fn occurs(nodes: Seq<Node>, id: u128, depth: int) -> bool {
    exists|p: Seq<int>|
        #[trigger] valid_path(nodes, p) && p.len() <= search_limit() - depth && node_at(nodes, p).element.id == id
}

proof fn lemma_find_from_finds(nodes: Seq<Node>, id: u128, depth: int, i: int, p: Seq<int>)
    requires
        valid_path(nodes, p),
        p.len() <= search_limit() - depth,
        node_at(nodes, p).element.id == id,
        0 <= i <= p[0],
    ensures
        find_from(nodes, id, depth, i) is Some,
    decreases search_limit() - depth, nodes.len() - i,
{
    if nodes[i].element.id != id && find_in(nodes[i].children, id, depth + 1) is None {
        if i == p[0] {
            if p.len() > 1 {
                lemma_find_in_finds(nodes[i].children, id, depth + 1, p.drop_first());
            }
        } else {
            lemma_find_from_finds(nodes, id, depth, i + 1, p);
        }
    }
}

proof fn lemma_find_in_finds(nodes: Seq<Node>, id: u128, depth: int, p: Seq<int>)
    requires
        valid_path(nodes, p),
        p.len() <= search_limit() - depth,
        node_at(nodes, p).element.id == id,
    ensures
        find_in(nodes, id, depth) is Some,
    decreases search_limit() - depth, nodes.len() + 1,
{
    lemma_find_from_finds(nodes, id, depth, 0, p);
}

/// The search finds an element exactly when it occurs on the levels it
/// covers: no element within them is missed.
pub proof fn lemma_find_complete(nodes: Seq<Node>, id: u128, depth: int)
    ensures
        find_in(nodes, id, depth) is Some <==> occurs(nodes, id, depth),
{
    lemma_find_in(nodes, id, depth);
    if occurs(nodes, id, depth) {
        let p = choose|p: Seq<int>|
            #[trigger] valid_path(nodes, p) && p.len() <= search_limit() - depth && node_at(nodes, p).element.id == id;
        lemma_find_in_finds(nodes, id, depth, p);
    }
    if find_in(nodes, id, depth) is Some {
        let p = find_in(nodes, id, depth).unwrap();
        assert(valid_path(nodes, p) && p.len() <= search_limit() - depth && node_at(nodes, p).element.id == id);
    }
}

/// `q` comes before `p` in depth-first order: at the first place where they
/// differ `q`'s index is the smaller, or `q` leads to an ancestor of `p`'s node.
pub open spec fn precedes(q: Seq<int>, p: Seq<int>) -> bool
    decreases q.len(),
{
    &&& q.len() >= 1
    &&& p.len() >= 1
    &&& (q[0] < p[0] || (q[0] == p[0] && if q.len() == 1 {
        p.len() > 1
    } else {
        precedes(q.drop_first(), p.drop_first())
    }))
}

proof fn lemma_find_in_first(nodes: Seq<Node>, id: u128, depth: int, q: Seq<int>)
    requires
        find_in(nodes, id, depth) is Some,
        valid_path(nodes, q),
        q.len() <= search_limit() - depth,
        precedes(q, find_in(nodes, id, depth).unwrap()),
    ensures
        node_at(nodes, q).element.id != id,
    decreases search_limit() - depth, nodes.len() + 1,
{
    lemma_find_from_first(nodes, id, depth, 0, q);
}

proof fn lemma_find_from_first(nodes: Seq<Node>, id: u128, depth: int, i: int, q: Seq<int>)
    requires
        find_from(nodes, id, depth, i) is Some,
        valid_path(nodes, q),
        q.len() <= search_limit() - depth,
        q[0] >= i,
        precedes(q, find_from(nodes, id, depth, i).unwrap()),
    ensures
        node_at(nodes, q).element.id != id,
    decreases search_limit() - depth, nodes.len() - i,
{
    let p = find_from(nodes, id, depth, i).unwrap();
    if nodes[i].element.id == id {
        assert(p == seq![i]);
        if q.len() > 1 {
            assert(!precedes(q.drop_first(), p.drop_first()));
        }
        assert(false);
    } else {
        if q.len() == 1 {
            assert(node_at(nodes, q) == nodes[q[0]]);
        }
        let c = nodes[i].children;
        match find_in(c, id, depth + 1) {
            Some(p1) => {
                assert(p == seq![i] + p1);
                assert(p[0] == i);
                assert(p.drop_first() =~= p1);
                if q.len() > 1 {
                    assert(q[0] == i);
                    assert(node_at(nodes, q) == node_at(c, q.drop_first()));
                    lemma_find_in_first(c, id, depth + 1, q.drop_first());
                }
            },
            None => {
                if q[0] == i {
                    if q.len() > 1 {
                        assert(node_at(nodes, q) == node_at(c, q.drop_first()));
                        if node_at(c, q.drop_first()).element.id == id {
                            assert(valid_path(c, q.drop_first()));
                            lemma_find_complete(c, id, depth + 1);
                            assert(occurs(c, id, depth + 1));
                        }
                    }
                } else {
                    assert(p == find_from(nodes, id, depth, i + 1).unwrap());
                    lemma_find_from_first(nodes, id, depth, i + 1, q);
                }
            },
        }
    }
}

/// The search finds the first node with the id in depth-first order: no
/// node before it, on the levels the search covers, has the id.
pub proof fn lemma_find_is_first(nodes: Seq<Node>, id: u128, depth: int, q: Seq<int>)
    requires
        find_in(nodes, id, depth) is Some,
        valid_path(nodes, q),
        q.len() <= search_limit() - depth,
        precedes(q, find_in(nodes, id, depth).unwrap()),
    ensures
        node_at(nodes, q).element.id != id,
{
    lemma_find_in_first(nodes, id, depth, q);
}

/// Appends `child` under the node that `path[k..]` leads to.
pub fn add_child_at(elements: &mut Vec<ElementSerialized>, path: &Vec<usize>, k: usize, child: ElementSerialized)
    requires
        k < path@.len(),
        valid_path(forest(old(elements)@), path_of(path@).skip(k as int)),
    ensures
        forest(final(elements)@) == attach(forest(old(elements)@), path_of(path@).skip(k as int), child.node()),
    decreases path@.len() - k,
{
    let i = path[k];
    let ghost p = path_of(path@).skip(k as int);
    proof {
        lemma_forest(elements@);
        assert(p[0] == i as int);
    }
    if k == path.len() - 1 {
        elements[i].add_child(child);
        proof {
            lemma_forest_update(old(elements)@, i as int, elements@[i as int]);
            assert(elements@ == old(elements)@.update(i as int, elements@[i as int]));
        }
    } else {
        proof {
            assert(p.drop_first() =~= path_of(path@).skip(k + 1));
        }
        add_child_at(&mut elements[i].children, path, k + 1, child);
        proof {
            lemma_forest_update(old(elements)@, i as int, elements@[i as int]);
            assert(elements@ == old(elements)@.update(i as int, elements@[i as int]));
        }
    }
}

/// Places one pending element: under the node its parent names when the
/// search finds it, else it stays pending.
pub open spec fn place(state: (Seq<Node>, Seq<Node>), x: Node) -> (Seq<Node>, Seq<Node>) {
    match find_in(state.0, parent_of(x), 1) {
        Some(p) => (attach(state.0, p, x), state.1),
        None => (state.0, state.1.push(x)),
    }
}

/// One pass over the pending elements, in order: the forest after it and
/// the elements still pending.
pub open spec fn round(nodes: Seq<Node>, pending: Seq<Node>) -> (Seq<Node>, Seq<Node>)
    decreases pending.len(),
{
    if pending.len() == 0 {
        (nodes, Seq::empty())
    } else {
        place(round(nodes, pending.drop_last()), pending.last())
    }
}

/// Every element names a parent.
pub open spec fn all_have_parents(s: Seq<Node>) -> bool {
    forall|i: int| 0 <= i < s.len() ==> (#[trigger] s[i]).element.parent is Some
}

/// Passes are repeated while elements remain pending; this holds when every
/// pass places at least one of them, so that the repetition ends.
pub open spec fn settles(nodes: Seq<Node>, pending: Seq<Node>) -> bool
    decreases pending.len(),
{
    if pending.len() == 0 {
        true
    } else {
        let r = round(nodes, pending);
        if r.1.len() < pending.len() {
            settles(r.0, r.1)
        } else {
            false
        }
    }
}

/// The forest once the passes have placed every pending element.
pub open spec fn settle(nodes: Seq<Node>, pending: Seq<Node>) -> Seq<Node>
    decreases pending.len(),
{
    if pending.len() == 0 {
        nodes
    } else {
        let r = round(nodes, pending);
        if r.1.len() < pending.len() {
            settle(r.0, r.1)
        } else {
            r.0
        }
    }
}

/// A pass keeps pending only elements that were pending, in their order.
pub proof fn lemma_round_rest(nodes: Seq<Node>, pending: Seq<Node>)
    ensures
        round(nodes, pending).1.len() <= pending.len(),
        forall|j: int| 0 <= j < round(nodes, pending).1.len() ==>
            pending.contains(#[trigger] round(nodes, pending).1[j]),
    decreases pending.len(),
{
    if pending.len() > 0 {
        lemma_round_rest(nodes, pending.drop_last());
        let r = round(nodes, pending.drop_last());
        assert forall|j: int| 0 <= j < round(nodes, pending).1.len() implies
            pending.contains(#[trigger] round(nodes, pending).1[j]) by {
            if j < r.1.len() {
                assert(r.1[j] == round(nodes, pending).1[j]);
                assert(pending.drop_last().contains(r.1[j]));
            } else {
                assert(round(nodes, pending).1[j] == pending[pending.len() - 1]);
            }
        }
    }
}

/// One pass over `pending`: each element, in order, is appended under the
/// node its parent names if the search from the top level finds it;
/// the others are answered, in order, to be placed in a later pass.
pub fn place_round(elements: &mut Vec<ElementSerialized>, pending: &Vec<ElementSerialized>) -> (rest: Vec<ElementSerialized>)
    requires
        all_have_parents(forest(pending@)),
    ensures
        (forest(final(elements)@), forest(rest@)) == round(forest(old(elements)@), forest(pending@)),
{
    let ghost nodes0 = forest(elements@);
    let ghost pend = forest(pending@);
    let mut next: Vec<ElementSerialized> = Vec::new();
    proof {
        lemma_forest(pending@);
        assert(pend.take(0) =~= Seq::<Node>::empty());
    }
    let n = pending.len();
    for i in 0..n
        invariant
            n == pending@.len(),
            pend == forest(pending@),
            pend.len() == n,
            forall|k: int| 0 <= k < n ==> #[trigger] pend[k] == pending@[k].node(),
            all_have_parents(pend),
            (forest(elements@), forest(next@)) == round(nodes0, pend.take(i as int)),
    {
        proof {
            assert(pend.take(i + 1).drop_last() =~= pend.take(i as int));
            assert(pend[i as int].element.parent is Some);
        }
        let parent = match pending[i].element.parent {
            Some(p) => p,
            None => 0,
        };
        let found = find_element(elements, parent, 1);
        match found {
            Some(path) => {
                proof {
                    lemma_find_in(forest(elements@), parent, 1);
                    assert(path_of(path@).skip(0) =~= path_of(path@));
                }
                let c = pending[i].duplicate();
                add_child_at(elements, &path, 0, c);
            },
            None => {
                let c = pending[i].duplicate();
                proof {
                    lemma_forest_push(next@, c);
                }
                next.push(c);
            },
        }
    }
    proof {
        assert(pend.take(n as int) =~= pend);
    }
    next
}

/// Places the pending elements `child_elements` under their parents in
/// `elements`, pass after pass, until none remains pending.  The pending
/// elements themselves are left as they were.
pub fn handle_parentless_elements(elements: &mut Vec<ElementSerialized>, child_elements: &mut Vec<ElementSerialized>)
    requires
        all_have_parents(forest(old(child_elements)@)),
        settles(forest(old(elements)@), forest(old(child_elements)@)),
    ensures
        forest(final(elements)@) == settle(forest(old(elements)@), forest(old(child_elements)@)),
        final(child_elements)@ == old(child_elements)@,
    decreases old(child_elements)@.len(),
{
    proof {
        lemma_forest(child_elements@);
    }
    if child_elements.len() > 0 {
        let mut next = place_round(elements, child_elements);
        proof {
            lemma_forest(next@);
            lemma_round_rest(forest(old(elements)@), forest(child_elements@));
            let pend = forest(child_elements@);
            let r = round(forest(old(elements)@), pend);
            assert forall|j: int| 0 <= j < r.1.len() implies (#[trigger] r.1[j]).element.parent is Some by {
                assert(pend.contains(r.1[j]));
            }
        }
        let ghost rest = next@;
        proof {
            let r = round(forest(old(elements)@), forest(child_elements@));
            assert(r.1.len() < forest(child_elements@).len());
            assert(settle(forest(old(elements)@), forest(child_elements@)) == settle(r.0, r.1));
        }
        if next.len() > 0 {
            handle_parentless_elements(elements, &mut next);
        } else {
            proof {
                assert(forest(rest).len() == 0);
            }
        }
    }
}

/// A copy of a sequence of sources.
pub fn duplicate_sources(v: &Vec<Source>) -> (r: Vec<Source>)
    ensures
        r@ == v@,
{
    let mut r: Vec<Source> = Vec::new();
    for i in 0..v.len()
        invariant
            r@ =~= v@.take(i as int),
    {
        r.push(v[i].duplicate());
    }
    proof {
        assert(r@ =~= v@);
    }
    r
}

/// Places the pending elements under their parents in `elements`, pass
/// after pass, as `handle_parentless_elements` does, but stops when a pass
/// places nothing while elements remain pending.  Answers whether every
/// element was placed (see `settles`); when it was, the forest is the one
/// the passes settle on.
pub fn place_until_settled(elements: &mut Vec<ElementSerialized>, pending: Vec<ElementSerialized>) -> (b: bool)
    requires
        all_have_parents(forest(pending@)),
    ensures
        b == settles(forest(old(elements)@), forest(pending@)),
        b ==> forest(final(elements)@) == settle(forest(old(elements)@), forest(pending@)),
{
    let ghost f_start = forest(elements@);
    let ghost p_start = forest(pending@);
    let mut p = pending;
    loop
        invariant
            f_start == forest(old(elements)@),
            p_start == forest(pending@),
            all_have_parents(forest(p@)),
            settles(f_start, p_start) == settles(forest(elements@), forest(p@)),
            settle(f_start, p_start) == settle(forest(elements@), forest(p@)),
        decreases p@.len(),
    {
        proof {
            lemma_forest(p@);
        }
        if p.len() == 0 {
            return true;
        }
        let ghost f0 = forest(elements@);
        let ghost p0 = forest(p@);
        let rest = place_round(elements, &p);
        proof {
            lemma_forest(rest@);
            lemma_round_rest(f0, p0);
            let r = round(f0, p0);
            assert forall|j: int| 0 <= j < r.1.len() implies (#[trigger] r.1[j]).element.parent is Some by {
                assert(p0.contains(r.1[j]));
            }
        }
        if rest.len() >= p.len() {
            return false;
        }
        p = rest;
    }
}

/// A tree of one element with its sources and no children yet.
pub open spec fn leaf(e: Element, s: Seq<Source>) -> Node {
    Node { element: e, sources: s, children: Seq::empty() }
}

/// The leaves of the elements, split into those of top-level elements and
/// those of elements with a parent, each in the order of `es`; `ss[i]` are
/// the sources of `es[i]`.
pub open spec fn tree_parts(es: Seq<Element>, ss: Seq<Seq<Source>>) -> (Seq<Node>, Seq<Node>)
    decreases es.len(),
{
    if es.len() == 0 {
        (Seq::empty(), Seq::empty())
    } else {
        let prev = tree_parts(es.drop_last(), ss);
        let x = leaf(es.last(), ss[es.len() - 1]);
        if is_root(es.last()) {
            (prev.0.push(x), prev.1)
        } else {
            (prev.0, prev.1.push(x))
        }
    }
}

pub open spec fn sources_view(ss: Seq<Vec<Source>>) -> Seq<Seq<Source>> {
    ss.map_values(|v: Vec<Source>| v@)
}

/// Builds the tree of a twin's elements: the top-level elements, in order,
/// with the others placed under their parents pass after pass, as
/// `handle_parentless_elements` places them.
/// `sources[i]` are the sources of `elements[i]`.  Answers `None` when the
/// placing would never end (a pass places nothing while elements remain).
pub fn build_element_tree(elements: &Vec<Element>, sources: &Vec<Vec<Source>>) -> (r: Option<Vec<ElementSerialized>>)
    requires
        elements@.len() == sources@.len(),
    ensures
        ({
            let parts = tree_parts(elements@, sources_view(sources@));
            &&& r is Some == settles(parts.0, parts.1)
            &&& r matches Some(v) ==> forest(v@) == settle(parts.0, parts.1)
        }),
{
    let ghost ss = sources_view(sources@);
    let mut s_elements: Vec<ElementSerialized> = Vec::new();
    let mut parentless: Vec<ElementSerialized> = Vec::new();
    let n = elements.len();
    proof {
        assert(elements@.take(0) =~= Seq::<Element>::empty());
    }
    for i in 0..n
        invariant
            n == elements@.len(),
            n == sources@.len(),
            ss == sources_view(sources@),
            (forest(s_elements@), forest(parentless@)) == tree_parts(elements@.take(i as int), ss),
            all_have_parents(forest(parentless@)),
    {
        let item = ElementSerialized {
            element: elements[i].duplicate(),
            sources: duplicate_sources(&sources[i]),
            children: Vec::new(),
        };
        proof {
            assert(elements@.take(i + 1).drop_last() =~= elements@.take(i as int));
            assert(forest(item.children@) =~= Seq::<Node>::empty());
            assert(item.node() == leaf(elements@[i as int], ss[i as int]));
            lemma_forest(parentless@);
            lemma_forest_push(s_elements@, item);
            lemma_forest_push(parentless@, item);
        }
        if item.element.parent.is_none() {
            s_elements.push(item);
        } else {
            parentless.push(item);
            proof {
                lemma_forest(parentless@);
                assert forall|j: int| 0 <= j < forest(parentless@).len() implies
                    (#[trigger] forest(parentless@)[j]).element.parent is Some by {
                    if j < parentless@.len() - 1 {
                        assert(forest(parentless@)[j] == forest(parentless@.drop_last())[j]);
                    }
                }
            }
        }
    }
    proof {
        assert(elements@.take(n as int) =~= elements@);
    }
    if place_until_settled(&mut s_elements, parentless) {
        Some(s_elements)
    } else {
        None
    }
}

/// The number of elements in a forest, nested ones included.
pub open spec fn count(nodes: Seq<Node>) -> nat
    decreases nodes,
{
    if nodes.len() == 0 {
        0
    } else {
        count(nodes.drop_last()) + 1 + count(nodes.last().children)
    }
}

proof fn lemma_count_update(s: Seq<Node>, i: int, y: Node)
    requires
        0 <= i < s.len(),
    ensures
        count(s.update(i, y)) + count(s[i].children) == count(s) + count(y.children),
    decreases s.len(),
{
    let t = s.update(i, y);
    if i == s.len() - 1 {
        assert(t.drop_last() =~= s.drop_last());
    } else {
        assert(t.drop_last() =~= s.drop_last().update(i, y));
        lemma_count_update(s.drop_last(), i, y);
    }
}

proof fn lemma_count_push(s: Seq<Node>, x: Node)
    ensures
        count(s.push(x)) == count(s) + 1 + count(x.children),
{
    assert(s.push(x).drop_last() =~= s);
}

/// Attaching adds the attached tree and keeps the top level as it was.
proof fn lemma_attach(nodes: Seq<Node>, p: Seq<int>, x: Node)
    requires
        valid_path(nodes, p),
    ensures
        count(attach(nodes, p, x)) == count(nodes) + 1 + count(x.children),
        attach(nodes, p, x).len() == nodes.len(),
        forall|i: int| 0 <= i < nodes.len() ==> (#[trigger] attach(nodes, p, x)[i]).element == nodes[i].element,
    decreases p.len(),
{
    let n = nodes[p[0]];
    if p.len() == 1 {
        let y = Node { children: n.children.push(x), ..n };
        lemma_count_update(nodes, p[0], y);
        lemma_count_push(n.children, x);
    } else {
        lemma_attach(n.children, p.drop_first(), x);
        let y = Node { children: attach(n.children, p.drop_first(), x), ..n };
        lemma_count_update(nodes, p[0], y);
    }
}

/// The facts of a pass: what it places plus what stays pending is what it
/// was given, and the top level keeps its elements.
proof fn lemma_round(nodes: Seq<Node>, pending: Seq<Node>)
    ensures
        count(round(nodes, pending).0) + count(round(nodes, pending).1) == count(nodes) + count(pending),
        round(nodes, pending).0.len() == nodes.len(),
        forall|i: int| 0 <= i < nodes.len() ==> (#[trigger] round(nodes, pending).0[i]).element == nodes[i].element,
    decreases pending.len(),
{
    if pending.len() > 0 {
        let prev = round(nodes, pending.drop_last());
        lemma_round(nodes, pending.drop_last());
        let x = pending.last();
        lemma_count_push(pending.drop_last(), x);
        assert(pending =~= pending.drop_last().push(x));
        match find_in(prev.0, parent_of(x), 1) {
            Some(p) => {
                lemma_find_in(prev.0, parent_of(x), 1);
                lemma_attach(prev.0, p, x);
            },
            None => {
                lemma_count_push(prev.1, x);
            },
        }
    }
}

/// Placing loses no element and makes none up: once the passes end, the
/// forest holds the elements it held and every pending element, and its top
/// level holds the same elements as before.
pub proof fn lemma_settle_places_all(nodes: Seq<Node>, pending: Seq<Node>)
    requires
        settles(nodes, pending),
    ensures
        count(settle(nodes, pending)) == count(nodes) + count(pending),
        settle(nodes, pending).len() == nodes.len(),
        forall|i: int| 0 <= i < nodes.len() ==> (#[trigger] settle(nodes, pending)[i]).element == nodes[i].element,
    decreases pending.len(),
{
    if pending.len() > 0 {
        let r = round(nodes, pending);
        lemma_round(nodes, pending);
        lemma_settle_places_all(r.0, r.1);
    }
}

/// A node that a valid path reaches in the forest after attaching along the
/// same path has the attached tree as its last child.
proof fn lemma_node_at_attach(nodes: Seq<Node>, p: Seq<int>, x: Node)
    requires
        valid_path(nodes, p),
    ensures
        node_at(attach(nodes, p, x), p).element == node_at(nodes, p).element,
        node_at(attach(nodes, p, x), p).children == node_at(nodes, p).children.push(x),
    decreases p.len(),
{
    if p.len() > 1 {
        lemma_node_at_attach(nodes[p[0]].children, p.drop_first(), x);
    }
}

/// A pending element is placed as the last child of the first element, in
/// depth-first order from the top, whose id its parent names.
pub proof fn lemma_place_under_parent(nodes: Seq<Node>, x: Node)
    requires
        find_in(nodes, parent_of(x), 1) is Some,
    ensures
        ({
            let p = find_in(nodes, parent_of(x), 1).unwrap();
            let after = place((nodes, Seq::empty()), x).0;
            &&& node_at(nodes, p).element.id == parent_of(x)
            &&& node_at(after, p).element == node_at(nodes, p).element
            &&& node_at(after, p).children == node_at(nodes, p).children.push(x)
        }),
{
    let p = find_in(nodes, parent_of(x), 1).unwrap();
    lemma_find_in(nodes, parent_of(x), 1);
    lemma_node_at_attach(nodes, p, x);
}

/// The leaves split by `tree_parts`: the top-level ones are the top-level
/// elements in order, and the leaves hold one element each.
proof fn lemma_tree_parts(es: Seq<Element>, ss: Seq<Seq<Source>>)
    ensures
        tree_parts(es, ss).0.len() == es.filter(|e: Element| is_root(e)).len(),
        forall|i: int| 0 <= i < tree_parts(es, ss).0.len() ==>
            (#[trigger] tree_parts(es, ss).0[i]).element == es.filter(|e: Element| is_root(e))[i],
        count(tree_parts(es, ss).0) + count(tree_parts(es, ss).1) == es.len(),
    decreases es.len(),
{
    let root = |e: Element| is_root(e);
    if es.len() == 0 {
        assert(es.filter(root) =~= Seq::<Element>::empty()) by {
            reveal(Seq::filter);
        }
    } else {
        let prev = tree_parts(es.drop_last(), ss);
        lemma_tree_parts(es.drop_last(), ss);
        let x = leaf(es.last(), ss[es.len() - 1]);
        assert(es =~= es.drop_last().push(es.last()));
        es.drop_last().lemma_filter_push(es.last(), root);
        assert(count(x.children) == 0);
        lemma_count_push(prev.0, x);
        lemma_count_push(prev.1, x);
    }
}

/// The tree of a twin holds every element of the twin, nested ones
/// included, and its top level holds the elements without a parent, in the
/// order they came.
pub proof fn lemma_tree_holds_all(es: Seq<Element>, ss: Seq<Seq<Source>>)
    requires
        settles(tree_parts(es, ss).0, tree_parts(es, ss).1),
    ensures
        ({
            let parts = tree_parts(es, ss);
            let tree = settle(parts.0, parts.1);
            let roots = es.filter(|e: Element| is_root(e));
            &&& count(tree) == es.len()
            &&& tree.len() == roots.len()
            &&& forall|i: int| 0 <= i < tree.len() ==> (#[trigger] tree[i]).element == roots[i]
        }),
{
    let parts = tree_parts(es, ss);
    lemma_tree_parts(es, ss);
    lemma_settle_places_all(parts.0, parts.1);
    let tree = settle(parts.0, parts.1);
    assert forall|i: int| 0 <= i < tree.len() implies (#[trigger] tree[i]).element
        == es.filter(|e: Element| is_root(e))[i] by {
        assert(tree[i].element == parts.0[i].element);
    }
}

proof fn lemma_push_keeps_path(s: Seq<Node>, x: Node, r: Seq<int>)
    requires
        valid_path(s, r),
    ensures
        valid_path(s.push(x), r),
        node_at(s.push(x), r) == node_at(s, r),
{
    assert(s.push(x)[r[0]] == s[r[0]]);
}

/// `q` leads to a node on the way to the node at `p`, that node included.
pub open spec fn on_path(q: Seq<int>, p: Seq<int>) -> bool {
    q.len() <= p.len() && q == p.take(q.len() as int)
}

/// Attaching a tree under the node at `p` changes nothing but the children
/// along `p`: every path of the forest still leads to a node, with the same
/// element and the same sources, and a node off the way to `p` is unchanged.
pub proof fn lemma_attach_keeps_path(nodes: Seq<Node>, p: Seq<int>, x: Node, q: Seq<int>)
    requires
        valid_path(nodes, p),
        valid_path(nodes, q),
    ensures
        valid_path(attach(nodes, p, x), q),
        node_at(attach(nodes, p, x), q).element == node_at(nodes, q).element,
        node_at(attach(nodes, p, x), q).sources == node_at(nodes, q).sources,
        !on_path(q, p) ==> node_at(attach(nodes, p, x), q) == node_at(nodes, q),
    decreases q.len(),
{
    let a = attach(nodes, p, x);
    lemma_attach(nodes, p, x);
    if q[0] != p[0] {
        assert(a[q[0]] == nodes[q[0]]);
        if q.len() <= p.len() {
            assert(p.take(q.len() as int)[0] == p[0]);
        }
    } else if q.len() > 1 {
        if p.len() == 1 {
            lemma_push_keeps_path(nodes[p[0]].children, x, q.drop_first());
        } else {
            lemma_attach_keeps_path(nodes[p[0]].children, p.drop_first(), x, q.drop_first());
            if !on_path(q, p) {
                if on_path(q.drop_first(), p.drop_first()) {
                    assert forall|k: int| 0 <= k < q.len() implies q[k] == p.take(q.len() as int)[k] by {
                        if k > 0 {
                            assert(q[k] == q.drop_first()[k - 1]);
                            assert(q.drop_first()[k - 1] == p.drop_first().take(q.len() - 1)[k - 1]);
                        }
                    }
                    assert(q =~= p.take(q.len() as int));
                }
            }
        }
    } else {
        assert(q =~= p.take(1));
    }
}

pub(crate) proof fn lemma_attach_keeps_occurs(nodes: Seq<Node>, p: Seq<int>, x: Node, id: u128)
    requires
        valid_path(nodes, p),
        occurs(nodes, id, 1),
    ensures
        occurs(attach(nodes, p, x), id, 1),
{
    let q = choose|q: Seq<int>|
        #[trigger] valid_path(nodes, q) && q.len() <= search_limit() - 1 && node_at(nodes, q).element.id == id;
    lemma_attach_keeps_path(nodes, p, x, q);
    assert(valid_path(attach(nodes, p, x), q));
}

/// A pass places every pending element whose parent the forest holds within
/// the levels the search covers, and keeps what the forest held.
proof fn lemma_round_places_known(nodes: Seq<Node>, pending: Seq<Node>)
    requires
        forall|j: int| 0 <= j < pending.len() ==> occurs(nodes, parent_of(#[trigger] pending[j]), 1),
    ensures
        round(nodes, pending).1.len() == 0,
        forall|id: u128| occurs(nodes, id, 1) ==> occurs(#[trigger] round(nodes, pending).0, id, 1),
    decreases pending.len(),
{
    if pending.len() > 0 {
        let pd = pending.drop_last();
        assert forall|j: int| 0 <= j < pd.len() implies occurs(nodes, parent_of(#[trigger] pd[j]), 1) by {
            assert(pd[j] == pending[j]);
        }
        lemma_round_places_known(nodes, pd);
        let prev = round(nodes, pd);
        let x = pending.last();
        assert(occurs(nodes, parent_of(pending[pending.len() - 1]), 1));
        assert(occurs(prev.0, parent_of(x), 1));
        lemma_find_complete(prev.0, parent_of(x), 1);
        let p = find_in(prev.0, parent_of(x), 1).unwrap();
        lemma_find_in(prev.0, parent_of(x), 1);
        assert(round(nodes, pending) == (attach(prev.0, p, x), prev.1));
        assert forall|id: u128| occurs(nodes, id, 1) implies occurs(#[trigger] round(nodes, pending).0, id, 1) by {
            assert(occurs(prev.0, id, 1));
            lemma_attach_keeps_occurs(prev.0, p, x, id);
        }
    }
}

/// When the forest already holds the parent of every pending element, within
/// the levels the search covers, placing ends after one pass and places every
/// element: the elements of a twin whose parents are top-level elements, for
/// one, are all placed at once.
pub proof fn lemma_known_parents_settle(nodes: Seq<Node>, pending: Seq<Node>)
    requires
        forall|j: int| 0 <= j < pending.len() ==> occurs(nodes, parent_of(#[trigger] pending[j]), 1),
    ensures
        settles(nodes, pending),
        round(nodes, pending).1.len() == 0,
        settle(nodes, pending) == round(nodes, pending).0,
{
    lemma_round_places_known(nodes, pending);
    if pending.len() > 0 {
        let r = round(nodes, pending);
        assert(settles(r.0, r.1));
        assert(settle(r.0, r.1) == r.0);
    }
}

/// A top-level element is within the levels the search covers.
pub proof fn lemma_top_level_occurs(nodes: Seq<Node>, i: int)
    requires
        0 <= i < nodes.len(),
    ensures
        occurs(nodes, nodes[i].element.id, 1),
{
    let q = seq![i];
    assert(valid_path(nodes, q));
    assert(node_at(nodes, q) == nodes[i]);
}

/// The elements of a forest, nested ones included, each as often as it
/// occurs.
pub open spec fn elements_of(nodes: Seq<Node>) -> Multiset<Element>
    decreases nodes,
{
    if nodes.len() == 0 {
        Multiset::empty()
    } else {
        elements_of(nodes.drop_last()).insert(nodes.last().element).add(elements_of(nodes.last().children))
    }
}

pub(crate) proof fn lemma_elements_push(s: Seq<Node>, x: Node)
    ensures
        elements_of(s.push(x)) == elements_of(s).insert(x.element).add(elements_of(x.children)),
{
    assert(s.push(x).drop_last() =~= s);
}

proof fn lemma_elements_update(s: Seq<Node>, i: int, y: Node)
    requires
        0 <= i < s.len(),
        y.element == s[i].element,
    ensures
        elements_of(s.update(i, y)).add(elements_of(s[i].children)) =~= elements_of(s).add(elements_of(y.children)),
    decreases s.len(),
{
    broadcast use vstd::multiset::group_multiset_axioms;
    let t = s.update(i, y);
    let e = s.last().element;
    assert(t.last().element == e);
    if i == s.len() - 1 {
        assert(t.drop_last() =~= s.drop_last());
        assert(elements_of(t) == elements_of(s.drop_last()).insert(e).add(elements_of(y.children)));
        assert(elements_of(s) == elements_of(s.drop_last()).insert(e).add(elements_of(s[i].children)));
    } else {
        assert(t.drop_last() =~= s.drop_last().update(i, y));
        lemma_elements_update(s.drop_last(), i, y);
        assert(t.last() == s.last());
        let a = elements_of(t.drop_last());
        let b = elements_of(s.drop_last());
        let c = elements_of(s.last().children);
        assert(elements_of(t) == a.insert(e).add(c));
        assert(elements_of(s) == b.insert(e).add(c));
        assert forall|z: Element| #[trigger] elements_of(t).add(elements_of(s[i].children)).count(z)
            == elements_of(s).add(elements_of(y.children)).count(z) by {
            assert(a.add(elements_of(s[i].children)).count(z) == b.add(elements_of(y.children)).count(z));
        }
    }
}

proof fn lemma_elements_attach(nodes: Seq<Node>, p: Seq<int>, x: Node)
    requires
        valid_path(nodes, p),
    ensures
        elements_of(attach(nodes, p, x)) =~= elements_of(nodes).insert(x.element).add(elements_of(x.children)),
    decreases p.len(),
{
    broadcast use vstd::multiset::group_multiset_axioms;
    let n = nodes[p[0]];
    let added = elements_of(nodes).insert(x.element).add(elements_of(x.children));
    if p.len() == 1 {
        let y = Node { children: n.children.push(x), ..n };
        let t = nodes.update(p[0], y);
        assert(attach(nodes, p, x) == t);
        lemma_elements_update(nodes, p[0], y);
        lemma_elements_push(n.children, x);
        assert forall|z: Element| #[trigger] elements_of(t).count(z) == added.count(z) by {
            assert(elements_of(t).add(elements_of(n.children)).count(z)
                == elements_of(nodes).add(elements_of(y.children)).count(z));
        }
    } else {
        let c = attach(n.children, p.drop_first(), x);
        lemma_elements_attach(n.children, p.drop_first(), x);
        let y = Node { children: c, ..n };
        let t = nodes.update(p[0], y);
        assert(attach(nodes, p, x) == t);
        lemma_elements_update(nodes, p[0], y);
        assert forall|z: Element| #[trigger] elements_of(t).count(z) == added.count(z) by {
            assert(elements_of(t).add(elements_of(n.children)).count(z)
                == elements_of(nodes).add(elements_of(c)).count(z));
            assert(elements_of(c).count(z)
                == elements_of(n.children).insert(x.element).add(elements_of(x.children)).count(z));
        }
    }
}

pub(crate) proof fn lemma_elements_round(nodes: Seq<Node>, pending: Seq<Node>)
    ensures
        elements_of(round(nodes, pending).0).add(elements_of(round(nodes, pending).1))
            =~= elements_of(nodes).add(elements_of(pending)),
    decreases pending.len(),
{
    broadcast use vstd::multiset::group_multiset_axioms;
    if pending.len() > 0 {
        let pd = pending.drop_last();
        let prev = round(nodes, pd);
        lemma_elements_round(nodes, pd);
        let x = pending.last();
        assert(pending =~= pd.push(x));
        lemma_elements_push(pd, x);
        let r = round(nodes, pending);
        assert(r == place(prev, x));
        let lhs = elements_of(r.0).add(elements_of(r.1));
        let rhs = elements_of(nodes).add(elements_of(pending));
        match find_in(prev.0, parent_of(x), 1) {
            Some(p) => {
                lemma_find_in(prev.0, parent_of(x), 1);
                lemma_elements_attach(prev.0, p, x);
                assert(r.0 == attach(prev.0, p, x));
                assert(r.1 == prev.1);
                assert forall|z: Element| #[trigger] lhs.count(z) == rhs.count(z) by {
                    assert(elements_of(prev.0).add(elements_of(prev.1)).count(z)
                        == elements_of(nodes).add(elements_of(pd)).count(z));
                    assert(elements_of(r.0).count(z)
                        == elements_of(prev.0).insert(x.element).add(elements_of(x.children)).count(z));
                    assert(elements_of(pending).count(z)
                        == elements_of(pd).insert(x.element).add(elements_of(x.children)).count(z));
                }
            },
            None => {
                lemma_elements_push(prev.1, x);
                assert(r.0 == prev.0);
                assert(r.1 == prev.1.push(x));
                assert forall|z: Element| #[trigger] lhs.count(z) == rhs.count(z) by {
                    assert(elements_of(prev.0).add(elements_of(prev.1)).count(z)
                        == elements_of(nodes).add(elements_of(pd)).count(z));
                    assert(elements_of(r.1).count(z)
                        == elements_of(prev.1).insert(x.element).add(elements_of(x.children)).count(z));
                    assert(elements_of(pending).count(z)
                        == elements_of(pd).insert(x.element).add(elements_of(x.children)).count(z));
                }
            },
        }
    } else {
        assert(elements_of(round(nodes, pending).1) =~= Multiset::empty());
        assert(elements_of(pending) =~= Multiset::empty());
    }
}

proof fn lemma_elements_settle(nodes: Seq<Node>, pending: Seq<Node>)
    requires
        settles(nodes, pending),
    ensures
        elements_of(settle(nodes, pending)) =~= elements_of(nodes).add(elements_of(pending)),
    decreases pending.len(),
{
    broadcast use vstd::multiset::group_multiset_axioms;
    if pending.len() == 0 {
        assert(elements_of(pending) =~= Multiset::empty());
    } else {
        let r = round(nodes, pending);
        lemma_elements_round(nodes, pending);
        lemma_elements_settle(r.0, r.1);
        if r.1.len() == 0 {
            assert(elements_of(r.1) =~= Multiset::empty());
        }
    }
}

pub(crate) proof fn lemma_elements_tree_parts(es: Seq<Element>, ss: Seq<Seq<Source>>)
    ensures
        elements_of(tree_parts(es, ss).0).add(elements_of(tree_parts(es, ss).1)) =~= es.to_multiset(),
    decreases es.len(),
{
    broadcast use vstd::multiset::group_multiset_axioms, vstd::seq_lib::to_multiset_build;
    if es.len() == 0 {
        vstd::seq_lib::to_multiset_len(es);
        vstd::multiset::lemma_multiset_empty_len(es.to_multiset());
    } else {
        let prev = tree_parts(es.drop_last(), ss);
        lemma_elements_tree_parts(es.drop_last(), ss);
        let x = leaf(es.last(), ss[es.len() - 1]);
        assert(es =~= es.drop_last().push(es.last()));
        assert(elements_of(x.children) =~= Multiset::empty());
        lemma_elements_push(prev.0, x);
        lemma_elements_push(prev.1, x);
    }
}

/// The tree listing and the flat listing of a twin's elements hold the same
/// elements, each as often: the tree built from the sorted elements holds,
/// nested ones included, exactly the elements that were read.
pub proof fn lemma_tree_and_flat_listings_agree(v: Seq<Element>, ss: Seq<Seq<Source>>)
    requires
        settles(tree_parts(sorted_by_parent(v), ss).0, tree_parts(sorted_by_parent(v), ss).1),
    ensures
        ({
            let parts = tree_parts(sorted_by_parent(v), ss);
            &&& elements_of(settle(parts.0, parts.1)) == sorted_by_parent(v).to_multiset()
            &&& elements_of(settle(parts.0, parts.1)) == v.to_multiset()
        }),
{
    let parts = tree_parts(sorted_by_parent(v), ss);
    lemma_elements_tree_parts(sorted_by_parent(v), ss);
    lemma_elements_settle(parts.0, parts.1);
    lemma_sort_is_permutation(v);
}

impl ElementSerialized {
    /// A copy of the tree.
    pub fn duplicate(&self) -> (r: ElementSerialized)
        ensures
            r.node() == self.node(),
        decreases self,
    {
        let mut sources: Vec<Source> = Vec::new();
        for i in 0..self.sources.len()
            invariant
                sources@ =~= self.sources@.take(i as int),
        {
            sources.push(self.sources[i].duplicate());
        }
        let mut children: Vec<ElementSerialized> = Vec::new();
        for i in 0..self.children.len()
            invariant
                forest(children@) =~= forest(self.children@).take(i as int),
                children@.len() == i,
        {
            proof {
                lemma_forest(self.children@);
                assert(decreases_to!(self => self.children@[i as int]));
            }
            let c = self.children[i].duplicate();
            proof {
                lemma_forest_push(children@, c);
                lemma_forest(children@);
            }
            children.push(c);
        }
        proof {
            lemma_forest(self.children@);
            assert(sources@ =~= self.sources@);
            assert(forest(children@) =~= forest(self.children@));
        }
        ElementSerialized { element: self.element.duplicate(), sources, children }
    }

    /// Appends an element tree to the children of this one.
    pub fn add_child(&mut self, child: ElementSerialized)
        ensures
            final(self).node() == (Node {
                children: old(self).node().children.push(child.node()),
                ..old(self).node()
            }),
    {
        proof {
            lemma_forest_push(self.children@, child);
        }
        self.children.push(child);
    }
}

} // verus!
