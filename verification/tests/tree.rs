use std::cmp::Ordering;
use twin_api::models::{Element, Source};
use twin_api::order::{sort_by_parent, sort_elements};
use twin_api::tree::{
    build_element_tree, find_element, handle_parentless_elements, place_until_settled, ElementSerialized,
};

fn element(id: u128, parent: Option<u128>) -> Element {
    Element { id, twin: 99, name: format!("element {}", id), parent, created_at: None }
}

fn source(id: u128, element: u128) -> Source {
    Source { id, name: format!("source {}", id), element, created_at: None }
}

fn leaf(id: u128, parent: Option<u128>) -> ElementSerialized {
    ElementSerialized { element: element(id, parent), sources: Vec::new(), children: Vec::new() }
}

fn count(v: &[ElementSerialized]) -> usize {
    v.iter().map(|e| 1 + count(&e.children)).sum()
}

fn ids(v: &[ElementSerialized]) -> Vec<u128> {
    v.iter().map(|e| e.element.id).collect()
}

#[test]
fn sort_elements_orders_top_level_first() {
    let root = element(1, None);
    let child = element(2, Some(1));
    assert_eq!(sort_elements(&root, &child), Ordering::Less);
    assert_eq!(sort_elements(&child, &root), Ordering::Greater);
    assert_eq!(sort_elements(&root, &element(3, None)), Ordering::Equal);
    assert_eq!(sort_elements(&child, &element(3, Some(7))), Ordering::Equal);
}

#[test]
fn sort_is_stable_and_puts_roots_first() {
    let input = vec![
        element(1, Some(5)),
        element(2, None),
        element(3, Some(2)),
        element(4, None),
        element(5, Some(4)),
    ];
    let mut expected: Vec<Element> = input.iter().map(|e| e.duplicate()).collect();
    expected.sort_by(sort_elements);
    let sorted = sort_by_parent(input);
    let order: Vec<u128> = sorted.iter().map(|e| e.id).collect();
    assert_eq!(order, vec![2, 4, 1, 3, 5]);
    assert_eq!(sorted, expected);
}

#[test]
fn find_element_gives_the_path() {
    let mut a = leaf(1, None);
    let mut b = leaf(2, Some(1));
    b.children.push(leaf(3, Some(2)));
    a.children.push(b);
    let forest = vec![leaf(10, None), a];
    assert_eq!(find_element(&forest, 10, 1), Some(vec![0]));
    assert_eq!(find_element(&forest, 1, 1), Some(vec![1]));
    assert_eq!(find_element(&forest, 2, 1), Some(vec![1, 0]));
    assert_eq!(find_element(&forest, 3, 1), Some(vec![1, 0, 0]));
    assert_eq!(find_element(&forest, 4, 1), None);
}

#[test]
fn find_element_stops_at_the_depth_limit() {
    // A chain 1 -> 2 -> ... -> 10: the search from level 1 covers nine levels.
    let mut node = leaf(10, Some(9));
    for id in (1..10u128).rev() {
        let mut parent = leaf(id, if id == 1 { None } else { Some(id - 1) });
        parent.children.push(node);
        node = parent;
    }
    let forest = vec![node];
    assert_eq!(find_element(&forest, 9, 1), Some(vec![0; 9]));
    assert_eq!(find_element(&forest, 10, 1), None);
    assert_eq!(find_element(&forest, 1, 10), None);
}

#[test]
fn pending_elements_are_placed_over_passes() {
    // The grandchildren come before their parent: they wait a pass.
    let mut roots = vec![leaf(1, None), leaf(2, None)];
    let mut pending = vec![leaf(4, Some(3)), leaf(5, Some(3)), leaf(3, Some(2)), leaf(6, Some(1))];
    handle_parentless_elements(&mut roots, &mut pending);
    assert_eq!(ids(&roots), vec![1, 2]);
    assert_eq!(ids(&roots[0].children), vec![6]);
    assert_eq!(ids(&roots[1].children), vec![3]);
    assert_eq!(ids(&roots[1].children[0].children), vec![4, 5]);
    assert_eq!(ids(&pending), vec![4, 5, 3, 6]);
    assert_eq!(count(&roots), 6);
}

#[test]
fn placement_that_never_ends_is_detected() {
    let roots = vec![leaf(1, None)];
    let fine = vec![leaf(2, Some(1))];
    let orphan = vec![leaf(2, Some(1)), leaf(3, Some(42))];
    let mut placed = vec![leaf(1, None)];
    assert!(place_until_settled(&mut placed, fine));
    let mut expected = vec![leaf(1, None)];
    handle_parentless_elements(&mut expected, &mut vec![leaf(2, Some(1))]);
    assert_eq!(placed, expected);
    assert_eq!(ids(&placed[0].children), vec![2]);
    let mut stuck = vec![leaf(1, None)];
    assert!(!place_until_settled(&mut stuck, orphan));
    let mut nothing = vec![leaf(1, None)];
    assert!(place_until_settled(&mut nothing, Vec::new()));
    assert_eq!(nothing, roots);
}

#[test]
fn the_tree_of_a_twin_is_built() {
    let elements = vec![element(1, None), element(2, None), element(3, Some(2)), element(4, Some(3))];
    let sources = vec![vec![source(11, 1), source(12, 1)], vec![], vec![source(13, 3)], vec![]];
    let tree = build_element_tree(&elements, &sources).unwrap();
    assert_eq!(ids(&tree), vec![1, 2]);
    assert_eq!(tree[0].sources, vec![source(11, 1), source(12, 1)]);
    assert!(tree[0].children.is_empty());
    assert_eq!(ids(&tree[1].children), vec![3]);
    assert_eq!(tree[1].children[0].sources, vec![source(13, 3)]);
    assert_eq!(ids(&tree[1].children[0].children), vec![4]);
    assert_eq!(count(&tree), elements.len());
}

#[test]
fn a_tree_with_an_orphan_is_not_built() {
    let elements = vec![element(1, None), element(2, Some(77))];
    let sources = vec![vec![], vec![]];
    assert!(build_element_tree(&elements, &sources).is_none());
}

#[test]
fn duplicate_copies_the_whole_tree() {
    let mut a = leaf(1, None);
    a.sources.push(source(5, 1));
    a.children.push(leaf(2, Some(1)));
    assert_eq!(a.duplicate(), a);
}

#[test]
fn children_of_top_level_elements_are_placed_at_once() {
    let mut forest = vec![leaf(1, None), leaf(2, None)];
    let mut pending = vec![leaf(5, Some(2)), leaf(3, Some(1)), leaf(4, Some(2))];
    assert!(place_until_settled(&mut forest, pending.iter().map(|e| e.duplicate()).collect()));
    assert_eq!(ids(&forest[0].children), vec![3]);
    assert_eq!(ids(&forest[1].children), vec![5, 4]);
    let mut again = vec![leaf(1, None), leaf(2, None)];
    handle_parentless_elements(&mut again, &mut pending);
    assert_eq!(again, forest);
}

fn depth(v: &[ElementSerialized]) -> usize {
    v.iter().map(|e| 1 + depth(&e.children)).max().unwrap_or(0)
}

#[test]
fn chains_as_deep_as_the_search_reaches_are_built() {
    let chain = |n: u128| -> Vec<Element> {
        (1..=n).rev().map(|k| element(k, if k == 1 { None } else { Some(k - 1) })).collect()
    };
    for n in 1..=10u128 {
        let rows = sort_by_parent(chain(n));
        let sources: Vec<Vec<Source>> = rows.iter().map(|_| Vec::new()).collect();
        let tree = build_element_tree(&rows, &sources).unwrap();
        assert_eq!(depth(&tree), n as usize);
        assert_eq!(count(&tree), n as usize);
    }
    let rows = sort_by_parent(chain(11));
    let sources: Vec<Vec<Source>> = rows.iter().map(|_| Vec::new()).collect();
    assert!(build_element_tree(&rows, &sources).is_none());
    let cycle = vec![element(1, Some(2)), element(2, Some(1)), element(3, None)];
    assert!(build_element_tree(&cycle, &vec![vec![], vec![], vec![]]).is_none());
}
