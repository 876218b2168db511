use tiled_parse::tree::{BreadthFirstIterator, BreadthFirstTreeZipperIterator, Tree, TreeZipper};

fn tree_eq(a: &Tree<i32>, b: &Tree<i32>) -> bool {
    match (a, b) {
        (Tree::Leaf(x), Tree::Leaf(y)) => x == y,
        (Tree::Node(x, xs), Tree::Node(y, ys)) => {
            x == y && xs.len() == ys.len() && xs.iter().zip(ys.iter()).all(|(l, r)| tree_eq(l, r))
        }
        _ => false,
    }
}

fn sample_tree() -> Tree<i32> {
    Tree::Node(
        1,
        vec![
            Tree::Node(2, vec![Tree::Leaf(4), Tree::Leaf(5)]),
            Tree::Node(3, vec![Tree::Leaf(6), Tree::Leaf(7)]),
        ],
    )
}

#[test]
fn iter_test() {
    let tree = sample_tree();

    let mut iter = BreadthFirstIterator::new(&tree);

    while let Some(value) = iter.next() {
        println!("{}", value);
    }
}

#[test]
fn iter_zipper_test() {
    let tree = sample_tree();

    let mut iter = BreadthFirstTreeZipperIterator::new(tree);
    while let Some(_zipper) = iter.next() {}
}

#[test]
fn breadth_first_visits_levels_left_to_right() {
    // Root A with children B and C, where B has children D and E.
    let tree = Tree::Node(
        'a',
        vec![
            Tree::Node('b', vec![Tree::Leaf('d'), Tree::Leaf('e')]),
            Tree::Leaf('c'),
        ],
    );
    let mut iter = tree.iter();
    let mut order = Vec::new();
    while let Some(v) = iter.next() {
        order.push(*v);
    }
    assert_eq!(order, vec!['a', 'b', 'c', 'd', 'e']);
}

#[test]
fn breadth_first_order_of_numeric_tree() {
    let tree = sample_tree();
    let mut iter = tree.iter();
    let mut order = Vec::new();
    while let Some(v) = iter.next() {
        order.push(*v);
    }
    assert_eq!(order, vec![1, 2, 3, 4, 5, 6, 7]);
}

#[test]
fn zipper_iter_yields_every_position_breadth_first() {
    let tree = sample_tree();
    let mut iter = tree.zipper_iter();
    let mut focus_values = Vec::new();
    while let Some(z) = iter.next() {
        let TreeZipper(focus, _crumbs) = z;
        focus_values.push(match focus {
            Tree::Leaf(v) => v,
            Tree::Node(v, _) => v,
        });
    }
    assert_eq!(focus_values, vec![1, 2, 3, 4, 5, 6, 7]);
}

#[test]
fn zipper_iter_starts_at_the_root_with_no_crumbs() {
    let tree = sample_tree();
    let reference = sample_tree();
    let mut iter = tree.zipper_iter();
    let first = iter.next().expect("the root cursor");
    assert!(tree_eq(&first.0, &reference));
    assert_eq!(first.1.len(), 0);
}

#[test]
fn go_to_descends_to_first_matching_node_child() {
    let tree = sample_tree();
    let zipper = TreeZipper(tree, Vec::new());
    let down = zipper.go_to(|v| *v == 3).expect("child 3 is a node");
    match &down.0 {
        Tree::Node(v, cs) => {
            assert_eq!(*v, 3);
            assert_eq!(cs.len(), 2);
        }
        _ => panic!("focus should be the node 3"),
    }
    assert_eq!(down.1.len(), 1);
    let ancestors = down.get_ancestors();
    assert_eq!(ancestors.len(), 1);
    assert_eq!(*ancestors[0], 1);
}

#[test]
fn go_to_skips_leaf_children() {
    // A leaf child never matches, even when its value satisfies the test.
    let tree = Tree::Node(1, vec![Tree::Leaf(2), Tree::Node(2, vec![Tree::Leaf(9)])]);
    let zipper = TreeZipper(tree, Vec::new());
    let down = zipper.go_to(|v| *v == 2).expect("the node child matches");
    match &down.0 {
        Tree::Node(v, cs) => {
            assert_eq!(*v, 2);
            assert_eq!(cs.len(), 1);
        }
        _ => panic!("focus should be the node 2, not the leaf"),
    }
}

#[test]
fn go_to_without_match_returns_nothing() {
    let tree = sample_tree();
    let zipper = TreeZipper(tree, Vec::new());
    assert!(zipper.go_to(|v| *v == 99).is_none());
}

#[test]
fn go_up_after_go_to_restores_the_tree() {
    // Descending to B and coming back up rebuilds a tree structurally equal
    // to the original, with sibling order preserved.
    let tree = sample_tree();
    let reference = sample_tree();
    let zipper = TreeZipper(tree, Vec::new());
    let down = zipper.go_to(|v| *v == 2).expect("child 2 is a node");
    let up = down.go_up().expect("one crumb to pop");
    assert!(tree_eq(&up.0, &reference));
    assert_eq!(up.1.len(), 0);
}

#[test]
fn go_up_at_root_returns_nothing() {
    let zipper = TreeZipper(sample_tree(), Vec::new());
    assert!(zipper.go_up().is_none());
}

#[test]
fn duplicate_preserves_structure() {
    let tree = sample_tree();
    let copy = tree.duplicate();
    assert!(tree_eq(&tree, &copy));
}
