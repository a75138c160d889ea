use proptest::arbitrary::any;
use proptest::collection;
use proptest::strategy::{BoxedStrategy, Just, Strategy, Union};
use proptest::test_runner::TestRunner;
use uniplate::tree::Tree;

/// Trees of integers, up to 10 levels deep, about 512 nodes, 20 subtrees a node.
fn integer_trees() -> BoxedStrategy<Tree<i32>> {
    let leaf = Union::new(vec![Just(Tree::Zero).boxed(), any::<i32>().prop_map(Tree::One).boxed()]);
    leaf.prop_recursive(10, 512, 20, |inner| collection::vec(inner, 0..20).prop_map(Tree::Many))
        .boxed()
}

fn sample() -> Tree<i32> {
    Tree::Many(vec![
        Tree::One(1),
        Tree::Many(vec![Tree::One(2), Tree::Zero, Tree::One(3)]),
        Tree::One(4),
    ])
}

#[test]
fn tree_list_isomorphic_ints() {
    let mut runner = TestRunner::default();
    runner
        .run(&integer_trees(), |tree| {
            let (children, func) = tree.clone().list();
            let new_tree = func(children);
            assert_eq!(new_tree, tree);
            Ok(())
        })
        .unwrap();
}

#[test]
fn tree_map_add() {
    let mut runner = TestRunner::default();
    runner
        .run(&(integer_trees(), -100i32..100i32), |(tree, diff)| {
            let new_tree = tree.clone().map(&move |a: i32| a.wrapping_add(diff));
            let (old_children, _) = tree.list();
            let (new_children, _) = new_tree.list();
            assert_eq!(old_children.len(), new_children.len());
            for (old, new) in old_children.into_iter().zip(new_children) {
                assert_eq!(old.wrapping_add(diff), new);
            }
            Ok(())
        })
        .unwrap();
}

#[test]
fn list_gives_values_last_first() {
    let (children, _) = sample().list();
    assert_eq!(children, vec![4, 3, 2, 1]);
}

#[test]
fn list_round_trip_on_nested_tree() {
    let (children, func) = sample().list();
    assert_eq!(func(children), sample());
}

#[test]
fn list_of_trees_without_values_is_empty() {
    let (children, func) = Tree::<i32>::Zero.list();
    assert!(children.is_empty());
    assert_eq!(func(vec![]), Tree::Zero);

    let empty = Tree::<i32>::Many(vec![Tree::Zero, Tree::Many(vec![])]);
    let (children, func) = empty.clone().list();
    assert!(children.is_empty());
    assert_eq!(func(vec![7, 8]), empty);
}

#[test]
fn rebuild_puts_last_element_first() {
    let (_, func) = sample().list();
    let rebuilt = func(vec![40, 30, 20, 10]);
    assert_eq!(
        rebuilt,
        Tree::Many(vec![
            Tree::One(10),
            Tree::Many(vec![Tree::One(20), Tree::Zero, Tree::One(30)]),
            Tree::One(40),
        ])
    );
}

#[test]
fn rebuild_uses_only_the_last_elements() {
    let (children, func) = sample().list();
    let mut longer = vec![99, 98];
    longer.extend(children);
    assert_eq!(func(longer), sample());
}

#[test]
fn rebuild_then_list_gives_the_list_back() {
    let (_, func) = sample().list();
    let ys = vec![5, -6, 7, -8];
    let (again, _) = func(ys.clone()).list();
    assert_eq!(again, ys);
}

#[test]
fn single_value_round_trip() {
    let (children, func) = Tree::One(42).list();
    assert_eq!(children, vec![42]);
    assert_eq!(func(vec![1, 2, 3]), Tree::One(3));
}

#[test]
fn map_applies_op_to_each_value() {
    let mapped = sample().map(&|a: i32| a * 10);
    assert_eq!(
        mapped,
        Tree::Many(vec![
            Tree::One(10),
            Tree::Many(vec![Tree::One(20), Tree::Zero, Tree::One(30)]),
            Tree::One(40),
        ])
    );
}

#[test]
fn map_keeps_empty_nodes() {
    let tree = Tree::Many(vec![Tree::Zero, Tree::Many(vec![]), Tree::One(-1)]);
    assert_eq!(
        tree.map(&|a: i32| a - 1),
        Tree::Many(vec![Tree::Zero, Tree::Many(vec![]), Tree::One(-2)])
    );
}

#[test]
fn list_of_mapped_tree_is_mapped_list() {
    let (old_children, _) = sample().list();
    let (new_children, _) = sample().map(&|a: i32| a + 100).list();
    let expected: Vec<i32> = old_children.iter().map(|a| a + 100).collect();
    assert_eq!(new_children, expected);
}

#[test]
fn clone_is_equal() {
    let tree = sample();
    assert_eq!(tree.clone(), tree);
    let strings = Tree::Many(vec![Tree::One(String::from("a")), Tree::Zero]);
    assert_eq!(strings.clone(), strings);
}

#[test]
fn same_values_different_shape_are_different_trees() {
    let flat = Tree::Many(vec![Tree::One(1), Tree::One(2)]);
    let nested = Tree::Many(vec![Tree::Many(vec![Tree::One(1)]), Tree::One(2)]);
    assert_eq!(flat.clone().list().0, nested.clone().list().0);
    assert_ne!(flat, nested);
}
