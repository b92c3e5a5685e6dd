use shadow::tree::{
    BranchNode, BranchSplit, BranchSplitContinuous, BranchSplitDiscrete, Directions, LeafNode,
    Node, SplitDirection, TableValue, TrainOptions, Tree,
};

fn leaf(value: f64) -> Node {
    Node::Leaf(LeafNode {
        value: value.to_bits(),
        examples_fraction: 0.5f32.to_bits(),
    })
}

fn continuous(left: usize, right: usize, feature: usize, split: f32, invalid: SplitDirection) -> Node {
    Node::Branch(BranchNode {
        left_child_index: left,
        right_child_index: right,
        split: BranchSplit::Continuous(BranchSplitContinuous {
            feature_index: feature,
            split_value: split.to_bits(),
            invalid_values_direction: invalid,
        }),
        examples_fraction: 1.0f32.to_bits(),
    })
}

fn discrete(left: usize, right: usize, feature: usize, directions: &[bool]) -> Node {
    Node::Branch(BranchNode {
        left_child_index: left,
        right_child_index: right,
        split: BranchSplit::Discrete(BranchSplitDiscrete {
            feature_index: feature,
            directions: Directions::new(&directions.to_vec()),
        }),
        examples_fraction: 1.0f32.to_bits(),
    })
}

fn number(value: f32) -> TableValue {
    TableValue::Number(value.to_bits())
}

fn sample_tree() -> Tree {
    Tree::new(vec![
        continuous(1, 2, 0, 2.5, SplitDirection::Right),
        leaf(10.0),
        discrete(3, 4, 1, &[false, true, false]),
        leaf(20.0),
        leaf(30.0),
    ])
    .unwrap()
}

fn predict(tree: &Tree, example: &[TableValue]) -> f32 {
    assert!(tree.accepts(example));
    f64::from_bits(tree.predict(example)) as f32
}

#[test]
fn predict_follows_the_splits() {
    let tree = sample_tree();
    assert_eq!(predict(&tree, &[number(1.0), TableValue::Enum(0)]), 10.0);
    assert_eq!(predict(&tree, &[number(2.5), TableValue::Enum(1)]), 10.0);
    assert_eq!(predict(&tree, &[number(2.6), TableValue::Enum(0)]), 20.0);
    assert_eq!(predict(&tree, &[number(3.0), TableValue::Enum(1)]), 30.0);
    assert_eq!(predict(&tree, &[number(3.0), TableValue::Enum(2)]), 20.0);
    assert_eq!(predict(&tree, &[number(f32::INFINITY), TableValue::Enum(1)]), 30.0);
    assert_eq!(predict(&tree, &[number(f32::NEG_INFINITY), TableValue::Enum(1)]), 10.0);
}

#[test]
fn predict_sends_invalid_numbers_where_the_split_says() {
    let tree = sample_tree();
    assert_eq!(predict(&tree, &[number(f32::NAN), TableValue::Enum(1)]), 30.0);
    let tree = Tree::new(vec![
        continuous(1, 2, 0, 2.5, SplitDirection::Left),
        leaf(10.0),
        leaf(20.0),
    ])
    .unwrap();
    assert_eq!(predict(&tree, &[number(f32::NAN)]), 10.0);
    assert_eq!(predict(&tree, &[number(5.0)]), 20.0);
}

#[test]
fn a_single_leaf_is_a_tree() {
    let tree = Tree::new(vec![leaf(7.0)]).unwrap();
    assert_eq!(predict(&tree, &[]), 7.0);
    assert_eq!(tree.nodes().len(), 1);
}

#[test]
fn trees_may_list_children_before_parents() {
    let tree = Tree::new(vec![
        continuous(3, 1, 0, 0.0, SplitDirection::Left),
        leaf(1.0),
        leaf(2.0),
        continuous(2, 1, 0, -1.0, SplitDirection::Left),
    ])
    .unwrap();
    assert_eq!(predict(&tree, &[number(-2.0)]), 2.0);
    assert_eq!(predict(&tree, &[number(-0.5)]), 1.0);
    assert_eq!(predict(&tree, &[number(0.5)]), 1.0);
}

#[test]
fn ill_formed_trees_are_refused() {
    assert!(Tree::new(vec![]).is_none());
    assert!(Tree::new(vec![continuous(1, 2, 0, 0.0, SplitDirection::Left), leaf(1.0)]).is_none());
    assert!(Tree::new(vec![continuous(0, 1, 0, 0.0, SplitDirection::Left), leaf(1.0)]).is_none());
    assert!(Tree::new(vec![
        continuous(1, 2, 0, 0.0, SplitDirection::Left),
        continuous(0, 2, 0, 0.0, SplitDirection::Left),
        leaf(1.0),
    ])
    .is_none());
    assert!(Tree::new(vec![
        leaf(1.0),
        continuous(2, 0, 0, 0.0, SplitDirection::Left),
        continuous(1, 0, 0, 0.0, SplitDirection::Left),
    ])
    .is_none());
}

#[test]
fn examples_that_a_split_cannot_route_are_not_accepted() {
    let tree = sample_tree();
    assert!(!tree.accepts(&[number(1.0)]));
    assert!(!tree.accepts(&[TableValue::Enum(1), TableValue::Enum(1)]));
    assert!(!tree.accepts(&[number(1.0), number(1.0)]));
    assert!(!tree.accepts(&[number(1.0), TableValue::Enum(3)]));
    assert!(tree.accepts(&[number(1.0), TableValue::Enum(2), number(0.0)]));
}

#[test]
fn directions_hold_their_bits() {
    let directions = Directions::new(&vec![true, false, true]);
    assert_eq!(directions.get(0), Some(SplitDirection::Right));
    assert_eq!(directions.get(1), Some(SplitDirection::Left));
    assert_eq!(directions.get(2), Some(SplitDirection::Right));
    assert_eq!(directions.get(3), None);
    assert_eq!(directions.clone().get(2), Some(SplitDirection::Right));
    assert_eq!(Directions::new(&vec![]).get(0), None);
}

#[test]
fn nodes_give_their_parts() {
    let branch = continuous(1, 2, 4, 2.5, SplitDirection::Right);
    assert!(branch.as_branch().is_some() && branch.as_leaf().is_none());
    assert_eq!(branch.as_branch().unwrap().split.feature_index(), 4);
    assert_eq!(f32::from_bits(branch.examples_fraction()), 1.0);
    let node = leaf(3.0);
    assert!(node.as_leaf().is_some() && node.as_branch().is_none());
    assert_eq!(f32::from_bits(node.examples_fraction()), 0.5);
    assert_eq!(discrete(1, 2, 6, &[true]).as_branch().unwrap().split.feature_index(), 6);
    assert_eq!(SplitDirection::from_bool(true), SplitDirection::Right);
    assert_eq!(SplitDirection::from_bool(false), SplitDirection::Left);
    assert!(SplitDirection::Right.to_bool() && !SplitDirection::Left.to_bool());
    assert_eq!(number(1.0).as_number(), Some(1.0f32.to_bits()));
    assert_eq!(number(1.0).as_enum(), None);
    assert_eq!(TableValue::Enum(3).as_enum(), Some(3));
}

#[test]
fn default_train_options_hold_the_documented_numbers() {
    let options = TrainOptions::default();
    assert_eq!(f32::from_bits(options.learning_rate), 0.1);
    assert_eq!(f32::from_bits(options.l2_regularization_for_continuous_splits), 0.0);
    assert_eq!(f32::from_bits(options.l2_regularization_for_discrete_splits), 10.0);
    assert_eq!(f32::from_bits(options.min_gain_to_split), 0.0);
    assert_eq!(f32::from_bits(options.min_sum_hessians_per_node), 1e-3);
    assert_eq!(f32::from_bits(options.smoothing_factor_for_discrete_bin_sorting), 10.0);
    assert_eq!(options.max_valid_bins_for_number_features, 255);
    assert_eq!(options.max_examples_for_computing_bin_thresholds, 200_000);
    assert_eq!(options.max_leaf_nodes, 31);
    assert_eq!(options.max_rounds, 100);
    assert_eq!(options.min_examples_per_node, 20);
    assert!(options.max_depth.is_none() && options.early_stopping_options.is_none());
    assert!(!options.compute_losses);
}
