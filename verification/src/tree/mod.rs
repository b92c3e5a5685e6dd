//! Decision trees and the binning of features for them.
//!
//! A tree is a flat sequence of nodes whose first node is the root. Numbers
//! are carried as the bit patterns of their encodings (see `crate::finite`):
//! a feature value and a split value as single precision, a leaf value as
//! double precision.

use crate::finite::{float_is_nan, float_le, float_le_spec, is_nan};
use crate::progress_counter::ProgressCounter;
use bitvec::order::Lsb0;
use bitvec::vec::BitVec;
use vstd::prelude::*;

pub mod compute_binning_instructions;
pub mod timing;

verus! {

/// How the features of a training table are laid out once they are binned.
#[derive(Clone, Copy, Debug, PartialEq, Eq, Structural)]
pub enum BinnedFeaturesLayout {
    RowMajor,
    ColumnMajor,
}

/// When to stop training before the last round. The two numbers are the bit
/// patterns of single precision numbers.
#[derive(Clone, Copy, Debug, PartialEq, Eq, Structural)]
pub struct EarlyStoppingOptions {
    pub early_stopping_fraction: u32,
    pub n_rounds_without_improvement_to_stop: usize,
    pub min_decrease_in_loss_for_significant_change: u32,
}

/// The options of training a tree. Numbers that are not counts are the bit
/// patterns of single precision numbers.
#[derive(Clone, Copy, Debug, PartialEq, Eq, Structural)]
pub struct TrainOptions {
    pub binned_features_layout: BinnedFeaturesLayout,
    pub compute_losses: bool,
    pub early_stopping_options: Option<EarlyStoppingOptions>,
    pub l2_regularization_for_continuous_splits: u32,
    pub l2_regularization_for_discrete_splits: u32,
    pub learning_rate: u32,
    pub max_depth: Option<usize>,
    pub max_examples_for_computing_bin_thresholds: usize,
    pub max_leaf_nodes: usize,
    pub max_rounds: usize,
    pub max_valid_bins_for_number_features: u8,
    pub min_examples_per_node: usize,
    pub min_gain_to_split: u32,
    pub min_sum_hessians_per_node: u32,
    pub smoothing_factor_for_discrete_bin_sorting: u32,
}

/// The options that training starts from: a learning rate of 0.1, 255 bins,
/// 100 rounds, trees of up to 31 leaves.
pub open spec fn default_train_options() -> TrainOptions {
    TrainOptions {
        binned_features_layout: BinnedFeaturesLayout::ColumnMajor,
        compute_losses: false,
        early_stopping_options: None,
        l2_regularization_for_continuous_splits: 0,
        l2_regularization_for_discrete_splits: 0x4120_0000,
        learning_rate: 0x3dcc_cccd,
        max_depth: None,
        max_examples_for_computing_bin_thresholds: 200_000,
        max_leaf_nodes: 31,
        max_rounds: 100,
        max_valid_bins_for_number_features: 255,
        min_examples_per_node: 20,
        min_gain_to_split: 0,
        min_sum_hessians_per_node: 0x3a83_126f,
        smoothing_factor_for_discrete_bin_sorting: 0x4120_0000,
    }
}

impl Default for TrainOptions {
    fn default() -> (r: TrainOptions)
        ensures
            r == default_train_options(),
    {
        TrainOptions {
            binned_features_layout: BinnedFeaturesLayout::ColumnMajor,
            compute_losses: false,
            early_stopping_options: None,
            l2_regularization_for_continuous_splits: 0,
            l2_regularization_for_discrete_splits: 0x4120_0000,
            learning_rate: 0x3dcc_cccd,
            max_depth: None,
            max_examples_for_computing_bin_thresholds: 200_000,
            max_leaf_nodes: 31,
            max_rounds: 100,
            max_valid_bins_for_number_features: 255,
            min_examples_per_node: 20,
            min_gain_to_split: 0,
            min_sum_hessians_per_node: 0x3a83_126f,
            smoothing_factor_for_discrete_bin_sorting: 0x4120_0000,
        }
    }
}

/// What the training of trees tells its caller: that a phase has begun,
/// with the counter of its steps, and that it is over.
#[derive(Clone, Debug)]
pub enum TrainProgressEvent {
    Initialize(ProgressCounter),
    InitializeDone,
    Train(ProgressCounter),
    TrainDone,
}

/// The child that a branch sends an example to.
#[derive(Clone, Copy, Debug, PartialEq, Eq, Structural)]
pub enum SplitDirection {
    Left,
    Right,
}

impl SplitDirection {
    /// `false` is left, `true` is right.
    pub fn from_bool(value: bool) -> (r: SplitDirection)
        ensures
            r == (if value {
                SplitDirection::Right
            } else {
                SplitDirection::Left
            }),
    {
        if value {
            SplitDirection::Right
        } else {
            SplitDirection::Left
        }
    }

    /// Left is `false`, right is `true`.
    pub fn to_bool(self) -> (r: bool)
        ensures
            r == (self == SplitDirection::Right),
    {
        match self {
            SplitDirection::Left => false,
            SplitDirection::Right => true,
        }
    }
}

/// The directions of a discrete split, one bit per bin, kept in a
/// `bitvec::vec::BitVec<u8, Lsb0>`.
#[verifier::external_body]
pub struct Directions {
    bits: BitVec<u8, Lsb0>,
}

/// The bits of the directions, bin 0 first: `true` is right.
pub uninterp spec fn direction_bits(directions: Directions) -> Seq<bool>;

/// Collecting `bool`s into a `BitVec` (its `FromIterator<bool>`): the bits in
/// the order of the items.
#[verifier::external_body]
fn collect_bits(bits: &Vec<bool>) -> (r: Directions)
    ensures
        direction_bits(r) == bits@,
{
    Directions { bits: bits.iter().copied().collect() }
}

/// `BitSlice::get` with a `usize`: the bit at that place, or `None` past the
/// end.
#[verifier::external_body]
fn bit_at(directions: &Directions, index: usize) -> (r: Option<bool>)
    ensures
        r == (if index < direction_bits(*directions).len() {
            Some(direction_bits(*directions)[index as int])
        } else {
            None
        }),
{
    directions.bits.get(index).map(|bit| *bit)
}

/// `BitVec::clone`: the same bits.
#[verifier::external_body]
fn copy_bits(directions: &Directions) -> (r: Directions)
    ensures
        direction_bits(r) == direction_bits(*directions),
{
    Directions { bits: directions.bits.clone() }
}

impl Directions {
    /// Directions with the given bits, bin 0 first.
    pub fn new(bits: &Vec<bool>) -> (r: Directions)
        ensures
            direction_bits(r) == bits@,
    {
        collect_bits(bits)
    }

    /// The direction of a bin, or `None` where the split has no such bin.
    pub fn get(&self, bin: usize) -> (r: Option<SplitDirection>)
        ensures
            bin < direction_bits(*self).len() ==> r == Some(
                if direction_bits(*self)[bin as int] {
                    SplitDirection::Right
                } else {
                    SplitDirection::Left
                },
            ),
            bin >= direction_bits(*self).len() ==> r is None,
    {
        match bit_at(self, bin) {
            Some(bit) => Some(SplitDirection::from_bool(bit)),
            None => None,
        }
    }
}

impl Clone for Directions {
    fn clone(&self) -> (r: Directions)
        ensures
            direction_bits(r) == direction_bits(*self),
    {
        copy_bits(self)
    }
}

/// One entry of an example: a number, as the bit pattern of a single
/// precision number (a NaN where the number is missing), or the bin of a
/// category (0 where the category is missing).
#[derive(Clone, Copy, Debug, PartialEq, Eq, Structural)]
pub enum TableValue {
    Number(u32),
    Enum(usize),
}

impl TableValue {
    /// The number, if this is one.
    pub fn as_number(&self) -> (r: Option<u32>)
        ensures
            r == (match *self {
                TableValue::Number(value) => Some(value),
                TableValue::Enum(_) => None,
            }),
    {
        match self {
            TableValue::Number(value) => Some(*value),
            TableValue::Enum(_) => None,
        }
    }

    /// The bin of the category, if this is one.
    pub fn as_enum(&self) -> (r: Option<usize>)
        ensures
            r == (match *self {
                TableValue::Number(_) => None,
                TableValue::Enum(bin) => Some(bin),
            }),
    {
        match self {
            TableValue::Number(_) => None,
            TableValue::Enum(bin) => Some(*bin),
        }
    }
}

/// A split on a number: values up to `split_value` go left, larger ones
/// right, and a NaN goes where `invalid_values_direction` says.
#[derive(Clone, Copy, Debug)]
pub struct BranchSplitContinuous {
    pub feature_index: usize,
    pub split_value: u32,
    pub invalid_values_direction: SplitDirection,
}

/// A split on a category: the bit of the bin says where it goes.
#[derive(Clone)]
pub struct BranchSplitDiscrete {
    pub feature_index: usize,
    pub directions: Directions,
}

#[derive(Clone)]
pub enum BranchSplit {
    Continuous(BranchSplitContinuous),
    Discrete(BranchSplitDiscrete),
}

impl BranchSplit {
    /// The feature that the split reads.
    pub open spec fn spec_feature_index(self) -> usize {
        match self {
            BranchSplit::Continuous(split) => split.feature_index,
            BranchSplit::Discrete(split) => split.feature_index,
        }
    }

    /// The feature that the split reads.
    pub fn feature_index(&self) -> (r: usize)
        ensures
            r == self.spec_feature_index(),
    {
        match self {
            BranchSplit::Continuous(split) => split.feature_index,
            BranchSplit::Discrete(split) => split.feature_index,
        }
    }

    /// Whether the split can route the example: the feature exists and is of
    /// the split's kind, and a category's bin has a direction.
    pub open spec fn accepts(self, example: Seq<TableValue>) -> bool {
        match self {
            BranchSplit::Continuous(split) => split.feature_index < example.len()
                && example[split.feature_index as int] is Number,
            BranchSplit::Discrete(split) => split.feature_index < example.len()
                && example[split.feature_index as int] is Enum
                && example[split.feature_index as int]->Enum_0 < direction_bits(
                split.directions,
            ).len(),
        }
    }

    /// Where the split sends an example that it accepts.
    pub open spec fn direction(self, example: Seq<TableValue>) -> SplitDirection {
        match self {
            BranchSplit::Continuous(split) => {
                let value = example[split.feature_index as int]->Number_0;
                if is_nan(value) {
                    split.invalid_values_direction
                } else if float_le_spec(value, split.split_value) {
                    SplitDirection::Left
                } else {
                    SplitDirection::Right
                }
            },
            BranchSplit::Discrete(split) => {
                if direction_bits(split.directions)[example[split.feature_index as int]->Enum_0 as int] {
                    SplitDirection::Right
                } else {
                    SplitDirection::Left
                }
            },
        }
    }

    /// Where the split sends the example, or `None` where it cannot route it.
    pub fn route(&self, example: &[TableValue]) -> (r: Option<SplitDirection>)
        ensures
            r is Some <==> self.accepts(example@),
            r is Some ==> r->0 == self.direction(example@),
    {
        match self {
            BranchSplit::Continuous(split) => {
                if split.feature_index >= example.len() {
                    return None;
                }
                match example[split.feature_index].as_number() {
                    Some(value) => {
                        if float_is_nan(value) {
                            Some(split.invalid_values_direction)
                        } else if float_le(value, split.split_value) {
                            Some(SplitDirection::Left)
                        } else {
                            Some(SplitDirection::Right)
                        }
                    },
                    None => None,
                }
            },
            BranchSplit::Discrete(split) => {
                if split.feature_index >= example.len() {
                    return None;
                }
                match example[split.feature_index].as_enum() {
                    Some(bin) => split.directions.get(bin),
                    None => None,
                }
            },
        }
    }
}

#[derive(Clone)]
pub struct BranchNode {
    pub left_child_index: usize,
    pub right_child_index: usize,
    pub split: BranchSplit,
    pub examples_fraction: u32,
}

/// A leaf: its value is the bit pattern of a double precision number.
#[derive(Clone, Copy, Debug)]
pub struct LeafNode {
    pub value: u64,
    pub examples_fraction: u32,
}

#[derive(Clone)]
pub enum Node {
    Branch(BranchNode),
    Leaf(LeafNode),
}

impl Node {
    pub fn as_branch(&self) -> (r: Option<&BranchNode>)
        ensures
            r == (match *self {
                Node::Branch(branch) => Some(&branch),
                Node::Leaf(_) => None,
            }),
    {
        match self {
            Node::Branch(branch) => Some(branch),
            _ => None,
        }
    }

    pub fn as_leaf(&self) -> (r: Option<&LeafNode>)
        ensures
            r == (match *self {
                Node::Branch(_) => None,
                Node::Leaf(leaf) => Some(&leaf),
            }),
    {
        match self {
            Node::Leaf(leaf) => Some(leaf),
            _ => None,
        }
    }

    /// The fraction of the training examples that passed through the node.
    pub fn examples_fraction(&self) -> (r: u32)
        ensures
            r == (match *self {
                Node::Branch(branch) => branch.examples_fraction,
                Node::Leaf(leaf) => leaf.examples_fraction,
            }),
    {
        match self {
            Node::Leaf(leaf) => leaf.examples_fraction,
            Node::Branch(branch) => branch.examples_fraction,
        }
    }
}

/// Whether `rank` numbers the nodes so that every child index is in range
/// and every child has a smaller rank than its parent.
pub open spec fn is_ranking(nodes: Seq<Node>, rank: Seq<nat>) -> bool {
    &&& rank.len() == nodes.len()
    &&& forall|i: int|
        0 <= i < nodes.len() && (#[trigger] nodes[i]) is Branch ==> {
            let branch = nodes[i]->Branch_0;
            &&& branch.left_child_index < nodes.len()
            &&& branch.right_child_index < nodes.len()
            &&& rank[branch.left_child_index as int] < rank[i]
            &&& rank[branch.right_child_index as int] < rank[i]
        }
}

/// The invariant of a tree: there is a root, every child index is in range,
/// and no path comes back to a node it has left.
pub open spec fn is_well_formed(nodes: Seq<Node>) -> bool {
    nodes.len() > 0 && exists|rank: Seq<nat>| is_ranking(nodes, rank)
}

/// The node that follows `index` on the path of an example: a leaf stays
/// where it is.
pub open spec fn step(nodes: Seq<Node>, example: Seq<TableValue>, index: int) -> int {
    match nodes[index] {
        Node::Leaf(_) => index,
        Node::Branch(branch) => match branch.split.direction(example) {
            SplitDirection::Left => branch.left_child_index as int,
            SplitDirection::Right => branch.right_child_index as int,
        },
    }
}

/// The node that the path of an example from the root has reached after
/// `steps` steps.
pub open spec fn descend(nodes: Seq<Node>, example: Seq<TableValue>, steps: nat) -> int
    decreases steps,
{
    if steps == 0 {
        0
    } else {
        step(nodes, example, descend(nodes, example, (steps - 1) as nat))
    }
}

/// Whether every split of the tree can route the example.
pub open spec fn accepts(nodes: Seq<Node>, example: Seq<TableValue>) -> bool {
    forall|i: int|
        0 <= i < nodes.len() && (#[trigger] nodes[i]) is Branch ==> nodes[i]->Branch_0.split.accepts(
            example,
        )
}

/// Once a path has reached a leaf, it stays there: an example reaches one
/// leaf and no other.
pub proof fn lemma_path_ends_at_leaf(
    nodes: Seq<Node>,
    example: Seq<TableValue>,
    reached: nat,
    later: nat,
)
    requires
        reached <= later,
        0 <= descend(nodes, example, reached) < nodes.len(),
        nodes[descend(nodes, example, reached)] is Leaf,
    ensures
        descend(nodes, example, later) == descend(nodes, example, reached),
    decreases later,
{
    if reached < later {
        lemma_path_ends_at_leaf(nodes, example, reached, (later - 1) as nat);
    }
}

/// The number of `true` entries.
spec fn count_true(flags: Seq<bool>) -> nat
    decreases flags.len(),
{
    if flags.len() == 0 {
        0
    } else {
        count_true(flags.drop_last()) + if flags.last() {
            1nat
        } else {
            0nat
        }
    }
}

proof fn lemma_count_true_bounded(flags: Seq<bool>)
    ensures
        count_true(flags) <= flags.len(),
        count_true(flags) == flags.len() ==> forall|i: int| 0 <= i < flags.len() ==> flags[i],
    decreases flags.len(),
{
    if flags.len() > 0 {
        lemma_count_true_bounded(flags.drop_last());
        if count_true(flags) == flags.len() {
            assert forall|i: int| 0 <= i < flags.len() implies flags[i] by {
                if i < flags.len() - 1 {
                    assert(flags.drop_last()[i] == flags[i]);
                }
            }
        }
    }
}

proof fn lemma_count_true_set(flags: Seq<bool>, index: int)
    requires
        0 <= index < flags.len(),
        !flags[index],
    ensures
        count_true(flags.update(index, true)) == count_true(flags) + 1,
    decreases flags.len(),
{
    let after = flags.update(index, true);
    if index == flags.len() - 1 {
        assert(after.drop_last() =~= flags.drop_last());
    } else {
        assert(after.drop_last() =~= flags.drop_last().update(index, true));
        lemma_count_true_set(flags.drop_last(), index);
    }
}

/// Whether a node can be resolved: it is a leaf, or both its children are
/// resolved.
spec fn is_ready(nodes: Seq<Node>, resolved: Seq<bool>, index: int) -> bool {
    match nodes[index] {
        Node::Leaf(_) => true,
        Node::Branch(branch) => resolved[branch.left_child_index as int]
            && resolved[branch.right_child_index as int],
    }
}

/// Where no node that is not resolved can be resolved, a ranking leaves no
/// node without resolution.
proof fn lemma_ranked_nodes_resolve(
    nodes: Seq<Node>,
    resolved: Seq<bool>,
    rank: Seq<nat>,
    index: int,
)
    requires
        is_ranking(nodes, rank),
        resolved.len() == nodes.len(),
        0 <= index < nodes.len(),
        forall|i: int| 0 <= i < nodes.len() && !resolved[i] ==> !is_ready(nodes, resolved, i),
    ensures
        resolved[index],
    decreases rank[index],
{
    if !resolved[index] {
        assert(!is_ready(nodes, resolved, index));
        assert(nodes[index] is Branch);
        let branch = nodes[index]->Branch_0;
        lemma_ranked_nodes_resolve(nodes, resolved, rank, branch.left_child_index as int);
        lemma_ranked_nodes_resolve(nodes, resolved, rank, branch.right_child_index as int);
    }
}

/// A decision tree: node 0 is the root.
pub struct Tree {
    nodes: Vec<Node>,
}

impl View for Tree {
    type V = Seq<Node>;

    closed spec fn view(&self) -> Seq<Node> {
        self.nodes@
    }
}

impl Tree {
    #[verifier::type_invariant]
    spec fn holds_ranking(self) -> bool {
        &&& self.nodes@.len() > 0
        &&& exists|rank: Seq<nat>|
            is_ranking(self.nodes@, rank) && forall|i: int|
                0 <= i < rank.len() ==> #[trigger] rank[i] < self.nodes@.len()
    }

    /// A tree of the given nodes, if they are well formed.
    #[verifier::rlimit(40)]
    pub fn new(nodes: Vec<Node>) -> (r: Option<Tree>)
        ensures
            r is Some <==> is_well_formed(nodes@),
            r is Some ==> r->0@ == nodes@,
    {
        let n: usize = nodes.len();
        if n == 0 {
            return None;
        }
        let mut i: usize = 0;
        while i < n
            invariant
                i <= n,
                n == nodes@.len(),
                forall|k: int|
                    0 <= k < i && (#[trigger] nodes@[k]) is Branch
                        ==> nodes@[k]->Branch_0.left_child_index < n
                        && nodes@[k]->Branch_0.right_child_index < n,
            decreases n - i,
        {
            match &nodes[i] {
                Node::Branch(branch) => {
                    if branch.left_child_index >= n || branch.right_child_index >= n {
                        proof {
                            assert(nodes@[i as int] is Branch);
                        }
                        return None;
                    }
                },
                Node::Leaf(_) => {},
            }
            i += 1;
        }
        let mut resolved: Vec<bool> = Vec::new();
        let mut k: usize = 0;
        while k < n
            invariant
                k <= n,
                resolved@.len() == k,
                forall|j: int| 0 <= j < k ==> !resolved@[j],
                count_true(resolved@) == 0,
            decreases n - k,
        {
            proof {
                assert(resolved@.push(false).drop_last() =~= resolved@);
            }
            resolved.push(false);
            k += 1;
        }
        let ghost mut rank: Seq<nat> = Seq::new(n as nat, |j: int| 0nat);
        let mut n_resolved: usize = 0;
        let mut done: bool = false;
        while !done
            invariant
                n == nodes@.len(),
                n > 0,
                resolved@.len() == n,
                rank.len() == n,
                n_resolved == count_true(resolved@),
                n_resolved <= n,
                forall|j: int|
                    0 <= j < n && (#[trigger] nodes@[j]) is Branch
                        ==> nodes@[j]->Branch_0.left_child_index < n
                        && nodes@[j]->Branch_0.right_child_index < n,
                forall|j: int|
                    0 <= j < n && #[trigger] resolved@[j] ==> rank[j] < n_resolved && (nodes@[j] is Branch
                        ==> {
                        let branch = nodes@[j]->Branch_0;
                        &&& resolved@[branch.left_child_index as int]
                        &&& resolved@[branch.right_child_index as int]
                        &&& rank[branch.left_child_index as int] < rank[j]
                        &&& rank[branch.right_child_index as int] < rank[j]
                    }),
                done ==> forall|j: int|
                    0 <= j < n && !resolved@[j] ==> !is_ready(nodes@, resolved@, j),
            decreases n - n_resolved + (if done { 0int } else { 1int }),
        {
            let ghost resolved_before = resolved@;
            let before: usize = n_resolved;
            let mut j: usize = n;
            while j > 0
                invariant
                    j <= n,
                    n == nodes@.len(),
                    resolved@.len() == n,
                    rank.len() == n,
                    n_resolved == count_true(resolved@),
                    n_resolved <= n,
                    before <= n_resolved,
                    forall|m: int|
                        0 <= m < n && (#[trigger] nodes@[m]) is Branch
                            ==> nodes@[m]->Branch_0.left_child_index < n
                            && nodes@[m]->Branch_0.right_child_index < n,
                    forall|m: int|
                        0 <= m < n && #[trigger] resolved@[m] ==> rank[m] < n_resolved && (nodes@[m] is Branch
                            ==> {
                            let branch = nodes@[m]->Branch_0;
                            &&& resolved@[branch.left_child_index as int]
                            &&& resolved@[branch.right_child_index as int]
                            &&& rank[branch.left_child_index as int] < rank[m]
                            &&& rank[branch.right_child_index as int] < rank[m]
                        }),
                    n_resolved == before ==> resolved@ == resolved_before && forall|m: int|
                        j <= m < n && !resolved@[m] ==> !is_ready(nodes@, resolved@, m),
                decreases j,
            {
                j -= 1;
                if !resolved[j] {
                    let ready: bool = match &nodes[j] {
                        Node::Leaf(_) => true,
                        Node::Branch(branch) => resolved[branch.left_child_index]
                            && resolved[branch.right_child_index],
                    };
                    assert(ready == is_ready(nodes@, resolved@, j as int));
                    if ready {
                        proof {
                            lemma_count_true_set(resolved@, j as int);
                            lemma_count_true_bounded(resolved@.update(j as int, true));
                            rank = rank.update(j as int, n_resolved as nat);
                        }
                        resolved.set(j, true);
                        n_resolved += 1;
                    }
                }
            }
            if n_resolved == before {
                done = true;
            }
        }
        if n_resolved == n {
            proof {
                lemma_count_true_bounded(resolved@);
                assert forall|i: int| 0 <= i < nodes@.len() && (#[trigger] nodes@[i]) is Branch implies {
                    let branch = nodes@[i]->Branch_0;
                    &&& branch.left_child_index < nodes@.len()
                    &&& branch.right_child_index < nodes@.len()
                    &&& rank[branch.left_child_index as int] < rank[i]
                    &&& rank[branch.right_child_index as int] < rank[i]
                } by {
                    assert(resolved@[i]);
                }
                assert(is_ranking(nodes@, rank));
                assert forall|i: int| 0 <= i < rank.len() implies #[trigger] rank[i] < nodes@.len() by {
                    assert(resolved@[i]);
                }
            }
            Some(Tree { nodes })
        } else {
            proof {
                if is_well_formed(nodes@) {
                    let witness = choose|witness: Seq<nat>| is_ranking(nodes@, witness);
                    assert forall|m: int| 0 <= m < n implies resolved@[m] by {
                        lemma_ranked_nodes_resolve(nodes@, resolved@, witness, m);
                    }
                    lemma_all_true(resolved@);
                }
            }
            None
        }
    }

    /// The nodes of the tree.
    pub fn nodes(&self) -> (r: &Vec<Node>)
        ensures
            r@ == self@,
            is_well_formed(self@),
    {
        proof {
            use_type_invariant(self);
        }
        &self.nodes
    }

    /// Whether every split of the tree can route the example.
    pub fn accepts(&self, example: &[TableValue]) -> (r: bool)
        ensures
            r == accepts(self@, example@),
    {
        let n: usize = self.nodes.len();
        let mut i: usize = 0;
        while i < n
            invariant
                i <= n,
                n == self.nodes@.len(),
                forall|k: int|
                    0 <= k < i && (#[trigger] self.nodes@[k]) is Branch
                        ==> self.nodes@[k]->Branch_0.split.accepts(example@),
            decreases n - i,
        {
            match &self.nodes[i] {
                Node::Branch(branch) => {
                    if branch.split.route(example).is_none() {
                        proof {
                            assert(self.nodes@[i as int] is Branch);
                        }
                        return false;
                    }
                },
                Node::Leaf(_) => {},
            }
            i += 1;
        }
        true
    }

    /// The index of the leaf that an example reaches.
    pub open spec fn leaf_index(self, example: Seq<TableValue>) -> int {
        descend(self@, example, self@.len())
    }

    /// Follows the path of the example from the root to its leaf, and
    /// returns the value of that leaf.
    pub fn predict(&self, example: &[TableValue]) -> (r: u64)
        requires
            accepts(self@, example@),
        ensures
            0 <= self.leaf_index(example@) < self@.len(),
            self@[self.leaf_index(example@)] is Leaf,
            r == self@[self.leaf_index(example@)]->Leaf_0.value,
    {
        proof {
            use_type_invariant(self);
        }
        let ghost rank = choose|rank: Seq<nat>|
            is_ranking(self.nodes@, rank) && forall|i: int|
                0 <= i < rank.len() ==> #[trigger] rank[i] < self.nodes@.len();
        let ghost mut steps: nat = 0;
        let mut node_index: usize = 0;
        loop
            invariant
                accepts(self@, example@),
                is_ranking(self.nodes@, rank),
                forall|i: int| 0 <= i < rank.len() ==> #[trigger] rank[i] < self.nodes@.len(),
                node_index < self.nodes@.len(),
                node_index == descend(self@, example@, steps),
                steps + rank[node_index as int] < self.nodes@.len(),
            decreases rank[node_index as int],
        {
            match &self.nodes[node_index] {
                Node::Leaf(leaf) => {
                    proof {
                        lemma_path_ends_at_leaf(self@, example@, steps, self@.len());
                    }
                    return leaf.value;
                },
                Node::Branch(branch) => {
                    assert(self.nodes@[node_index as int] is Branch);
                    let direction: Option<SplitDirection> = branch.split.route(example);
                    proof {
                        steps = steps + 1;
                    }
                    node_index =
                    match direction {
                        Some(SplitDirection::Right) => branch.right_child_index,
                        _ => branch.left_child_index,
                    };
                },
            }
        }
    }
}

proof fn lemma_all_true(flags: Seq<bool>)
    requires
        forall|i: int| 0 <= i < flags.len() ==> flags[i],
    ensures
        count_true(flags) == flags.len(),
    decreases flags.len(),
{
    if flags.len() > 0 {
        assert forall|i: int| 0 <= i < flags.drop_last().len() implies flags.drop_last()[i] by {
            assert(flags.drop_last()[i] == flags[i]);
        }
        lemma_all_true(flags.drop_last());
    }
}

} // verus!
