use crate::error::HuffmanError;
use crate::frequency::{table_total, total_below};
use crate::optimality::{is_optimal_for, lemma_huffman_tree_optimal};
use std::collections::HashMap;
use vstd::prelude::*;

verus! {

broadcast use vstd::std_specs::hash::group_hash_axioms;

/// A node of a Huffman tree.
///
/// A leaf holds a byte value and its frequency and has no children. An
/// internal node holds no byte value, has two children, and its frequency is
/// the sum of theirs.
#[derive(Debug)]
pub struct Node {
    pub freq: usize,
    pub value: Option<u8>,
    pub left: Option<Box<Node>>,
    pub right: Option<Box<Node>>,
}

/// The leaf for the byte `byte` with frequency `freq`.
pub open spec fn leaf(byte: u8, freq: usize) -> Node {
    Node { freq, value: Some(byte), left: None, right: None }
}

/// The internal node over `left` and `right`.
pub open spec fn merged(left: Node, right: Node) -> Node {
    Node {
        freq: (left.freq + right.freq) as usize,
        value: None,
        left: Some(Box::new(left)),
        right: Some(Box::new(right)),
    }
}

/// The order in which nodes are merged: by frequency first; at equal
/// frequency an internal node comes before every leaf, and a leaf with a
/// smaller byte value before one with a larger. Two internal nodes of equal
/// frequency are not ordered by it.
pub open spec fn node_less(a: Node, b: Node) -> bool {
    a.freq < b.freq || (a.freq == b.freq && match (a.value, b.value) {
        (None, Some(_)) => true,
        (Some(x), Some(y)) => x < y,
        _ => false,
    })
}

/// Whether `forest` is in descending merge order, so that its last element is
/// the next to be merged.
pub open spec fn is_descending(forest: Seq<Node>) -> bool {
    forall|i: int, j: int| 0 <= i < j < forest.len() ==> !node_less(forest[i], forest[j])
}

/// Where `node` enters `forest`: behind every element that is not less than
/// it. Among internal nodes of equal frequency the one that entered last is
/// therefore merged first.
pub open spec fn insert_position(forest: Seq<Node>, node: Node) -> int
    decreases forest.len(),
{
    if forest.len() == 0 {
        0
    } else if node_less(forest.last(), node) {
        insert_position(forest.drop_last(), node)
    } else {
        forest.len() as int
    }
}

/// `forest` with `node` entered at its place.
pub open spec fn insert_sorted(forest: Seq<Node>, node: Node) -> Seq<Node> {
    forest.insert(insert_position(forest, node), node)
}

/// The leaves of `table` for the byte values below `n`, in descending merge
/// order.
pub open spec fn leaves_below(table: Map<u8, usize>, n: int) -> Seq<Node>
    decreases n,
{
    if n <= 0 {
        Seq::empty()
    } else if table.contains_key((n - 1) as u8) {
        insert_sorted(leaves_below(table, n - 1), leaf((n - 1) as u8, table[(n - 1) as u8]))
    } else {
        leaves_below(table, n - 1)
    }
}

/// One round of merging: the last two trees of `forest`, the two least in
/// merge order, become the right and the left child of a new internal node,
/// which enters the rest at its place.
pub open spec fn merge_step(forest: Seq<Node>) -> Seq<Node> {
    let right = forest[forest.len() - 1];
    let left = forest[forest.len() - 2];
    insert_sorted(forest.take(forest.len() - 2), merged(left, right))
}

/// The tree that remains when `forest` is merged round by round.
pub open spec fn merge_all(forest: Seq<Node>) -> Node
    recommends
        forest.len() > 0,
    decreases forest.len(),
{
    if forest.len() <= 1 {
        forest[0]
    } else {
        proof {
            lemma_merge_step_len(forest);
        }
        merge_all(merge_step(forest))
    }
}

/// The Huffman tree of a frequency table with at least one entry.
///
/// It depends on the entries of the table alone: two tables with equal
/// entries have the same tree.
pub open spec fn huffman_tree(table: Map<u8, usize>) -> Node {
    merge_all(leaves_below(table, 256))
}

/// The sum of `measure` over the trees of `forest`.
pub open spec fn forest_sum(forest: Seq<Node>, measure: spec_fn(Node) -> nat) -> nat
    decreases forest.len(),
{
    if forest.len() == 0 {
        0
    } else {
        forest_sum(forest.drop_last(), measure) + measure(forest.last())
    }
}

/// The frequency at the root of a tree.
pub open spec fn root_weight() -> spec_fn(Node) -> nat {
    |node: Node| node.freq as nat
}

/// The sum of the root frequencies of `forest`.
pub open spec fn forest_weight(forest: Seq<Node>) -> nat {
    forest_sum(forest, root_weight())
}

/// The number of leaves of `child` that hold `byte`: none where there is no
/// child.
pub open spec fn child_leaf_count(child: Option<Box<Node>>, byte: u8) -> nat
    decreases child,
{
    match child {
        Some(node) => leaf_count(*node, byte),
        None => 0,
    }
}

/// The number of leaves of `node` that hold `byte`.
pub open spec fn leaf_count(node: Node, byte: u8) -> nat
    decreases node,
{
    match node.value {
        Some(b) => if b == byte {
            1
        } else {
            0
        },
        None => child_leaf_count(node.left, byte) + child_leaf_count(node.right, byte),
    }
}

/// The number of leaves that hold `byte`, as a measure of a tree.
pub open spec fn leaves_holding(byte: u8) -> spec_fn(Node) -> nat {
    |node: Node| leaf_count(node, byte)
}

/// Whether `node` has the shape of a Huffman tree over `table`: a leaf has no
/// children and holds an entry of the table; an internal node has two
/// children of that shape, and its frequency is the sum of theirs.
pub open spec fn is_shaped(node: Node, table: Map<u8, usize>) -> bool
    decreases node,
{
    match node.value {
        Some(byte) => node.left is None && node.right is None && table.contains_key(byte)
            && table[byte] == node.freq,
        None => match (node.left, node.right) {
            (Some(left), Some(right)) => is_shaped(*left, table) && is_shaped(*right, table)
                && node.freq == left.freq + right.freq,
            _ => false,
        },
    }
}

/// Whether `node` is a code tree for `table`: it has the shape of a Huffman
/// tree over it, and each entry of the table is held by exactly one leaf.
pub open spec fn is_tree_for(node: Node, table: Map<u8, usize>) -> bool {
    is_shaped(node, table) && forall|byte: u8|
        #[trigger] leaf_count(node, byte) == if table.contains_key(byte) {
            1nat
        } else {
            0nat
        }
}

/// Whether every tree of `forest` has the shape of a Huffman tree over
/// `table`.
pub open spec fn all_shaped(forest: Seq<Node>, table: Map<u8, usize>) -> bool {
    forall|i: int| 0 <= i < forest.len() ==> is_shaped(#[trigger] forest[i], table)
}

pub proof fn lemma_insert_position_bounds(forest: Seq<Node>, node: Node)
    ensures
        0 <= insert_position(forest, node) <= forest.len(),
    decreases forest.len(),
{
    if forest.len() > 0 && node_less(forest.last(), node) {
        lemma_insert_position_bounds(forest.drop_last(), node);
    }
}

/// A round of merging leaves one tree fewer.
pub proof fn lemma_merge_step_len(forest: Seq<Node>)
    requires
        forest.len() >= 2,
    ensures
        merge_step(forest).len() == forest.len() - 1,
{
    let rest = forest.take(forest.len() - 2);
    lemma_insert_position_bounds(rest, merged(forest[forest.len() - 2], forest[forest.len() - 1]));
}

/// A round of merging keeps the weight of the forest, as long as the two
/// merged frequencies fit the machine's word.
pub proof fn lemma_merge_step_weight(forest: Seq<Node>)
    requires
        forest.len() >= 2,
        forest_weight(forest) <= usize::MAX,
    ensures
        forest[forest.len() - 2].freq + forest[forest.len() - 1].freq <= forest_weight(forest),
        forest_weight(merge_step(forest)) == forest_weight(forest),
{
    let rest = forest.take(forest.len() - 2);
    let parent = merged(forest[forest.len() - 2], forest[forest.len() - 1]);
    lemma_forest_sum_last_two(forest, root_weight());
    lemma_insert_position_bounds(rest, parent);
    lemma_forest_sum_insert(rest, insert_position(rest, parent), parent, root_weight());
}

/// Entering a tree adds its measure to the sum over the forest, wherever it
/// enters.
pub proof fn lemma_forest_sum_insert(
    forest: Seq<Node>,
    i: int,
    node: Node,
    measure: spec_fn(Node) -> nat,
)
    requires
        0 <= i <= forest.len(),
    ensures
        forest_sum(forest.insert(i, node), measure) == forest_sum(forest, measure) + measure(node),
    decreases forest.len(),
{
    let after = forest.insert(i, node);
    if i == forest.len() {
        assert(after.drop_last() =~= forest);
    } else {
        assert(after.drop_last() =~= forest.drop_last().insert(i, node));
        lemma_forest_sum_insert(forest.drop_last(), i, node, measure);
    }
}

/// The sum over a forest of two or more trees is the sum over all but the
/// last two, and the measures of those two.
pub proof fn lemma_forest_sum_last_two(forest: Seq<Node>, measure: spec_fn(Node) -> nat)
    requires
        forest.len() >= 2,
    ensures
        forest_sum(forest, measure) == forest_sum(forest.take(forest.len() - 2), measure)
            + measure(forest[forest.len() - 2]) + measure(forest[forest.len() - 1]),
{
    let rest = forest.take(forest.len() - 2);
    assert(forest.drop_last().drop_last() =~= rest);
    assert(forest.drop_last().last() == forest[forest.len() - 2]);
    assert(forest_sum(forest.drop_last(), measure) == forest_sum(rest, measure) + measure(
        forest[forest.len() - 2],
    ));
}

/// Entering a tree of the shape into a forest of such trees gives one.
pub proof fn lemma_all_shaped_insert(forest: Seq<Node>, i: int, node: Node, table: Map<u8, usize>)
    requires
        0 <= i <= forest.len(),
        all_shaped(forest, table),
        is_shaped(node, table),
    ensures
        all_shaped(forest.insert(i, node), table),
{
    let after = forest.insert(i, node);
    assert forall|j: int| 0 <= j < after.len() implies is_shaped(#[trigger] after[j], table) by {
        if j < i {
            assert(after[j] == forest[j]);
        } else if j > i {
            assert(after[j] == forest[j - 1]);
        }
    }
}

pub proof fn lemma_leaves_below_weight(table: Map<u8, usize>, n: int)
    requires
        0 <= n <= 256,
    ensures
        forest_weight(leaves_below(table, n)) == total_below(table, n),
        leaves_below(table, n).len() <= n,
    decreases n,
{
    if n > 0 {
        lemma_leaves_below_weight(table, n - 1);
        if table.contains_key((n - 1) as u8) {
            let rest = leaves_below(table, n - 1);
            let node = leaf((n - 1) as u8, table[(n - 1) as u8]);
            lemma_insert_position_bounds(rest, node);
            lemma_forest_sum_insert(rest, insert_position(rest, node), node, root_weight());
        }
    }
}

/// A table without entries has no leaves, and any other has at least one.
pub proof fn lemma_leaves_below_empty(table: Map<u8, usize>, n: int)
    requires
        0 <= n <= 256,
    ensures
        leaves_below(table, n).len() == 0 <==> forall|b: u8| b < n ==> !table.contains_key(b),
    decreases n,
{
    if n > 0 {
        lemma_leaves_below_empty(table, n - 1);
        if table.contains_key((n - 1) as u8) {
            let rest = leaves_below(table, n - 1);
            let node = leaf((n - 1) as u8, table[(n - 1) as u8]);
            lemma_insert_position_bounds(rest, node);
        }
    }
}

/// The leaves of a table all have the shape, and each entry below `n` is
/// held by exactly one of them.
pub proof fn lemma_leaves_below_shaped(table: Map<u8, usize>, n: int)
    requires
        0 <= n <= 256,
    ensures
        all_shaped(leaves_below(table, n), table),
        forall|byte: u8|
            forest_sum(leaves_below(table, n), #[trigger] leaves_holding(byte)) == if byte < n
                && table.contains_key(byte) {
                1nat
            } else {
                0nat
            },
    decreases n,
{
    if n > 0 {
        lemma_leaves_below_shaped(table, n - 1);
        if table.contains_key((n - 1) as u8) {
            let rest = leaves_below(table, n - 1);
            let node = leaf((n - 1) as u8, table[(n - 1) as u8]);
            let at = insert_position(rest, node);
            lemma_insert_position_bounds(rest, node);
            lemma_all_shaped_insert(rest, at, node, table);
            assert forall|byte: u8|
                forest_sum(leaves_below(table, n), #[trigger] leaves_holding(byte)) == if byte < n
                    && table.contains_key(byte) {
                    1nat
                } else {
                    0nat
                } by {
                lemma_forest_sum_insert(rest, at, node, leaves_holding(byte));
            }
        }
    }
}

/// A round of merging keeps the shape of the trees and the number of leaves
/// that hold each byte.
pub proof fn lemma_merge_step_shaped(forest: Seq<Node>, table: Map<u8, usize>)
    requires
        forest.len() >= 2,
        all_shaped(forest, table),
        forest_weight(forest) <= usize::MAX,
    ensures
        all_shaped(merge_step(forest), table),
        forall|byte: u8|
            forest_sum(merge_step(forest), #[trigger] leaves_holding(byte)) == forest_sum(
                forest,
                leaves_holding(byte),
            ),
{
    let rest = forest.take(forest.len() - 2);
    let left = forest[forest.len() - 2];
    let right = forest[forest.len() - 1];
    let parent = merged(left, right);
    let at = insert_position(rest, parent);
    lemma_merge_step_weight(forest);
    lemma_insert_position_bounds(rest, parent);
    assert(is_shaped(left, table));
    assert(is_shaped(right, table));
    assert(is_shaped(parent, table));
    assert(all_shaped(rest, table)) by {
        assert forall|i: int| 0 <= i < rest.len() implies is_shaped(#[trigger] rest[i], table) by {
            assert(rest[i] == forest[i]);
        }
    }
    lemma_all_shaped_insert(rest, at, parent, table);
    assert forall|byte: u8|
        forest_sum(merge_step(forest), #[trigger] leaves_holding(byte)) == forest_sum(
            forest,
            leaves_holding(byte),
        ) by {
        lemma_forest_sum_last_two(forest, leaves_holding(byte));
        lemma_forest_sum_insert(rest, at, parent, leaves_holding(byte));
    }
}

/// Merging a forest of shaped trees gives a shaped tree with the leaves of
/// the forest.
pub proof fn lemma_merge_all_shaped(forest: Seq<Node>, table: Map<u8, usize>)
    requires
        forest.len() >= 1,
        all_shaped(forest, table),
        forest_weight(forest) <= usize::MAX,
    ensures
        is_shaped(merge_all(forest), table),
        merge_all(forest).freq == forest_weight(forest),
        forall|byte: u8|
            #[trigger] leaf_count(merge_all(forest), byte) == forest_sum(
                forest,
                leaves_holding(byte),
            ),
    decreases forest.len(),
{
    if forest.len() == 1 {
        assert(forest.drop_last() =~= Seq::<Node>::empty());
        assert(is_shaped(forest[0], table));
        assert forall|byte: u8|
            #[trigger] leaf_count(merge_all(forest), byte) == forest_sum(
                forest,
                leaves_holding(byte),
            ) by {
            assert(forest_sum(forest.drop_last(), leaves_holding(byte)) == 0);
        }
        assert(forest_sum(forest.drop_last(), root_weight()) == 0);
    } else {
        lemma_merge_step_len(forest);
        lemma_merge_step_weight(forest);
        lemma_merge_step_shaped(forest, table);
        lemma_merge_all_shaped(merge_step(forest), table);
    }
}

/// The Huffman tree of a table with at least one entry, whose counts together
/// fit the machine's word, is a code tree for the table, and the frequency at
/// its root is the sum of the counts.
pub proof fn lemma_huffman_tree_is_tree_for(table: Map<u8, usize>)
    requires
        exists|byte: u8| table.contains_key(byte),
        table_total(table) <= usize::MAX,
    ensures
        is_tree_for(huffman_tree(table), table),
        huffman_tree(table).freq == table_total(table),
{
    let leaves = leaves_below(table, 256);
    lemma_leaves_below_weight(table, 256);
    lemma_leaves_below_empty(table, 256);
    lemma_leaves_below_shaped(table, 256);
    lemma_merge_all_shaped(leaves, table);
}

impl Node {
    /// Whether `self` comes before `other` in merge order.
    pub fn sorts_before(&self, other: &Node) -> (r: bool)
        ensures
            r == node_less(*self, *other),
    {
        if self.freq != other.freq {
            self.freq < other.freq
        } else {
            match (self.value, other.value) {
                (None, Some(_)) => true,
                (Some(x), Some(y)) => x < y,
                _ => false,
            }
        }
    }
}

/// Enters `node` into `nodes` at its place in merge order.
fn insert_in_order(nodes: &mut Vec<Node>, node: Node)
    ensures
        final(nodes)@ == insert_sorted(old(nodes)@, node),
{
    let mut pos: usize = nodes.len();
    proof {
        assert(nodes@.take(pos as int) =~= nodes@);
    }
    while pos > 0 && nodes[pos - 1].sorts_before(&node)
        invariant
            pos <= nodes.len(),
            nodes@ == old(nodes)@,
            insert_position(nodes@, node) == insert_position(nodes@.take(pos as int), node),
        decreases pos,
    {
        proof {
            assert(nodes@.take(pos as int).drop_last() =~= nodes@.take(pos - 1));
        }
        pos -= 1;
    }
    proof {
        if pos > 0 {
            assert(nodes@.take(pos as int).last() == nodes@[pos - 1]);
        }
    }
    nodes.insert(pos, node);
}

/// Builds the Huffman tree of a frequency table.
///
/// One leaf is made for each entry. Then the two nodes that are least in merge
/// order are combined, the least as the right child and the next as the left,
/// until one node is left. The result depends on the entries of the table
/// alone. It is a code tree for the table, and no code tree for the table has
/// a smaller weighted path length. A table without entries has no tree.
pub fn build_huffman_tree(freq_map: &HashMap<u8, usize>) -> (tree: Result<Node, HuffmanError>)
    requires
        table_total(freq_map@) <= usize::MAX,
    ensures
        freq_map@.len() == 0 ==> tree == Err::<Node, HuffmanError>(HuffmanError::EmptyInput),
        freq_map@.len() != 0 ==> tree == Ok::<Node, HuffmanError>(huffman_tree(freq_map@)),
        freq_map@.len() != 0 ==> is_tree_for(huffman_tree(freq_map@), freq_map@)
            && is_optimal_for(huffman_tree(freq_map@), freq_map@),
{
    let mut nodes: Vec<Node> = Vec::new();
    let mut b: u16 = 0;
    while b < 256
        invariant
            b <= 256,
            nodes@ == leaves_below(freq_map@, b as int),
        decreases 256 - b,
    {
        let byte = b as u8;
        match freq_map.get(&byte) {
            Some(freq) => {
                let node = Node { freq: *freq, value: Some(byte), left: None, right: None };
                insert_in_order(&mut nodes, node);
            },
            None => {},
        }
        b += 1;
    }
    proof {
        lemma_leaves_below_weight(freq_map@, 256);
        lemma_leaves_below_empty(freq_map@, 256);
        if freq_map@.len() == 0 {
            assert forall|k: u8| !freq_map@.contains_key(k) by {
                if freq_map@.contains_key(k) {
                    assert(freq_map@.dom().contains(k));
                    assert(freq_map@.dom().len() > 0);
                }
            }
        } else {
            if nodes@.len() == 0 {
                assert(freq_map@.dom() =~= Set::empty());
            }
            lemma_huffman_tree_optimal(freq_map@);
        }
    }
    if nodes.len() == 0 {
        return Err(HuffmanError::EmptyInput);
    }
    while nodes.len() > 1
        invariant
            nodes@.len() >= 1,
            merge_all(nodes@) == huffman_tree(freq_map@),
            forest_weight(nodes@) <= usize::MAX,
        decreases nodes.len(),
    {
        let ghost before = nodes@;
        proof {
            lemma_merge_step_weight(before);
            lemma_merge_step_len(before);
        }
        let right = nodes.pop().unwrap();
        let left = nodes.pop().unwrap();
        proof {
            assert(nodes@ =~= before.take(before.len() - 2));
        }
        let parent = Node {
            freq: left.freq + right.freq,
            value: None,
            left: Some(Box::new(left)),
            right: Some(Box::new(right)),
        };
        insert_in_order(&mut nodes, parent);
    }
    Ok(nodes.pop().unwrap())
}

} // verus!
