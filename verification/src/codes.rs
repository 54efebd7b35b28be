use crate::tree::{huffman_tree, is_tree_for, leaf_count, Node};
use std::collections::HashMap;
use vstd::prelude::*;

verus! {

broadcast use vstd::std_specs::hash::group_hash_axioms;

/// The codes of the leaves below `child`, each the path to the leaf from a
/// node that is reached by `prefix`: none where there is no child.
pub open spec fn child_paths(child: Option<Box<Node>>, prefix: Seq<bool>) -> Map<u8, Seq<bool>>
    decreases child,
{
    match child {
        Some(node) => paths(*node, prefix),
        None => Map::empty(),
    }
}

/// The codes of the leaves of `node`, which is itself reached by `prefix`: a
/// step to the left adds a zero bit, a step to the right a one bit. Should a
/// byte value stand in both subtrees, its code is the one from the left.
pub open spec fn paths(node: Node, prefix: Seq<bool>) -> Map<u8, Seq<bool>>
    decreases node,
{
    match node.value {
        Some(byte) => map![byte => prefix],
        None => child_paths(node.right, prefix.push(true)).union_prefer_right(
            child_paths(node.left, prefix.push(false)),
        ),
    }
}

/// The code table of the tree `root`: for the byte of each leaf, the path
/// from the root to it. A tree that is a single leaf gives its byte the
/// one-bit code zero, since a code without bits could not be told apart in a
/// bit stream.
pub open spec fn code_table(root: Node) -> Map<u8, Seq<bool>> {
    match root.value {
        Some(byte) => map![byte => seq![false]],
        None => paths(root, Seq::empty()),
    }
}

/// Whether `a` is a prefix of `b`.
pub open spec fn is_prefix(a: Seq<bool>, b: Seq<bool>) -> bool {
    a.len() <= b.len() && forall|i: int| 0 <= i < a.len() ==> a[i] == b[i]
}

/// Whether no code of `codes` is a prefix of the code of another byte.
pub open spec fn is_prefix_free(codes: Map<u8, Seq<bool>>) -> bool {
    forall|x: u8, y: u8|
        codes.contains_key(x) && codes.contains_key(y) && x != y ==> !is_prefix(
            codes[x],
            codes[y],
        )
}

/// A code table as a map to bit sequences.
pub open spec fn code_view(codes: Map<u8, Vec<bool>>) -> Map<u8, Seq<bool>> {
    codes.map_values(|code: Vec<bool>| code@)
}

/// Every code below a node begins with the path to that node and is longer
/// than it, unless the node is itself the leaf.
pub proof fn lemma_paths_extend_prefix(node: Node, prefix: Seq<bool>, byte: u8)
    requires
        paths(node, prefix).contains_key(byte),
    ensures
        is_prefix(prefix, paths(node, prefix)[byte]),
        node.value is None ==> paths(node, prefix)[byte].len() > prefix.len(),
    decreases node,
{
    if node.value is None {
        let zero = prefix.push(false);
        let one = prefix.push(true);
        if child_paths(node.left, zero).contains_key(byte) {
            lemma_paths_extend_prefix(*node.left.unwrap(), zero, byte);
            assert forall|i: int| 0 <= i < prefix.len() implies prefix[i] == paths(
                node,
                prefix,
            )[byte][i] by {
                assert(zero[i] == prefix[i]);
            }
        } else {
            lemma_paths_extend_prefix(*node.right.unwrap(), one, byte);
            assert forall|i: int| 0 <= i < prefix.len() implies prefix[i] == paths(
                node,
                prefix,
            )[byte][i] by {
                assert(one[i] == prefix[i]);
            }
        }
    }
}

/// The codes below any node are prefix-free.
pub proof fn lemma_paths_prefix_free(node: Node, prefix: Seq<bool>)
    ensures
        is_prefix_free(paths(node, prefix)),
    decreases node,
{
    if node.value is None {
        let zero = prefix.push(false);
        let one = prefix.push(true);
        let left = child_paths(node.left, zero);
        let right = child_paths(node.right, one);
        if node.left is Some {
            lemma_paths_prefix_free(*node.left.unwrap(), zero);
        }
        if node.right is Some {
            lemma_paths_prefix_free(*node.right.unwrap(), one);
        }
        let all = paths(node, prefix);
        assert forall|x: u8, y: u8|
            all.contains_key(x) && all.contains_key(y) && x != y implies !is_prefix(
            all[x],
            all[y],
        ) by {
            let at = prefix.len() as int;
            if left.contains_key(x) != left.contains_key(y) {
                if left.contains_key(x) {
                    lemma_paths_extend_prefix(*node.left.unwrap(), zero, x);
                    lemma_paths_extend_prefix(*node.right.unwrap(), one, y);
                    assert(zero[at] != one[at]);
                } else {
                    lemma_paths_extend_prefix(*node.right.unwrap(), one, x);
                    lemma_paths_extend_prefix(*node.left.unwrap(), zero, y);
                    assert(one[at] != zero[at]);
                }
                assert(all[x][at] != all[y][at]);
            }
        }
    }
}

/// The code table of any tree is prefix-free.
pub proof fn lemma_code_table_prefix_free(root: Node)
    ensures
        is_prefix_free(code_table(root)),
{
    lemma_paths_prefix_free(root, Seq::empty());
}

/// The bytes that have a code below a node are those that one of its leaves
/// holds.
pub proof fn lemma_paths_domain(node: Node, prefix: Seq<bool>, byte: u8)
    ensures
        paths(node, prefix).contains_key(byte) <==> leaf_count(node, byte) > 0,
    decreases node,
{
    if node.value is None {
        if node.left is Some {
            lemma_paths_domain(*node.left.unwrap(), prefix.push(false), byte);
        }
        if node.right is Some {
            lemma_paths_domain(*node.right.unwrap(), prefix.push(true), byte);
        }
    }
}

/// The code table of a code tree for a table has a code for each entry of the
/// table, and for no other byte.
pub proof fn lemma_code_table_domain(root: Node, table: Map<u8, usize>)
    requires
        is_tree_for(root, table),
    ensures
        code_table(root).dom() == table.dom(),
{
    assert forall|byte: u8| code_table(root).contains_key(byte) <==> table.contains_key(byte) by {
        lemma_paths_domain(root, Seq::empty(), byte);
        assert(leaf_count(root, byte) == if table.contains_key(byte) {
            1nat
        } else {
            0nat
        });
    }
    assert(code_table(root).dom() =~= table.dom());
}

/// The code table of a Huffman tree is prefix-free, whatever the table.
pub proof fn lemma_huffman_codes_prefix_free(table: Map<u8, usize>)
    ensures
        is_prefix_free(code_table(huffman_tree(table))),
{
    lemma_code_table_prefix_free(huffman_tree(table));
}

/// Two frequency tables with the same entries have the same Huffman tree and
/// the same code table: nothing but the entries goes into either.
pub proof fn lemma_same_entries_same_codes(first: Map<u8, usize>, second: Map<u8, usize>)
    requires
        forall|byte: u8| first.contains_key(byte) <==> second.contains_key(byte),
        forall|byte: u8| first.contains_key(byte) ==> first[byte] == second[byte],
    ensures
        huffman_tree(first) == huffman_tree(second),
        code_table(huffman_tree(first)) == code_table(huffman_tree(second)),
{
    assert(first =~= second);
}

/// Adds the codes of the leaves of `node` to `codes`. `prefix` is the path
/// to `node` and is the same after the call.
fn collect_codes(node: &Node, prefix: &mut Vec<bool>, codes: &mut HashMap<u8, Vec<bool>>)
    ensures
        final(prefix)@ == old(prefix)@,
        code_view(final(codes)@) == code_view(old(codes)@).union_prefer_right(
            paths(*node, old(prefix)@),
        ),
    decreases node,
{
    let ghost before = code_view(codes@);
    match node.value {
        Some(byte) => {
            let code = prefix.clone();
            codes.insert(byte, code);
            proof {
                assert(code_view(codes@) =~= before.union_prefer_right(map![byte => prefix@]));
            }
        },
        None => {
            let ghost here = prefix@;
            if let Some(right) = &node.right {
                prefix.push(true);
                collect_codes(right, prefix, codes);
                prefix.pop();
                proof {
                    assert(prefix@ =~= here);
                }
            }
            let ghost middle = code_view(codes@);
            proof {
                assert(middle =~= before.union_prefer_right(
                    child_paths(node.right, here.push(true)),
                ));
            }
            if let Some(left) = &node.left {
                prefix.push(false);
                collect_codes(left, prefix, codes);
                prefix.pop();
                proof {
                    assert(prefix@ =~= here);
                }
            }
            proof {
                assert(code_view(codes@) =~= middle.union_prefer_right(
                    child_paths(node.left, here.push(false)),
                ));
                assert(code_view(codes@) =~= before.union_prefer_right(paths(*node, here)));
            }
        },
    }
}

/// Gives each leaf's byte its code: the path from the root to the leaf, zero
/// for a step to the left and one for a step to the right. The code of the
/// only leaf of a one-leaf tree is the single bit zero.
///
/// No code in the result is a prefix of another byte's code.
pub fn generate_codes(root: &Node) -> (codes: HashMap<u8, Vec<bool>>)
    ensures
        code_view(codes@) == code_table(*root),
        is_prefix_free(code_view(codes@)),
{
    let mut codes: HashMap<u8, Vec<bool>> = HashMap::new();
    proof {
        assert(code_view(codes@) =~= Map::<u8, Seq<bool>>::empty());
    }
    match root.value {
        Some(byte) => {
            let mut code: Vec<bool> = Vec::new();
            code.push(false);
            codes.insert(byte, code);
            proof {
                assert(code@ =~= seq![false]);
                assert(code_view(codes@) =~= map![byte => seq![false]]);
            }
        },
        None => {
            let mut prefix: Vec<bool> = Vec::new();
            collect_codes(root, &mut prefix, &mut codes);
            proof {
                assert(prefix@ =~= Seq::<bool>::empty());
                assert(code_view(codes@) =~= paths(*root, Seq::empty()));
            }
        },
    }
    proof {
        lemma_code_table_prefix_free(*root);
    }
    codes
}

} // verus!
