use crate::codes::{
    code_table, is_prefix, is_prefix_free, lemma_code_table_domain,
    lemma_code_table_prefix_free, lemma_paths_domain, paths,
};
use crate::frequency::table_total;
use crate::kraft::{
    bounded, dot, fits, lemma_kraft, lemma_sum_even, lemma_sum_push, lemma_sum_remove,
    lemma_sum_split, lemma_sum_update, lemma_two_to_positive, lengths, pairwise_prefix_free,
    powers, products, sum, two_to,
};
use crate::tree::{
    all_shaped, forest_sum, forest_weight, huffman_tree, insert_position, insert_sorted,
    is_descending, is_shaped, is_tree_for, leaf, leaf_count, leaves_below,
    lemma_forest_sum_insert, lemma_forest_sum_last_two, lemma_huffman_tree_is_tree_for,
    lemma_insert_position_bounds, lemma_leaves_below_empty, lemma_leaves_below_shaped,
    lemma_leaves_below_weight, lemma_merge_step_len, lemma_merge_step_shaped,
    lemma_merge_step_weight, merge_all, merge_step, merged, node_less, Node,
};
use vstd::prelude::*;
use vstd::seq_lib::{
    to_multiset_contains, to_multiset_insert, to_multiset_len, to_multiset_remove,
    to_multiset_update,
};

verus! {

broadcast use vstd::multiset::group_multiset_axioms;

/// The weighted depth of the leaves below `child`, which stands at `depth`:
/// nothing where there is no child.
pub open spec fn child_cost(child: Option<Box<Node>>, depth: nat) -> nat
    decreases child,
{
    match child {
        Some(node) => cost_at(*node, depth),
        None => 0,
    }
}

/// The sum, over the leaves of `node`, of the frequency of the leaf times
/// its depth, where `node` itself stands at `depth`.
pub open spec fn cost_at(node: Node, depth: nat) -> nat
    decreases node,
{
    match node.value {
        Some(_) => (node.freq as nat) * depth,
        None => child_cost(node.left, depth + 1) + child_cost(node.right, depth + 1),
    }
}

/// The weighted path length of a tree: the sum, over its leaves, of the
/// frequency of the leaf times its depth. It is the number of bits that the
/// codes of the tree need for an input with these frequencies.
pub open spec fn cost(root: Node) -> nat {
    cost_at(root, 0)
}

/// The weighted path length, as a measure of a tree.
pub open spec fn tree_cost() -> spec_fn(Node) -> nat {
    |node: Node| cost(node)
}

/// The root frequencies of the trees of `forest`.
pub open spec fn weights_of(forest: Seq<Node>) -> Seq<nat> {
    Seq::new(forest.len(), |i: int| forest[i].freq as nat)
}

/// A shaped tree that stands `depth` deeper costs its frequency times
/// `depth` more.
pub proof fn lemma_cost_shift(node: Node, table: Map<u8, usize>, depth: nat)
    requires
        is_shaped(node, table),
    ensures
        cost_at(node, depth) == cost(node) + node.freq * depth,
    decreases node,
{
    match node.value {
        Some(_) => {
            assert(node.freq * 0 == 0) by (nonlinear_arith);
        },
        None => {
            let left = *node.left.unwrap();
            let right = *node.right.unwrap();
            lemma_cost_shift(left, table, depth + 1);
            lemma_cost_shift(right, table, depth + 1);
            lemma_cost_shift(left, table, 1);
            lemma_cost_shift(right, table, 1);
            let l = left.freq as int;
            let r = right.freq as int;
            let d = depth as int;
            assert(l * (d + 1) + r * (d + 1) == l * 1 + r * 1 + (l + r) * d) by (nonlinear_arith);
        },
    }
}

/// In a forest in descending merge order, no tree has a smaller frequency
/// than one behind it.
pub proof fn lemma_descending_weights(forest: Seq<Node>)
    requires
        is_descending(forest),
    ensures
        forall|i: int, j: int|
            0 <= i < j < forest.len() ==> #[trigger] forest[i].freq >= #[trigger] forest[j].freq,
{
    assert forall|i: int, j: int| 0 <= i < j < forest.len() implies #[trigger] forest[i].freq
        >= #[trigger] forest[j].freq by {
        assert(!node_less(forest[i], forest[j]));
    }
}

/// The trees behind the place where a node enters are less than the node,
/// and the tree just before the place is not.
pub proof fn lemma_insert_position_splits(forest: Seq<Node>, node: Node)
    ensures
        forall|j: int|
            insert_position(forest, node) <= j < forest.len() ==> node_less(
                #[trigger] forest[j],
                node,
            ),
        insert_position(forest, node) > 0 ==> !node_less(
            forest[insert_position(forest, node) - 1],
            node,
        ),
    decreases forest.len(),
{
    lemma_insert_position_bounds(forest, node);
    if forest.len() > 0 && node_less(forest.last(), node) {
        lemma_insert_position_splits(forest.drop_last(), node);
        lemma_insert_position_bounds(forest.drop_last(), node);
        assert forall|j: int| insert_position(forest, node) <= j < forest.len() implies node_less(
            #[trigger] forest[j],
            node,
        ) by {
            if j < forest.len() - 1 {
                assert(forest.drop_last()[j] == forest[j]);
            }
        }
    }
}

/// Entering a node at its place keeps a forest in descending merge order.
pub proof fn lemma_insert_sorted_descending(forest: Seq<Node>, node: Node)
    requires
        is_descending(forest),
    ensures
        is_descending(insert_sorted(forest, node)),
{
    let at = insert_position(forest, node);
    let after = insert_sorted(forest, node);
    lemma_insert_position_bounds(forest, node);
    lemma_insert_position_splits(forest, node);
    assert forall|i: int, j: int| 0 <= i < j < after.len() implies !node_less(
        after[i],
        after[j],
    ) by {
        if j < at {
            assert(after[i] == forest[i] && after[j] == forest[j]);
        } else if j == at {
            assert(after[i] == forest[i]);
            assert(after[j] == node);
            if i < at - 1 {
                assert(!node_less(forest[i], forest[at - 1]));
            }
        } else if i < at {
            assert(after[i] == forest[i] && after[j] == forest[j - 1]);
        } else if i == at {
            assert(after[i] == node);
            assert(after[j] == forest[j - 1]);
            assert(node_less(forest[j - 1], node));
        } else {
            assert(after[i] == forest[i - 1] && after[j] == forest[j - 1]);
        }
    }
}

/// The leaves of a table stand in descending merge order.
pub proof fn lemma_leaves_below_descending(table: Map<u8, usize>, n: int)
    requires
        0 <= n <= 256,
    ensures
        is_descending(leaves_below(table, n)),
    decreases n,
{
    if n > 0 {
        lemma_leaves_below_descending(table, n - 1);
        if table.contains_key((n - 1) as u8) {
            lemma_insert_sorted_descending(
                leaves_below(table, n - 1),
                leaf((n - 1) as u8, table[(n - 1) as u8]),
            );
        }
    }
}

/// A round of merging keeps a forest in descending merge order.
pub proof fn lemma_merge_step_descending(forest: Seq<Node>)
    requires
        forest.len() >= 2,
        is_descending(forest),
    ensures
        is_descending(merge_step(forest)),
{
    let rest = forest.take(forest.len() - 2);
    let parent = merged(forest[forest.len() - 2], forest[forest.len() - 1]);
    assert forall|i: int, j: int| 0 <= i < j < rest.len() implies !node_less(
        rest[i],
        rest[j],
    ) by {
        assert(rest[i] == forest[i] && rest[j] == forest[j]);
    }
    lemma_insert_sorted_descending(rest, parent);
}

/// The leaves of a table cost nothing yet.
pub proof fn lemma_leaves_below_cost(table: Map<u8, usize>, n: int)
    requires
        0 <= n <= 256,
    ensures
        forest_sum(leaves_below(table, n), tree_cost()) == 0,
    decreases n,
{
    if n > 0 {
        lemma_leaves_below_cost(table, n - 1);
        if table.contains_key((n - 1) as u8) {
            let rest = leaves_below(table, n - 1);
            let node = leaf((n - 1) as u8, table[(n - 1) as u8]);
            lemma_insert_position_bounds(rest, node);
            lemma_forest_sum_insert(rest, insert_position(rest, node), node, tree_cost());
            assert(node.freq * 0 == 0) by (nonlinear_arith);
        }
    }
}

/// A round of merging adds the frequencies of the two merged trees to the
/// cost of the forest: each leaf below them stands one deeper.
pub proof fn lemma_merge_step_cost(forest: Seq<Node>, table: Map<u8, usize>)
    requires
        forest.len() >= 2,
        all_shaped(forest, table),
        forest_weight(forest) <= usize::MAX,
    ensures
        forest_sum(merge_step(forest), tree_cost()) == forest_sum(forest, tree_cost())
            + forest[forest.len() - 2].freq + forest[forest.len() - 1].freq,
{
    let rest = forest.take(forest.len() - 2);
    let left = forest[forest.len() - 2];
    let right = forest[forest.len() - 1];
    let parent = merged(left, right);
    lemma_forest_sum_last_two(forest, tree_cost());
    lemma_insert_position_bounds(rest, parent);
    lemma_forest_sum_insert(rest, insert_position(rest, parent), parent, tree_cost());
    assert(is_shaped(left, table));
    assert(is_shaped(right, table));
    lemma_cost_shift(left, table, 1);
    lemma_cost_shift(right, table, 1);
    assert(left.freq * 1 == left.freq) by (nonlinear_arith);
    assert(right.freq * 1 == right.freq) by (nonlinear_arith);
}

/// A round of merging takes the two merged frequencies out of the root
/// frequencies of the forest and puts their sum in.
pub proof fn lemma_merge_step_weights(forest: Seq<Node>)
    requires
        forest.len() >= 2,
        forest_weight(forest) <= usize::MAX,
    ensures
        weights_of(merge_step(forest)).to_multiset() == weights_of(forest).to_multiset().remove(
            forest[forest.len() - 1].freq as nat,
        ).remove(forest[forest.len() - 2].freq as nat).insert(
            (forest[forest.len() - 2].freq + forest[forest.len() - 1].freq) as nat,
        ),
{
    let n = forest.len() as int;
    let rest = forest.take(n - 2);
    let parent = merged(forest[n - 2], forest[n - 1]);
    let at = insert_position(rest, parent);
    let all = weights_of(forest);
    lemma_merge_step_weight(forest);
    lemma_insert_position_bounds(rest, parent);
    assert(weights_of(merge_step(forest)) =~= weights_of(rest).insert(at, parent.freq as nat));
    to_multiset_insert(weights_of(rest), at, parent.freq as nat);
    to_multiset_remove(all, n - 1);
    to_multiset_remove(all.remove(n - 1), n - 2);
    assert(all.remove(n - 1).remove(n - 2) =~= weights_of(rest));
}

/// `ws` with the numbers at the indices `i` and `p` exchanged.
pub open spec fn swapped(ws: Seq<nat>, i: int, p: int) -> Seq<nat> {
    ws.update(i, ws[p]).update(p, ws[i])
}

/// `s` without the numbers at the two indices `p` and `q`.
pub open spec fn without(s: Seq<nat>, p: int, q: int) -> Seq<nat> {
    if p < q {
        s.remove(q).remove(p)
    } else {
        s.remove(p).remove(q)
    }
}

/// Giving the longer code word to the rarer of two symbols does not cost
/// more.
pub proof fn lemma_swap(ws: Seq<nat>, ds: Seq<nat>, i: int, p: int)
    requires
        ws.len() == ds.len(),
        0 <= i < ws.len(),
        0 <= p < ws.len(),
        ws[i] <= ws[p],
        ds[i] <= ds[p],
    ensures
        swapped(ws, i, p).to_multiset() == ws.to_multiset(),
        dot(swapped(ws, i, p), ds) <= dot(ws, ds),
{
    if i == p {
        assert(swapped(ws, i, p) =~= ws);
    } else {
        let mid = ws.update(i, ws[p]);
        let after = swapped(ws, i, p);
        to_multiset_update(ws, i, ws[p]);
        to_multiset_update(mid, p, ws[i]);
        to_multiset_contains(ws, ws[i]);
        to_multiset_contains(ws, ws[p]);
        assert(ws.contains(ws[i]));
        assert(ws.contains(ws[p]));
        assert(after.to_multiset() =~= ws.to_multiset());
        let before = products(ws, ds);
        assert(products(mid, ds) =~= before.update(i, ws[p] * ds[i]));
        assert(products(after, ds) =~= products(mid, ds).update(p, ws[i] * ds[p]));
        lemma_sum_update(before, i, ws[p] * ds[i]);
        lemma_sum_update(products(mid, ds), p, ws[i] * ds[p]);
        let wi = ws[i] as int;
        let wp = ws[p] as int;
        let di = ds[i] as int;
        let dp = ds[p] as int;
        assert(wp * di + wi * dp <= wi * di + wp * dp) by (nonlinear_arith)
            requires
                wi <= wp,
                di <= dp,
        ;
    }
}

/// Two code words of the greatest length can give way to one that is one bit
/// shorter, for a symbol that is used as often as the two together. The
/// lengths still fit, and the weighted length falls by that number of uses.
pub proof fn lemma_merge_pair(ws: Seq<nat>, ds: Seq<nat>, h: nat, p: int, q: int)
    requires
        ws.len() == ds.len(),
        0 <= p < ws.len(),
        0 <= q < ws.len(),
        p != q,
        ds[p] == h,
        ds[q] == h,
        h >= 1,
        fits(ds, h),
    ensures
        without(ws, p, q).len() == ws.len() - 2,
        without(ds, p, q).len() == ws.len() - 2,
        fits(without(ds, p, q).push((h - 1) as nat), h),
        dot(without(ws, p, q).push(ws[p] + ws[q]), without(ds, p, q).push((h - 1) as nat)) + ws[p]
            + ws[q] == dot(ws, ds),
        without(ws, p, q).push(ws[p] + ws[q]).to_multiset() == ws.to_multiset().remove(
            ws[p],
        ).remove(ws[q]).insert(ws[p] + ws[q]),
{
    let hi = if p < q {
        q
    } else {
        p
    };
    let lo = if p < q {
        p
    } else {
        q
    };
    let shorter = (h - 1) as nat;
    let both = ws[p] + ws[q];
    let ws1 = without(ws, p, q);
    let ds1 = without(ds, p, q);
    assert(ws1 == ws.remove(hi).remove(lo));
    assert(ds1 == ds.remove(hi).remove(lo));
    // the weighted length
    let pr = products(ws, ds);
    assert(products(ws1, ds1) =~= pr.remove(hi).remove(lo));
    assert(products(ws1.push(both), ds1.push(shorter)) =~= products(ws1, ds1).push(both * shorter));
    lemma_sum_remove(pr, hi);
    lemma_sum_remove(pr.remove(hi), lo);
    lemma_sum_push(products(ws1, ds1), both * shorter);
    let a = ws[p] as int;
    let b = ws[q] as int;
    let d = h as int;
    assert((a + b) * (d - 1) + a + b == a * d + b * d) by (nonlinear_arith);
    // Kraft's inequality
    let pw = powers(ds, h);
    assert(powers(ds1, h) =~= pw.remove(hi).remove(lo));
    assert(powers(ds1.push(shorter), h) =~= powers(ds1, h).push(2)) by {
        assert(two_to(1) == 2 * two_to(0));
    }
    lemma_sum_remove(pw, hi);
    lemma_sum_remove(pw.remove(hi), lo);
    lemma_sum_push(powers(ds1, h), 2);
    assert(pw[hi] == 1 && pw[lo] == 1);
    assert(bounded(ds1.push(shorter), h)) by {
        assert forall|i: int| 0 <= i < ds1.push(shorter).len() implies #[trigger] ds1.push(
            shorter,
        )[i] <= h by {
            if i < ds1.len() {
                let k = if i < lo {
                    i
                } else if i + 1 < hi {
                    i + 1
                } else {
                    i + 2
                };
                assert(ds1[i] == ds[k]);
            }
        }
    }
    // the symbols
    to_multiset_remove(ws, hi);
    to_multiset_remove(ws.remove(hi), lo);
    assert(ws.remove(hi)[lo] == ws[lo]);
    assert(ws1.push(both).to_multiset() =~= ws1.to_multiset().insert(both)) by {
        vstd::seq_lib::to_multiset_build(ws1, both);
    }
    to_multiset_contains(ws, ws[p]);
    to_multiset_contains(ws, ws[q]);
    assert(ws.contains(ws[p]));
    assert(ws.contains(ws[q]));
    to_multiset_contains(ws.remove(hi), ws[lo]);
    assert(ws.remove(hi).contains(ws[lo]));
    assert(ws1.to_multiset() =~= ws.to_multiset().remove(ws[p]).remove(ws[q]));
}

/// Every number of a sequence stands in each sequence with the same numbers.
pub proof fn lemma_same_numbers(ws: Seq<nat>, vs: Seq<nat>, k: int) -> (j: int)
    requires
        ws.to_multiset() == vs.to_multiset(),
        0 <= k < ws.len(),
    ensures
        0 <= j < vs.len(),
        vs[j] == ws[k],
{
    assert(ws.contains(ws[k]));
    to_multiset_contains(ws, ws[k]);
    to_multiset_contains(vs, ws[k]);
    choose|j: int| 0 <= j < vs.len() && vs[j] == ws[k]
}

/// The two rarest symbols can take the code words at `p` and `q`, which are
/// of the greatest length, without the weighted length growing.
pub proof fn lemma_exchange(
    vs: Seq<nat>,
    ws: Seq<nat>,
    ds: Seq<nat>,
    h: nat,
    p: int,
    q: int,
) -> (after: Seq<nat>)
    requires
        vs.len() >= 2,
        ws.to_multiset() == vs.to_multiset(),
        ws.len() == ds.len(),
        ws.len() == vs.len(),
        bounded(ds, h),
        0 <= p < ws.len(),
        0 <= q < ws.len(),
        p != q,
        ds[p] == h,
        ds[q] == h,
        forall|j: int| 0 <= j < vs.len() ==> #[trigger] vs[j] >= vs[vs.len() - 1],
        forall|j: int| 0 <= j < vs.len() - 1 ==> #[trigger] vs[j] >= vs[vs.len() - 2],
    ensures
        after.len() == ws.len(),
        after.to_multiset() == ws.to_multiset(),
        dot(after, ds) <= dot(ws, ds),
        after[p] == vs[vs.len() - 1],
        after[q] == vs[vs.len() - 2],
{
    let n = vs.len() as int;
    let a = vs[n - 1];
    let b = vs[n - 2];
    // the rarest symbol goes to `p`
    let ia = lemma_same_numbers(vs, ws, n - 1);
    let jp = lemma_same_numbers(ws, vs, p);
    assert(ds[ia] <= h);
    lemma_swap(ws, ds, ia, p);
    let ws1 = swapped(ws, ia, p);
    assert(ws1[p] == a);
    // what is left are the other symbols
    let left = ws1.remove(p);
    let others = vs.remove(n - 1);
    to_multiset_remove(ws1, p);
    to_multiset_remove(vs, n - 1);
    assert(left.to_multiset() == others.to_multiset());
    assert(others[n - 2] == b);
    let kb = lemma_same_numbers(others, left, n - 2);
    let ib = if kb < p {
        kb
    } else {
        kb + 1
    };
    assert(ws1[ib] == left[kb]);
    let kq = if q < p {
        q
    } else {
        q - 1
    };
    assert(left[kq] == ws1[q]);
    let jq = lemma_same_numbers(left, others, kq);
    assert(others[jq] == vs[jq]);
    assert(ws1[q] >= b);
    assert(ds[ib] <= h);
    lemma_swap(ws1, ds, ib, q);
    swapped(ws1, ib, q)
}

/// Merging a forest round by round costs no more than any other way to give
/// its trees code words whose lengths fit.
///
/// `ws` are the root frequencies of the trees in some order, and `ds` are
/// lengths for them that satisfy Kraft's inequality. Hanging each tree at the
/// depth of its length would cost the weighted length `dot(ws, ds)` on top of
/// what the trees cost by themselves.
pub proof fn lemma_merging_is_optimal(
    forest: Seq<Node>,
    table: Map<u8, usize>,
    ws: Seq<nat>,
    ds: Seq<nat>,
    h: nat,
)
    requires
        forest.len() >= 1,
        all_shaped(forest, table),
        is_descending(forest),
        forest_weight(forest) <= usize::MAX,
        ws.len() == ds.len(),
        fits(ds, h),
        ws.to_multiset() == weights_of(forest).to_multiset(),
    ensures
        cost(merge_all(forest)) <= dot(ws, ds) + forest_sum(forest, tree_cost()),
    decreases forest.len(), sum(ds) + h,
{
    let n = forest.len() as int;
    let vs = weights_of(forest);
    to_multiset_len(ws);
    to_multiset_len(vs);
    assert(ws.len() == n);
    if n == 1 {
        assert(forest.drop_last() =~= Seq::<Node>::empty());
        assert(forest_sum(forest.drop_last(), tree_cost()) == 0);
    } else if forall|i: int| 0 <= i < n ==> ds[i] != h {
        // no code word is as long as `h`
        assert(ds[0] <= h);
        let lower = (h - 1) as nat;
        assert(bounded(ds, lower)) by {
            assert forall|i: int| 0 <= i < ds.len() implies #[trigger] ds[i] <= lower by {
                assert(ds[i] <= h);
            }
        }
        assert forall|i: int| 0 <= i < n implies #[trigger] powers(ds, h)[i] == powers(
            ds,
            lower,
        )[i] + powers(ds, lower)[i] by {
            assert(ds[i] <= lower);
        }
        lemma_sum_split(powers(ds, h), powers(ds, lower), powers(ds, lower));
        lemma_merging_is_optimal(forest, table, ws, ds, lower);
    } else {
        let p = choose|i: int| 0 <= i < n && ds[i] == h;
        let pw = powers(ds, h);
        if forall|q: int| 0 <= q < n && q != p ==> ds[q] != h {
            // one code word alone is as long as `h`: it can lose its last bit
            let other = if p == 0 {
                1int
            } else {
                0int
            };
            assert(ds[other] <= h);
            let shorter = (h - 1) as nat;
            let rest = pw.remove(p);
            assert forall|j: int| 0 <= j < rest.len() implies #[trigger] rest[j] % 2 == 0 by {
                let k = if j < p {
                    j
                } else {
                    j + 1
                };
                assert(rest[j] == pw[k]);
                assert(ds[k] <= h);
                lemma_two_to_positive((h - ds[k]) as nat);
            }
            lemma_sum_even(rest);
            lemma_sum_remove(pw, p);
            lemma_two_to_positive(h);
            let ds2 = ds.update(p, shorter);
            assert(powers(ds2, h) =~= pw.update(p, 2)) by {
                assert(two_to(1) == 2 * two_to(0));
            }
            lemma_sum_update(pw, p, 2);
            assert(bounded(ds2, h)) by {
                assert forall|i: int| 0 <= i < ds2.len() implies #[trigger] ds2[i] <= h by {
                    if i != p {
                        assert(ds[i] <= h);
                    }
                }
            }
            assert(products(ws, ds2) =~= products(ws, ds).update(p, ws[p] * shorter));
            lemma_sum_update(products(ws, ds), p, ws[p] * shorter);
            let w = ws[p] as int;
            let d = h as int;
            assert(w * (d - 1) <= w * d) by (nonlinear_arith)
                requires
                    w >= 0,
            ;
            lemma_sum_update(ds, p, shorter);
            lemma_merging_is_optimal(forest, table, ws, ds2, h);
        } else {
            // two code words are as long as `h`: the two rarest symbols take
            // them, and the last round of merging is undone
            let q = choose|q: int| 0 <= q < n && q != p && ds[q] == h;
            lemma_sum_remove(pw, p);
            let kq = if q < p {
                q
            } else {
                q - 1
            };
            assert(pw.remove(p)[kq] == pw[q]);
            lemma_sum_remove(pw.remove(p), kq);
            assert(h >= 1);
            lemma_descending_weights(forest);
            assert forall|j: int| 0 <= j < n implies #[trigger] vs[j] >= vs[n - 1] by {
                if j < n - 1 {
                    assert(forest[j].freq >= forest[n - 1].freq);
                }
            }
            assert forall|j: int| 0 <= j < n - 1 implies #[trigger] vs[j] >= vs[n - 2] by {
                if j < n - 2 {
                    assert(forest[j].freq >= forest[n - 2].freq);
                }
            }
            let ws2 = lemma_exchange(vs, ws, ds, h, p, q);
            lemma_merge_pair(ws2, ds, h, p, q);
            let ws3 = without(ws2, p, q).push(ws2[p] + ws2[q]);
            let ds3 = without(ds, p, q).push((h - 1) as nat);
            let next = merge_step(forest);
            lemma_merge_step_len(forest);
            lemma_merge_step_weight(forest);
            lemma_merge_step_shaped(forest, table);
            lemma_merge_step_descending(forest);
            lemma_merge_step_weights(forest);
            lemma_merge_step_cost(forest, table);
            lemma_merging_is_optimal(next, table, ws3, ds3, h);
        }
    }
}

/// The number of bits that `codes` needs for the bytes below `n` of an input
/// with the frequency table `table`: for each byte that has an entry and a
/// code, its count times the length of its code.
pub open spec fn weighted_below(codes: Map<u8, Seq<bool>>, table: Map<u8, usize>, n: int) -> nat
    decreases n,
{
    if n <= 0 {
        0
    } else {
        let byte = (n - 1) as u8;
        weighted_below(codes, table, n - 1) + if table.contains_key(byte) && codes.contains_key(
            byte,
        ) {
            (table[byte] as nat) * codes[byte].len()
        } else {
            0
        }
    }
}

/// The number of bits that `codes` needs for an input with the frequency
/// table `table`: the sum, over the entries of the table, of the count times
/// the length of the code.
pub open spec fn weighted_length(codes: Map<u8, Seq<bool>>, table: Map<u8, usize>) -> nat {
    weighted_below(codes, table, 256)
}

/// Whether `table` has entries for two byte values at least.
pub open spec fn has_two_entries(table: Map<u8, usize>) -> bool {
    exists|x: u8, y: u8| x != y && table.contains_key(x) && table.contains_key(y)
}

/// The byte values below `n` that have an entry in `table`, in ascending
/// order.
pub open spec fn keys_below(table: Map<u8, usize>, n: int) -> Seq<u8>
    decreases n,
{
    if n <= 0 {
        Seq::empty()
    } else if table.contains_key((n - 1) as u8) {
        keys_below(table, n - 1).push((n - 1) as u8)
    } else {
        keys_below(table, n - 1)
    }
}

/// The counts of `table` for `keys`.
pub open spec fn counts_for(table: Map<u8, usize>, keys: Seq<u8>) -> Seq<nat> {
    Seq::new(keys.len(), |i: int| table[keys[i]] as nat)
}

/// The code words of `codes` for `keys`.
pub open spec fn words_for(codes: Map<u8, Seq<bool>>, keys: Seq<u8>) -> Seq<Seq<bool>> {
    Seq::new(keys.len(), |i: int| codes[keys[i]])
}

pub proof fn lemma_keys_below(table: Map<u8, usize>, n: int)
    requires
        0 <= n <= 256,
    ensures
        forall|i: int|
            0 <= i < keys_below(table, n).len() ==> #[trigger] keys_below(table, n)[i] < n
                && table.contains_key(keys_below(table, n)[i]),
        forall|i: int, j: int|
            0 <= i < j < keys_below(table, n).len() ==> #[trigger] keys_below(table, n)[i]
                != #[trigger] keys_below(table, n)[j],
    decreases n,
{
    let keys = keys_below(table, n);
    if n > 0 {
        lemma_keys_below(table, n - 1);
        let before = keys_below(table, n - 1);
        assert forall|i: int| 0 <= i < keys.len() implies #[trigger] keys[i] < n
            && table.contains_key(keys[i]) by {
            if i < before.len() {
                assert(keys[i] == before[i]);
            }
        }
        assert forall|i: int, j: int| 0 <= i < j < keys.len() implies #[trigger] keys[i]
            != #[trigger] keys[j] by {
            assert(keys[i] == before[i]);
            if j < before.len() {
                assert(keys[j] == before[j]);
            }
        }
    }
}

/// The counts of a table are the frequencies of its leaves.
pub proof fn lemma_counts_are_leaf_weights(table: Map<u8, usize>, n: int)
    requires
        0 <= n <= 256,
    ensures
        counts_for(table, keys_below(table, n)).to_multiset() == weights_of(
            leaves_below(table, n),
        ).to_multiset(),
    decreases n,
{
    if n > 0 {
        lemma_counts_are_leaf_weights(table, n - 1);
        let byte = (n - 1) as u8;
        if table.contains_key(byte) {
            let rest = leaves_below(table, n - 1);
            let node = leaf(byte, table[byte]);
            let at = insert_position(rest, node);
            let count = table[byte] as nat;
            let before = counts_for(table, keys_below(table, n - 1));
            lemma_insert_position_bounds(rest, node);
            assert(weights_of(leaves_below(table, n)) =~= weights_of(rest).insert(at, count));
            to_multiset_insert(weights_of(rest), at, count);
            assert(counts_for(table, keys_below(table, n)) =~= before.push(count));
            vstd::seq_lib::to_multiset_build(before, count);
        }
    } else {
        assert(counts_for(table, keys_below(table, n)) =~= weights_of(leaves_below(table, n)));
    }
}

/// The weighted length of a code is the sum of count times code length over
/// the entries of the table in ascending order.
pub proof fn lemma_weighted_below_is_dot(codes: Map<u8, Seq<bool>>, table: Map<u8, usize>, n: int)
    requires
        0 <= n <= 256,
        forall|byte: u8| table.contains_key(byte) ==> codes.contains_key(byte),
    ensures
        weighted_below(codes, table, n) == dot(
            counts_for(table, keys_below(table, n)),
            lengths(words_for(codes, keys_below(table, n))),
        ),
    decreases n,
{
    if n > 0 {
        lemma_weighted_below_is_dot(codes, table, n - 1);
        let byte = (n - 1) as u8;
        if table.contains_key(byte) {
            let keys = keys_below(table, n - 1);
            let before = products(counts_for(table, keys), lengths(words_for(codes, keys)));
            let term = (table[byte] as nat) * codes[byte].len();
            assert(products(
                counts_for(table, keys.push(byte)),
                lengths(words_for(codes, keys.push(byte))),
            ) =~= before.push(term));
            lemma_sum_push(before, term);
        }
    }
}

/// No number of a sequence is above the sum.
pub proof fn lemma_sum_bounds(s: Seq<nat>)
    ensures
        bounded(s, sum(s)),
{
    assert forall|i: int| 0 <= i < s.len() implies #[trigger] s[i] <= sum(s) by {
        lemma_sum_remove(s, i);
    }
}

/// The weighted length of the code of a single leaf.
pub proof fn lemma_weighted_below_single(
    byte: u8,
    code: Seq<bool>,
    table: Map<u8, usize>,
    n: int,
)
    requires
        0 <= n <= 256,
    ensures
        weighted_below(map![byte => code], table, n) == if byte < n && table.contains_key(byte) {
            (table[byte] as nat) * code.len()
        } else {
            0
        },
    decreases n,
{
    if n > 0 {
        lemma_weighted_below_single(byte, code, table, n - 1);
    }
}

/// The weighted length of two codes for different bytes, taken together, is
/// the sum of their weighted lengths.
pub proof fn lemma_weighted_below_union(
    left: Map<u8, Seq<bool>>,
    right: Map<u8, Seq<bool>>,
    table: Map<u8, usize>,
    n: int,
)
    requires
        0 <= n <= 256,
        forall|byte: u8| !(left.contains_key(byte) && right.contains_key(byte)),
    ensures
        weighted_below(right.union_prefer_right(left), table, n) == weighted_below(left, table, n)
            + weighted_below(right, table, n),
    decreases n,
{
    if n > 0 {
        lemma_weighted_below_union(left, right, table, n - 1);
        let byte = (n - 1) as u8;
        assert(!(left.contains_key(byte) && right.contains_key(byte)));
    }
}

/// The codes below a shaped node whose leaves hold different bytes need as
/// many bits as the weighted depth of its leaves.
pub proof fn lemma_paths_cost(node: Node, table: Map<u8, usize>, prefix: Seq<bool>)
    requires
        is_shaped(node, table),
        forall|byte: u8| leaf_count(node, byte) <= 1,
    ensures
        weighted_length(paths(node, prefix), table) == cost_at(node, prefix.len()),
    decreases node,
{
    match node.value {
        Some(byte) => {
            lemma_weighted_below_single(byte, prefix, table, 256);
        },
        None => {
            let left = *node.left.unwrap();
            let right = *node.right.unwrap();
            let zero = prefix.push(false);
            let one = prefix.push(true);
            assert forall|byte: u8| leaf_count(left, byte) <= 1 by {
                assert(leaf_count(node, byte) <= 1);
            }
            assert forall|byte: u8| leaf_count(right, byte) <= 1 by {
                assert(leaf_count(node, byte) <= 1);
            }
            assert forall|byte: u8|
                !(paths(left, zero).contains_key(byte) && paths(right, one).contains_key(
                    byte,
                )) by {
                assert(leaf_count(node, byte) <= 1);
                lemma_paths_domain(left, zero, byte);
                lemma_paths_domain(right, one, byte);
            }
            lemma_paths_cost(left, table, zero);
            lemma_paths_cost(right, table, one);
            lemma_weighted_below_union(paths(left, zero), paths(right, one), table, 256);
        },
    }
}

/// The code table of a code tree for a table with two entries or more needs
/// as many bits as the weighted path length of the tree.
pub proof fn lemma_code_table_cost(root: Node, table: Map<u8, usize>)
    requires
        is_tree_for(root, table),
        has_two_entries(table),
    ensures
        root.value is None,
        weighted_length(code_table(root), table) == cost(root),
{
    let (x, y) = choose|x: u8, y: u8| x != y && table.contains_key(x) && table.contains_key(y);
    assert(leaf_count(root, x) == 1);
    assert(leaf_count(root, y) == 1);
    assert forall|byte: u8| leaf_count(root, byte) <= 1 by {
        assert(leaf_count(root, byte) == if table.contains_key(byte) {
            1nat
        } else {
            0nat
        });
    }
    lemma_paths_cost(root, table, Seq::empty());
}

/// Huffman's theorem. For a frequency table with two entries or more, the
/// code table of the Huffman tree needs no more bits than any prefix-free
/// code that has a code for each entry: the sum, over the entries, of count
/// times code length is the least there can be.
pub proof fn lemma_huffman_codes_optimal(table: Map<u8, usize>, other: Map<u8, Seq<bool>>)
    requires
        has_two_entries(table),
        table_total(table) <= usize::MAX,
        forall|byte: u8| table.contains_key(byte) ==> other.contains_key(byte),
        is_prefix_free(other),
    ensures
        weighted_length(code_table(huffman_tree(table)), table) <= weighted_length(other, table),
{
    let (x, y) = choose|x: u8, y: u8| x != y && table.contains_key(x) && table.contains_key(y);
    let forest = leaves_below(table, 256);
    let keys = keys_below(table, 256);
    let ws = counts_for(table, keys);
    let cs = words_for(other, keys);
    let ds = lengths(cs);
    let h = sum(ds);
    lemma_keys_below(table, 256);
    assert(pairwise_prefix_free(cs)) by {
        assert forall|i: int, j: int|
            0 <= i < cs.len() && 0 <= j < cs.len() && i != j implies !is_prefix(
            #[trigger] cs[i],
            #[trigger] cs[j],
        ) by {
            if i < j {
                assert(keys[i] != keys[j]);
            } else {
                assert(keys[j] != keys[i]);
            }
            assert(table.contains_key(keys[i]) && table.contains_key(keys[j]));
        }
    }
    lemma_sum_bounds(ds);
    lemma_kraft(cs, h);
    lemma_leaves_below_weight(table, 256);
    lemma_leaves_below_empty(table, 256);
    lemma_leaves_below_shaped(table, 256);
    lemma_leaves_below_descending(table, 256);
    lemma_leaves_below_cost(table, 256);
    lemma_counts_are_leaf_weights(table, 256);
    lemma_merging_is_optimal(forest, table, ws, ds, h);
    lemma_weighted_below_is_dot(other, table, 256);
    lemma_huffman_tree_is_tree_for(table);
    lemma_code_table_cost(huffman_tree(table), table);
}

/// Whether `root` has the least weighted path length of all code trees for
/// `table`.
pub open spec fn is_optimal_for(root: Node, table: Map<u8, usize>) -> bool {
    forall|other: Node| #[trigger] is_tree_for(other, table) ==> cost(root) <= cost(other)
}

/// The Huffman tree of a table has the least weighted path length of all
/// code trees for the table.
pub proof fn lemma_huffman_tree_optimal(table: Map<u8, usize>)
    requires
        exists|byte: u8| table.contains_key(byte),
        table_total(table) <= usize::MAX,
    ensures
        is_tree_for(huffman_tree(table), table),
        is_optimal_for(huffman_tree(table), table),
{
    let root = huffman_tree(table);
    lemma_huffman_tree_is_tree_for(table);
    assert forall|other: Node| #[trigger] is_tree_for(other, table) implies cost(root) <= cost(
        other,
    ) by {
        if has_two_entries(table) {
            lemma_code_table_cost(root, table);
            lemma_code_table_cost(other, table);
            lemma_code_table_domain(other, table);
            lemma_code_table_prefix_free(other);
            assert forall|byte: u8| table.contains_key(byte) implies code_table(
                other,
            ).contains_key(byte) by {
                assert(table.dom().contains(byte));
            }
            lemma_huffman_codes_optimal(table, code_table(other));
        } else {
            let byte = choose|byte: u8| table.contains_key(byte);
            assert(leaf_count(root, byte) == 1);
            if root.value is None {
                let left = *root.left.unwrap();
                let right = *root.right.unwrap();
                lemma_has_leaf(left, table);
                lemma_has_leaf(right, table);
                let l = choose|b: u8| leaf_count(left, b) > 0;
                let r = choose|b: u8| leaf_count(right, b) > 0;
                assert(leaf_count(root, l) >= 1);
                assert(leaf_count(root, r) >= 1);
                assert(table.contains_key(l) && table.contains_key(r));
                if l == r {
                    assert(leaf_count(root, l) >= 2);
                }
            }
            assert((root.freq as nat) * 0 == 0) by (nonlinear_arith);
        }
    }
}

/// A shaped tree has a leaf.
pub proof fn lemma_has_leaf(node: Node, table: Map<u8, usize>)
    requires
        is_shaped(node, table),
    ensures
        exists|byte: u8| leaf_count(node, byte) > 0,
    decreases node,
{
    match node.value {
        Some(byte) => {
            assert(leaf_count(node, byte) > 0);
        },
        None => {
            lemma_has_leaf(*node.left.unwrap(), table);
            let byte = choose|byte: u8| leaf_count(*node.left.unwrap(), byte) > 0;
            assert(leaf_count(node, byte) > 0);
        },
    }
}

} // verus!
