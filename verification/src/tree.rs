use crate::huffman::{HuffmanTree, ALPHABET_SIZE};
use std::collections::HashMap;
use vstd::prelude::*;

verus! {

broadcast use vstd::std_specs::hash::group_hash_axioms;

/// The frequencies of the trees of a forest.
pub open spec fn frequencies(forest: Seq<HuffmanTree>) -> Seq<u64> {
    forest.map_values(|t: HuffmanTree| t.spec_frequency())
}

/// Position of the first of the smallest of `weights`.
pub open spec fn lightest(weights: Seq<u64>) -> int
    decreases weights.len(),
{
    if weights.len() <= 1 {
        0
    } else {
        let best = lightest(weights.drop_last());
        if weights.last() < weights[best] {
            weights.len() - 1
        } else {
            best
        }
    }
}

/// `lightest` is the least position that holds the smallest weight.
pub proof fn lemma_lightest(weights: Seq<u64>)
    requires
        weights.len() > 0,
    ensures
        0 <= lightest(weights) < weights.len(),
        forall|j: int| 0 <= j < weights.len() ==> weights[lightest(weights)] <= #[trigger] weights[j],
        forall|j: int| 0 <= j < lightest(weights) ==> weights[lightest(weights)] < #[trigger] weights[j],
    decreases weights.len(),
{
    if weights.len() > 1 {
        let front = weights.drop_last();
        lemma_lightest(front);
        assert forall|j: int| 0 <= j < weights.len() implies weights[lightest(weights)]
            <= #[trigger] weights[j] by {
            if j < front.len() {
                assert(front[j] == weights[j]);
            }
        }
        assert forall|j: int| 0 <= j < lightest(weights) implies weights[lightest(weights)]
            < #[trigger] weights[j] by {
            if j < front.len() {
                assert(front[j] == weights[j]);
            }
        }
    }
}

/// One step of the construction: the two lightest trees leave the forest,
/// the first of them as the left half and the second as the right half of a
/// new node, which enters at the end.
pub open spec fn merge_lightest(forest: Seq<HuffmanTree>) -> Seq<HuffmanTree> {
    let i = lightest(frequencies(forest));
    let rest = forest.remove(i);
    let j = lightest(frequencies(rest));
    rest.remove(j).push(HuffmanTree::Node(Box::new(forest[i]), Box::new(rest[j])))
}

/// A step takes one tree from a forest of two or more.
pub proof fn lemma_merge_lightest_len(forest: Seq<HuffmanTree>)
    requires
        forest.len() >= 2,
    ensures
        merge_lightest(forest).len() == forest.len() - 1,
{
    lemma_lightest(frequencies(forest));
    let i = lightest(frequencies(forest));
    lemma_lightest(frequencies(forest.remove(i)));
}

/// The tree that the construction leaves: the forest's only tree, or the
/// outcome of step after step.
pub open spec fn merged(forest: Seq<HuffmanTree>) -> HuffmanTree
    decreases forest.len(),
{
    if forest.len() == 0 {
        HuffmanTree::Leaf(0, 0)
    } else if forest.len() == 1 {
        forest[0]
    } else {
        proof {
            lemma_merge_lightest_len(forest);
        }
        merged(merge_lightest(forest))
    }
}

/// The leaves for the symbols from 1 to `n - 1` that occur, in rising order.
pub open spec fn leaves_below(counts: Seq<u32>, n: int) -> Seq<HuffmanTree>
    decreases n,
{
    if n <= 1 {
        Seq::empty()
    } else if counts[n - 1] > 0 {
        leaves_below(counts, n - 1).push(HuffmanTree::Leaf((n - 1) as u16, counts[n - 1]))
    } else {
        leaves_below(counts, n - 1)
    }
}

/// The forest that the construction starts from: the leaf of symbol 0,
/// whether it occurs or not, then the leaves of the other symbols that
/// occur, in rising order.
pub open spec fn initial_forest(counts: Seq<u32>) -> Seq<HuffmanTree> {
    seq![HuffmanTree::Leaf(0, counts[0])] + leaves_below(counts, ALPHABET_SIZE as int)
}

/// The Huffman tree of a table of frequencies.
pub open spec fn huffman_tree(counts: Seq<u32>) -> HuffmanTree {
    merged(initial_forest(counts))
}

/// Whether some tree of the forest has a leaf for `symbol`.
pub open spec fn forest_has_leaf(forest: Seq<HuffmanTree>, symbol: int) -> bool {
    exists|i: int| 0 <= i < forest.len() && (#[trigger] forest[i]).has_leaf(symbol)
}

/// Number of nodes and leaves of a forest.
pub open spec fn forest_size(forest: Seq<HuffmanTree>) -> nat
    decreases forest.len(),
{
    if forest.len() == 0 {
        0
    } else {
        forest_size(forest.drop_last()) + forest.last().size()
    }
}

/// The size of a concatenation is the sum of the sizes.
pub proof fn lemma_forest_size_concat(a: Seq<HuffmanTree>, b: Seq<HuffmanTree>)
    ensures
        forest_size(a + b) == forest_size(a) + forest_size(b),
    decreases b.len(),
{
    if b.len() == 0 {
        assert(a + b =~= a);
    } else {
        lemma_forest_size_concat(a, b.drop_last());
        assert((a + b).drop_last() =~= a + b.drop_last());
    }
}

/// The size of a forest of one tree.
pub proof fn lemma_forest_size_one(t: HuffmanTree)
    ensures
        forest_size(seq![t]) == t.size(),
{
    assert(seq![t].drop_last() =~= Seq::<HuffmanTree>::empty());
    assert(forest_size(Seq::<HuffmanTree>::empty()) == 0);
}

/// A tree that leaves a forest takes its size along.
pub proof fn lemma_forest_size_remove(forest: Seq<HuffmanTree>, i: int)
    requires
        0 <= i < forest.len(),
    ensures
        forest_size(forest.remove(i)) + forest[i].size() == forest_size(forest),
{
    let front = forest.take(i);
    let back = forest.skip(i + 1);
    assert(forest.remove(i) =~= front + back);
    assert(forest =~= front + seq![forest[i]] + back);
    lemma_forest_size_concat(front, back);
    lemma_forest_size_concat(front, seq![forest[i]]);
    lemma_forest_size_concat(front + seq![forest[i]], back);
    lemma_forest_size_one(forest[i]);
}

/// Every tree has at least one node, so a forest has at least as many nodes
/// as trees.
pub proof fn lemma_forest_size_at_least_len(forest: Seq<HuffmanTree>)
    ensures
        forest_size(forest) >= forest.len(),
    decreases forest.len(),
{
    if forest.len() > 0 {
        lemma_forest_size_at_least_len(forest.drop_last());
    }
}

/// A step adds one node and keeps every leaf.
#[verifier::rlimit(40)]
pub proof fn lemma_merge_lightest(forest: Seq<HuffmanTree>)
    requires
        forest.len() >= 2,
    ensures
        merge_lightest(forest).len() == forest.len() - 1,
        forest_size(merge_lightest(forest)) == forest_size(forest) + 1,
        forall|symbol: int|
            forest_has_leaf(forest, symbol) ==> #[trigger] forest_has_leaf(
                merge_lightest(forest),
                symbol,
            ),
{
    lemma_lightest(frequencies(forest));
    let i = lightest(frequencies(forest));
    let rest = forest.remove(i);
    lemma_lightest(frequencies(rest));
    let j = lightest(frequencies(rest));
    let node = HuffmanTree::Node(Box::new(forest[i]), Box::new(rest[j]));
    let after = merge_lightest(forest);
    assert(after == rest.remove(j).push(node));
    lemma_forest_size_remove(forest, i);
    lemma_forest_size_remove(rest, j);
    assert(after.drop_last() =~= rest.remove(j));
    assert forall|symbol: int| forest_has_leaf(forest, symbol) implies #[trigger] forest_has_leaf(
        after,
        symbol,
    ) by {
        let k = choose|k: int| 0 <= k < forest.len() && (#[trigger] forest[k]).has_leaf(symbol);
        let last = after.len() - 1;
        assert(after[last] == node);
        if k == i {
            assert(after[last].has_leaf(symbol));
        } else {
            let k1 = if k < i {
                k
            } else {
                k - 1
            };
            assert(rest[k1] == forest[k]);
            if k1 == j {
                assert(after[last].has_leaf(symbol));
            } else {
                let k2 = if k1 < j {
                    k1
                } else {
                    k1 - 1
                };
                assert(after[k2] == rest[k1]);
                assert(after[k2].has_leaf(symbol));
            }
        }
    }
}

/// The tree that the construction leaves has every leaf of the forest, and
/// one node more for each step.
pub proof fn lemma_merged(forest: Seq<HuffmanTree>)
    requires
        forest.len() >= 1,
    ensures
        merged(forest).size() + 1 == forest_size(forest) + forest.len(),
        forall|symbol: int| forest_has_leaf(forest, symbol) ==> merged(forest).has_leaf(symbol),
        forest.len() >= 2 ==> merged(forest) is Node,
    decreases forest.len(),
{
    if forest.len() == 1 {
        assert(forest.drop_last() =~= Seq::<HuffmanTree>::empty());
        assert(forest_size(Seq::<HuffmanTree>::empty()) == 0);
        assert forall|symbol: int| forest_has_leaf(forest, symbol) implies merged(
            forest,
        ).has_leaf(symbol) by {
            let k = choose|k: int| 0 <= k < forest.len() && (#[trigger] forest[k]).has_leaf(symbol);
            assert(k == 0);
        }
    } else {
        lemma_merge_lightest(forest);
        let after = merge_lightest(forest);
        lemma_merged(after);
        if after.len() == 1 {
            assert(after[0] is Node);
        }
        assert forall|symbol: int| forest_has_leaf(forest, symbol) implies merged(
            forest,
        ).has_leaf(symbol) by {
            assert(forest_has_leaf(after, symbol));
        }
    }
}

/// The leaves of the symbols that occur: as many nodes as trees, never more
/// than there are symbols, and a leaf for each symbol that occurs.
pub proof fn lemma_leaves_below(counts: Seq<u32>, n: int)
    requires
        1 <= n <= counts.len(),
    ensures
        leaves_below(counts, n).len() <= n - 1,
        forest_size(leaves_below(counts, n)) == leaves_below(counts, n).len(),
        forall|s: int|
            1 <= s < n && counts[s] > 0 && s <= u16::MAX ==> #[trigger] forest_has_leaf(
                leaves_below(counts, n),
                s,
            ),
    decreases n,
{
    if n > 1 {
        lemma_leaves_below(counts, n - 1);
        let before = leaves_below(counts, n - 1);
        let now = leaves_below(counts, n);
        if counts[n - 1] > 0 {
            assert(now.drop_last() =~= before);
        }
        assert forall|s: int| 1 <= s < n && counts[s] > 0 && s <= u16::MAX implies #[trigger] forest_has_leaf(
            now,
            s,
        ) by {
            if s == n - 1 {
                assert(now[now.len() - 1].has_leaf(s));
            } else {
                assert(forest_has_leaf(before, s));
                let k = choose|k: int| 0 <= k < before.len() && (#[trigger] before[k]).has_leaf(s);
                assert(now[k] == before[k]);
            }
        }
    }
}

/// The Huffman tree has a leaf for symbol 0 and for every symbol that
/// occurs, and fewer than twice as many nodes as there are symbols.
pub proof fn lemma_huffman_tree(counts: Seq<u32>)
    requires
        counts.len() == ALPHABET_SIZE,
    ensures
        huffman_tree(counts).has_leaf(0),
        forall|s: int| 0 <= s < ALPHABET_SIZE && counts[s] > 0 ==> huffman_tree(counts).has_leaf(s),
        huffman_tree(counts).size() < 2 * ALPHABET_SIZE,
{
    let first = seq![HuffmanTree::Leaf(0, counts[0])];
    let others = leaves_below(counts, ALPHABET_SIZE as int);
    let forest = initial_forest(counts);
    lemma_leaves_below(counts, ALPHABET_SIZE as int);
    lemma_forest_size_concat(first, others);
    lemma_forest_size_one(first[0]);
    lemma_merged(forest);
    assert(forest[0].has_leaf(0));
    assert(forest_has_leaf(forest, 0));
    assert forall|s: int| 0 <= s < ALPHABET_SIZE && counts[s] > 0 implies huffman_tree(
        counts,
    ).has_leaf(s) by {
        if s > 0 {
            assert(forest_has_leaf(others, s));
            let k = choose|k: int| 0 <= k < others.len() && (#[trigger] others[k]).has_leaf(s);
            assert(forest[k + 1] == others[k]);
            assert(forest_has_leaf(forest, s));
        }
    }
}

/// Position of the first of the smallest of `weights`.
fn lightest_index(weights: &Vec<u64>) -> (best: usize)
    requires
        weights.len() > 0,
    ensures
        best == lightest(weights@),
        best < weights.len(),
{
    let mut best: usize = 0;
    let mut i: usize = 1;
    assert(weights@.take(1).drop_last() =~= Seq::<u64>::empty());
    while i < weights.len()
        invariant
            1 <= i <= weights.len(),
            best == lightest(weights@.take(i as int)),
            best < i,
        decreases weights.len() - i,
    {
        proof {
            assert(weights@.take(i + 1).drop_last() =~= weights@.take(i as int));
        }
        if weights[i] < weights[best] {
            best = i;
        }
        i += 1;
    }
    assert(weights@.take(i as int) =~= weights@);
    best
}

/// Builds the Huffman tree of a table of frequencies, one for each symbol.
#[verifier::rlimit(40)]
pub fn build_from_counts(counts: &Vec<u32>) -> (tree: HuffmanTree)
    requires
        counts.len() == ALPHABET_SIZE,
    ensures
        tree == huffman_tree(counts@),
{
    // Create the initial leafs for each symbol
    let mut trees: Vec<HuffmanTree> = Vec::new();
    let mut weights: Vec<u64> = Vec::new();
    trees.push(HuffmanTree::Leaf(0, counts[0]));
    weights.push(counts[0] as u64);
    let mut symbol: usize = 1;
    while symbol < ALPHABET_SIZE
        invariant
            1 <= symbol <= ALPHABET_SIZE,
            counts.len() == ALPHABET_SIZE,
            trees@ == seq![HuffmanTree::Leaf(0, counts[0])] + leaves_below(counts@, symbol as int),
            weights@ == frequencies(trees@),
        decreases ALPHABET_SIZE - symbol,
    {
        let count = counts[symbol];
        if count > 0 {
            trees.push(HuffmanTree::Leaf(symbol as u16, count));
            weights.push(count as u64);
        }
        symbol += 1;
        proof {
            assert(trees@ =~= seq![HuffmanTree::Leaf(0, counts[0])] + leaves_below(
                counts@,
                symbol as int,
            ));
            assert(weights@ =~= frequencies(trees@));
        }
    }
    // Flatten the leafs into a tree
    while trees.len() > 1
        invariant
            trees.len() >= 1,
            weights@ == frequencies(trees@),
            merged(trees@) == huffman_tree(counts@),
        decreases trees.len(),
    {
        let ghost before = trees@;
        proof {
            lemma_merge_lightest_len(before);
            lemma_lightest(frequencies(before));
        }
        let i = lightest_index(&weights);
        let left = trees.remove(i);
        let left_weight = weights.remove(i);
        proof {
            assert(weights@ =~= frequencies(trees@));
            lemma_lightest(frequencies(trees@));
        }
        let j = lightest_index(&weights);
        let right = trees.remove(j);
        let right_weight = weights.remove(j);
        trees.push(HuffmanTree::Node(Box::new(left), Box::new(right)));
        weights.push(left_weight.saturating_add(right_weight));
        proof {
            assert(trees@ =~= merge_lightest(before));
            assert(weights@ =~= frequencies(trees@));
        }
    }
    let tree = trees.pop();
    match tree {
        Some(tree) => tree,
        None => HuffmanTree::Leaf(0, 0),
    }
}

/// Enters the code of every leaf of `node` into `codes`, each behind
/// `prefix`, the path from the root to `node`. Where two leaves carry one
/// symbol, the leftmost stays.
fn assign_codes(node: &HuffmanTree, prefix: Vec<bool>, codes: &mut HashMap<u16, Vec<bool>>)
    ensures
        forall|s: u16|
            #[trigger] final(codes)@.contains_key(s) <==> (node.has_leaf(s as int) || old(
                codes,
            )@.contains_key(s)),
        forall|s: u16|
            node.has_leaf(s as int) ==> (#[trigger] final(codes)@[s])@ == prefix@ + node.code_of(
                s as int,
            ),
        forall|s: u16|
            !node.has_leaf(s as int) && old(codes)@.contains_key(s) ==> #[trigger] final(codes)@[s]
                == old(codes)@[s],
    decreases node,
{
    match node {
        HuffmanTree::Node(left, right) => {
            let mut right_prefix = prefix.clone();
            right_prefix.push(true);
            assert(right_prefix@ =~= prefix@.push(true));
            assign_codes(right, right_prefix, codes);
            let ghost between = codes@;
            let mut left_prefix = prefix;
            left_prefix.push(false);
            assign_codes(left, left_prefix, codes);
            proof {
                assert forall|s: u16| node.has_leaf(s as int) implies (#[trigger] codes@[s])@
                    == prefix@ + node.code_of(s as int) by {
                    if left.has_leaf(s as int) {
                        assert(left_prefix@ + left.code_of(s as int) =~= prefix@ + (seq![false]
                            + left.code_of(s as int)));
                    } else {
                        assert(between.contains_key(s));
                        assert(right_prefix@ + right.code_of(s as int) =~= prefix@ + (seq![true]
                            + right.code_of(s as int)));
                    }
                }
            }
        },
        HuffmanTree::Leaf(symbol, _) => {
            codes.insert(*symbol, prefix);
            assert(prefix@ + node.code_of(*symbol as int) =~= prefix@);
        },
    }
}

/// Creates the combination of bits that represents each symbol: the path
/// from the root to its leaf.
pub fn generate_huffman_codes(node: &HuffmanTree) -> (codes: HashMap<u16, Vec<bool>>)
    ensures
        forall|s: u16| #[trigger] codes@.contains_key(s) <==> node.has_leaf(s as int),
        forall|s: u16| node.has_leaf(s as int) ==> (#[trigger] codes@[s])@ == node.code_of(s as int),
{
    let mut codes: HashMap<u16, Vec<bool>> = HashMap::new();
    let prefix: Vec<bool> = Vec::new();
    assign_codes(node, prefix, &mut codes);
    proof {
        assert forall|s: u16| node.has_leaf(s as int) implies (#[trigger] codes@[s])@
            == node.code_of(s as int) by {
            assert(prefix@ + node.code_of(s as int) =~= node.code_of(s as int));
        }
    }
    codes
}

} // verus!
