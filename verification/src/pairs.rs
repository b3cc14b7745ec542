use crate::huffman::HuffmanTree;
use crate::shared::indices_in_range;
use crate::tree::{
    forest_size, lemma_forest_size_at_least_len, lemma_forest_size_concat, lemma_forest_size_one,
};
use vstd::prelude::*;

verus! {

/// The marker of a leaf in a slot of a pair: a negative number.
pub open spec fn leaf_slot(symbol: u16) -> i32 {
    (-1 - symbol) as i32
}

/// The halves of a node that are nodes themselves, left before right.
pub open spec fn inner_children(t: HuffmanTree) -> Seq<HuffmanTree> {
    match t {
        HuffmanTree::Node(left, right) => (if *left is Node {
            seq![*left]
        } else {
            Seq::empty()
        }) + (if *right is Node {
            seq![*right]
        } else {
            Seq::empty()
        }),
        HuffmanTree::Leaf(_, _) => Seq::empty(),
    }
}

/// The pair of a node: for each half its leaf marker, or the next free index
/// where the half is a node, counted up from `next`.
pub open spec fn pair_of(t: HuffmanTree, next: int) -> (i32, i32) {
    match t {
        HuffmanTree::Node(left, right) => {
            let first = match *left {
                HuffmanTree::Leaf(symbol, _) => leaf_slot(symbol),
                HuffmanTree::Node(_, _) => next as i32,
            };
            let next_right = if *left is Node {
                next + 1
            } else {
                next
            };
            let second = match *right {
                HuffmanTree::Leaf(symbol, _) => leaf_slot(symbol),
                HuffmanTree::Node(_, _) => next_right as i32,
            };
            (first, second)
        },
        HuffmanTree::Leaf(_, _) => (0, 0),
    }
}

/// The halves of a node that are nodes are at most two, and smaller than
/// the node.
pub proof fn lemma_inner_children_size(t: HuffmanTree)
    ensures
        forest_size(inner_children(t)) < t.size(),
        inner_children(t).len() <= 2,
        forall|k: int| 0 <= k < inner_children(t).len() ==> (#[trigger] inner_children(t)[k]) is Node,
{
    match t {
        HuffmanTree::Node(left, right) => {
            let a = if *left is Node {
                seq![*left]
            } else {
                Seq::empty()
            };
            let b = if *right is Node {
                seq![*right]
            } else {
                Seq::empty()
            };
            lemma_forest_size_concat(a, b);
            lemma_forest_size_one(*left);
            lemma_forest_size_one(*right);
            assert(forest_size(Seq::<HuffmanTree>::empty()) == 0);
        },
        HuffmanTree::Leaf(_, _) => {
            assert(forest_size(Seq::<HuffmanTree>::empty()) == 0);
        },
    }
}

/// A visit makes the queue smaller: the node leaves, its halves that are
/// nodes enter.
pub proof fn lemma_queue_step(queue: Seq<HuffmanTree>)
    requires
        queue.len() > 0,
    ensures
        forest_size(queue.drop_first() + inner_children(queue[0])) < forest_size(queue),
{
    let kids = inner_children(queue[0]);
    lemma_inner_children_size(queue[0]);
    lemma_forest_size_concat(queue.drop_first(), kids);
    lemma_forest_size_concat(seq![queue[0]], queue.drop_first());
    lemma_forest_size_one(queue[0]);
    assert(seq![queue[0]] + queue.drop_first() =~= queue);
}

/// The pairs of the nodes of a breadth-first walk, in the order of the
/// walk. `queue` holds the nodes that were found and not yet visited; a
/// node that is found gets the next free index, counted up from `next`.
pub open spec fn walk_pairs(queue: Seq<HuffmanTree>, next: int) -> Seq<(i32, i32)>
    decreases forest_size(queue),
{
    if queue.len() == 0 {
        Seq::empty()
    } else {
        let kids = inner_children(queue[0]);
        proof {
            lemma_queue_step(queue);
        }
        seq![pair_of(queue[0], next)] + walk_pairs(queue.drop_first() + kids, next + kids.len())
    }
}

/// The pair table of a tree: one pair for each node, those below the root in
/// the order in which a breadth-first walk finds them, the root's pair last.
/// A tree that is a single leaf has no pairs.
pub open spec fn pair_table(t: HuffmanTree) -> Seq<(i32, i32)> {
    if t is Node {
        let walk = walk_pairs(seq![t], 0);
        walk.drop_first().push(walk[0])
    } else {
        Seq::empty()
    }
}

/// The pair at `index` of a walk stands for the node `t`: each slot holds
/// the marker of the leaf below it, or the index, less one, of a pair that
/// stands for the node below it.
pub open spec fn walk_encodes(walk: Seq<(i32, i32)>, index: int, t: HuffmanTree) -> bool
    decreases t,
{
    match t {
        HuffmanTree::Node(left, right) => {
            &&& 0 <= index < walk.len()
            &&& match *left {
                HuffmanTree::Leaf(symbol, _) => walk[index].0 == leaf_slot(symbol),
                HuffmanTree::Node(_, _) => walk[index].0 >= 0 && walk_encodes(
                    walk,
                    walk[index].0 + 1,
                    *left,
                ),
            }
            &&& match *right {
                HuffmanTree::Leaf(symbol, _) => walk[index].1 == leaf_slot(symbol),
                HuffmanTree::Node(_, _) => walk[index].1 >= 0 && walk_encodes(
                    walk,
                    walk[index].1 + 1,
                    *right,
                ),
            }
        },
        HuffmanTree::Leaf(_, _) => false,
    }
}

/// The pair at `index` of a table stands for the node `t`: each slot holds
/// the marker of the leaf below it, or the index of a pair that stands for
/// the node below it.
pub open spec fn encodes(pairs: Seq<(i32, i32)>, index: int, t: HuffmanTree) -> bool
    decreases t,
{
    match t {
        HuffmanTree::Node(left, right) => {
            &&& 0 <= index < pairs.len()
            &&& match *left {
                HuffmanTree::Leaf(symbol, _) => pairs[index].0 == leaf_slot(symbol),
                HuffmanTree::Node(_, _) => pairs[index].0 >= 0 && encodes(
                    pairs,
                    pairs[index].0 as int,
                    *left,
                ),
            }
            &&& match *right {
                HuffmanTree::Leaf(symbol, _) => pairs[index].1 == leaf_slot(symbol),
                HuffmanTree::Node(_, _) => pairs[index].1 >= 0 && encodes(
                    pairs,
                    pairs[index].1 as int,
                    *right,
                ),
            }
        },
        HuffmanTree::Leaf(_, _) => false,
    }
}

/// The walk has one pair for each node that is or will be in the queue, and
/// each pair stands for its node.
#[verifier::rlimit(40)]
proof fn lemma_walk(before: Seq<(i32, i32)>, queue: Seq<HuffmanTree>, next: int)
    requires
        forall|q: int| 0 <= q < queue.len() ==> (#[trigger] queue[q]) is Node,
        next == before.len() + queue.len() - 1,
        before.len() + forest_size(queue) <= i32::MAX,
    ensures
        walk_pairs(queue, next).len() >= queue.len(),
        before.len() + walk_pairs(queue, next).len() <= before.len() + forest_size(queue),
        forall|q: int|
            0 <= q < queue.len() ==> walk_encodes(
                before + walk_pairs(queue, next),
                before.len() + q,
                #[trigger] queue[q],
            ),
    decreases forest_size(queue),
{
    if queue.len() > 0 {
        let head = queue[0];
        let kids = inner_children(head);
        let rest = queue.drop_first() + kids;
        let pair = pair_of(head, next);
        let walk = walk_pairs(queue, next);
        let whole = before + walk;
        lemma_queue_step(queue);
        lemma_inner_children_size(head);
        lemma_forest_size_at_least_len(queue);
        lemma_forest_size_at_least_len(rest);
        assert forall|q: int| 0 <= q < rest.len() implies (#[trigger] rest[q]) is Node by {
            if q < queue.len() - 1 {
                assert(rest[q] == queue[q + 1]);
            } else {
                assert(rest[q] == kids[q - (queue.len() - 1)]);
            }
        }
        lemma_walk(before.push(pair), rest, next + kids.len());
        assert(whole =~= before.push(pair) + walk_pairs(rest, next + kids.len()));
        assert forall|q: int| 0 <= q < queue.len() implies walk_encodes(
            whole,
            before.len() + q,
            #[trigger] queue[q],
        ) by {
            if q > 0 {
                assert(rest[q - 1] == queue[q]);
            } else {
                assert(whole[before.len() as int] == pair);
                match head {
                    HuffmanTree::Node(left, right) => {
                        let from = queue.len() - 1;
                        if *left is Node {
                            assert(rest[from] == kids[0]);
                            assert(kids[0] == *left);
                            assert(walk_encodes(whole, before.len() + 1 + from, rest[from]));
                            if *right is Node {
                                assert(rest[from + 1] == kids[1]);
                                assert(kids[1] == *right);
                                assert(walk_encodes(
                                    whole,
                                    before.len() + 1 + from + 1,
                                    rest[from + 1],
                                ));
                            }
                        } else if *right is Node {
                            assert(rest[from] == kids[0]);
                            assert(kids[0] == *right);
                            assert(walk_encodes(whole, before.len() + 1 + from, rest[from]));
                        }
                    },
                    HuffmanTree::Leaf(_, _) => {},
                }
            }
        }
    }
}

/// Every slot of a walk that is an index names a pair of the walk behind
/// the first.
#[verifier::rlimit(40)]
proof fn lemma_walk_in_range(before: Seq<(i32, i32)>, queue: Seq<HuffmanTree>, next: int)
    requires
        forall|q: int| 0 <= q < queue.len() ==> (#[trigger] queue[q]) is Node,
        next == before.len() + queue.len() - 1,
        before.len() + forest_size(queue) <= i32::MAX,
    ensures
        forall|k: int|
            0 <= k < walk_pairs(queue, next).len() ==> (#[trigger] walk_pairs(queue, next)[k]).0
                + 1 < before.len() + walk_pairs(queue, next).len() && walk_pairs(queue, next)[k].1
                + 1 < before.len() + walk_pairs(queue, next).len(),
    decreases forest_size(queue),
{
    if queue.len() > 0 {
        let head = queue[0];
        let kids = inner_children(head);
        let rest = queue.drop_first() + kids;
        let pair = pair_of(head, next);
        let walk = walk_pairs(queue, next);
        lemma_queue_step(queue);
        lemma_inner_children_size(head);
        lemma_forest_size_at_least_len(queue);
        lemma_forest_size_at_least_len(rest);
        assert forall|q: int| 0 <= q < rest.len() implies (#[trigger] rest[q]) is Node by {
            if q < queue.len() - 1 {
                assert(rest[q] == queue[q + 1]);
            } else {
                assert(rest[q] == kids[q - (queue.len() - 1)]);
            }
        }
        lemma_walk(before.push(pair), rest, next + kids.len());
        lemma_walk_in_range(before.push(pair), rest, next + kids.len());
        let tail = walk_pairs(rest, next + kids.len());
        assert(walk =~= seq![pair] + tail);
        assert forall|k: int| 0 <= k < walk.len() implies (#[trigger] walk[k]).0 + 1 < before.len()
            + walk.len() && walk[k].1 + 1 < before.len() + walk.len() by {
            if k > 0 {
                assert(walk[k] == tail[k - 1]);
            }
        }
    }
}

/// Every index in the pair table of a tree points into the table.
pub proof fn lemma_pair_table_in_range(t: HuffmanTree)
    requires
        t.size() <= i32::MAX,
    ensures
        indices_in_range(pair_table(t)),
        pair_table(t).len() <= t.size(),
{
    if t is Node {
        let queue = seq![t];
        let walk = walk_pairs(queue, 0);
        lemma_forest_size_one(t);
        lemma_walk(Seq::empty(), queue, 0);
        lemma_walk_in_range(Seq::empty(), queue, 0);
        let table = pair_table(t);
        assert forall|i: int| 0 <= i < table.len() implies (#[trigger] table[i]).0 < table.len()
            && table[i].1 < table.len() by {
            if i < table.len() - 1 {
                assert(table[i] == walk[i + 1]);
            } else {
                assert(table[i] == walk[0]);
            }
        }
    }
}

/// Number of nodes of a tree that are not leaves.
pub open spec fn node_count(t: HuffmanTree) -> nat
    decreases t,
{
    match t {
        HuffmanTree::Node(left, right) => 1 + node_count(*left) + node_count(*right),
        HuffmanTree::Leaf(_, _) => 0,
    }
}

/// Number of nodes of a forest that are not leaves.
pub open spec fn forest_node_count(forest: Seq<HuffmanTree>) -> nat
    decreases forest.len(),
{
    if forest.len() == 0 {
        0
    } else {
        forest_node_count(forest.drop_last()) + node_count(forest.last())
    }
}

/// A tree has one leaf more than it has nodes.
pub proof fn lemma_node_count(t: HuffmanTree)
    ensures
        t.size() == 2 * node_count(t) + 1,
    decreases t,
{
    match t {
        HuffmanTree::Node(left, right) => {
            lemma_node_count(*left);
            lemma_node_count(*right);
        },
        HuffmanTree::Leaf(_, _) => {},
    }
}

proof fn lemma_forest_node_count_concat(a: Seq<HuffmanTree>, b: Seq<HuffmanTree>)
    ensures
        forest_node_count(a + b) == forest_node_count(a) + forest_node_count(b),
    decreases b.len(),
{
    if b.len() == 0 {
        assert(a + b =~= a);
    } else {
        lemma_forest_node_count_concat(a, b.drop_last());
        assert((a + b).drop_last() =~= a + b.drop_last());
    }
}

proof fn lemma_forest_node_count_one(t: HuffmanTree)
    ensures
        forest_node_count(seq![t]) == node_count(t),
{
    assert(seq![t].drop_last() =~= Seq::<HuffmanTree>::empty());
    assert(forest_node_count(Seq::<HuffmanTree>::empty()) == 0);
}

/// A walk has one pair for each node of the queue and below.
proof fn lemma_walk_len(queue: Seq<HuffmanTree>, next: int)
    ensures
        walk_pairs(queue, next).len() == queue.len() + forest_node_count(queue) - heads(queue),
    decreases forest_size(queue),
{
    if queue.len() > 0 {
        let head = queue[0];
        let kids = inner_children(head);
        let rest = queue.drop_first() + kids;
        lemma_queue_step(queue);
        lemma_walk_len(rest, next + kids.len());
        lemma_forest_node_count_concat(queue.drop_first(), kids);
        lemma_forest_node_count_concat(seq![head], queue.drop_first());
        lemma_forest_node_count_one(head);
        assert(seq![head] + queue.drop_first() =~= queue);
        lemma_heads_concat(queue.drop_first(), kids);
        lemma_heads_concat(seq![head], queue.drop_first());
        lemma_heads_one(head);
        lemma_kids(head);
    } else {
        assert(forest_node_count(queue) == 0);
    }
}

/// Number of trees of a forest that are nodes.
pub open spec fn heads(forest: Seq<HuffmanTree>) -> nat
    decreases forest.len(),
{
    if forest.len() == 0 {
        0
    } else if forest.last() is Node {
        heads(forest.drop_last()) + 1
    } else {
        heads(forest.drop_last())
    }
}

proof fn lemma_heads_concat(a: Seq<HuffmanTree>, b: Seq<HuffmanTree>)
    ensures
        heads(a + b) == heads(a) + heads(b),
    decreases b.len(),
{
    if b.len() == 0 {
        assert(a + b =~= a);
    } else {
        lemma_heads_concat(a, b.drop_last());
        assert((a + b).drop_last() =~= a + b.drop_last());
    }
}

proof fn lemma_heads_one(t: HuffmanTree)
    ensures
        heads(seq![t]) == if t is Node {
            1nat
        } else {
            0nat
        },
{
    assert(seq![t].drop_last() =~= Seq::<HuffmanTree>::empty());
    assert(heads(Seq::<HuffmanTree>::empty()) == 0);
}

proof fn lemma_kids(t: HuffmanTree)
    ensures
        heads(inner_children(t)) == inner_children(t).len(),
        t is Node ==> forest_node_count(inner_children(t)) + 1 == node_count(t),
        t is Leaf ==> inner_children(t).len() == 0,
{
    match t {
        HuffmanTree::Node(left, right) => {
            let a = if *left is Node {
                seq![*left]
            } else {
                Seq::empty()
            };
            let b = if *right is Node {
                seq![*right]
            } else {
                Seq::empty()
            };
            lemma_heads_concat(a, b);
            lemma_forest_node_count_concat(a, b);
            lemma_heads_one(*left);
            lemma_heads_one(*right);
            lemma_forest_node_count_one(*left);
            lemma_forest_node_count_one(*right);
            assert(heads(Seq::<HuffmanTree>::empty()) == 0);
            assert(forest_node_count(Seq::<HuffmanTree>::empty()) == 0);
        },
        HuffmanTree::Leaf(_, _) => {
            assert(heads(Seq::<HuffmanTree>::empty()) == 0);
        },
    }
}

/// The pair table of a tree has one pair for each node: one less than the
/// tree has leaves.
pub proof fn lemma_pair_table_len(t: HuffmanTree)
    ensures
        pair_table(t).len() == node_count(t),
        2 * pair_table(t).len() + 1 == t.size(),
{
    lemma_node_count(t);
    if t is Node {
        lemma_walk_len(seq![t], 0);
        lemma_forest_node_count_one(t);
        lemma_heads_one(t);
    }
}

/// A pair of the walk that stands for a node below the root stands for it
/// in the table too, one place earlier.
proof fn lemma_table_encodes(walk: Seq<(i32, i32)>, index: int, t: HuffmanTree)
    requires
        walk.len() > 0,
        walk.len() <= i32::MAX,
        index >= 1,
        walk_encodes(walk, index, t),
    ensures
        encodes(walk.drop_first().push(walk[0]), index - 1, t),
    decreases t,
{
    let table = walk.drop_first().push(walk[0]);
    assert(table[index - 1] == walk[index]);
    match t {
        HuffmanTree::Node(left, right) => {
            if *left is Node {
                lemma_table_encodes(walk, walk[index].0 + 1, *left);
            }
            if *right is Node {
                lemma_table_encodes(walk, walk[index].1 + 1, *right);
            }
        },
        HuffmanTree::Leaf(_, _) => {},
    }
}

/// The last pair of the pair table of a tree that is a node stands for the
/// tree, and every index in the table points into the table.
pub proof fn lemma_pair_table(t: HuffmanTree)
    requires
        t is Node,
        t.size() <= i32::MAX,
    ensures
        pair_table(t).len() >= 1,
        pair_table(t).len() <= t.size(),
        encodes(pair_table(t), pair_table(t).len() - 1, t),
{
    let queue = seq![t];
    let walk = walk_pairs(queue, 0);
    lemma_forest_size_one(t);
    lemma_walk(Seq::empty(), queue, 0);
    assert(Seq::<(i32, i32)>::empty() + walk =~= walk);
    assert(walk_encodes(walk, 0, queue[0]));
    let table = pair_table(t);
    match t {
        HuffmanTree::Node(left, right) => {
            assert(table[table.len() - 1] == walk[0]);
            if *left is Node {
                lemma_table_encodes(walk, walk[0].0 + 1, *left);
            }
            if *right is Node {
                lemma_table_encodes(walk, walk[0].1 + 1, *right);
            }
        },
        HuffmanTree::Leaf(_, _) => {},
    }
}

/// Flattens the tree of Huffman nodes into an array of pairs where:
///
/// - negative values stand for a symbol: `-1 - symbol`;
/// - other values are the index of the pair to visit next.
///
/// The nodes are visited breadth first, the root first. A node that is found
/// below a visited node gets the next index, counted from 0, so that the
/// pairs below the root stand in the order in which they were found; the
/// root's pair is the last one.
#[verifier::rlimit(40)]
pub fn collect_pairs(root: &HuffmanTree) -> (pairs: Vec<(i32, i32)>)
    requires
        root.size() <= i32::MAX,
    ensures
        pairs@ == pair_table(*root),
{
    let mut pairs: Vec<(i32, i32)> = Vec::new();
    match root {
        HuffmanTree::Leaf(_, _) => {
            return pairs;
        },
        HuffmanTree::Node(_, _) => {},
    }
    // Pairs in the order of the walk, the root's first
    let mut walk: Vec<(i32, i32)> = Vec::new();
    // Nodes that were found, in the order in which they were found
    let mut found: Vec<&HuffmanTree> = Vec::new();
    found.push(root);
    let ghost mut queue: Seq<HuffmanTree> = seq![*root];
    let mut head: usize = 0;
    proof {
        lemma_forest_size_one(*root);
        assert(walk@ + walk_pairs(queue, 0) =~= walk_pairs(seq![*root], 0));
    }
    while head < found.len()
        invariant
            head <= found.len(),
            walk.len() == head,
            queue.len() == found.len() - head,
            forall|q: int| 0 <= q < queue.len() ==> *found[head + q] == #[trigger] queue[q],
            forall|q: int| 0 <= q < queue.len() ==> (#[trigger] queue[q]) is Node,
            head + forest_size(queue) <= i32::MAX,
            walk@ + walk_pairs(queue, found.len() - 1) == walk_pairs(seq![*root], 0),
        decreases forest_size(queue),
    {
        let node: &HuffmanTree = found[head];
        let ghost kids = inner_children(queue[0]);
        proof {
            assert(*node == queue[0]);
            lemma_queue_step(queue);
            lemma_inner_children_size(queue[0]);
            lemma_forest_size_at_least_len(queue);
            lemma_forest_size_at_least_len(queue.drop_first() + kids);
        }
        let ghost next = found.len() - 1;
        match node {
            HuffmanTree::Node(left, right) => {
                let first: i32 = match &**left {
                    HuffmanTree::Leaf(symbol, _) => -1 - (*symbol as i32),
                    HuffmanTree::Node(_, _) => {
                        let index = (found.len() - 1) as i32;
                        found.push(&**left);
                        index
                    },
                };
                let second: i32 = match &**right {
                    HuffmanTree::Leaf(symbol, _) => -1 - (*symbol as i32),
                    HuffmanTree::Node(_, _) => {
                        let index = (found.len() - 1) as i32;
                        found.push(&**right);
                        index
                    },
                };
                walk.push((first, second));
                assert((first, second) == pair_of(queue[0], next as int));
            },
            // Only nodes are put in the queue
            HuffmanTree::Leaf(_, _) => {},
        }
        head += 1;
        proof {
            let rest = queue.drop_first() + kids;
            assert(walk@.last() == pair_of(queue[0], next as int));
            assert forall|q: int| 0 <= q < rest.len() implies *found[head + q] == #[trigger] rest[q] by {
                if q < queue.len() - 1 {
                    assert(rest[q] == queue[q + 1]);
                } else {
                    assert(rest[q] == kids[q - (queue.len() - 1)]);
                }
            }
            assert forall|q: int| 0 <= q < rest.len() implies (#[trigger] rest[q]) is Node by {
                if q < queue.len() - 1 {
                    assert(rest[q] == queue[q + 1]);
                } else {
                    assert(rest[q] == kids[q - (queue.len() - 1)]);
                }
            }
            assert(walk@ + walk_pairs(rest, found.len() - 1) =~= walk@.drop_last() + walk_pairs(
                queue,
                next as int,
            ));
            queue = rest;
        }
    }
    proof {
        assert(walk_pairs(queue, found.len() - 1) =~= Seq::<(i32, i32)>::empty());
        assert(walk@ =~= walk_pairs(seq![*root], 0));
    }
    // The root's pair goes last
    let mut i: usize = 1;
    while i < walk.len()
        invariant
            1 <= i <= walk.len(),
            pairs@ == walk@.subrange(1, i as int),
        decreases walk.len() - i,
    {
        pairs.push(walk[i]);
        i += 1;
        assert(pairs@ =~= walk@.subrange(1, i as int));
    }
    pairs.push(walk[0]);
    assert(pairs@ =~= walk@.drop_first().push(walk@[0]));
    pairs
}

} // verus!
