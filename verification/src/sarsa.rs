//! The flattened tree of tabular SARSA.
//!
//! As in [`crate::mcts`], nodes live in one array and the children of a node
//! occupy a contiguous block after it. Each node carries a payload of type
//! `V`, the value estimate that the learning rule maintains.

use vstd::prelude::*;

use crate::mcts::is_permutation;

verus! {

/// Sentinel for the root's parent.
pub const ROOT_PARENT: usize = usize::MAX;

/// Statistics for a single ply in the game tree.
#[derive(Clone, Copy, Debug)]
pub struct SarsaNode<V> {
    /// Move used to reach this node.
    pub mov: u64,
    /// Number of visits.
    pub visits: usize,
    /// Estimated reward.
    pub value: V,
    /// Parent index.
    pub parent: usize,
    /// First child index (inclusive).
    pub head: usize,
    /// Last child index (exclusive).
    pub last: usize,
}

impl<V> SarsaNode<V> {
    /// Creates a new unexpanded node with no visits.
    pub fn new(parent: usize, mov: u64, value: V) -> (node: SarsaNode<V>)
        ensures
            node == (SarsaNode { mov, visits: 0, value, parent, head: 0, last: 0 }),
    {
        SarsaNode { mov, visits: 0, value, parent, head: 0, last: 0 }
    }

    /// Returns whether this node is the root node.
    pub fn is_root(&self) -> (root: bool)
        ensures
            root == (self.parent == ROOT_PARENT),
    {
        self.parent == ROOT_PARENT
    }

    /// Returns whether this node is a leaf.
    pub fn is_leaf(&self) -> (leaf: bool)
        ensures
            leaf == (self.head == self.last),
    {
        self.head == self.last
    }
}

/// Whether the children links of node `i` are well formed: either the node
/// is an unexpanded leaf, with both links `0`, or its children form a
/// non-empty block after it whose members all name it as their parent.
pub open spec fn sarsa_links_wf<V>(tree: Seq<SarsaNode<V>>, i: int) -> bool {
    let n = tree[i];
    ||| n.head == 0 && n.last == 0
    ||| {
        &&& i < n.head < n.last <= tree.len()
        &&& forall|c: int| n.head <= c < n.last ==> #[trigger] tree[c].parent == i
    }
}

/// Whether `tree` is a well-formed flattened tree rooted at index `0`.
pub open spec fn sarsa_tree_wf<V>(tree: Seq<SarsaNode<V>>) -> bool {
    &&& tree.len() >= 1
    &&& tree[0].parent == ROOT_PARENT
    &&& forall|i: int| 0 < i < tree.len() ==> #[trigger] tree[i].parent < i
    &&& forall|i: int| 0 <= i < tree.len() ==> #[trigger] sarsa_links_wf(tree, i)
}

/// The path from `node` up to the root, `node` first.
pub open spec fn sarsa_ancestry<V>(tree: Seq<SarsaNode<V>>, node: int) -> Seq<usize>
    decreases node,
{
    if 0 < node < tree.len() && tree[node].parent < node {
        seq![node as usize] + sarsa_ancestry(tree, tree[node].parent as int)
    } else {
        seq![node as usize]
    }
}

proof fn lemma_sarsa_ancestry<V>(tree: Seq<SarsaNode<V>>, node: int)
    requires
        sarsa_tree_wf(tree),
        0 <= node < tree.len(),
    ensures
        sarsa_ancestry(tree, node).last() == 0,
    decreases node,
{
    if node > 0 {
        lemma_sarsa_ancestry(tree, tree[node].parent as int);
    }
}

/// Stores data in a tree for tabular SARSA.
#[derive(Clone, Debug)]
pub struct Sarsa<V> {
    /// The flattened tree.
    pub tree: Vec<SarsaNode<V>>,
    /// Visits a node needs before it is expanded.
    pub visits_to_expand: usize,
}

impl<V: Copy> Sarsa<V> {
    /// Whether the tree is well formed.
    pub open spec fn wf(&self) -> bool {
        sarsa_tree_wf(self.tree@)
    }

    /// Creates a tree holding only a root reached by `root_move`, with
    /// payload `value`, that expands a node on its first visit.
    pub fn new(root_move: u64, value: V) -> (sarsa: Sarsa<V>)
        ensures
            sarsa.wf(),
            sarsa.visits_to_expand == 1,
            sarsa.tree@ == seq![SarsaNode::<V> { mov: root_move, visits: 0, value, parent: ROOT_PARENT, head: 0, last: 0 }],
    {
        let sarsa = Sarsa { tree: vec![SarsaNode::new(ROOT_PARENT, root_move, value)], visits_to_expand: 1 };
        assert(sarsa_links_wf(sarsa.tree@, 0));
        sarsa
    }

    /// Returns the total number of nodes in the tree.
    pub fn len(&self) -> (n: usize)
        ensures
            n == self.tree@.len(),
    {
        self.tree.len()
    }

    /// Returns the child nodes of the root.
    pub fn children(&self) -> (children: &[SarsaNode<V>])
        requires
            self.wf(),
        ensures
            children@ == self.tree@.subrange(
                self.tree@[0].head as int,
                self.tree@[0].last as int,
            ),
    {
        let head = self.tree[0].head;
        let last = self.tree[0].last;
        proof {
            assert(sarsa_links_wf(self.tree@, 0));
        }
        vstd::slice::slice_subrange(self.tree.as_slice(), head, last)
    }

    /// Expands the leaf `node` with one child per move of `moves`. The
    /// children form the block `len..len + n` at the end of the tree; the
    /// child for `moves[order[k]]` takes position `k` of the block, so that
    /// `order` shuffles the children. Every child starts unvisited with
    /// payload `value`, except a lone child: a forced move is advanced
    /// through, so it takes over its parent's visits and gets payload
    /// `lone`.
    pub fn expand_node(
        &mut self,
        node: usize,
        moves: &[u64],
        order: &[usize],
        value: V,
        lone: V,
    )
        requires
            old(self).wf(),
            node < old(self).tree@.len(),
            old(self).tree@[node as int].head == old(self).tree@[node as int].last,
            moves@.len() > 0,
            is_permutation(order@, moves@.len() as int),
            old(self).tree@.len() + moves@.len() <= usize::MAX,
        ensures
            final(self).wf(),
            final(self).visits_to_expand == old(self).visits_to_expand,
            final(self).tree@.len() == old(self).tree@.len() + moves@.len(),
            final(self).tree@[node as int] == (SarsaNode::<V> {
                head: old(self).tree@.len() as usize,
                last: (old(self).tree@.len() + moves@.len()) as usize,
                ..old(self).tree@[node as int]
            }),
            forall|i: int|
                0 <= i < old(self).tree@.len() && i != node ==> #[trigger] final(self).tree@[i]
                    == old(self).tree@[i],
            moves@.len() > 1 ==> forall|k: int|
                0 <= k < moves@.len() ==> #[trigger] final(self).tree@[old(self).tree@.len() + k]
                    == (SarsaNode::<V> {
                    mov: moves@[order@[k] as int],
                    visits: 0,
                    value,
                    parent: node,
                    head: 0,
                    last: 0,
                }),
            moves@.len() == 1 ==> final(self).tree@[old(self).tree@.len() as int] == (SarsaNode::<V> {
                mov: moves@[0],
                visits: old(self).tree@[node as int].visits,
                value: lone,
                parent: node,
                head: 0,
                last: 0,
            }),
    {
        let ghost old_tree = self.tree@;
        let head = self.tree.len();
        let n = moves.len();
        let mut k: usize = 0;
        while k < n
            invariant
                n == moves@.len(),
                k <= n,
                head == old_tree.len(),
                head + n <= usize::MAX,
                self.visits_to_expand == old(self).visits_to_expand,
                is_permutation(order@, n as int),
                self.tree@.len() == head + k,
                forall|i: int| 0 <= i < head ==> #[trigger] self.tree@[i] == old_tree[i],
                forall|j: int|
                    0 <= j < k ==> #[trigger] self.tree@[head + j] == (SarsaNode::<V> {
                        mov: moves@[order@[j] as int],
                        visits: 0,
                        value,
                        parent: node,
                        head: 0,
                        last: 0,
                    }),
            decreases n - k,
        {
            self.tree.push(SarsaNode::new(node, moves[order[k]], value));
            k += 1;
        }
        let mut parent = self.tree[node];
        parent.head = head;
        parent.last = head + n;
        self.tree[node] = parent;
        if n == 1 {
            assert(order@[0] == 0);
            assert(self.tree@[head + 0] == self.tree@[head as int]);
            let mut child = self.tree[head];
            child.visits = parent.visits;
            child.value = lone;
            self.tree[head] = child;
        }
        proof {
            let tree = self.tree@;
            assert forall|i: int| 0 < i < tree.len() implies #[trigger] tree[i].parent < i by {
                if i < head {
                    assert(tree[i].parent == old_tree[i].parent);
                } else {
                    assert(tree[head + (i - head)] == tree[i]);
                }
            }
            assert forall|i: int| 0 <= i < tree.len() implies #[trigger] sarsa_links_wf(tree, i) by {
                if i == node {
                    assert forall|c: int| tree[i].head <= c < tree[i].last implies #[trigger] tree[c].parent == i by {
                        assert(tree[head + (c - head)] == tree[c]);
                    }
                } else if i < head {
                    assert(sarsa_links_wf(old_tree, i));
                    assert(tree[i] == old_tree[i]);
                    if old_tree[i].head != 0 || old_tree[i].last != 0 {
                        assert forall|c: int| tree[i].head <= c < tree[i].last implies #[trigger] tree[c].parent == i by {
                            assert(tree[c].parent == old_tree[c].parent);
                        }
                    }
                } else {
                    assert(tree[head + (i - head)] == tree[i]);
                }
            }
        }
    }

    /// Returns the path from `node` up to the root, `node` first: the nodes
    /// whose estimates a reward observed at `node` updates.
    pub fn path_to_root(&self, node: usize) -> (path: Vec<usize>)
        requires
            self.wf(),
            node < self.tree@.len(),
        ensures
            path@ == sarsa_ancestry(self.tree@, node as int),
            path@.last() == 0,
    {
        proof {
            lemma_sarsa_ancestry(self.tree@, node as int);
        }
        let mut path: Vec<usize> = Vec::new();
        let mut cur = node;
        loop
            invariant
                self.wf(),
                cur < self.tree@.len(),
                path@ + sarsa_ancestry(self.tree@, cur as int) == sarsa_ancestry(
                    self.tree@,
                    node as int,
                ),
            decreases cur,
        {
            path.push(cur);
            if cur == 0 {
                assert(path@ == sarsa_ancestry(self.tree@, node as int));
                return path;
            }
            let parent = self.tree[cur].parent;
            assert(path@ + sarsa_ancestry(self.tree@, parent as int) == sarsa_ancestry(
                self.tree@,
                node as int,
            ));
            cur = parent;
        }
    }
}

} // verus!
