//! The flattened tree of Monte Carlo Tree Search.
//!
//! Nodes are stored in a single contiguous array with parent–child
//! relationships managed by integer indices: the children of a node occupy a
//! contiguous block `head..last` that follows it. Each node carries a payload
//! of type `V`, the statistics that the search policy maintains; visits are
//! counted per node and, for every move, over all the nodes it reaches.

use vstd::prelude::*;

use indexmap::IndexSet;
use rustc_hash::FxBuildHasher;

verus! {

/// Placeholder for an unset node index.
pub const SENTINEL: usize = usize::MAX;

/// Statistics for a single ply in the game tree.
#[derive(Clone, Copy, Debug)]
pub struct Node<V> {
    /// Move used to reach this node: a handle into [`Mcts::moves`].
    pub mov: usize,
    /// Parent index.
    pub parent: usize,
    /// First child index (inclusive).
    pub head: usize,
    /// Last child index (exclusive).
    pub last: usize,
    /// Number of visits.
    pub visits: u32,
    /// Estimated reward.
    pub value: V,
}

impl<V> Node<V> {
    /// Creates a new unexpanded node with no visits.
    pub fn new(parent: usize, mov: usize, value: V) -> (node: Node<V>)
        ensures
            node == (Node { mov, parent, head: SENTINEL, last: SENTINEL, visits: 0, value }),
    {
        Node { mov, parent, head: SENTINEL, last: SENTINEL, visits: 0, value }
    }

    /// Returns whether this node is the root node.
    pub fn is_root(&self) -> (root: bool)
        ensures
            root == (self.parent == SENTINEL),
    {
        self.parent == SENTINEL
    }

    /// Returns whether this node is a leaf.
    pub fn is_leaf(&self) -> (leaf: bool)
        ensures
            leaf == (self.head == self.last),
    {
        self.head == self.last
    }
}

/// Whether the children links of node `i` are well formed: either the node
/// is an unexpanded leaf, or its children form a non-empty block after it
/// whose members all name it as their parent.
pub open spec fn links_wf<V>(nodes: Seq<Node<V>>, i: int) -> bool {
    let n = nodes[i];
    ||| n.head == SENTINEL && n.last == SENTINEL
    ||| {
        &&& i < n.head < n.last <= nodes.len()
        &&& forall|c: int| n.head <= c < n.last ==> #[trigger] nodes[c].parent == i
    }
}

/// Whether `nodes` is a well-formed flattened tree rooted at index `0`.
pub open spec fn tree_wf<V>(nodes: Seq<Node<V>>) -> bool {
    &&& nodes.len() >= 1
    &&& nodes.len() < SENTINEL
    &&& nodes[0].parent == SENTINEL
    &&& forall|i: int|
        0 < i < nodes.len() ==> {
            &&& #[trigger] nodes[i].parent < i
            &&& nodes[nodes[i].parent as int].head <= i < nodes[nodes[i].parent as int].last
        }
    &&& forall|i: int| 0 <= i < nodes.len() ==> #[trigger] links_wf(nodes, i)
}

/// The last child of `lo..hi` with the most visits.
pub open spec fn best_in<V>(nodes: Seq<Node<V>>, lo: int, hi: int) -> int
    decreases hi - lo,
{
    if hi - lo <= 1 {
        lo
    } else {
        let b = best_in(nodes, lo, hi - 1);
        if nodes[hi - 1].visits >= nodes[b].visits {
            hi - 1
        } else {
            b
        }
    }
}

/// The most-visited child of `node`, the last one among equals, or `None`
/// for a leaf.
pub open spec fn best_child_of<V>(nodes: Seq<Node<V>>, node: int) -> Option<usize> {
    let n = nodes[node];
    if n.head == n.last {
        None
    } else {
        Some(best_in(nodes, n.head as int, n.last as int) as usize)
    }
}

/// The principal variation from `node`: the chain of most-visited children.
pub open spec fn variation<V>(nodes: Seq<Node<V>>, node: int) -> Seq<usize>
    decreases nodes.len() - node,
{
    if 0 <= node < nodes.len() && tree_wf(nodes) {
        match best_child_of(nodes, node) {
            None => Seq::empty(),
            Some(c) => if node < c < nodes.len() {
                seq![c] + variation(nodes, c as int)
            } else {
                Seq::empty()
            },
        }
    } else {
        Seq::empty()
    }
}

/// The path from `node` up to the root, `node` first.
pub open spec fn ancestry<V>(nodes: Seq<Node<V>>, node: int) -> Seq<usize>
    decreases node,
{
    if 0 < node < nodes.len() && nodes[node].parent < node {
        seq![node as usize] + ancestry(nodes, nodes[node].parent as int)
    } else {
        seq![node as usize]
    }
}

/// The moves interned after interning `moves` in order into `interned`.
pub open spec fn intern_all(interned: Seq<u64>, moves: Seq<u64>) -> Seq<u64>
    decreases moves.len(),
{
    if moves.len() == 0 {
        interned
    } else {
        let before = intern_all(interned, moves.drop_last());
        if before.contains(moves.last()) {
            before
        } else {
            before.push(moves.last())
        }
    }
}

/// Whether `order` is a permutation of `0..n`.
pub open spec fn is_permutation(order: Seq<usize>, n: int) -> bool {
    &&& order.len() == n
    &&& forall|k: int| 0 <= k < n ==> #[trigger] order[k] < n
    &&& forall|k: int, l: int| 0 <= k < l < n ==> order[k] != order[l]
}

proof fn lemma_best_in<V>(nodes: Seq<Node<V>>, lo: int, hi: int)
    requires
        lo < hi,
    ensures
        lo <= best_in(nodes, lo, hi) < hi,
        forall|j: int|
            lo <= j < hi ==> #[trigger] nodes[j].visits <= nodes[best_in(nodes, lo, hi)].visits,
        forall|j: int|
            best_in(nodes, lo, hi) < j < hi ==> #[trigger] nodes[j].visits < nodes[best_in(
                nodes,
                lo,
                hi,
            )].visits,
    decreases hi - lo,
{
    if hi - lo > 1 {
        lemma_best_in(nodes, lo, hi - 1);
    }
}

proof fn lemma_ancestry<V>(nodes: Seq<Node<V>>, node: int)
    requires
        tree_wf(nodes),
        0 <= node < nodes.len(),
    ensures
        ancestry(nodes, node).len() >= 1,
        ancestry(nodes, node)[0] == node,
        ancestry(nodes, node).last() == 0,
        forall|k: int|
            0 <= k < ancestry(nodes, node).len() ==> #[trigger] ancestry(nodes, node)[k]
                < nodes.len(),
    decreases node,
{
    if node > 0 {
        let p = nodes[node].parent as int;
        lemma_ancestry(nodes, p);
        assert forall|k: int| 0 <= k < ancestry(nodes, node).len() implies #[trigger] ancestry(
            nodes,
            node,
        )[k] < nodes.len() by {
            if k > 0 {
                assert(ancestry(nodes, node)[k] == ancestry(nodes, p)[k - 1]);
            }
        }
    }
}

proof fn lemma_intern_all_grows(interned: Seq<u64>, moves: Seq<u64>)
    ensures
        intern_all(interned, moves).len() >= interned.len(),
        interned.is_prefix_of(intern_all(interned, moves)),
        forall|k: int| 0 <= k < moves.len() ==> intern_all(interned, moves).contains(
            #[trigger] moves[k],
        ),
    decreases moves.len(),
{
    if moves.len() > 0 {
        lemma_intern_all_grows(interned, moves.drop_last());
        let before = intern_all(interned, moves.drop_last());
        assert forall|k: int| 0 <= k < moves.len() implies intern_all(
            interned,
            moves,
        ).contains(#[trigger] moves[k]) by {
            if k < moves.len() - 1 {
                assert(moves[k] == moves.drop_last()[k]);
                let j = choose|j: int| 0 <= j < before.len() && before[j] == moves[k];
                if !before.contains(moves.last()) {
                    assert(before.push(moves.last())[j] == moves[k]);
                }
            } else {
                if !before.contains(moves.last()) {
                    assert(before.push(moves.last())[before.len() as int] == moves.last());
                }
            }
        }
    }
}

proof fn lemma_intern_all_prefix(interned: Seq<u64>, moves: Seq<u64>, k: int)
    requires
        0 <= k <= moves.len(),
    ensures
        intern_all(interned, moves.take(k)).len() <= intern_all(interned, moves).len(),
    decreases moves.len() - k,
{
    if k < moves.len() {
        lemma_intern_all_prefix(interned, moves, k + 1);
        assert(moves.take(k + 1).drop_last() == moves.take(k));
    } else {
        assert(moves.take(k) == moves);
    }
}

/// Whether node `i` survives the compaction of `nodes` around `root` in which
/// the nodes flagged by `sever` lose their descendants: `root` survives, and
/// so does every child of a surviving node that is expanded and not severed.
pub open spec fn kept<V>(nodes: Seq<Node<V>>, root: int, sever: Seq<bool>, i: int) -> bool
    decreases i,
{
    if i <= root || i >= nodes.len() {
        i == root && 0 <= root < nodes.len()
    } else {
        let p = nodes[i].parent as int;
        &&& 0 <= p < i
        &&& kept(nodes, root, sever, p)
        &&& !sever[p]
        &&& nodes[p].head != SENTINEL
    }
}

/// The number of surviving nodes among `0..n`: where node `n` lands.
pub open spec fn rank<V>(nodes: Seq<Node<V>>, root: int, sever: Seq<bool>, n: int) -> nat
    decreases n,
{
    if n <= 0 {
        0
    } else {
        rank(nodes, root, sever, n - 1) + if kept(nodes, root, sever, n - 1) {
            1nat
        } else {
            0nat
        }
    }
}

/// The new index of node `i`, or `SENTINEL` if it is reclaimed.
pub open spec fn relocation<V>(nodes: Seq<Node<V>>, root: int, sever: Seq<bool>, i: int) -> usize {
    if kept(nodes, root, sever, i) {
        rank(nodes, root, sever, i) as usize
    } else {
        SENTINEL
    }
}

/// Node `i` after severing: a surviving node flagged by `sever` becomes a
/// leaf.
pub open spec fn severed<V>(nodes: Seq<Node<V>>, root: int, sever: Seq<bool>, i: int) -> Node<V> {
    if kept(nodes, root, sever, i) && sever[i] {
        Node { head: SENTINEL, last: SENTINEL, ..nodes[i] }
    } else {
        nodes[i]
    }
}

/// Node `i` at its new index, with its links rewritten.
pub open spec fn relocated<V>(nodes: Seq<Node<V>>, root: int, sever: Seq<bool>, i: int) -> Node<V> {
    let n = severed(nodes, root, sever, i);
    Node {
        parent: if n.parent == SENTINEL {
            SENTINEL
        } else {
            relocation(nodes, root, sever, n.parent as int)
        },
        head: if n.head == n.last {
            n.head
        } else {
            relocation(nodes, root, sever, n.head as int)
        },
        last: if n.head == n.last {
            n.last
        } else {
            (relocation(nodes, root, sever, n.head as int) + (n.last - n.head)) as usize
        },
        ..n
    }
}

/// The nodes among `0..n` that do not survive, in index order.
pub open spec fn reclaimed<V>(nodes: Seq<Node<V>>, root: int, sever: Seq<bool>, n: int) -> Seq<
    Node<V>,
>
    decreases n,
{
    if n <= 0 {
        Seq::empty()
    } else if kept(nodes, root, sever, n - 1) {
        reclaimed(nodes, root, sever, n - 1)
    } else {
        reclaimed(nodes, root, sever, n - 1).push(nodes[n - 1])
    }
}

/// Whether `after` is `before` compacted around `root` with severing flags
/// `sever`: the surviving nodes, in their former order, with their links
/// rewritten.
pub open spec fn compacted<V>(before: Seq<Node<V>>, root: int, sever: Seq<bool>, after: Seq<Node<V>>) -> bool {
    &&& after.len() == rank(before, root, sever, before.len() as int)
    &&& forall|i: int|
        0 <= i < before.len() && #[trigger] kept(before, root, sever, i) ==> after[rank(
            before,
            root,
            sever,
            i,
        ) as int] == relocated(before, root, sever, i)
}

/// Severing flags that sever nothing.
pub open spec fn no_severing(n: nat) -> Seq<bool> {
    Seq::new(n, |i: int| false)
}

/// The first child among `lo..hi` whose move handle is `key`.
pub open spec fn first_with_move<V>(nodes: Seq<Node<V>>, key: usize, lo: int, hi: int) -> Option<
    int,
>
    decreases hi - lo,
{
    if lo >= hi {
        None
    } else if nodes[lo].mov == key {
        Some(lo)
    } else {
        first_with_move(nodes, key, lo + 1, hi)
    }
}

/// The first child of the root reached by `mov`, if any.
pub open spec fn child_by_move<V>(nodes: Seq<Node<V>>, moves: Seq<u64>, mov: u64) -> Option<int> {
    if moves.contains(mov) && nodes[0].head != nodes[0].last {
        let key = choose|k: int| 0 <= k < moves.len() && moves[k] == mov;
        first_with_move(nodes, key as usize, nodes[0].head as int, nodes[0].last as int)
    } else {
        None
    }
}

proof fn lemma_child_by_move_interned<V>(nodes: Seq<Node<V>>, moves: Seq<u64>, mov: u64)
    requires
        !moves.contains(mov),
    ensures
        child_by_move(nodes, moves, mov) is None,
{
}

proof fn lemma_child_by_move_key<V>(nodes: Seq<Node<V>>, moves: Seq<u64>, mov: u64, key: int)
    requires
        moves.no_duplicates(),
        0 <= key < moves.len(),
        moves[key] == mov,
        nodes[0].head != nodes[0].last,
    ensures
        child_by_move(nodes, moves, mov) == first_with_move(
            nodes,
            key as usize,
            nodes[0].head as int,
            nodes[0].last as int,
        ),
{
    let k = choose|k: int| 0 <= k < moves.len() && moves[k] == mov;
    assert(k == key);
}

/// Whether a node survives depends only on the severing flags of the nodes
/// before it.
proof fn lemma_kept_prefix<V>(nodes: Seq<Node<V>>, s1: Seq<bool>, s2: Seq<bool>, i: int)
    requires
        forall|k: int| 0 <= k < i ==> s1[k] == s2[k],
    ensures
        kept(nodes, 0, s1, i) == kept(nodes, 0, s2, i),
    decreases i,
{
    if 0 < i < nodes.len() {
        let p = nodes[i].parent as int;
        if 0 <= p < i {
            lemma_kept_prefix(nodes, s1, s2, p);
        }
    }
}

proof fn lemma_rank_step<V>(nodes: Seq<Node<V>>, root: int, sever: Seq<bool>, n: int)
    requires
        0 <= n,
    ensures
        rank(nodes, root, sever, n + 1) == rank(nodes, root, sever, n) + if kept(
            nodes,
            root,
            sever,
            n,
        ) {
            1nat
        } else {
            0nat
        },
{
}

proof fn lemma_rank_bounded<V>(nodes: Seq<Node<V>>, root: int, sever: Seq<bool>, n: int)
    requires
        0 <= n,
    ensures
        rank(nodes, root, sever, n) <= n,
        n <= root ==> rank(nodes, root, sever, n) == 0,
    decreases n,
{
    if n > 0 {
        lemma_rank_bounded(nodes, root, sever, n - 1);
    }
}

proof fn lemma_rank_monotone<V>(nodes: Seq<Node<V>>, root: int, sever: Seq<bool>, a: int, b: int)
    requires
        0 <= a <= b,
    ensures
        rank(nodes, root, sever, a) <= rank(nodes, root, sever, b),
        a < b && kept(nodes, root, sever, a) ==> rank(nodes, root, sever, a) < rank(
            nodes,
            root,
            sever,
            b,
        ),
    decreases b - a,
{
    if a < b {
        lemma_rank_monotone(nodes, root, sever, a, b - 1);
        lemma_rank_step(nodes, root, sever, b - 1);
        if a == b - 1 {
        }
    }
}

proof fn lemma_rank_onto<V>(nodes: Seq<Node<V>>, root: int, sever: Seq<bool>, n: int, k: int)
    requires
        0 <= n,
        0 <= k < rank(nodes, root, sever, n),
    ensures
        exists|i: int|
            0 <= i < n && #[trigger] kept(nodes, root, sever, i) && rank(nodes, root, sever, i)
                == k,
    decreases n,
{
    if n > 0 {
        if k < rank(nodes, root, sever, n - 1) {
            lemma_rank_onto(nodes, root, sever, n - 1, k);
        } else {
            assert(kept(nodes, root, sever, n - 1) && rank(nodes, root, sever, n - 1) == k);
        }
    }
}

/// The children of a surviving node that is expanded and not severed all
/// survive, and land in a contiguous block.
proof fn lemma_block_kept<V>(nodes: Seq<Node<V>>, root: int, sever: Seq<bool>, i: int)
    requires
        tree_wf(nodes),
        0 <= i < nodes.len(),
        sever.len() == nodes.len(),
        kept(nodes, root, sever, i),
        !sever[i],
        nodes[i].head != SENTINEL,
    ensures
        forall|c: int|
            nodes[i].head <= c < nodes[i].last ==> #[trigger] kept(nodes, root, sever, c),
        forall|c: int|
            nodes[i].head <= c <= nodes[i].last ==> #[trigger] rank(nodes, root, sever, c) == rank(
                nodes,
                root,
                sever,
                nodes[i].head as int,
            ) + (c - nodes[i].head),
{
    assert(links_wf(nodes, i));
    let h = nodes[i].head as int;
    let l = nodes[i].last as int;
    assert forall|c: int| h <= c < l implies #[trigger] kept(nodes, root, sever, c) by {
        assert(nodes[c].parent == i);
    }
    assert forall|c: int| h <= c <= l implies #[trigger] rank(nodes, root, sever, c) == rank(
        nodes,
        root,
        sever,
        h,
    ) + (c - h) by {
        lemma_rank_block(nodes, root, sever, h, l, c);
    }
}

proof fn lemma_rank_block<V>(nodes: Seq<Node<V>>, root: int, sever: Seq<bool>, h: int, l: int, c: int)
    requires
        0 <= h <= c <= l,
        forall|j: int| h <= j < l ==> #[trigger] kept(nodes, root, sever, j),
    ensures
        rank(nodes, root, sever, c) == rank(nodes, root, sever, h) + (c - h),
    decreases c - h,
{
    if c > h {
        lemma_rank_block(nodes, root, sever, h, l, c - 1);
        lemma_rank_step(nodes, root, sever, c - 1);
    }
}

/// Compaction keeps the tree well formed.
proof fn lemma_compacted_wf<V>(before: Seq<Node<V>>, root: int, sever: Seq<bool>, after: Seq<Node<V>>)
    requires
        tree_wf(before),
        0 <= root < before.len(),
        sever.len() == before.len(),
        compacted(before, root, sever, after),
    ensures
        tree_wf(after),
{
    let len = before.len() as int;
    let count = rank(before, root, sever, len);
    lemma_rank_bounded(before, root, sever, len);
    lemma_rank_bounded(before, root, sever, root);
    assert(kept(before, root, sever, root));
    lemma_rank_monotone(before, root, sever, root, len);
    // The root lands at index 0 and loses its parent.
    assert(after[0] == relocated(before, root, sever, root));
    if root > 0 {
        let p = before[root].parent as int;
        assert(0 <= p < root);
        assert(!kept(before, root, sever, p));
    }
    assert(after[0].parent == SENTINEL);
    assert forall|k: int| 0 < k < after.len() implies {
        &&& #[trigger] after[k].parent < k
        &&& after[after[k].parent as int].head <= k < after[after[k].parent as int].last
    } by {
        lemma_rank_onto(before, root, sever, len, k);
        let i = choose|i: int| 0 <= i < len && #[trigger] kept(before, root, sever, i) && rank(before, root, sever, i) == k;
        assert(i != root);
        lemma_rank_bounded(before, root, sever, i);
        if i < root {
            lemma_rank_bounded(before, root, sever, i);
        }
        let p = before[i].parent as int;
        assert(0 <= p < i && kept(before, root, sever, p));
        lemma_rank_monotone(before, root, sever, p, i);
        lemma_block_kept(before, root, sever, p);
        assert(after[k].parent == rank(before, root, sever, p));
        assert(after[rank(before, root, sever, p) as int] == relocated(before, root, sever, p));
    }
    assert forall|k: int| 0 <= k < after.len() implies #[trigger] links_wf(after, k) by {
        lemma_rank_onto(before, root, sever, len, k);
        let i = choose|i: int| 0 <= i < len && #[trigger] kept(before, root, sever, i) && rank(before, root, sever, i) == k;
        assert(links_wf(before, i));
        let n = before[i];
        if !sever[i] && n.head != SENTINEL {
            lemma_block_kept(before, root, sever, i);
            let h = n.head as int;
            let l = n.last as int;
            lemma_rank_monotone(before, root, sever, i, h);
            lemma_rank_monotone(before, root, sever, l, len);
            assert(after[k].head == rank(before, root, sever, h));
            assert(rank(before, root, sever, l) == rank(before, root, sever, h) + (l - h));
            assert forall|c: int| after[k].head <= c < after[k].last implies #[trigger] after[c].parent == k by {
                let j = h + (c - after[k].head);
                assert(h <= j < l);
                assert(kept(before, root, sever, j));
                assert(rank(before, root, sever, j) == c);
                assert(before[j].parent == i);
                assert(after[c] == relocated(before, root, sever, j));
            }
        }
    }
}

/// Mark phase of compaction: decides which nodes survive and severs the
/// flagged survivors. Returns the relocation table and the number of
/// survivors.
fn mark<V: Copy>(nodes: &mut Vec<Node<V>>, root: usize, sever: &[bool]) -> (res: (
    Vec<usize>,
    usize,
))
    requires
        tree_wf(old(nodes)@),
        root < old(nodes)@.len(),
        sever@.len() == old(nodes)@.len(),
    ensures
        final(nodes)@.len() == old(nodes)@.len(),
        res.0@.len() == old(nodes)@.len(),
        res.1 == rank(old(nodes)@, root as int, sever@, old(nodes)@.len() as int),
        forall|j: int|
            0 <= j < old(nodes)@.len() ==> #[trigger] res.0@[j] == relocation(
                old(nodes)@,
                root as int,
                sever@,
                j,
            ),
        forall|j: int|
            0 <= j < old(nodes)@.len() ==> #[trigger] final(nodes)@[j] == severed(
                old(nodes)@,
                root as int,
                sever@,
                j,
            ),
{
    let ghost before = nodes@;
    let ghost r = root as int;
    let ghost sv = sever@;
    let len = nodes.len();
    let mut map: Vec<usize> = vec![SENTINEL; len];
    proof {
        lemma_rank_bounded(before, r, sv, r);
        lemma_rank_step(before, r, sv, r);
        assert(kept(before, r, sv, r));
    }
    map[root] = 0;
    let mut dst: usize = 1;
    if sever[root] {
        let mut n = nodes[root];
        n.head = SENTINEL;
        n.last = SENTINEL;
        nodes[root] = n;
    }
    let mut src = root + 1;
    while src < len
        invariant
            len == before.len(),
            tree_wf(before),
            r == root,
            root < src <= len,
            sv.len() == len,
            sv == sever@,
            map@.len() == len,
            nodes@.len() == len,
            dst == rank(before, r, sv, src as int),
            forall|j: int| 0 <= j < src ==> #[trigger] map@[j] == relocation(before, r, sv, j),
            forall|j: int| src <= j < len ==> #[trigger] map@[j] == SENTINEL,
            forall|j: int| 0 <= j < src ==> #[trigger] nodes@[j] == severed(before, r, sv, j),
            forall|j: int| src <= j < len ==> #[trigger] nodes@[j] == before[j],
        decreases len - src,
    {
        proof {
            lemma_rank_step(before, r, sv, src as int);
            lemma_rank_bounded(before, r, sv, src as int);
        }
        let parent = nodes[src].parent;
        proof {
            let p = parent as int;
            assert(0 <= p < src);
            lemma_rank_bounded(before, r, sv, p);
            assert(map@[p] == relocation(before, r, sv, p));
            assert(nodes@[p] == severed(before, r, sv, p));
        }
        if map[parent] == SENTINEL || nodes[parent].head == SENTINEL {
            assert(!kept(before, r, sv, src as int));
            src += 1;
            continue;
        }
        assert(kept(before, r, sv, src as int));
        map[src] = dst;
        dst += 1;
        if sever[src] {
            let mut n = nodes[src];
            n.head = SENTINEL;
            n.last = SENTINEL;
            nodes[src] = n;
        }
        src += 1;
    }
    (map, dst)
}

/// Collects the nodes that compaction reclaims, in index order.
fn collect_reclaimed<V: Copy>(
    nodes: &Vec<Node<V>>,
    map: &Vec<usize>,
    Ghost(before): Ghost<Seq<Node<V>>>,
    root: usize,
    Ghost(sv): Ghost<Seq<bool>>,
) -> (gone: Vec<Node<V>>)
    requires
        nodes@.len() == before.len(),
        map@.len() == before.len(),
        forall|j: int| 0 <= j < before.len() ==> #[trigger] map@[j] == relocation(before, root as int, sv, j),
        forall|j: int| 0 <= j < before.len() ==> #[trigger] nodes@[j] == severed(before, root as int, sv, j),
    ensures
        gone@ == reclaimed(before, root as int, sv, before.len() as int),
{
    let len = nodes.len();
    let ghost r = root as int;
    let mut gone: Vec<Node<V>> = Vec::new();
    let mut src: usize = 0;
    while src < len
        invariant
            len == before.len(),
            src <= len,
            map@.len() == len,
            nodes@.len() == len,
            forall|j: int| 0 <= j < len ==> #[trigger] map@[j] == relocation(before, r, sv, j),
            forall|j: int| 0 <= j < len ==> #[trigger] nodes@[j] == severed(before, r, sv, j),
            gone@ == reclaimed(before, r, sv, src as int),
        decreases len - src,
    {
        proof {
            lemma_rank_bounded(before, r, sv, src as int);
        }
        if map[src] == SENTINEL {
            gone.push(nodes[src]);
        }
        src += 1;
    }
    gone
}

/// Sweep phase of compaction: moves every survivor to its new index and
/// rewrites its links, then drops the rest.
fn relocate<V: Copy>(
    nodes: &mut Vec<Node<V>>,
    root: usize,
    map: &Vec<usize>,
    count: usize,
    Ghost(before): Ghost<Seq<Node<V>>>,
    Ghost(sv): Ghost<Seq<bool>>,
)
    requires
        tree_wf(before),
        root < before.len(),
        sv.len() == before.len(),
        old(nodes)@.len() == before.len(),
        map@.len() == before.len(),
        count == rank(before, root as int, sv, before.len() as int),
        forall|j: int| 0 <= j < before.len() ==> #[trigger] map@[j] == relocation(before, root as int, sv, j),
        forall|j: int| 0 <= j < before.len() ==> #[trigger] old(nodes)@[j] == severed(before, root as int, sv, j),
    ensures
        compacted(before, root as int, sv, final(nodes)@),
{
    let len = nodes.len();
    let ghost r = root as int;
    let mut src = root;
    while src < len
        invariant
            len == before.len(),
            tree_wf(before),
            r == root,
            root <= src <= len,
            sv.len() == len,
            map@.len() == len,
            nodes@.len() == len,
            count == rank(before, r, sv, len as int),
            forall|j: int| 0 <= j < len ==> #[trigger] map@[j] == relocation(before, r, sv, j),
            forall|j: int| src <= j < len ==> #[trigger] nodes@[j] == severed(before, r, sv, j),
            forall|j: int|
                0 <= j < src && #[trigger] kept(before, r, sv, j) ==> nodes@[rank(
                    before,
                    r,
                    sv,
                    j,
                ) as int] == relocated(before, r, sv, j),
        decreases len - src,
    {
        let ghost i = src as int;
        proof {
            lemma_rank_bounded(before, r, sv, i);
        }
        let d = map[src];
        if d == SENTINEL {
            src += 1;
            continue;
        }
        proof {
            assert(kept(before, r, sv, i));
            assert(links_wf(before, i));
        }
        let mut n = nodes[src];
        if n.parent != SENTINEL {
            proof {
                if i > 0 {
                    assert(before[i].parent < i);
                }
            }
            n.parent = map[n.parent];
        }
        if n.head != n.last {
            proof {
                lemma_block_kept(before, r, sv, i);
                lemma_rank_bounded(before, r, sv, before[i].head as int);
            }
            let h = map[n.head];
            n.last = h + (n.last - n.head);
            n.head = h;
        }
        proof {
            assert forall|j: int|
                0 <= j < src && #[trigger] kept(before, r, sv, j) implies rank(before, r, sv, j)
                < d by {
                lemma_rank_monotone(before, r, sv, j, i);
            }
        }
        nodes[d] = n;
        src += 1;
    }
    proof {
        lemma_rank_bounded(before, r, sv, len as int);
    }
    let ghost full = nodes@;
    nodes.truncate(count);
    proof {
        assert forall|j: int| 0 <= j < len && #[trigger] kept(before, r, sv, j) implies nodes@[rank(
            before,
            r,
            sv,
            j,
        ) as int] == relocated(before, r, sv, j) by {
            lemma_rank_monotone(before, r, sv, j, len as int);
            assert(nodes@[rank(before, r, sv, j) as int] == full[rank(before, r, sv, j) as int]);
        }
    }
}

/// Compaction conserves nodes: every node either survives or is reclaimed.
pub proof fn law_compaction_conserves<V>(nodes: Seq<Node<V>>, root: int, sever: Seq<bool>, n: int)
    requires
        0 <= n,
    ensures
        rank(nodes, root, sever, n) + reclaimed(nodes, root, sever, n).len() == n,
    decreases n,
{
    if n > 0 {
        law_compaction_conserves(nodes, root, sever, n - 1);
    }
}

/// Compacting a well-formed tree around its own root without severing
/// anything leaves it unchanged and reclaims nothing.
pub proof fn law_compact_at_root_is_identity<V>(before: Seq<Node<V>>, after: Seq<Node<V>>)
    requires
        tree_wf(before),
        compacted(before, 0, no_severing(before.len()), after),
    ensures
        after == before,
        reclaimed(before, 0, no_severing(before.len()), before.len() as int) == Seq::<Node<V>>::empty(),
{
    let sv = no_severing(before.len());
    let len = before.len() as int;
    lemma_all_kept(before, len - 1);
    lemma_rank_step(before, 0, sv, len - 1);
    assert forall|i: int| 0 <= i < len implies after[i] == before[i] by {
        lemma_identity_at(before, after, i);
    }
    assert(after =~= before);
    law_compaction_conserves(before, 0, sv, len);
}

proof fn lemma_identity_at<V>(before: Seq<Node<V>>, after: Seq<Node<V>>, i: int)
    requires
        tree_wf(before),
        compacted(before, 0, no_severing(before.len()), after),
        0 <= i < before.len(),
    ensures
        after[i] == before[i],
{
    let sv = no_severing(before.len());
    lemma_all_kept(before, i);
    assert(after[rank(before, 0, sv, i) as int] == relocated(before, 0, sv, i));
    assert(links_wf(before, i));
    if before[i].head != SENTINEL {
        lemma_all_kept(before, before[i].head as int);
    }
    if i > 0 {
        lemma_all_kept(before, before[i].parent as int);
    }
}

proof fn lemma_all_kept<V>(nodes: Seq<Node<V>>, i: int)
    requires
        tree_wf(nodes),
        0 <= i < nodes.len(),
    ensures
        kept(nodes, 0, no_severing(nodes.len()), i),
        rank(nodes, 0, no_severing(nodes.len()), i) == i,
    decreases i,
{
    let sv = no_severing(nodes.len());
    if i > 0 {
        let p = nodes[i].parent as int;
        lemma_all_kept(nodes, p);
        lemma_all_kept(nodes, i - 1);
        lemma_rank_step(nodes, 0, sv, i - 1);
        assert(links_wf(nodes, p));
        assert(nodes[p].head <= i);
    }
}

/// Compaction around `root` makes `root` the new root: it lands at index
/// `0`, with no parent, and keeps its move and statistics.
pub proof fn law_compact_moves_root_first<V>(
    before: Seq<Node<V>>,
    root: int,
    sever: Seq<bool>,
    after: Seq<Node<V>>,
)
    requires
        tree_wf(before),
        0 <= root < before.len(),
        sever.len() == before.len(),
        compacted(before, root, sever, after),
    ensures
        after.len() >= 1,
        after[0].parent == SENTINEL,
        after[0].mov == before[root].mov,
        after[0].visits == before[root].visits,
        after[0].value == before[root].value,
{
    lemma_rank_bounded(before, root, sever, root);
    assert(kept(before, root, sever, root));
    lemma_rank_monotone(before, root, sever, root, before.len() as int);
    assert(after[0] == relocated(before, root, sever, root));
    if root > 0 {
        assert(!kept(before, root, sever, before[root].parent as int));
    }
}

/// Severing the root itself collapses the tree to the root alone.
pub proof fn law_severed_root_collapses<V>(
    before: Seq<Node<V>>,
    root: int,
    sever: Seq<bool>,
    after: Seq<Node<V>>,
)
    requires
        tree_wf(before),
        0 <= root < before.len(),
        sever.len() == before.len(),
        sever[root],
        compacted(before, root, sever, after),
    ensures
        after.len() == 1,
        after[0].head == SENTINEL,
        after[0].last == SENTINEL,
{
    let len = before.len() as int;
    assert forall|i: int| root < i < len implies !#[trigger] kept(before, root, sever, i) by {
        lemma_only_root_kept(before, root, sever, i);
    }
    lemma_rank_bounded(before, root, sever, root);
    lemma_rank_step(before, root, sever, root);
    lemma_rank_after_root(before, root, sever, len);
    assert(after[0] == relocated(before, root, sever, root));
}

proof fn lemma_only_root_kept<V>(nodes: Seq<Node<V>>, root: int, sever: Seq<bool>, i: int)
    requires
        tree_wf(nodes),
        0 <= root < i < nodes.len(),
        sever[root],
    ensures
        !kept(nodes, root, sever, i),
    decreases i,
{
    let p = nodes[i].parent as int;
    assert(0 <= p < i);
    if root < p {
        lemma_only_root_kept(nodes, root, sever, p);
    } else if p < root {
        assert(!kept(nodes, root, sever, p));
    }
}

proof fn lemma_rank_after_root<V>(nodes: Seq<Node<V>>, root: int, sever: Seq<bool>, n: int)
    requires
        0 <= root < n,
        kept(nodes, root, sever, root),
        rank(nodes, root, sever, root + 1) == 1,
        forall|i: int| root < i < n ==> !#[trigger] kept(nodes, root, sever, i),
    ensures
        rank(nodes, root, sever, n) == 1,
    decreases n - root,
{
    if n > root + 1 {
        lemma_rank_after_root(nodes, root, sever, n - 1);
    }
}

/// Without severing, the nodes that survive compaction around `root` are
/// exactly the descendants of `root`.
pub proof fn law_compact_keeps_subtree<V>(nodes: Seq<Node<V>>, root: int, i: int)
    requires
        tree_wf(nodes),
        0 <= root < nodes.len(),
        0 <= i < nodes.len(),
    ensures
        kept(nodes, root, no_severing(nodes.len()), i) <==> ancestry(nodes, i).contains(
            root as usize,
        ),
    decreases i,
{
    lemma_ancestry_below(nodes, i);
    if i > root {
        let p = nodes[i].parent as int;
        law_compact_keeps_subtree(nodes, root, p);
        assert(links_wf(nodes, p));
        assert(ancestry(nodes, i) == seq![i as usize] + ancestry(nodes, p));
        if ancestry(nodes, p).contains(root as usize) {
            let k = choose|k: int| 0 <= k < ancestry(nodes, p).len() && ancestry(nodes, p)[k] == root as usize;
            assert(ancestry(nodes, i)[k + 1] == root as usize);
        }
        if ancestry(nodes, i).contains(root as usize) {
            let k = choose|k: int| 0 <= k < ancestry(nodes, i).len() && ancestry(nodes, i)[k] == root as usize;
            assert(k > 0);
            assert(ancestry(nodes, p)[k - 1] == root as usize);
        }
    } else if i == root {
        assert(ancestry(nodes, i)[0] == root as usize);
    } else {
        if ancestry(nodes, i).contains(root as usize) {
            let k = choose|k: int| 0 <= k < ancestry(nodes, i).len() && ancestry(nodes, i)[k] == root as usize;
            assert(ancestry(nodes, i)[k] <= i);
        }
    }
}

proof fn lemma_ancestry_below<V>(nodes: Seq<Node<V>>, node: int)
    requires
        tree_wf(nodes),
        0 <= node < nodes.len(),
    ensures
        forall|k: int| 0 <= k < ancestry(nodes, node).len() ==> #[trigger] ancestry(nodes, node)[k] <= node,
    decreases node,
{
    if node > 0 {
        let p = nodes[node].parent as int;
        lemma_ancestry_below(nodes, p);
        assert forall|k: int| 0 <= k < ancestry(nodes, node).len() implies #[trigger] ancestry(nodes, node)[k] <= node by {
            if k > 0 {
                assert(ancestry(nodes, node)[k] == ancestry(nodes, p)[k - 1]);
            }
        }
    }
}

/// The total visits of the nodes among `0..n` reached by the move with
/// handle `h`.
pub open spec fn visits_of<V>(nodes: Seq<Node<V>>, h: usize, n: int) -> int
    decreases n,
{
    if n <= 0 {
        0
    } else {
        visits_of(nodes, h, n - 1) + if nodes[n - 1].mov == h {
            nodes[n - 1].visits as int
        } else {
            0
        }
    }
}

proof fn lemma_visits_same<V>(a: Seq<Node<V>>, b: Seq<Node<V>>, h: usize, n: int)
    requires
        forall|i: int| 0 <= i < n ==> #[trigger] a[i].mov == b[i].mov && a[i].visits == b[i].visits,
    ensures
        visits_of(a, h, n) == visits_of(b, h, n),
    decreases n,
{
    if n > 0 {
        lemma_visits_same(a, b, h, n - 1);
        assert(a[n - 1].mov == b[n - 1].mov);
    }
}

proof fn lemma_visits_absent<V>(a: Seq<Node<V>>, h: usize, n: int)
    requires
        forall|i: int| 0 <= i < n ==> #[trigger] a[i].mov != h,
    ensures
        visits_of(a, h, n) == 0,
    decreases n,
{
    if n > 0 {
        lemma_visits_absent(a, h, n - 1);
        assert(a[n - 1].mov != h);
    }
}

proof fn lemma_visits_monotone<V>(a: Seq<Node<V>>, h: usize, m: int, n: int)
    requires
        0 <= m <= n,
    ensures
        visits_of(a, h, m) <= visits_of(a, h, n),
    decreases n - m,
{
    if m < n {
        lemma_visits_monotone(a, h, m, n - 1);
    }
}

proof fn lemma_visits_push<V>(a: Seq<Node<V>>, x: Node<V>, h: usize)
    ensures
        visits_of(a.push(x), h, a.len() + 1int) == visits_of(a, h, a.len() as int) + if x.mov == h {
            x.visits as int
        } else {
            0
        },
{
    lemma_visits_same(a.push(x), a, h, a.len() as int);
}

proof fn lemma_visits_update<V>(a: Seq<Node<V>>, k: int, x: Node<V>, h: usize, n: int)
    requires
        0 <= k < n <= a.len(),
    ensures
        visits_of(a.update(k, x), h, n) == visits_of(a, h, n) - (if a[k].mov == h {
            a[k].visits as int
        } else {
            0
        }) + (if x.mov == h {
            x.visits as int
        } else {
            0
        }),
    decreases n,
{
    if n - 1 > k {
        lemma_visits_update(a, k, x, h, n - 1);
    } else {
        lemma_visits_same(a.update(k, x), a, h, k);
    }
}

/// Compaction splits the visits of every move between the survivors and
/// the reclaimed nodes.
proof fn lemma_visits_compacted<V>(
    before: Seq<Node<V>>,
    root: int,
    sever: Seq<bool>,
    after: Seq<Node<V>>,
    h: usize,
    n: int,
)
    requires
        compacted(before, root, sever, after),
        0 <= n <= before.len(),
    ensures
        visits_of(before, h, n) == visits_of(after, h, rank(before, root, sever, n) as int)
            + visits_of(
            reclaimed(before, root, sever, n),
            h,
            reclaimed(before, root, sever, n).len() as int,
        ),
    decreases n,
{
    if n > 0 {
        lemma_visits_compacted(before, root, sever, after, h, n - 1);
        let i = n - 1;
        if kept(before, root, sever, i) {
            lemma_rank_step(before, root, sever, i);
            assert(after[rank(before, root, sever, i) as int] == relocated(before, root, sever, i));
        } else {
            lemma_rank_step(before, root, sever, i);
            lemma_visits_push(reclaimed(before, root, sever, i), before[i], h);
        }
    }
}

proof fn lemma_reclaimed_moves<V>(before: Seq<Node<V>>, root: int, sever: Seq<bool>, n: int, bound: int)
    requires
        0 <= n <= before.len(),
        forall|i: int| 0 <= i < before.len() ==> #[trigger] before[i].mov < bound,
    ensures
        forall|k: int|
            0 <= k < reclaimed(before, root, sever, n).len() ==> #[trigger] reclaimed(
                before,
                root,
                sever,
                n,
            )[k].mov < bound,
    decreases n,
{
    if n > 0 {
        lemma_reclaimed_moves(before, root, sever, n - 1, bound);
        let r = reclaimed(before, root, sever, n - 1);
        if !kept(before, root, sever, n - 1) {
            assert forall|k: int| 0 <= k < r.push(before[n - 1]).len() implies #[trigger] r.push(
                before[n - 1],
            )[k].mov < bound by {
                if k < r.len() {
                    assert(r.push(before[n - 1])[k] == r[k]);
                }
            }
        }
    }
}

#[verifier::external_type_specification]
#[verifier::external_body]
#[verifier::reject_recursive_types(T)]
#[verifier::reject_recursive_types(S)]
pub struct ExIndexSet<T, S>(IndexSet<T, S>);

/// The moves that an insertion-ordered set of moves holds, in insertion
/// order: a move's handle is its position.
pub uninterp spec fn move_set(set: IndexSet<u64, FxBuildHasher>) -> Seq<u64>;

/// Creates an empty set (`IndexSet::with_hasher`).
#[verifier::external_body]
fn move_set_new() -> (set: IndexSet<u64, FxBuildHasher>)
    ensures
        move_set(set) == Seq::<u64>::empty(),
{
    IndexSet::with_hasher(FxBuildHasher)
}

/// Inserts `mov` and returns its index (`IndexSet::insert_full`).
///
/// Claims what indexmap documents: an item already present keeps its index
/// and the set is unchanged; a new item is appended and gets index `len`;
/// a set never holds an item twice.
#[verifier::external_body]
fn move_set_insert(set: &mut IndexSet<u64, FxBuildHasher>, mov: u64) -> (res: (usize, bool))
    ensures
        move_set(*final(set)).no_duplicates(),
        move_set(*old(set)).contains(mov) ==> {
            &&& move_set(*final(set)) == move_set(*old(set))
            &&& res.0 < move_set(*old(set)).len()
            &&& move_set(*old(set))[res.0 as int] == mov
            &&& !res.1
        },
        !move_set(*old(set)).contains(mov) ==> {
            &&& move_set(*final(set)) == move_set(*old(set)).push(mov)
            &&& res.0 == move_set(*old(set)).len()
            &&& res.1
        },
{
    set.insert_full(mov)
}

/// Copies the set (`IndexSet::clone`): the copy holds the same moves in the
/// same order.
#[verifier::external_body]
fn move_set_clone(set: &IndexSet<u64, FxBuildHasher>) -> (copy: IndexSet<u64, FxBuildHasher>)
    ensures
        move_set(copy) == move_set(*set),
{
    set.clone()
}

/// Returns the index of `mov`, if present (`IndexSet::get_index_of`).
#[verifier::external_body]
fn move_set_find(set: &IndexSet<u64, FxBuildHasher>, mov: u64) -> (index: Option<usize>)
    ensures
        match index {
            Some(i) => i < move_set(*set).len() && move_set(*set)[i as int] == mov,
            None => !move_set(*set).contains(mov),
        },
{
    set.get_index_of(&mov)
}

/// A Monte Carlo search tree: flattened nodes and the interned moves that
/// their `mov` handles resolve to.
#[derive(Debug)]
pub struct Mcts<V> {
    /// Flattened tree representation.
    pub nodes: Vec<Node<V>>,
    /// Moves, interned; node `mov` fields are handles into it.
    pub moves: IndexSet<u64, FxBuildHasher>,
    /// Per-move visit counts, indexed by move handle: the total visits of
    /// the nodes reached by each move.
    pub move_visits: Vec<u32>,
}

impl<V: Copy> Clone for Mcts<V> {
    fn clone(&self) -> (copy: Mcts<V>)
        ensures
            copy.nodes@ == self.nodes@,
            move_set(copy.moves) == move_set(self.moves),
            copy.move_visits@ == self.move_visits@,
    {
        let mut nodes: Vec<Node<V>> = Vec::new();
        let mut i: usize = 0;
        while i < self.nodes.len()
            invariant
                i <= self.nodes@.len(),
                nodes@ == self.nodes@.take(i as int),
            decreases self.nodes@.len() - i,
        {
            nodes.push(self.nodes[i]);
            i += 1;
        }
        assert(self.nodes@.take(i as int) == self.nodes@);
        let mut move_visits: Vec<u32> = Vec::new();
        let mut j: usize = 0;
        while j < self.move_visits.len()
            invariant
                j <= self.move_visits@.len(),
                move_visits@ == self.move_visits@.take(j as int),
            decreases self.move_visits@.len() - j,
        {
            move_visits.push(self.move_visits[j]);
            j += 1;
        }
        assert(self.move_visits@.take(j as int) == self.move_visits@);
        Mcts { nodes, moves: move_set_clone(&self.moves), move_visits }
    }
}

impl<V: Copy> Mcts<V> {
    /// Whether the tree is well formed, every move handle resolves, and each
    /// move's visit count is the total visits of the nodes it reaches.
    pub open spec fn wf(&self) -> bool {
        &&& tree_wf(self.nodes@)
        &&& move_set(self.moves).no_duplicates()
        &&& forall|i: int|
            0 <= i < self.nodes@.len() ==> #[trigger] self.nodes@[i].mov < move_set(self.moves).len()
        &&& self.move_visits@.len() == move_set(self.moves).len()
        &&& forall|h: int|
            0 <= h < self.move_visits@.len() ==> #[trigger] self.move_visits@[h] == visits_of(
                self.nodes@,
                h as usize,
                self.nodes@.len() as int,
            )
    }

    /// Creates a tree holding only a root reached by `root_move`, with
    /// payload `value`.
    pub fn new(root_move: u64, value: V) -> (mcts: Mcts<V>)
        ensures
            mcts.wf(),
            move_set(mcts.moves) == seq![root_move],
            mcts.nodes@ == seq![Node::<V> { mov: 0, parent: SENTINEL, head: SENTINEL, last: SENTINEL, visits: 0, value }],
            mcts.move_visits@ == seq![0u32],
    {
        let mut moves = move_set_new();
        let (handle, _) = move_set_insert(&mut moves, root_move);
        let nodes = vec![Node::new(SENTINEL, handle as usize, value)];
        let mcts = Mcts { nodes, moves, move_visits: vec![0] };
        assert(visits_of(mcts.nodes@, 0, 1) == 0) by {
            reveal_with_fuel(visits_of, 2);
        }
        assert(links_wf(mcts.nodes@, 0));
        assert(move_set(mcts.moves).no_duplicates());
        mcts
    }

    /// Returns the number of nodes in the tree.
    pub fn len(&self) -> (n: usize)
        ensures
            n == self.nodes@.len(),
    {
        self.nodes.len()
    }

    /// Returns the most-visited child of `node`, or `None` if `node` is a
    /// leaf. Among equally visited children, the last one wins.
    pub fn best_child(&self, node: usize) -> (best: Option<usize>)
        requires
            self.wf(),
            node < self.nodes@.len(),
        ensures
            best == best_child_of(self.nodes@, node as int),
            best matches Some(c) ==> {
                &&& self.nodes@[node as int].head <= c < self.nodes@[node as int].last
                &&& forall|j: int|
                    self.nodes@[node as int].head <= j < self.nodes@[node as int].last
                        ==> #[trigger] self.nodes@[j].visits <= self.nodes@[c as int].visits
                &&& forall|j: int|
                    c < j < self.nodes@[node as int].last ==> #[trigger] self.nodes@[j].visits
                        < self.nodes@[c as int].visits
            },
    {
        let head = self.nodes[node].head;
        let last = self.nodes[node].last;
        if head == last {
            return None;
        }
        assert(links_wf(self.nodes@, node as int));
        let mut best = head;
        let mut child = head + 1;
        while child < last
            invariant
                self.wf(),
                head < child <= last <= self.nodes@.len(),
                head <= best < child,
                best == best_in(self.nodes@, head as int, child as int),
            decreases last - child,
        {
            if self.nodes[child].visits >= self.nodes[best].visits {
                best = child;
            }
            child += 1;
            proof {
                lemma_best_in(self.nodes@, head as int, child as int);
            }
        }
        proof {
            lemma_best_in(self.nodes@, head as int, last as int);
        }
        Some(best)
    }

    /// Returns the principal variation rooted at `node`: its most-visited
    /// child, that child's most-visited child, and so on down to a leaf.
    pub fn principal_variation(&self, node: usize) -> (pv: Vec<usize>)
        requires
            self.wf(),
            node < self.nodes@.len(),
        ensures
            pv@ == variation(self.nodes@, node as int),
    {
        let mut pv: Vec<usize> = Vec::new();
        let mut cur = node;
        loop
            invariant
                self.wf(),
                cur < self.nodes@.len(),
                pv@ + variation(self.nodes@, cur as int) == variation(self.nodes@, node as int),
            decreases self.nodes@.len() - cur,
        {
            match self.best_child(cur) {
                None => {
                    assert(pv@ + Seq::<usize>::empty() == pv@);
                    return pv;
                },
                Some(c) => {
                    assert(links_wf(self.nodes@, cur as int));
                    assert(pv@.push(c) + variation(self.nodes@, c as int) == pv@ + (seq![c]
                        + variation(self.nodes@, c as int)));
                    pv.push(c);
                    cur = c;
                },
            }
        }
    }

    /// Expands the leaf `node` with one child per move of `moves`, interning
    /// the moves in order. The children form the block `len..len + n` at the
    /// end of the tree; the child for `moves[order[k]]` takes position `k`
    /// of the block, so that `order` shuffles the children. Every child
    /// starts unvisited with payload `value`, except a lone child: a forced
    /// move extends the search (one-reply extension), so it takes over its
    /// parent's visits and gets payload `lone`.
    pub fn expand_node(
        &mut self,
        node: usize,
        moves: &[u64],
        order: &[usize],
        value: V,
        lone: V,
    )
        requires
            old(self).wf(),
            node < old(self).nodes@.len(),
            old(self).nodes@[node as int].head == old(self).nodes@[node as int].last,
            moves@.len() > 0,
            is_permutation(order@, moves@.len() as int),
            old(self).nodes@.len() + moves@.len() < SENTINEL,
            moves@.len() == 1 ==> forall|h: int|
                0 <= h < old(self).move_visits@.len() && #[trigger] move_set(old(self).moves)[h]
                    == moves@[0] ==> old(self).move_visits@[h] + old(self).nodes@[node as int].visits
                    <= u32::MAX,
        ensures
            final(self).wf(),
            move_set(final(self).moves) == intern_all(move_set(old(self).moves), moves@),
            final(self).nodes@.len() == old(self).nodes@.len() + moves@.len(),
            final(self).nodes@[node as int] == (Node::<V> {
                head: old(self).nodes@.len() as usize,
                last: (old(self).nodes@.len() + moves@.len()) as usize,
                ..old(self).nodes@[node as int]
            }),
            forall|i: int|
                0 <= i < old(self).nodes@.len() && i != node ==> #[trigger] final(self).nodes@[i]
                    == old(self).nodes@[i],
            forall|k: int|
                0 <= k < moves@.len() ==> {
                    let child = #[trigger] final(self).nodes@[old(self).nodes@.len() + k];
                    &&& child.parent == node
                    &&& child.head == SENTINEL
                    &&& child.last == SENTINEL
                    &&& child.visits == (if moves@.len() == 1 {
                        old(self).nodes@[node as int].visits
                    } else {
                        0
                    })
                    &&& child.value == (if moves@.len() == 1 {
                        lone
                    } else {
                        value
                    })
                    &&& child.mov < move_set(final(self).moves).len()
                    &&& move_set(final(self).moves)[child.mov as int] == moves@[order@[k] as int]
                },
    {
        let ghost old_nodes = self.nodes@;
        let ghost old_moves = move_set(self.moves);
        let head = self.nodes.len();
        let n = moves.len();
        proof {
            lemma_intern_all_grows(old_moves, moves@);
        }
        let start_len = self.move_visits.len();
        let mut added: usize = 0;
        let mut handles: Vec<usize> = Vec::new();
        let mut k: usize = 0;
        while k < n
            invariant
                n == moves@.len(),
                k <= n,
                self.nodes@ == old_nodes,
                self.move_visits@ == old(self).move_visits@,
                start_len == old_moves.len(),
                added <= k,
                move_set(self.moves).len() == old_moves.len() + added,
                move_set(self.moves) == intern_all(old_moves, moves@.take(k as int)),
                old_moves.is_prefix_of(move_set(self.moves)),
                move_set(self.moves).no_duplicates(),
                handles@.len() == k,
                forall|j: int|
                    0 <= j < k ==> #[trigger] handles@[j] < move_set(self.moves).len()
                        && move_set(self.moves)[handles@[j] as int] == moves@[j],
            decreases n - k,
        {
            proof {
                lemma_intern_all_prefix(old_moves, moves@, k + 1);
                lemma_intern_all_grows(old_moves, moves@.take(k + 1));
                assert(moves@.take(k + 1).drop_last() == moves@.take(k as int));
            }
            let ghost before = move_set(self.moves);
            let (h, fresh) = move_set_insert(&mut self.moves, moves[k]);
            if fresh {
                added += 1;
            }
            proof {
                assert forall|j: int| 0 <= j < k implies #[trigger] handles@[j]
                    < move_set(self.moves).len() && move_set(self.moves)[handles@[j] as int]
                    == moves@[j] by {
                    assert(before.is_prefix_of(move_set(self.moves)));
                }
                if !before.contains(moves@[k as int]) {
                    assert forall|a: int, b: int|
                        0 <= a < b < move_set(self.moves).len() implies move_set(self.moves)[a]
                        != move_set(self.moves)[b] by {
                        if b == before.len() {
                            assert(before[a] == move_set(self.moves)[a]);
                        }
                    }
                }
                assert(old_moves.is_prefix_of(move_set(self.moves)));
            }
            handles.push(h as usize);
            k += 1;
        }
        assert(moves@.take(n as int) == moves@);
        let ghost old_counts = self.move_visits@;
        let ghost m0 = old_counts.len();
        let mut pushed: usize = 0;
        while pushed < added
            invariant
                move_set(self.moves).len() == start_len + added,
                self.move_visits@.len() == start_len + pushed,
                pushed <= added,
                self.nodes@ == old_nodes,
                move_set(self.moves) == intern_all(old_moves, moves@),
                old_counts == old(self).move_visits@,
                m0 == old_moves.len(),
                m0 <= self.move_visits@.len() <= move_set(self.moves).len(),
                forall|h: int| 0 <= h < m0 ==> #[trigger] self.move_visits@[h] == old_counts[h],
                forall|h: int| m0 <= h < self.move_visits@.len() ==> #[trigger] self.move_visits@[h] == 0,
            decreases added - pushed,
        {
            self.move_visits.push(0);
            pushed += 1;
        }
        let mvlen = self.move_visits.len();
        proof {
            assert forall|h: int| 0 <= h < self.move_visits@.len() implies #[trigger] self.move_visits@[h]
                == visits_of(self.nodes@, h as usize, self.nodes@.len() as int) by {
                assert(h < mvlen);
                if h >= m0 {
                    assert forall|i: int| 0 <= i < old_nodes.len() implies #[trigger] old_nodes[i].mov != h as usize by {
                        assert(old(self).nodes@[i].mov < move_set(old(self).moves).len());
                    }
                    lemma_visits_absent(old_nodes, h as usize, old_nodes.len() as int);
                }
            }
        }
        let mut k: usize = 0;
        while k < n
            invariant
                n == moves@.len(),
                k <= n,
                head == old_nodes.len(),
                head + n < SENTINEL,
                move_set(self.moves) == intern_all(old_moves, moves@),
                old_moves.is_prefix_of(move_set(self.moves)),
                move_set(self.moves).no_duplicates(),
                is_permutation(order@, n as int),
                self.nodes@.len() == head + k,
                forall|i: int| 0 <= i < head ==> #[trigger] self.nodes@[i] == old_nodes[i],
                self.move_visits@.len() == move_set(self.moves).len(),
                forall|h: int|
                    0 <= h < self.move_visits@.len() ==> #[trigger] self.move_visits@[h]
                        == visits_of(self.nodes@, h as usize, self.nodes@.len() as int),
                handles@.len() == n,
                forall|j: int|
                    0 <= j < n ==> #[trigger] handles@[j] < move_set(self.moves).len()
                        && move_set(self.moves)[handles@[j] as int] == moves@[j],
                forall|j: int|
                    0 <= j < k ==> {
                        let child = #[trigger] self.nodes@[head + j];
                        &&& child.parent == node
                        &&& child.head == SENTINEL
                        &&& child.last == SENTINEL
                        &&& child.visits == 0
                        &&& child.value == value
                        &&& child.mov == handles@[order@[j] as int]
                    },
            decreases n - k,
        {
            let child = Node::new(node, handles[order[k]], value);
            let ghost before_push = self.nodes@;
            self.nodes.push(child);
            proof {
                assert forall|h: int| 0 <= h < self.move_visits@.len() implies #[trigger] self.move_visits@[h]
                    == visits_of(self.nodes@, h as usize, self.nodes@.len() as int) by {
                    lemma_visits_push(before_push, child, h as usize);
                }
            }
            k += 1;
        }
        let mut parent = self.nodes[node];
        parent.head = head;
        parent.last = head + n;
        let ghost before_parent = self.nodes@;
        self.nodes[node] = parent;
        proof {
            assert forall|h: int| 0 <= h < self.move_visits@.len() implies #[trigger] self.move_visits@[h]
                == visits_of(self.nodes@, h as usize, self.nodes@.len() as int) by {
                lemma_visits_update(before_parent, node as int, parent, h as usize, before_parent.len() as int);
            }
        }
        if n == 1 {
            let mut child = self.nodes[head];
            let ghost before_lone = self.nodes@;
            proof {
                assert(order@[0] == 0);
                assert(self.nodes@[head + 0] == self.nodes@[head as int]);
                assert(child.mov == handles@[0]);
                let hm = child.mov;
                assert(before_lone[head as int].visits == 0);
                assert forall|i: int| 0 <= i < head implies #[trigger] before_lone[i].mov == old_nodes[i].mov
                    && before_lone[i].visits == old_nodes[i].visits by {
                    if i != node {
                        assert(before_parent[i] == old_nodes[i]);
                    }
                }
                lemma_visits_same(before_lone, old_nodes, hm, head as int);
                assert(visits_of(before_lone, hm, head + 1) == visits_of(old_nodes, hm, head as int));
                if (hm as int) < m0 {
                    assert(old_moves[hm as int] == move_set(self.moves)[hm as int]);
                    assert(old_counts[hm as int] == visits_of(old_nodes, hm, head as int));
                } else {
                    assert forall|i: int| 0 <= i < head implies #[trigger] old_nodes[i].mov != hm by {
                        assert(old(self).nodes@[i].mov < move_set(old(self).moves).len());
                    }
                    lemma_visits_absent(old_nodes, hm, head as int);
                }
            }
            child.visits = parent.visits;
            child.value = lone;
            self.nodes[head] = child;
            let c = self.move_visits[child.mov];
            self.move_visits.set(child.mov, c + parent.visits);
            proof {
                assert forall|h: int| 0 <= h < self.move_visits@.len() implies #[trigger] self.move_visits@[h]
                    == visits_of(self.nodes@, h as usize, self.nodes@.len() as int) by {
                    lemma_visits_update(before_lone, head as int, child, h as usize, before_lone.len() as int);
                }
            }
        }
        proof {
            let nodes = self.nodes@;
            assert(links_wf(old_nodes, node as int));
            assert forall|i: int| 0 < i < nodes.len() implies {
                &&& #[trigger] nodes[i].parent < i
                &&& nodes[nodes[i].parent as int].head <= i < nodes[nodes[i].parent as int].last
            } by {
                if i < head {
                    assert(nodes[i].parent == old_nodes[i].parent);
                    let p = old_nodes[i].parent as int;
                    assert(p != node);
                    assert(nodes[p] == old_nodes[p]);
                } else {
                    assert(nodes[head + (i - head)] == nodes[i]);
                }
            }
            assert forall|i: int| 0 <= i < nodes.len() implies #[trigger] links_wf(nodes, i) by {
                if i == node {
                    assert forall|c: int| nodes[i].head <= c < nodes[i].last implies #[trigger] nodes[c].parent == i by {
                        assert(nodes[head + (c - head)] == nodes[c]);
                    }
                } else if i < head {
                    assert(links_wf(old_nodes, i));
                    assert(nodes[i] == old_nodes[i]);
                    if old_nodes[i].head != SENTINEL {
                        assert forall|c: int| nodes[i].head <= c < nodes[i].last implies #[trigger] nodes[c].parent == i by {
                            assert(nodes[c].parent == old_nodes[c].parent);
                        }
                    }
                } else {
                    assert(nodes[head + (i - head)] == nodes[i]);
                }
            }
            assert forall|i: int| 0 <= i < nodes.len() implies #[trigger] nodes[i].mov
                < move_set(self.moves).len() by {
                if i < head {
                    assert(nodes[i].mov == old_nodes[i].mov);
                } else {
                    assert(nodes[head + (i - head)] == nodes[i]);
                }
            }
        }
    }

    /// Combined mark-and-sweep and re-rooting primitive that retains the
    /// subtree rooted at `root` and severs the descendants of every retained
    /// node flagged in `sever`, leaving the node itself as a leaf.
    ///
    /// The node at `root` is never removed; severing it collapses the
    /// subtree to a single node. Survivors keep their relative order and
    /// `root` lands at index `0`. Returns the reclaimed nodes in their
    /// former order, so that their statistics can be withdrawn.
    pub fn compact(&mut self, root: usize, sever: &[bool]) -> (gone: Vec<Node<V>>)
        requires
            old(self).wf(),
            root < old(self).nodes@.len(),
            sever@.len() == old(self).nodes@.len(),
        ensures
            final(self).wf(),
            final(self).moves == old(self).moves,
            compacted(old(self).nodes@, root as int, sever@, final(self).nodes@),
            final(self).nodes@.len() + gone@.len() == old(self).nodes@.len(),
            final(self).move_visits@.len() == old(self).move_visits@.len(),
            forall|h: int|
                0 <= h < old(self).move_visits@.len() ==> #[trigger] final(self).move_visits@[h]
                    + visits_of(gone@, h as usize, gone@.len() as int) == old(self).move_visits@[h],
            gone@ == reclaimed(
                old(self).nodes@,
                root as int,
                sever@,
                old(self).nodes@.len() as int,
            ),
    {
        let ghost before = self.nodes@;
        let (map, count) = mark(&mut self.nodes, root, sever);
        let gone = collect_reclaimed(&self.nodes, &map, Ghost(before), root, Ghost(sever@));
        relocate(&mut self.nodes, root, &map, count, Ghost(before), Ghost(sever@));
        let ghost counts0 = self.move_visits@;
        let ghost m = counts0.len();
        proof {
            lemma_reclaimed_moves(before, root as int, sever@, before.len() as int, m as int);
            assert forall|h: int| 0 <= h < m implies visits_of(gone@, h as usize, gone@.len() as int)
                <= #[trigger] counts0[h] by {
                assert(counts0[h] == old(self).move_visits@[h]);
                lemma_visits_compacted(before, root as int, sever@, self.nodes@, h as usize, before.len() as int);
                lemma_visits_monotone(self.nodes@, h as usize, 0, rank(before, root as int, sever@, before.len() as int) as int);
            }
        }
        let ghost after_nodes = self.nodes@;
        let mut j: usize = 0;
        while j < gone.len()
            invariant
                j <= gone@.len(),
                self.nodes@ == after_nodes,
                self.moves == old(self).moves,
                self.move_visits@.len() == m,
                forall|k: int| 0 <= k < gone@.len() ==> #[trigger] gone@[k].mov < m,
                forall|h: int|
                    0 <= h < m ==> visits_of(gone@, h as usize, gone@.len() as int)
                        <= #[trigger] counts0[h],
                forall|h: int|
                    0 <= h < m ==> #[trigger] self.move_visits@[h] + visits_of(
                        gone@,
                        h as usize,
                        j as int,
                    ) == counts0[h],
            decreases gone@.len() - j,
        {
            let g = gone[j];
            proof {
                lemma_visits_monotone(gone@, g.mov, j + 1, gone@.len() as int);
                assert(visits_of(gone@, g.mov, j + 1) == visits_of(gone@, g.mov, j as int) + g.visits);
            }
            let c = self.move_visits[g.mov];
            let ghost prev = self.move_visits@;
            self.move_visits.set(g.mov, c - g.visits);
            let mlen = self.move_visits.len();
            proof {
                assert forall|h: int| 0 <= h < m implies #[trigger] self.move_visits@[h] + visits_of(
                    gone@,
                    h as usize,
                    j + 1,
                ) == counts0[h] by {
                    assert(h < mlen);
                    assert(prev[h] + visits_of(gone@, h as usize, j as int) == counts0[h]);
                    if h == g.mov as int {
                        assert(visits_of(gone@, h as usize, j + 1) == visits_of(gone@, h as usize, j as int) + g.visits);
                    } else {
                        assert(self.move_visits@[h] == prev[h]);
                        assert(visits_of(gone@, h as usize, j + 1) == visits_of(gone@, h as usize, j as int));
                    }
                }
            }
            j += 1;
        }
        proof {
            let len = before.len() as int;
            law_compaction_conserves(before, root as int, sever@, len);
            lemma_compacted_wf(before, root as int, sever@, self.nodes@);
            assert forall|h: int| 0 <= h < m implies #[trigger] self.move_visits@[h] == visits_of(
                self.nodes@,
                h as usize,
                self.nodes@.len() as int,
            ) by {
                assert(counts0[h] == old(self).move_visits@[h]);
                lemma_visits_compacted(before, root as int, sever@, self.nodes@, h as usize, len);
            }
            assert forall|i: int| 0 <= i < self.nodes@.len() implies #[trigger] self.nodes@[i].mov
                < move_set(self.moves).len() by {
                lemma_rank_onto(before, root as int, sever@, len, i);
                let j = choose|j: int|
                    0 <= j < len && #[trigger] kept(before, root as int, sever@, j) && rank(
                        before,
                        root as int,
                        sever@,
                        j,
                    ) == i;
            }
        }
        gone
    }

    /// Severs the descendants of each node for which `should_prune` returns
    /// `true`, leaving the node itself as a leaf.
    ///
    /// Nodes are visited parents first; descendants of an already-severed
    /// node are discarded without being visited. This invalidates all
    /// existing indices into the tree. Returns the reclaimed nodes in their
    /// former order.
    pub fn prune<F: Fn(&Node<V>) -> bool>(&mut self, should_prune: F) -> (gone: Vec<Node<V>>)
        requires
            old(self).wf(),
            forall|n: &Node<V>| #[trigger] should_prune.requires((n,)),
        ensures
            final(self).wf(),
            final(self).moves == old(self).moves,
            exists|sever: Seq<bool>|
                {
                    &&& sever.len() == old(self).nodes@.len()
                    &&& forall|i: int|
                        0 <= i < sever.len() && #[trigger] kept(old(self).nodes@, 0, sever, i)
                            ==> should_prune.ensures((&old(self).nodes@[i],), sever[i])
                    &&& compacted(old(self).nodes@, 0, sever, final(self).nodes@)
                    &&& gone@ == reclaimed(
                        old(self).nodes@,
                        0,
                        sever,
                        old(self).nodes@.len() as int,
                    )
                },
    {
        let len = self.nodes.len();
        let mut sever: Vec<bool> = Vec::new();
        let mut visited: Vec<bool> = Vec::new();
        let mut i: usize = 0;
        while i < len
            invariant
                self.wf(),
                len == self.nodes@.len(),
                i <= len,
                sever@.len() == i,
                visited@.len() == i,
                forall|n: &Node<V>| #[trigger] should_prune.requires((n,)),
                forall|j: int|
                    0 <= j < i ==> #[trigger] visited@[j] == kept(self.nodes@, 0, sever@, j),
                forall|j: int|
                    0 <= j < i && #[trigger] kept(self.nodes@, 0, sever@, j)
                        ==> should_prune.ensures((&self.nodes@[j],), sever@[j]),
            decreases len - i,
        {
            let ghost before = sever@;
            let visit = if i == 0 {
                true
            } else {
                let p = self.nodes[i].parent;
                visited[p] && !sever[p] && self.nodes[p].head != SENTINEL
            };
            let mut flag = false;
            if visit {
                let node = &self.nodes[i];
                flag = should_prune(node);
            }
            sever.push(flag);
            visited.push(visit);
            proof {
                assert forall|j: int| 0 <= j <= i implies kept(self.nodes@, 0, sever@, j) == kept(
                    self.nodes@,
                    0,
                    before,
                    j,
                ) by {
                    lemma_kept_prefix(self.nodes@, sever@, before, j);
                }
                if i > 0 {
                    assert(self.nodes@[i as int].parent < i);
                }
                assert forall|j: int|
                    0 <= j <= i && #[trigger] kept(self.nodes@, 0, sever@, j)
                        implies should_prune.ensures((&self.nodes@[j],), sever@[j]) by {
                    lemma_kept_prefix(self.nodes@, sever@, before, j);
                    if j < i {
                        assert(sever@[j] == before[j]);
                        assert(kept(self.nodes@, 0, before, j));
                    } else {
                        assert(j == i);
                    }
                }
            }
            i += 1;
        }
        self.compact(0, sever.as_slice())
    }

    /// Discards everything outside the subtree rooted at `node`, making
    /// `node` the new root of the tree, at index `0`.
    ///
    /// This invalidates all existing indices into the tree. Returns the
    /// reclaimed nodes in their former order.
    pub fn reroot(&mut self, node: usize) -> (gone: Vec<Node<V>>)
        requires
            old(self).wf(),
            node < old(self).nodes@.len(),
        ensures
            final(self).wf(),
            final(self).moves == old(self).moves,
            compacted(old(self).nodes@, node as int, no_severing(old(self).nodes@.len()), final(self).nodes@),
            gone@ == reclaimed(
                old(self).nodes@,
                node as int,
                no_severing(old(self).nodes@.len()),
                old(self).nodes@.len() as int,
            ),
    {
        let sever = vec![false; self.nodes.len()];
        assert(sever@ == no_severing(self.nodes@.len()));
        self.compact(node, sever.as_slice())
    }

    /// Discards everything outside the subtree reached from the root by
    /// `mov`, making that child the new root of the tree, at index `0`.
    ///
    /// Returns `None` if the root has no child reached by `mov`; otherwise
    /// the rerooted tree and the reclaimed nodes in their former order.
    pub fn reroot_to_move(self, mov: u64) -> (res: Option<(Mcts<V>, Vec<Node<V>>)>)
        requires
            self.wf(),
        ensures
            match child_by_move(self.nodes@, move_set(self.moves), mov) {
                None => res is None,
                Some(c) => res is Some && {
                    let t = res.unwrap().0;
                    let gone = res.unwrap().1;
                    &&& t.wf()
                    &&& t.moves == self.moves
                    &&& compacted(self.nodes@, c, no_severing(self.nodes@.len()), t.nodes@)
                    &&& gone@ == reclaimed(
                        self.nodes@,
                        c,
                        no_severing(self.nodes@.len()),
                        self.nodes@.len() as int,
                    )
                },
            },
    {
        let ghost orig = self;
        let mut this = self;
        let key = match move_set_find(&this.moves, mov) {
            Some(k) => k,
            None => {
                proof {
                    lemma_child_by_move_interned(this.nodes@, move_set(this.moves), mov);
                }
                return None;
            },
        };
        let head = this.nodes[0].head;
        let last = this.nodes[0].last;
        proof {
            assert(links_wf(this.nodes@, 0));
        }
        if head == last {
            return None;
        }
        let mut c = head;
        while c < last
            invariant
                this.wf(),
                this == orig,
                orig == self,
                head == this.nodes@[0].head,
                last == this.nodes@[0].last,
                0 < head <= c <= last <= this.nodes@.len(),
                key < move_set(this.moves).len(),
                move_set(this.moves)[key as int] == mov,
                first_with_move(this.nodes@, key, head as int, last as int) == first_with_move(
                    this.nodes@,
                    key,
                    c as int,
                    last as int,
                ),
            decreases last - c,
        {
            if this.nodes[c].mov == key {
                proof {
                    lemma_child_by_move_key(this.nodes@, move_set(this.moves), mov, key as int);
                    assert(first_with_move(this.nodes@, key, c as int, last as int) == Some(
                        c as int,
                    ));
                    assert(child_by_move(orig.nodes@, move_set(orig.moves), mov) == Some(c as int));
                }
                let gone = this.reroot(c);
                assert(this.wf());
                assert(this.moves == orig.moves);
                assert(compacted(orig.nodes@, c as int, no_severing(orig.nodes@.len()), this.nodes@));
                assert(gone@ == reclaimed(orig.nodes@, c as int, no_severing(orig.nodes@.len()), orig.nodes@.len() as int));
                let res = Some((this, gone));
                return res;
            }
            c += 1;
        }
        proof {
            lemma_child_by_move_key(this.nodes@, move_set(this.moves), mov, key as int);
        }
        None
    }

    /// Records one visit of `node`: its visits and those of its move grow by
    /// one. The move's count bounds the node's visits, so it must have room.
    pub fn record_visit(&mut self, node: usize)
        requires
            old(self).wf(),
            node < old(self).nodes@.len(),
            old(self).move_visits@[old(self).nodes@[node as int].mov as int] < u32::MAX,
        ensures
            final(self).wf(),
            final(self).moves == old(self).moves,
            final(self).nodes@ == old(self).nodes@.update(
                node as int,
                Node::<V> {
                    visits: (old(self).nodes@[node as int].visits + 1) as u32,
                    ..old(self).nodes@[node as int]
                },
            ),
            final(self).move_visits@ == old(self).move_visits@.update(
                old(self).nodes@[node as int].mov as int,
                (old(self).move_visits@[old(self).nodes@[node as int].mov as int] + 1) as u32,
            ),
    {
        let mut n = self.nodes[node];
        let ghost before = self.nodes@;
        let len = self.move_visits.len();
        proof {
            let zero = Node::<V> { visits: 0, ..n };
            lemma_visits_update(before, node as int, zero, n.mov, before.len() as int);
            lemma_visits_monotone(before.update(node as int, zero), n.mov, 0, before.len() as int);
            assert(self.move_visits@[n.mov as int] == visits_of(before, n.mov, before.len() as int));
        }
        n.visits = n.visits + 1;
        self.nodes.set(node, n);
        let c = self.move_visits[n.mov];
        self.move_visits.set(n.mov, c + 1);
        proof {
            assert forall|h: int| 0 <= h < self.move_visits@.len() implies #[trigger] self.move_visits@[h]
                == visits_of(self.nodes@, h as usize, self.nodes@.len() as int) by {
                assert(h < len);
                lemma_visits_update(before, node as int, n, h as usize, before.len() as int);
            }
            assert(tree_wf(self.nodes@)) by {
                assert forall|i: int| 0 <= i < self.nodes@.len() implies #[trigger] links_wf(self.nodes@, i) by {
                    assert(links_wf(before, i));
                    if before[i].head != SENTINEL {
                        assert forall|c: int| before[i].head <= c < before[i].last implies #[trigger] self.nodes@[c].parent == i by {
                            assert(before[c].parent == i);
                        }
                    }
                }
                assert forall|i: int| 0 < i < self.nodes@.len() implies {
                    &&& #[trigger] self.nodes@[i].parent < i
                    &&& self.nodes@[self.nodes@[i].parent as int].head <= i < self.nodes@[self.nodes@[i].parent as int].last
                } by {
                    assert(before[i].parent < i);
                    assert(before[before[i].parent as int].head <= i);
                }
            }
            assert forall|i: int| 0 <= i < self.nodes@.len() implies #[trigger] self.nodes@[i].mov
                < move_set(self.moves).len() by {
                assert(before[i].mov < move_set(self.moves).len());
            }
        }
    }

    /// Returns the path from `node` up to the root, `node` first: the nodes
    /// whose statistics a reward observed at `node` updates.
    pub fn path_to_root(&self, node: usize) -> (path: Vec<usize>)
        requires
            self.wf(),
            node < self.nodes@.len(),
        ensures
            path@ == ancestry(self.nodes@, node as int),
            path@.last() == 0,
    {
        proof {
            lemma_ancestry(self.nodes@, node as int);
        }
        let mut path: Vec<usize> = Vec::new();
        let mut cur = node;
        loop
            invariant
                self.wf(),
                cur < self.nodes@.len(),
                path@ + ancestry(self.nodes@, cur as int) == ancestry(self.nodes@, node as int),
            decreases cur,
        {
            path.push(cur);
            if cur == 0 {
                assert(path@ == ancestry(self.nodes@, node as int));
                return path;
            }
            let parent = self.nodes[cur].parent;
            assert(path@ + ancestry(self.nodes@, parent as int) == ancestry(
                self.nodes@,
                node as int,
            ));
            cur = parent;
        }
    }
}

/// The time allotted to each of the next pair of searches of a timed search
/// with budget `max_ns`, `elapsed_ns` of which is already allotted: a
/// quarter of what remains.
pub fn timed_allot(max_ns: u64, elapsed_ns: u64) -> (a: u64)
    ensures
        a == (if max_ns > elapsed_ns {
            (max_ns - elapsed_ns) / 4
        } else {
            0
        }),
{
    if max_ns > elapsed_ns {
        (max_ns - elapsed_ns) / 4
    } else {
        0
    }
}

/// Whether a timed search stops after a pair of searches that chose `first`
/// and `second`: when they agree, or when less than `min_ns` of the budget
/// `max_ns` remains after `elapsed_ns`.
pub fn timed_stop(first: usize, second: usize, elapsed_ns: u64, max_ns: u64, min_ns: u64) -> (s:
    bool)
    ensures
        s == (first == second || elapsed_ns + min_ns >= max_ns),
{
    first == second || min_ns >= max_ns || elapsed_ns >= max_ns - min_ns
}


} // verus!
