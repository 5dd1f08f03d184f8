use swift_swallow_tree_search::mcts::{timed_allot, timed_stop};
use swift_swallow_tree_search::mcts::{Mcts, Node, SENTINEL};
use swift_swallow_tree_search::sarsa::{Sarsa, SarsaNode, ROOT_PARENT};

/// Root (move 7) with children for moves 1, 2, 3 shuffled by `[2, 0, 1]`.
fn small_tree() -> Mcts<f64> {
    let mut mcts = Mcts::new(7, 0.5);
    mcts.expand_node(0, &[1, 2, 3], &[2, 0, 1], 0.0, -9.0);
    mcts
}

fn resolve(mcts: &Mcts<f64>, node: usize) -> u64 {
    *mcts.moves.get_index(mcts.nodes[node].mov).unwrap()
}

#[test]
fn new_tree_has_a_single_root() {
    let mcts = Mcts::new(7, 0.5);
    assert_eq!(mcts.len(), 1);
    let root = mcts.nodes[0];
    assert!(root.is_root());
    assert!(root.is_leaf());
    assert_eq!(root.parent, SENTINEL);
    assert_eq!(root.visits, 0);
    assert_eq!(root.value, 0.5);
    assert_eq!(resolve(&mcts, 0), 7);
    assert_eq!(mcts.best_child(0), None);
    assert!(mcts.principal_variation(0).is_empty());
}

#[test]
fn node_new_is_an_unexpanded_leaf() {
    let node = Node::new(3, 9, -1.0);
    assert_eq!((node.parent, node.mov, node.head, node.last, node.visits), (3, 9, SENTINEL, SENTINEL, 0));
    assert!(node.is_leaf());
    assert!(!node.is_root());
}

#[test]
fn expansion_appends_shuffled_children() {
    let mcts = small_tree();
    assert_eq!(mcts.len(), 4);
    assert_eq!((mcts.nodes[0].head, mcts.nodes[0].last), (1, 4));
    assert_eq!(resolve(&mcts, 1), 3);
    assert_eq!(resolve(&mcts, 2), 1);
    assert_eq!(resolve(&mcts, 3), 2);
    for child in 1..4 {
        assert_eq!(mcts.nodes[child].parent, 0);
        assert!(mcts.nodes[child].is_leaf());
        assert_eq!(mcts.nodes[child].value, 0.0);
    }
    assert_eq!(mcts.moves.iter().copied().collect::<Vec<u64>>(), vec![7, 1, 2, 3]);
}

#[test]
fn expansion_reuses_handles_of_known_moves() {
    let mut mcts = small_tree();
    mcts.expand_node(2, &[3, 4], &[0, 1], 0.0, -9.0);
    assert_eq!(mcts.len(), 6);
    assert_eq!(mcts.nodes[4].mov, mcts.nodes[1].mov);
    assert_eq!(resolve(&mcts, 5), 4);
    assert_eq!(mcts.moves.len(), 5);
}

#[test]
fn best_child_prefers_most_visits_then_the_last() {
    let mut mcts = small_tree();
    assert_eq!(mcts.best_child(0), Some(3));
    mcts.nodes[1].visits = 5;
    mcts.nodes[2].visits = 9;
    mcts.nodes[3].visits = 9;
    assert_eq!(mcts.best_child(0), Some(3));
    mcts.nodes[2].visits = 10;
    assert_eq!(mcts.best_child(0), Some(2));
    assert_eq!(mcts.best_child(2), None);
}

#[test]
fn principal_variation_follows_best_children() {
    let mut mcts = small_tree();
    mcts.expand_node(1, &[8, 9], &[1, 0], 0.0, -9.0);
    mcts.nodes[1].visits = 4;
    mcts.nodes[5].visits = 2;
    assert_eq!(mcts.principal_variation(0), vec![1, 5]);
    assert_eq!(mcts.principal_variation(1), vec![5]);
}

#[test]
fn path_to_root_climbs_parents() {
    let mut mcts = small_tree();
    mcts.expand_node(3, &[8], &[0], 0.0, -9.0);
    assert_eq!(mcts.path_to_root(4), vec![4, 3, 0]);
    assert_eq!(mcts.path_to_root(0), vec![0]);
}

#[test]
fn reroot_keeps_the_subtree_in_order() {
    let mut mcts = small_tree();
    mcts.expand_node(2, &[8, 9], &[0, 1], 0.0, -9.0);
    mcts.nodes[2].visits = 6;
    let gone = mcts.reroot(2);
    assert_eq!(mcts.len(), 3);
    assert!(mcts.nodes[0].is_root());
    assert_eq!(mcts.nodes[0].visits, 6);
    assert_eq!((mcts.nodes[0].head, mcts.nodes[0].last), (1, 3));
    assert_eq!(mcts.nodes[1].parent, 0);
    assert_eq!(mcts.nodes[2].parent, 0);
    assert_eq!(resolve(&mcts, 0), 1);
    assert_eq!(resolve(&mcts, 1), 8);
    assert_eq!(resolve(&mcts, 2), 9);
    let gone_moves: Vec<usize> = gone.iter().map(|n| n.mov).collect();
    assert_eq!(gone.len(), 3);
    assert_eq!(gone_moves, vec![0, 3, 2]);
}

#[test]
fn reroot_at_the_root_changes_nothing() {
    let mut mcts = small_tree();
    mcts.expand_node(3, &[8], &[0], 0.0, -9.0);
    let before: Vec<(usize, usize, usize, usize)> =
        mcts.nodes.iter().map(|n| (n.mov, n.parent, n.head, n.last)).collect();
    let gone = mcts.reroot(0);
    let after: Vec<(usize, usize, usize, usize)> =
        mcts.nodes.iter().map(|n| (n.mov, n.parent, n.head, n.last)).collect();
    assert!(gone.is_empty());
    assert_eq!(before, after);
}

#[test]
fn prune_severs_flagged_nodes() {
    let mut mcts = small_tree();
    mcts.expand_node(1, &[8, 9], &[0, 1], 0.0, -9.0);
    mcts.expand_node(4, &[10], &[0], 0.0, -9.0);
    mcts.nodes[0].visits = 10;
    mcts.nodes[1].visits = 1;
    mcts.nodes[2].visits = 5;
    mcts.nodes[3].visits = 4;
    // Node 1 has few visits: its children (4, 5) and grandchild (6) go.
    let gone = mcts.prune(|n: &Node<f64>| n.visits < 3 && !n.is_leaf());
    assert_eq!(mcts.len(), 4);
    assert_eq!(gone.len(), 3);
    assert!(mcts.nodes[1].is_leaf());
    assert_eq!(mcts.nodes[1].head, SENTINEL);
    assert_eq!((mcts.nodes[0].head, mcts.nodes[0].last), (1, 4));
}

#[test]
fn prune_does_not_visit_descendants_of_severed_nodes() {
    let mut mcts = small_tree();
    mcts.expand_node(1, &[8, 9], &[0, 1], 0.0, -9.0);
    mcts.expand_node(4, &[10], &[0], 0.0, -9.0);
    let visited = std::cell::RefCell::new(Vec::new());
    let gone = mcts.prune(|n: &Node<f64>| {
        visited.borrow_mut().push(n.mov);
        n.parent == 0 && n.head != SENTINEL
    });
    // Nodes 0..=3 are visited; node 1 is severed, so 4, 5 and 6 are not.
    assert_eq!(visited.into_inner().len(), 4);
    assert_eq!(gone.len(), 3);
    assert_eq!(mcts.len(), 4);
}

#[test]
fn prune_at_root_collapses_the_tree() {
    let mut mcts = small_tree();
    let gone = mcts.prune(|n: &Node<f64>| n.is_root());
    assert_eq!(mcts.len(), 1);
    assert_eq!(gone.len(), 3);
    assert!(mcts.nodes[0].is_leaf());
}

#[test]
fn reroot_to_move_follows_a_root_child() {
    let mcts = small_tree();
    let (tree, gone) = mcts.clone().reroot_to_move(2).expect("2 is a root move");
    assert_eq!(tree.len(), 1);
    assert_eq!(resolve(&tree, 0), 2);
    assert_eq!(gone.len(), 3);
    assert!(mcts.clone().reroot_to_move(42).is_none());
    assert!(mcts.reroot_to_move(7).is_none());
}

#[test]
fn sarsa_tree_starts_with_a_root() {
    let sarsa = Sarsa::new(11, 0.0f64);
    assert_eq!(sarsa.len(), 1);
    assert_eq!(sarsa.visits_to_expand, 1);
    assert!(sarsa.tree[0].is_root());
    assert!(sarsa.tree[0].is_leaf());
    assert!(sarsa.children().is_empty());
}

#[test]
fn sarsa_expansion_and_children() {
    let mut sarsa = Sarsa::new(11, 0.0f64);
    sarsa.expand_node(0, &[4, 5, 6], &[1, 2, 0], 0.25, -9.0);
    let children: Vec<u64> = sarsa.children().iter().map(|n| n.mov).collect();
    assert_eq!(children, vec![5, 6, 4]);
    assert!(sarsa.children().iter().all(|n| n.parent == 0 && n.value == 0.25 && n.visits == 0));
    sarsa.expand_node(2, &[7], &[0], 0.0, -9.0);
    assert_eq!(sarsa.path_to_root(4), vec![4, 2, 0]);
    let node = SarsaNode::new(ROOT_PARENT, 3, 1.0);
    assert!(node.is_root() && node.is_leaf());
}

#[test]
fn a_lone_child_takes_over_its_parents_visits() {
    let mut mcts = small_tree();
    mcts.nodes[3].visits = 6;
    mcts.expand_node(3, &[8], &[0], 0.0, -0.75);
    let child = mcts.nodes[4];
    assert_eq!(child.parent, 3);
    assert_eq!(child.visits, 6);
    assert_eq!(child.value, -0.75);
    // With a choice of moves, children start unvisited.
    mcts.nodes[2].visits = 5;
    mcts.expand_node(2, &[8, 9], &[0, 1], 0.0, -0.75);
    assert_eq!((mcts.nodes[5].visits, mcts.nodes[5].value), (0, 0.0));
    assert_eq!((mcts.nodes[6].visits, mcts.nodes[6].value), (0, 0.0));
}

#[test]
fn sarsa_lone_child_takes_over_its_parents_visits() {
    let mut sarsa = Sarsa::new(11, 0.0f64);
    sarsa.tree[0].visits = 3;
    sarsa.expand_node(0, &[4], &[0], 0.0, 2.5);
    assert_eq!((sarsa.tree[1].mov, sarsa.tree[1].visits, sarsa.tree[1].value), (4, 3, 2.5));
}

#[test]
fn timed_search_budget_arithmetic() {
    assert_eq!(timed_allot(1000, 0), 250);
    assert_eq!(timed_allot(1000, 500), 125);
    assert_eq!(timed_allot(1000, 1000), 0);
    assert_eq!(timed_allot(1000, 2000), 0);
    assert!(timed_stop(3, 3, 0, 1000, 1));
    assert!(!timed_stop(3, 4, 998, 1000, 1));
    assert!(timed_stop(3, 4, 999, 1000, 1));
    assert!(timed_stop(3, 4, 0, 1, 5));
    assert!(timed_stop(3, 4, u64::MAX, u64::MAX, u64::MAX));
}

#[test]
fn move_visit_counts_follow_the_nodes() {
    let mut mcts = small_tree();
    assert_eq!(mcts.move_visits, vec![0, 0, 0, 0]);
    // Node 1 plays move 3 (handle 3); node 3 plays move 2 (handle 2).
    mcts.record_visit(0);
    mcts.record_visit(1);
    mcts.record_visit(1);
    mcts.record_visit(3);
    assert_eq!((mcts.nodes[0].visits, mcts.nodes[1].visits, mcts.nodes[3].visits), (1, 2, 1));
    assert_eq!(mcts.move_visits, vec![1, 0, 1, 2]);
    // A lone child reached by move 3 again adds its parent's visits to move 3.
    mcts.expand_node(3, &[3], &[0], 0.0, -0.5);
    assert_eq!(mcts.nodes[4].visits, 1);
    assert_eq!(mcts.move_visits, vec![1, 0, 1, 3]);
    // Rerooting at node 3 reclaims nodes 0, 1 and 2 and their visits.
    let gone = mcts.reroot(3);
    assert_eq!(gone.len(), 3);
    assert_eq!(mcts.move_visits, vec![0, 0, 1, 1]);
    let clone = mcts.clone();
    assert_eq!(clone.move_visits, mcts.move_visits);
}
