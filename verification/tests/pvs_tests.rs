use std::collections::{HashMap, VecDeque};

use swift_swallow_tree_search::game::{Position, PositionTable, TableGame};
use swift_swallow_tree_search::pvs::{ridge_descent, sort_by_history, INF};
use swift_swallow_tree_search::{search, GameState};

fn leaf(eval: i32) -> Position {
    Position { over: true, eval, moves: vec![], children: vec![] }
}

fn inner(eval: i32, moves: Vec<u64>, children: Vec<usize>) -> Position {
    Position { over: false, eval, moves, children }
}

/// Root with two moves, 10 and 20, to positions scored 5 and -3 for the
/// side to move there.
fn two_moves() -> PositionTable {
    PositionTable::new(vec![inner(0, vec![10, 20], vec![1, 2]), leaf(5), leaf(-3)]).unwrap()
}

#[test]
fn ridge_descent_steps_toward_target() {
    assert_eq!(ridge_descent(0, 1000), 6);
    assert_eq!(ridge_descent(1000, 0), 987);
    assert_eq!(ridge_descent(-7, 50), -7);
    assert_eq!(ridge_descent(0, -50), 0);
    assert_eq!(ridge_descent(300, 300), 298);
}

#[test]
fn table_rejects_malformed_positions() {
    assert!(PositionTable::new(vec![inner(0, vec![1], vec![0])]).is_none());
    assert!(PositionTable::new(vec![inner(0, vec![1], vec![1])]).is_none());
    assert!(PositionTable::new(vec![inner(0, vec![1, 2], vec![1]), leaf(0)]).is_none());
    assert!(PositionTable::new(vec![leaf(INF + 1)]).is_none());
    assert!(PositionTable::new(vec![leaf(INF), leaf(-INF)]).is_some());
}

#[test]
fn table_game_follows_moves() {
    let table = two_moves();
    let mut game = TableGame::new(&table);
    assert_eq!(game.moves(), vec![10, 20]);
    assert!(!game.is_over());
    game.play(20);
    assert_eq!(game.at, 2);
    assert_eq!(game.evaluate_i32(), -3);
    assert!(game.moves().is_empty());
    let mut other = TableGame::new(&table);
    other.play(99);
    assert!(other.is_over());
    assert_eq!(other.evaluate_i32(), 0);
}

#[test]
fn search_at_depth_zero_evaluates() {
    let table = two_moves();
    let game = TableGame::new(&table);
    let mut pv = VecDeque::new();
    let mut history: HashMap<u64, i32> = HashMap::new();
    assert_eq!(search(0, &mut pv, &mut history, &game), 0);
    assert!(pv.is_empty());
    assert!(history.is_empty());
}

#[test]
fn search_on_finished_game_evaluates() {
    let table = PositionTable::new(vec![Position { over: true, eval: 42, moves: vec![1], children: vec![1] }, leaf(0)]).unwrap();
    let game = TableGame::new(&table);
    let mut pv = VecDeque::new();
    let mut history: HashMap<u64, i32> = HashMap::new();
    assert_eq!(search(5, &mut pv, &mut history, &game), 42);
    assert!(pv.is_empty());
}

#[test]
fn search_one_ply_picks_best_reply() {
    let table = two_moves();
    let game = TableGame::new(&table);
    let mut pv = VecDeque::new();
    let mut history: HashMap<u64, i32> = HashMap::new();
    assert_eq!(search(1, &mut pv, &mut history, &game), 3);
    assert_eq!(pv, VecDeque::from(vec![20]));
    assert_eq!(history.len(), 2);
    assert_eq!(history[&10], 0);
    assert_eq!(history[&20], 0);
}

#[test]
fn search_tries_the_given_principal_variation_first() {
    let table = two_moves();
    let game = TableGame::new(&table);
    let mut pv = VecDeque::from(vec![20]);
    let mut history: HashMap<u64, i32> = HashMap::new();
    assert_eq!(search(1, &mut pv, &mut history, &game), 3);
    assert_eq!(pv, VecDeque::from(vec![20]));
    assert_eq!(history[&10], 0);
    assert_eq!(history[&20], 0);
}

#[test]
fn search_trains_history_on_cutoffs() {
    // Two plies: the opponent's replies decide the value of each move.
    let table = PositionTable::new(vec![
        inner(0, vec![1, 2], vec![1, 2]),
        inner(0, vec![3, 4], vec![3, 4]),
        inner(0, vec![5], vec![5]),
        leaf(-100),
        leaf(10),
        leaf(7),
    ])
    .unwrap();
    let game = TableGame::new(&table);
    let mut pv = VecDeque::new();
    let mut history: HashMap<u64, i32> = HashMap::new();
    let score = search(2, &mut pv, &mut history, &game);
    assert_eq!(score, 7);
    assert_eq!(pv.front(), Some(&2));
    assert!(history.contains_key(&1));
    assert!(history.contains_key(&2));
}

#[test]
fn moves_are_ordered_by_history_weight() {
    let mut history: HashMap<u64, i32> = HashMap::new();
    history.insert(3, 10);
    history.insert(4, -5);
    history.insert(6, 10);
    history.insert(7, 99);
    let sorted = sort_by_history(&vec![1, 3, 4, 5, 6, 7], &history);
    // Heaviest first; equal weights keep their order; unweighted moves last.
    assert_eq!(sorted, vec![7, 3, 6, 4, 1, 5]);
    assert!(sort_by_history(&vec![], &history).is_empty());
}

#[test]
fn search_one_ply_is_negamax_whatever_the_history() {
    // Three moves to positions scored 4, -9 and 2 for the opponent: the
    // negamax value is 9, reached by move 31.
    let table = PositionTable::new(vec![
        inner(0, vec![30, 31, 32], vec![1, 2, 3]),
        leaf(4),
        leaf(-9),
        leaf(2),
    ])
    .unwrap();
    let game = TableGame::new(&table);
    for weights in [[0, 0, 0], [500, -20, 7], [-3, -3, 900]] {
        let mut history: HashMap<u64, i32> = HashMap::new();
        for (mov, w) in [30u64, 31, 32].into_iter().zip(weights) {
            history.insert(mov, w);
        }
        let mut pv = VecDeque::new();
        assert_eq!(search(1, &mut pv, &mut history, &game), 9);
        assert_eq!(pv, VecDeque::from(vec![31]));
    }
}

#[test]
fn search_without_a_move_to_make_leaves_any_history_alone() {
    let table = two_moves();
    let game = TableGame::new(&table);
    let mut history: HashMap<u64, i32> = HashMap::new();
    history.insert(10, i32::MAX);
    history.insert(20, i32::MIN);
    let mut pv = VecDeque::from(vec![20, 99]);
    assert_eq!(search(0, &mut pv, &mut history, &game), 0);
    assert_eq!(pv, VecDeque::from(vec![20, 99]));
    assert_eq!(history[&10], i32::MAX);
    assert_eq!(history[&20], i32::MIN);

    let over = PositionTable::new(vec![leaf(-17)]).unwrap();
    let mut pv = VecDeque::new();
    assert_eq!(search(i32::MAX, &mut pv, &mut history, &TableGame::new(&over)), -17);
    assert_eq!(history.len(), 2);
}

#[test]
fn search_one_ply_accepts_weights_up_to_the_cap() {
    let table = two_moves();
    let game = TableGame::new(&table);
    let mut history: HashMap<u64, i32> = HashMap::new();
    history.insert(10, 536_000_000);
    history.insert(20, -536_000_000);
    let mut pv = VecDeque::new();
    assert_eq!(search(1, &mut pv, &mut history, &game), 3);
    assert_eq!(pv, VecDeque::from(vec![20]));
    // Each weight took one ridge descent step toward -50.
    assert_eq!(history[&10], ridge_descent(536_000_000, -50));
    assert_eq!(history[&20], ridge_descent(-536_000_000, -50));
}

#[test]
fn search_keeps_a_legal_principal_variation() {
    let table = PositionTable::new(vec![
        inner(0, vec![1, 2], vec![1, 2]),
        inner(0, vec![3, 4], vec![3, 4]),
        inner(0, vec![5, 6], vec![5, 6]),
        leaf(-100),
        leaf(10),
        leaf(7),
        leaf(8),
    ])
    .unwrap();
    for depth in 1..6 {
        let game = TableGame::new(&table);
        let mut pv = VecDeque::new();
        let mut history: HashMap<u64, i32> = HashMap::new();
        let _ = search(depth, &mut pv, &mut history, &game);
        let mut at = TableGame::new(&table);
        for mov in pv {
            assert!(at.moves().contains(&mov));
            at.play(mov);
        }
    }
}

#[test]
fn search_ignores_weights_of_moves_it_cannot_reach() {
    let table = two_moves();
    let game = TableGame::new(&table);
    let mut history: HashMap<u64, i32> = HashMap::new();
    history.insert(77, i32::MAX);
    history.insert(78, i32::MIN);
    history.insert(10, 536_870_886);
    let mut pv = VecDeque::new();
    assert_eq!(search(1, &mut pv, &mut history, &game), 3);
    assert_eq!(history[&77], i32::MAX);
    assert_eq!(history[&78], i32::MIN);
    assert_eq!(history[&10], ridge_descent(536_870_886, -50));
}
