use taquin::board::{Board, Direction};
use taquin::heuristics::Heuristic;
use taquin::min_heap::MinHeap;

#[test]
fn test_heuristic() {
    let board = Board::new([[8, 7, 3, 4], [2, 0, 5, 12], [1, 6, 11, 9], [13, 14, 15, 10]]);
    assert_eq!(Heuristic::Blind.estimate(&board), 0);
    assert_eq!(Heuristic::Hamming.estimate(&board), 9);
    assert_eq!(Heuristic::Manhattan.estimate(&board), 20);
}

#[test]
fn heuristics_on_shifted_board() {
    let board = Board::new([[5, 1, 2, 3], [9, 6, 7, 4], [13, 10, 11, 8], [0, 14, 15, 12]]);
    assert_eq!(Heuristic::Hamming.estimate(&board), 9);
    assert_eq!(Heuristic::Manhattan.estimate(&board), 9);
    assert_eq!(Heuristic::Manhattan.estimate(&Board::goal()), 0);
    assert_eq!(Heuristic::Hamming.estimate(&Board::goal()), 0);
}

#[test]
fn apply_moves_the_blank() {
    let goal = Board::goal();
    assert_eq!(goal.apply(Direction::Down), None);
    assert_eq!(goal.apply(Direction::Right), None);
    let up = goal.apply(Direction::Up).unwrap();
    assert_eq!(up.value_at(2, 3), 0);
    assert_eq!(up.value_at(3, 3), 12);
    assert_eq!(up.apply(Direction::Down), Some(goal));
    let left = goal.apply(Direction::Left).unwrap();
    assert_eq!(left.value_at(3, 2), 0);
    assert_eq!(left.value_at(3, 3), 15);
    assert_eq!(left.position(0), (3, 2));
}

#[test]
fn opposite_directions() {
    assert_eq!(Direction::Up.opposite(), Direction::Down);
    assert_eq!(Direction::Down.opposite(), Direction::Up);
    assert_eq!(Direction::Left.opposite(), Direction::Right);
    assert_eq!(Direction::Right.opposite(), Direction::Left);
}

#[test]
fn plan_validity() {
    let board = Board::new([[1, 2, 3, 4], [5, 6, 7, 8], [9, 10, 11, 12], [13, 0, 14, 15]]);
    assert!(board.is_valid_plan(&[Direction::Right, Direction::Right]));
    assert!(!board.is_valid_plan(&[Direction::Right]));
    assert!(!board.is_valid_plan(&[Direction::Down, Direction::Right, Direction::Right]));
    assert!(Board::goal().is_valid_plan(&[]));
}

#[test]
fn well_formedness() {
    assert!(Board::goal().is_well_formed());
    let twice = Board::new([[1, 1, 3, 4], [5, 6, 7, 8], [9, 10, 11, 12], [13, 14, 15, 0]]);
    assert!(!twice.is_well_formed());
    let large = Board::new([[1, 2, 3, 4], [5, 6, 7, 8], [9, 10, 11, 12], [13, 14, 16, 0]]);
    assert!(!large.is_well_formed());
}

#[test]
fn random_boards_are_well_formed() {
    for n in [0usize, 1, 5, 40] {
        let b = Board::random(n);
        assert!(b.is_well_formed());
    }
    assert_eq!(Board::random(0), Board::goal());
    assert_ne!(Board::random(1), Board::goal());
}

#[test]
fn keys_tell_boards_apart() {
    let goal = Board::goal();
    let up = goal.apply(Direction::Up).unwrap();
    assert_ne!(goal.key(), up.key());
    assert_eq!(goal.key(), 0x1234_5678_9ABC_DEF0);
}

#[test]
fn queue_pops_in_key_order() {
    let mut q: MinHeap<&str> = MinHeap::new();
    assert!(q.is_empty());
    assert_eq!(q.pop(), None);
    q.insert("c", 5);
    q.insert("a", 1);
    q.insert("d", 9);
    q.insert("b", 1);
    q.insert("e", 3);
    assert_eq!(q.len(), 5);
    let mut keys = vec![];
    while let Some(e) = q.pop_entry() {
        keys.push(e.0);
    }
    assert_eq!(keys, vec![1, 1, 3, 5, 9]);
    assert_eq!(q.pop(), None);
}

#[test]
fn queue_keeps_equal_items_under_different_keys() {
    let mut q: MinHeap<u32> = MinHeap::new();
    q.insert(7, 4);
    q.insert(7, 2);
    q.insert(8, 3);
    assert_eq!(q.pop_entry(), Some((2, 7)));
    assert_eq!(q.pop_entry(), Some((3, 8)));
    assert_eq!(q.pop_entry(), Some((4, 7)));
    assert_eq!(q.pop_entry(), None);
}

#[test]
fn opposite_move_undoes_a_move() {
    let board = Board::new([[5, 1, 2, 3], [9, 6, 7, 4], [13, 10, 11, 8], [0, 14, 15, 12]]);
    for d in [Direction::Up, Direction::Down, Direction::Left, Direction::Right] {
        if let Some(next) = board.apply(d) {
            assert_ne!(next, board);
            assert_eq!(next.apply(d.opposite()), Some(board));
        }
    }
    assert_eq!(board.apply(Direction::Down), None);
    assert_eq!(board.apply(Direction::Left), None);
}
