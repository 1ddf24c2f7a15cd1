use taquin::board::{Board, Direction};
use taquin::heuristics::Heuristic;
use taquin::search::{beam_search, beam_step, ida_star, search, Stats};

fn two_moves_away() -> Board {
    Board::new([[1, 2, 3, 4], [5, 6, 7, 8], [9, 10, 11, 12], [13, 0, 14, 15]])
}

fn one_move_away() -> Board {
    Board::new([[1, 2, 3, 4], [5, 6, 7, 8], [9, 10, 11, 12], [13, 14, 0, 15]])
}

fn nine_moves_away() -> Board {
    Board::new([[5, 1, 2, 3], [9, 6, 7, 4], [13, 10, 11, 8], [0, 14, 15, 12]])
}

fn four_moves_away() -> Board {
    Board::new([[1, 2, 3, 4], [5, 6, 7, 8], [9, 10, 0, 11], [13, 14, 15, 12]])
        .apply(Direction::Left)
        .unwrap()
        .apply(Direction::Up)
        .unwrap()
}

#[test]
fn test_search_basic() {
    let board = Board::new([
        [1, 2, 3, 4],
        [5, 6, 7, 8],
        [9, 10, 11, 12],
        [13, 0, 14, 15],
    ]);
    let opt_plan = ida_star(board, &Heuristic::Manhattan);
    let plan = opt_plan.expect("IDA* should solve simple instance");
    assert_eq!(plan.len(), 2);
}

#[test]
fn test_beam_search_basic() {
    let board = Board::new([
        [1, 2, 3, 4],
        [5, 6, 7, 8],
        [9, 10, 11, 12],
        [13, 0, 14, 15],
    ]);
    let plan = beam_search(board, &Heuristic::Manhattan, 2, 5)
        .expect("Beam search should solve simple instance");
    assert_eq!(plan.len(), 2);
}

#[test]
fn one_move_scenario_all_searches() {
    let board = one_move_away();
    let (plan, stats) = search(board, &Heuristic::Manhattan);
    assert_eq!(plan, Some(vec![Direction::Right]));
    assert_eq!(stats.expanded, 1);
    assert_eq!(ida_star(board, &Heuristic::Manhattan), Some(vec![Direction::Right]));
    assert_eq!(beam_search(board, &Heuristic::Manhattan, 1, 10), Some(vec![Direction::Right]));
    assert_eq!(beam_search(board, &Heuristic::Hamming, 3, 10), Some(vec![Direction::Right]));
}

#[test]
fn goal_needs_no_move() {
    let goal = Board::goal();
    let (plan, stats) = search(goal, &Heuristic::Manhattan);
    assert_eq!(plan, Some(vec![]));
    assert_eq!(stats.expanded, 0);
    assert_eq!(ida_star(goal, &Heuristic::Hamming), Some(vec![]));
    assert_eq!(beam_search(goal, &Heuristic::Blind, 1, 0), Some(vec![]));
}

#[test]
fn astar_matches_blind_ground_truth() {
    for board in [one_move_away(), two_moves_away(), four_moves_away()] {
        let (blind, _) = search(board, &Heuristic::Blind);
        let blind = blind.unwrap();
        for h in [Heuristic::Hamming, Heuristic::Manhattan] {
            let (plan, _) = search(board, &h);
            assert_eq!(plan.unwrap().len(), blind.len());
        }
    }
    let (p, _) = search(four_moves_away(), &Heuristic::Blind);
    assert_eq!(p.unwrap().len(), 4);
}

#[test]
fn astar_and_ida_agree_on_length() {
    for board in [two_moves_away(), four_moves_away(), nine_moves_away()] {
        for h in [Heuristic::Hamming, Heuristic::Manhattan] {
            let (a, _) = search(board, &h);
            let i = ida_star(board, &h);
            assert_eq!(a.unwrap().len(), i.unwrap().len());
        }
    }
    let (a, _) = search(nine_moves_away(), &Heuristic::Manhattan);
    assert_eq!(a.unwrap().len(), 9);
}

#[test]
fn returned_plans_are_valid() {
    let board = nine_moves_away();
    let (a, _) = search(board, &Heuristic::Manhattan);
    assert!(board.is_valid_plan(&a.unwrap()));
    assert!(board.is_valid_plan(&ida_star(board, &Heuristic::Manhattan).unwrap()));
    assert!(board.is_valid_plan(&beam_search(board, &Heuristic::Manhattan, 10, 30).unwrap()));
    let shuffled = Board::random(30);
    let plan = ida_star(shuffled, &Heuristic::Manhattan).unwrap();
    assert!(shuffled.is_valid_plan(&plan));
    assert!(plan.len() <= 30);
}

#[test]
fn beam_respects_max_depth() {
    let board = nine_moves_away();
    assert_eq!(beam_search(board, &Heuristic::Manhattan, 10, 8), None);
    let plan = beam_search(board, &Heuristic::Manhattan, 10, 9).unwrap();
    assert_eq!(plan.len(), 9);
    assert_eq!(beam_search(two_moves_away(), &Heuristic::Manhattan, 0, 5), None);
}

#[test]
fn beam_step_keeps_best_within_width() {
    let frontier = vec![(two_moves_away(), vec![], 0u32)];
    let all = beam_step(&frontier, &Heuristic::Manhattan, 10);
    assert_eq!(all.len(), 3);
    assert_eq!(all[0].1, vec![Direction::Right]);
    assert_eq!(all[1].1, vec![Direction::Up]);
    assert_eq!(all[2].1, vec![Direction::Left]);
    let kept = beam_step(&frontier, &Heuristic::Manhattan, 2);
    assert_eq!(kept.len(), 2);
    assert_eq!(kept[0].2, 1);
    assert_eq!(kept[0].0, one_move_away());
    assert_eq!(beam_step(&frontier, &Heuristic::Manhattan, 0).len(), 0);
}

#[test]
fn stats_keep_their_fields() {
    let s = Stats::new(7, std::time::Duration::from_millis(3));
    assert_eq!(s.expanded, 7);
    assert_eq!(s.runtime, std::time::Duration::from_millis(3));
}

#[test]
fn beam_is_deterministic_and_minimal_on_one_move() {
    let board = one_move_away();
    assert_eq!(beam_search(board, &Heuristic::Hamming, 1, 1), Some(vec![Direction::Right]));
    assert_eq!(beam_search(board, &Heuristic::Manhattan, 1, 0), None);
    assert_eq!(beam_search(board, &Heuristic::Manhattan, 0, 3), None);
    let a = beam_search(nine_moves_away(), &Heuristic::Hamming, 3, 20);
    let b = beam_search(nine_moves_away(), &Heuristic::Hamming, 3, 20);
    assert_eq!(a, b);
}

#[test]
fn ida_plan_repeats_no_board() {
    let board = nine_moves_away();
    let plan = ida_star(board, &Heuristic::Manhattan).unwrap();
    let mut seen = vec![board.key()];
    let mut cur = board;
    for d in plan {
        cur = cur.apply(d).unwrap();
        assert!(!seen.contains(&cur.key()));
        seen.push(cur.key());
    }
}
