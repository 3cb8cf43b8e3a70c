use eight_puzzle::board::{Board, Direction};
use eight_puzzle::heuristics::Heuristic;
use eight_puzzle::search::{search, Stats};
use std::time::Duration;

/// Boards with the length of their shortest plans.
const INSTANCES: [(u32, [[u8; 3]; 3]); 32] = [
    (0, [[1, 2, 3], [4, 5, 6], [7, 8, 0]]),
    (1, [[1, 2, 3], [4, 5, 0], [7, 8, 6]]),
    (2, [[1, 2, 3], [4, 0, 6], [7, 5, 8]]),
    (3, [[1, 2, 3], [0, 4, 5], [7, 8, 6]]),
    (4, [[1, 3, 0], [4, 2, 5], [7, 8, 6]]),
    (5, [[1, 2, 3], [7, 4, 6], [5, 0, 8]]),
    (6, [[4, 1, 2], [7, 5, 3], [0, 8, 6]]),
    (7, [[1, 0, 3], [7, 2, 5], [8, 4, 6]]),
    (8, [[1, 2, 3], [7, 0, 4], [8, 6, 5]]),
    (9, [[4, 1, 3], [2, 6, 8], [7, 0, 5]]),
    (10, [[2, 4, 3], [7, 1, 5], [8, 6, 0]]),
    (11, [[2, 6, 5], [0, 1, 3], [4, 7, 8]]),
    (12, [[4, 1, 3], [5, 6, 8], [2, 7, 0]]),
    (13, [[2, 4, 1], [7, 5, 3], [8, 0, 6]]),
    (14, [[8, 7, 3], [2, 0, 5], [1, 4, 6]]),
    (15, [[3, 4, 5], [7, 1, 6], [2, 0, 8]]),
    (16, [[8, 5, 0], [2, 3, 1], [4, 7, 6]]),
    (17, [[3, 6, 8], [1, 5, 0], [7, 4, 2]]),
    (18, [[7, 2, 3], [8, 1, 6], [4, 5, 0]]),
    (19, [[4, 2, 7], [5, 1, 0], [6, 8, 3]]),
    (20, [[0, 6, 3], [1, 4, 5], [2, 8, 7]]),
    (21, [[3, 8, 4], [5, 7, 0], [1, 6, 2]]),
    (22, [[8, 3, 1], [4, 0, 2], [5, 6, 7]]),
    (23, [[7, 0, 8], [3, 2, 1], [4, 6, 5]]),
    (24, [[8, 6, 0], [3, 7, 5], [2, 1, 4]]),
    (25, [[8, 1, 6], [4, 7, 0], [3, 5, 2]]),
    (26, [[8, 7, 0], [5, 6, 2], [3, 4, 1]]),
    (27, [[8, 2, 5], [6, 4, 0], [3, 7, 1]]),
    (28, [[0, 7, 8], [1, 5, 4], [2, 6, 3]]),
    (29, [[8, 0, 1], [2, 5, 4], [3, 6, 7]]),
    (30, [[0, 6, 7], [8, 5, 4], [1, 2, 3]]),
    (31, [[8, 6, 7], [2, 5, 4], [3, 0, 1]]),
];

const HEURISTICS: [Heuristic; 3] = [Heuristic::Blind, Heuristic::Hamming, Heuristic::Manhattan];

fn reaches_goal(start: Board, plan: &[Direction]) -> bool {
    let mut board = start;
    for &direction in plan {
        match board.apply(direction) {
            Some(next) => board = next,
            None => return false,
        }
    }
    board == Board::goal()
}

#[test]
fn test_search() {
    for (expected_cost, cells) in &INSTANCES[0..20] {
        let init = Board::new(*cells);
        let (path, stats) = search(init, &Heuristic::Blind, 3);
        let path = path.expect("no plan");
        assert!(init.is_valid_plan(&path));
        assert_eq!(path.len(), *expected_cost as usize);
        println!("{0}, {1}", stats.expanded, stats.runtime.as_millis());
    }
}

#[test]
fn blind_search_is_optimal_whatever_the_weight() {
    for weight in [0, 1, 2, 3, 1000, u32::MAX] {
        for (expected_cost, cells) in &INSTANCES[0..16] {
            let init = Board::new(*cells);
            let (plan, _) = search(init, &Heuristic::Blind, weight);
            let plan = plan.expect("no plan");
            assert!(reaches_goal(init, &plan));
            assert_eq!(plan.len(), *expected_cost as usize);
        }
    }
}

#[test]
fn weight_zero_is_optimal_whatever_the_heuristic() {
    for heuristic in &HEURISTICS {
        for (expected_cost, cells) in &INSTANCES[0..16] {
            let init = Board::new(*cells);
            let (plan, _) = search(init, heuristic, 0);
            let plan = plan.expect("no plan");
            assert!(reaches_goal(init, &plan));
            assert_eq!(plan.len(), *expected_cost as usize);
        }
    }
}

#[test]
fn plans_found_solve_the_board_within_the_stretch() {
    for weight in [1u32, 2, 3] {
        for heuristic in &HEURISTICS {
            for (expected_cost, cells) in &INSTANCES {
                if *heuristic == Heuristic::Blind && *expected_cost > 20 {
                    continue;
                }
                let init = Board::new(*cells);
                let (plan, stats) = search(init, heuristic, weight);
                let plan = plan.expect("no plan");
                assert!(init.is_valid_plan(&plan));
                assert!(reaches_goal(init, &plan));
                let optimal = *expected_cost as usize;
                assert!(plan.len() >= optimal);
                let stretch = if *heuristic == Heuristic::Blind { 1 } else { 2 * weight as usize };
                assert!(plan.len() <= stretch * optimal);
                assert!(plan.len() <= stats.expanded);
            }
        }
    }
}

#[test]
fn the_longest_instance_is_solved_in_thirty_one_slides() {
    let init = Board::new([[8, 6, 7], [2, 5, 4], [3, 0, 1]]);
    let (plan, stats) = search(init, &Heuristic::Blind, 1);
    let plan = plan.expect("no plan");
    assert!(reaches_goal(init, &plan));
    assert_eq!(plan.len(), 31);
    // no board lies further from the goal: all but the goal are expanded by then
    assert!(stats.expanded <= 181_439);
}

#[test]
fn searching_from_the_goal_expands_nothing() {
    for weight in [0u32, 1, 2, 3, u32::MAX] {
        for heuristic in &HEURISTICS {
            let (plan, stats) = search(Board::goal(), heuristic, weight);
            assert_eq!(plan, Some(Vec::new()));
            assert_eq!(stats.expanded, 0);
        }
    }
}

#[test]
fn one_slide_from_the_goal() {
    let init = Board::new([[1, 2, 3], [4, 5, 6], [7, 0, 8]]);
    for weight in [0u32, 1, 2, 3] {
        for heuristic in &HEURISTICS {
            let (plan, stats) = search(init, heuristic, weight);
            assert_eq!(plan, Some(vec![Direction::Right]));
            assert!(stats.expanded >= 1);
        }
    }
}

#[test]
fn an_unsolvable_board_has_no_plan() {
    // two tiles of the goal exchanged: half of all boards can be reached, the goal is not one
    let init = Board::new([[2, 1, 3], [4, 5, 6], [7, 8, 0]]);
    let (plan, stats) = search(init, &Heuristic::Manhattan, 2);
    assert_eq!(plan, None);
    assert_eq!(stats.expanded, 181_440);
}

#[test]
fn a_heavy_weight_does_not_overflow() {
    let init = Board::new([[8, 7, 3], [2, 0, 5], [1, 4, 6]]);
    for heuristic in &HEURISTICS {
        let (plan, _) = search(init, heuristic, u32::MAX);
        let plan = plan.expect("no plan");
        assert!(reaches_goal(init, &plan));
        assert!(plan.len() >= 14);
    }
}

#[test]
fn stats_new_keeps_its_arguments() {
    let stats = Stats::new(42, Duration::from_millis(1500));
    assert_eq!(stats.expanded, 42);
    assert_eq!(stats.runtime, Duration::from_millis(1500));
}
