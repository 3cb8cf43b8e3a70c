use eight_puzzle::board::{Board, Direction};
use eight_puzzle::heuristics::{manhattan_peer, Heuristic};

#[test]
fn test_heuristic() {
    let board = Board::new([[8, 7, 3], [2, 0, 5], [1, 4, 6]]);
    assert_eq!(Heuristic::Blind.estimate(&board), 0);
    assert_eq!(Heuristic::Hamming.estimate(&board), 8);
    assert_eq!(Heuristic::Manhattan.estimate(&board), 16);
}

#[test]
fn every_estimate_of_the_goal_is_zero() {
    let goal = Board::goal();
    assert_eq!(Heuristic::Blind.estimate(&goal), 0);
    assert_eq!(Heuristic::Hamming.estimate(&goal), 0);
    assert_eq!(Heuristic::Manhattan.estimate(&goal), 0);
}

#[test]
fn the_blank_counts_as_a_cell() {
    // one slide from the goal: the tile and the blank are both out of place
    let board = Board::new([[1, 2, 3], [4, 5, 6], [7, 0, 8]]);
    assert_eq!(Heuristic::Blind.estimate(&board), 0);
    assert_eq!(Heuristic::Hamming.estimate(&board), 2);
    assert_eq!(Heuristic::Manhattan.estimate(&board), 2);
}

#[test]
fn estimates_of_a_reversed_board() {
    let board = Board::new([[0, 8, 7], [6, 5, 4], [3, 2, 1]]);
    assert_eq!(Heuristic::Blind.estimate(&board), 0);
    // only tile 5 is where it belongs
    assert_eq!(Heuristic::Hamming.estimate(&board), 8);
    // blank 4, 8 and 1: 3 each... summed cell by cell
    assert_eq!(Heuristic::Manhattan.estimate(&board), 4 + 3 + 2 + 3 + 0 + 3 + 2 + 3 + 4);
}

#[test]
fn blocked_tiles_make_manhattan_exceed_the_shortest_plan() {
    // this board is fourteen slides from the goal
    let board = Board::new([[8, 7, 3], [2, 0, 5], [1, 4, 6]]);
    assert!(Heuristic::Manhattan.estimate(&board) > 14);
    // with the blank in its corner no estimate overshoots: twelve slides
    let cornered = Board::new([[4, 1, 3], [5, 6, 8], [2, 7, 0]]);
    assert!(Heuristic::Hamming.estimate(&cornered) <= 12);
    assert!(Heuristic::Manhattan.estimate(&cornered) <= 12);
}

#[test]
fn manhattan_peer_follows_the_goal_table() {
    let places: [(u8, u8); 9] =
        [(2, 2), (0, 0), (0, 1), (0, 2), (1, 0), (1, 1), (1, 2), (2, 0), (2, 1)];
    for tile in 0..9u8 {
        let home = places[tile as usize];
        assert_eq!(manhattan_peer(tile, home), 0);
        for row in 0..3u8 {
            for col in 0..3u8 {
                let expected = row.abs_diff(home.0) + col.abs_diff(home.1);
                assert_eq!(manhattan_peer(tile, (row, col)), expected);
            }
        }
    }
    assert_eq!(manhattan_peer(8, (0, 0)), 3);
    assert_eq!(manhattan_peer(0, (0, 0)), 4);
    assert_eq!(manhattan_peer(1, (2, 2)), 4);
    assert_eq!(manhattan_peer(5, (0, 2)), 2);
}

#[test]
fn one_slide_changes_an_estimate_by_at_most_two() {
    let board = Board::new([[8, 7, 3], [2, 0, 5], [1, 4, 6]]);
    let directions = [Direction::Up, Direction::Down, Direction::Left, Direction::Right];
    for heuristic in [Heuristic::Blind, Heuristic::Hamming, Heuristic::Manhattan] {
        let here = heuristic.estimate(&board);
        for direction in directions {
            let there = heuristic.estimate(&board.apply(direction).unwrap());
            assert!(here.abs_diff(there) <= 2);
            if heuristic == Heuristic::Blind {
                assert_eq!(there, 0);
            }
        }
    }
}
