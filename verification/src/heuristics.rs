//! Estimates of the number of slides that separate a board from the solved one.
//!
//! Every estimate is a sum over the nine cells of a per-cell term. The blank is a
//! cell like any other, so one slide can change an estimate by up to two: the
//! term of the tile that moved and the term of the blank.

use crate::board::{
    blank_of, goal_grid, grid_wf, lemma_blank_unique, lemma_slide_wf, neighbour, run, slide,
    Board, Direction, N,
};
use vstd::prelude::*;

verus! {

/// A way to estimate the cost of reaching the solved configuration.
#[derive(Debug, Clone, Copy, PartialEq, Eq, Structural)]
pub enum Heuristic {
    /// Always 0.
    Blind,
    /// The number of cells that differ from the solved configuration.
    Hamming,
    /// The sum over the cells of the distance, in rows plus columns, between the
    /// cell and the place of its tile in the solved configuration.
    Manhattan,
}

/// Row and column of tile `v` in the solved configuration.
pub open spec fn goal_position(v: u8) -> (int, int) {
    if v == 0 {
        (2, 2)
    } else if v == 1 {
        (0, 0)
    } else if v == 2 {
        (0, 1)
    } else if v == 3 {
        (0, 2)
    } else if v == 4 {
        (1, 0)
    } else if v == 5 {
        (1, 1)
    } else if v == 6 {
        (1, 2)
    } else if v == 7 {
        (2, 0)
    } else {
        (2, 1)
    }
}

/// Distance between two coordinates on one axis.
pub open spec fn gap(a: int, b: int) -> int {
    if a >= b {
        a - b
    } else {
        b - a
    }
}

/// Rows plus columns between cell `cell` and the goal position of tile `v`.
pub open spec fn cell_distance(v: u8, cell: int) -> int {
    gap(cell / 3, goal_position(v).0) + gap(cell % 3, goal_position(v).1)
}

impl Heuristic {
    /// What tile `v` in cell `cell` adds to the estimate. With `with_blank` unset
    /// the blank adds nothing.
    pub open spec fn term(self, with_blank: bool, v: u8, cell: int) -> int {
        if v == 0 && !with_blank {
            0
        } else {
            match self {
                Heuristic::Blind => 0,
                Heuristic::Hamming => if v != goal_grid()[cell] { 1 } else { 0 },
                Heuristic::Manhattan => cell_distance(v, cell),
            }
        }
    }

    /// The sum of the terms of the first `n` cells of `s`.
    pub open spec fn total(self, with_blank: bool, s: Seq<u8>, n: int) -> int
        decreases n,
    {
        if n <= 0 {
            0
        } else {
            self.total(with_blank, s, n - 1) + self.term(with_blank, s[n - 1], n - 1)
        }
    }

    /// The estimate for grid `s`: the terms of all nine cells, the blank included.
    pub open spec fn value(self, s: Seq<u8>) -> int {
        self.total(true, s, 9)
    }

    /// The estimate for grid `s` with the blank left out.
    pub open spec fn tiles_value(self, s: Seq<u8>) -> int {
        self.total(false, s, 9)
    }

    /// The most by which one slide can change the estimate.
    pub open spec fn slope(self) -> int {
        match self {
            Heuristic::Blind => 0,
            _ => 2,
        }
    }

    /// The estimate for `board`.
    pub fn estimate(&self, board: &Board) -> (h: u32)
        requires
            board.wf(),
        ensures
            h == self.value(board@),
    {
        match self {
            Heuristic::Blind => {
                proof {
                    self.lemma_total_range(true, board@, 9);
                }
                0
            },
            Heuristic::Hamming => {
                let goal = Board::goal();
                let mut distance: u32 = 0;
                for i in 0..N
                    invariant
                        goal@ == goal_grid(),
                        *self == Heuristic::Hamming,
                        distance == self.total(true, board@, 3 * i),
                        distance <= 3 * i,
                {
                    for j in 0..N
                        invariant
                            i < 3,
                            goal@ == goal_grid(),
                            *self == Heuristic::Hamming,
                            distance == self.total(true, board@, 3 * i + j),
                            distance <= 3 * i + j,
                    {
                        if board.value_at(i, j) != goal.value_at(i, j) {
                            distance += 1;
                        }
                    }
                }
                distance
            },
            Heuristic::Manhattan => {
                let mut distance: u32 = 0;
                for i in 0..N
                    invariant
                        board.wf(),
                        *self == Heuristic::Manhattan,
                        distance == self.total(true, board@, 3 * i),
                        distance <= 4 * (3 * i),
                {
                    for j in 0..N
                        invariant
                            i < 3,
                            board.wf(),
                            *self == Heuristic::Manhattan,
                            distance == self.total(true, board@, 3 * i + j),
                            distance <= 4 * (3 * i + j),
                    {
                        distance += manhattan_peer(board.value_at(i, j), (i as u8, j as u8)) as u32;
                    }
                }
                distance
            },
        }
    }

    /// A sum of terms lies between 0 and four per cell.
    pub proof fn lemma_total_range(self, with_blank: bool, s: Seq<u8>, n: int)
        requires
            0 <= n <= 9,
        ensures
            0 <= self.total(with_blank, s, n) <= 4 * n,
            self == Heuristic::Blind ==> self.total(with_blank, s, n) == 0,
        decreases n,
    {
        if n > 0 {
            self.lemma_total_range(with_blank, s, n - 1);
        }
    }

    /// Replacing the tile of one cell changes the sum by the difference of the two terms.
    pub proof fn lemma_total_update(self, with_blank: bool, s: Seq<u8>, n: int, cell: int, v: u8)
        requires
            0 <= cell < s.len(),
            0 <= n <= s.len(),
        ensures
            self.total(with_blank, s.update(cell, v), n) == self.total(with_blank, s, n) + if cell
                < n {
                self.term(with_blank, v, cell) - self.term(with_blank, s[cell], cell)
            } else {
                0
            },
        decreases n,
    {
        if n > 0 {
            self.lemma_total_update(with_blank, s, n - 1, cell, v);
        }
    }

    /// Moving a tile to a neighbouring cell changes its term by at most one.
    pub proof fn lemma_term_step(self, with_blank: bool, v: u8, cell: int, d: Direction)
        requires
            0 <= cell < 9,
            v < 9,
            neighbour(cell, d) is Some,
        ensures
            -1 <= self.term(with_blank, v, neighbour(cell, d).unwrap()) - self.term(
                with_blank,
                v,
                cell,
            ) <= 1,
            self == Heuristic::Blind ==> self.term(with_blank, v, neighbour(cell, d).unwrap())
                == self.term(with_blank, v, cell),
    {
    }

    /// One slide changes the estimate by at most `slope`, and the estimate without
    /// the blank by at most one.
    pub proof fn lemma_slide_changes(self, s: Seq<u8>, d: Direction)
        requires
            grid_wf(s),
            slide(s, d) is Some,
        ensures
            -self.slope() <= self.value(slide(s, d).unwrap()) - self.value(s) <= self.slope(),
            -1 <= self.tiles_value(slide(s, d).unwrap()) - self.tiles_value(s) <= 1,
    {
        let b = blank_of(s);
        assert(0 <= b < 9 && s[b] == 0);
        let n = neighbour(b, d).unwrap();
        let tile = s[n];
        let u = s.update(b, tile);
        let t = slide(s, d).unwrap();
        assert(t == u.update(n, 0u8));
        assert(u[n] == tile);
        if b < n {
            assert(s[b] != s[n]);
        } else {
            assert(s[n] != s[b]);
        }
        assert(tile != 0);
        lemma_slide_wf(s, d);
        assert(neighbour(n, d.opposite()) == Some(b));
        self.lemma_total_update(true, s, 9, b, tile);
        self.lemma_total_update(true, u, 9, n, 0u8);
        self.lemma_total_update(false, s, 9, b, tile);
        self.lemma_total_update(false, u, 9, n, 0u8);
        self.lemma_term_step(true, 0u8, b, d);
        self.lemma_term_step(true, tile, n, d.opposite());
        self.lemma_term_step(false, tile, n, d.opposite());
    }

    /// Along a legal plan the estimate falls by at most `slope` per slide, and the
    /// estimate without the blank by at most one per slide.
    pub proof fn lemma_plan_changes(self, s: Seq<u8>, plan: Seq<Direction>)
        requires
            grid_wf(s),
            run(s, plan) is Some,
        ensures
            self.value(s) <= self.value(run(s, plan).unwrap()) + self.slope() * plan.len(),
            self.tiles_value(s) <= self.tiles_value(run(s, plan).unwrap()) + plan.len(),
        decreases plan.len(),
    {
        if plan.len() > 0 {
            let t = slide(s, plan[0]).unwrap();
            lemma_slide_wf(s, plan[0]);
            self.lemma_slide_changes(s, plan[0]);
            self.lemma_plan_changes(t, plan.drop_first());
            assert(self.slope() * plan.len() == self.slope() * plan.drop_first().len()
                + self.slope()) by (nonlinear_arith)
                requires
                    plan.len() == plan.drop_first().len() + 1,
            ;
        }
    }

    /// The estimate of the solved configuration is 0, with and without the blank.
    pub proof fn lemma_goal_value(self)
        ensures
            self.value(goal_grid()) == 0,
            self.tiles_value(goal_grid()) == 0,
    {
        reveal_with_fuel(Heuristic::total, 10);
    }

    /// The estimate is the estimate without the blank plus the term of the blank.
    pub proof fn lemma_value_split(self, s: Seq<u8>, n: int)
        requires
            grid_wf(s),
            0 <= n <= 9,
        ensures
            self.total(true, s, n) == self.total(false, s, n) + if blank_of(s) < n {
                self.term(true, 0u8, blank_of(s))
            } else {
                0
            },
        decreases n,
    {
        if n > 0 {
            self.lemma_value_split(s, n - 1);
            if s[n - 1] == 0 {
                lemma_blank_unique(s, n - 1);
            }
        }
    }

    /// Without the blank, no estimate exceeds the length of a plan that solves the
    /// board; with it, the estimate exceeds that length by at most the blank's term.
    pub proof fn lemma_estimate_bound(self, s: Seq<u8>, plan: Seq<Direction>)
        requires
            grid_wf(s),
            run(s, plan) == Some(goal_grid()),
        ensures
            self.tiles_value(s) <= plan.len(),
            self.value(s) <= plan.len() + self.term(true, 0u8, blank_of(s)),
            self.value(s) <= self.slope() * plan.len(),
    {
        self.lemma_plan_changes(s, plan);
        self.lemma_goal_value();
        self.lemma_value_split(s, 9);
    }

    /// An estimate never exceeds the length of a plan that solves the board when the
    /// heuristic is blind or the blank is already in its corner.
    pub proof fn lemma_admissible(self, s: Seq<u8>, plan: Seq<Direction>)
        requires
            grid_wf(s),
            run(s, plan) == Some(goal_grid()),
            self == Heuristic::Blind || s[8] == 0,
        ensures
            self.value(s) <= plan.len(),
    {
        self.lemma_estimate_bound(s, plan);
        self.lemma_total_range(true, s, 9);
        if s[8] == 0 {
            lemma_blank_unique(s, 8);
        }
    }
}

/// Rows plus columns between `position` and the place of tile `cell` in the solved
/// configuration.
pub fn manhattan_peer(cell: u8, position: (u8, u8)) -> (d: u8)
    requires
        cell <= 8,
        position.0 < 3,
        position.1 < 3,
    ensures
        d == cell_distance(cell, 3 * position.0 + position.1),
{
    let expected: (u8, u8) = match cell {
        0 => (2, 2),
        1 => (0, 0),
        2 => (0, 1),
        3 => (0, 2),
        4 => (1, 0),
        5 => (1, 1),
        6 => (1, 2),
        7 => (2, 0),
        _ => (2, 1),
    };
    let rows = if position.0 >= expected.0 {
        position.0 - expected.0
    } else {
        expected.0 - position.0
    };
    let columns = if position.1 >= expected.1 {
        position.1 - expected.1
    } else {
        expected.1 - position.1
    };
    rows + columns
}

} // verus!
