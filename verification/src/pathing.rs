//! The grid as a graph for pathfinding: the exits of a cell, their costs, distances,
//! and what it means for one cell to be reachable from another.

use crate::map::{gap, lemma_cell_index, lemma_index_cell, Grid};
use vstd::prelude::*;

verus! {

/// Cost of a step to one of the four orthogonal neighbours, in hundredths.
pub const ORTHOGONAL_COST: u32 = 100;

/// Cost of a step to one of the four diagonal neighbours, in hundredths: a little above
/// the square root of two, so that a straight step wins a tie.
pub const DIAGONAL_COST: u32 = 145;

/// The eight directions in the order in which exits are listed: west, east, north,
/// south, then north-west, north-east, south-west, south-east.
pub open spec fn direction(k: int) -> (int, int) {
    if k == 0 {
        (-1, 0)
    } else if k == 1 {
        (1, 0)
    } else if k == 2 {
        (0, -1)
    } else if k == 3 {
        (0, 1)
    } else if k == 4 {
        (-1, -1)
    } else if k == 5 {
        (1, -1)
    } else if k == 6 {
        (-1, 1)
    } else {
        (1, 1)
    }
}

/// Cost of a step in direction `k`.
pub open spec fn direction_cost(k: int) -> u32 {
    if k < 4 {
        ORTHOGONAL_COST
    } else {
        DIAGONAL_COST
    }
}

impl Grid {
    /// A cell can be stepped onto if it keeps one cell away from the edge of the grid
    /// and is not blocked.
    pub open spec fn exit_valid(&self, x: int, y: int) -> bool {
        &&& 1 <= x < self.cols - 1
        &&& 1 <= y < self.rows - 1
        &&& !self.blocked@[self.spec_index(x, y)]
    }

    /// The exits of cell `idx` in the first `k` directions, each with its cost.
    pub open spec fn exits_upto(&self, idx: int, k: int) -> Seq<(usize, u32)>
        decreases k,
    {
        if k <= 0 {
            Seq::empty()
        } else {
            let listed = self.exits_upto(idx, k - 1);
            let nx = idx % (self.cols as int) + direction(k - 1).0;
            let ny = idx / (self.cols as int) + direction(k - 1).1;
            if self.exit_valid(nx, ny) {
                listed.push((self.spec_index(nx, ny) as usize, direction_cost(k - 1)))
            } else {
                listed
            }
        }
    }

    /// The exits of cell `idx`: those of its eight neighbours that can be stepped onto,
    /// in the order of `direction`, each with the cost of the step.
    pub open spec fn spec_exits(&self, idx: int) -> Seq<(usize, u32)> {
        self.exits_upto(idx, 8)
    }

    /// Squared straight-line distance between the cells `a` and `b`.
    pub open spec fn spec_distance_squared(&self, a: int, b: int) -> int {
        let dx = a % (self.cols as int) - b % (self.cols as int);
        let dy = a / (self.cols as int) - b / (self.cols as int);
        dx * dx + dy * dy
    }

    /// One step of a path leads from `a` to `b` if `b` is among the exits of `a`.
    pub open spec fn is_step(&self, a: int, b: int) -> bool {
        exists|j: int|
            0 <= j < self.spec_exits(a).len() && (#[trigger] self.spec_exits(a)[j]).0 == b
    }

    /// A walk through the grid: it starts at a cell of the grid, and each further cell
    /// is an exit of the one before it.
    pub open spec fn is_path(&self, path: Seq<int>) -> bool {
        &&& path.len() >= 1
        &&& 0 <= path[0] < self.area()
        &&& forall|i: int| 1 <= i < path.len() ==> self.is_step(path[i - 1], #[trigger] path[i])
    }

    /// Whether some walk leads from cell `a` to cell `b`.
    pub open spec fn connected(&self, a: int, b: int) -> bool {
        exists|path: Seq<int>| #[trigger] self.is_path(path) && path[0] == a && path.last() == b
    }

    pub fn is_exit_valid(&self, x: usize, y: usize) -> (valid: bool)
        requires
            self.wf(),
        ensures
            valid == self.exit_valid(x as int, y as int),
    {
        if x < 1 || y < 1 || x >= self.cols || y >= self.rows {
            return false;
        }
        if x + 1 >= self.cols || y + 1 >= self.rows {
            return false;
        }
        proof {
            lemma_cell_index(self.cols as int, self.rows as int, x as int, y as int);
            assert(self.area() == self.tiles.len());
        }
        let idx: usize = self.xy_to_index(x, y);
        !self.blocked[idx]
    }

    /// Squared straight-line distance between two cells, by which a search can judge how
    /// far a cell is from its goal.
    pub fn distance_squared(&self, a: usize, b: usize) -> (d: u128)
        requires
            self.wf(),
            a < self.area(),
            b < self.area(),
        ensures
            d == self.spec_distance_squared(a as int, b as int),
    {
        assert(self.cols > 0) by (nonlinear_arith)
            requires
                0 <= a < self.cols * self.rows,
        ;
        let c: usize = self.cols;
        let dx: usize = gap(a % c, b % c);
        let dy: usize = gap(a / c, b / c);
        proof {
            lemma_index_cell(c as int, self.rows as int, a as int);
            lemma_index_cell(c as int, self.rows as int, b as int);
            assert(self.area() == self.tiles.len());
            let r = self.rows as int;
            let cc = c as int;
            assert(dx + dy <= cc * r - 1) by (nonlinear_arith)
                requires
                    0 <= dx <= cc - 1,
                    0 <= dy <= r - 1,
            ;
            let m = usize::MAX as int;
            assert(dx * dx + dy * dy <= m * m) by (nonlinear_arith)
                requires
                    0 <= dx,
                    0 <= dy,
                    dx + dy <= m,
            ;
            assert(m * m <= u128::MAX) by (nonlinear_arith)
                requires
                    0 <= m <= 0xffff_ffff_ffff_ffff,
            ;
            assert(0 <= dx * dx <= dx * dx + dy * dy) by (nonlinear_arith);
            assert(0 <= dy * dy) by (nonlinear_arith);
            assert(dx * dx == (a % c - b % c) * (a % c - b % c)) by (nonlinear_arith)
                requires
                    dx == a % c - b % c || dx == b % c - a % c,
            ;
            assert(dy * dy == (a / c - b / c) * (a / c - b / c)) by (nonlinear_arith)
                requires
                    dy == a / c - b / c || dy == b / c - a / c,
            ;
        }
        (dx as u128) * (dx as u128) + (dy as u128) * (dy as u128)
    }

    /// The exits of cell `idx` with their costs in hundredths: first the orthogonal
    /// neighbours west, east, north, south, then the diagonal ones, each listed only if
    /// it can be stepped onto.
    pub fn get_available_exits(&self, idx: usize) -> (exits: Vec<(usize, u32)>)
        requires
            self.wf(),
            idx < self.area(),
        ensures
            exits@ == self.spec_exits(idx as int),
    {
        let mut exits: Vec<(usize, u32)> = Vec::new();
        assert(self.cols > 0) by (nonlinear_arith)
            requires
                0 <= idx < self.cols * self.rows,
        ;
        let c: usize = self.cols;
        let x: usize = idx % c;
        let y: usize = idx / c;
        proof {
            lemma_index_cell(c as int, self.rows as int, idx as int);
            assert((y - 1) * c == y * c - c) by (nonlinear_arith);
            assert((y + 1) * c == y * c + c) by (nonlinear_arith);
            assert(self.area() == self.tiles.len());
            if y + 1 < self.rows {
                lemma_cell_index(c as int, self.rows as int, x as int, y + 1);
                if x + 1 < c {
                    lemma_cell_index(c as int, self.rows as int, x + 1, y + 1);
                }
            }
        }
        assert(exits@ == self.exits_upto(idx as int, 0));
        if x >= 1 && self.is_exit_valid(x - 1, y) {
            exits.push((idx - 1, ORTHOGONAL_COST));
        }
        assert(exits@ == self.exits_upto(idx as int, 1));
        if self.is_exit_valid(x + 1, y) {
            exits.push((idx + 1, ORTHOGONAL_COST));
        }
        assert(exits@ == self.exits_upto(idx as int, 2));
        if y >= 1 && self.is_exit_valid(x, y - 1) {
            exits.push((idx - c, ORTHOGONAL_COST));
        }
        assert(exits@ == self.exits_upto(idx as int, 3));
        if y + 1 < self.rows && self.is_exit_valid(x, y + 1) {
            exits.push((idx + c, ORTHOGONAL_COST));
        }
        assert(exits@ == self.exits_upto(idx as int, 4));
        if x >= 1 && y >= 1 && self.is_exit_valid(x - 1, y - 1) {
            exits.push((idx - c - 1, DIAGONAL_COST));
        }
        assert(exits@ == self.exits_upto(idx as int, 5));
        if y >= 1 && self.is_exit_valid(x + 1, y - 1) {
            exits.push((idx - c + 1, DIAGONAL_COST));
        }
        assert(exits@ == self.exits_upto(idx as int, 6));
        if x >= 1 && y + 1 < self.rows && self.is_exit_valid(x - 1, y + 1) {
            exits.push((idx + c - 1, DIAGONAL_COST));
        }
        assert(exits@ == self.exits_upto(idx as int, 7));
        if y + 1 < self.rows && self.is_exit_valid(x + 1, y + 1) {
            exits.push((idx + c + 1, DIAGONAL_COST));
        }
        assert(exits@ == self.exits_upto(idx as int, 8));
        exits
    }
}

} // verus!
