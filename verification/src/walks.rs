//! What a walk through the grid costs, and why a straight corridor is walked straight.

use crate::map::{lemma_cell_index, lemma_index_cell, Grid};
use crate::pathing::{direction, DIAGONAL_COST, ORTHOGONAL_COST};
use vstd::prelude::*;

verus! {

/// Distance between two numbers.
pub open spec fn span(a: int, b: int) -> int {
    if a >= b {
        a - b
    } else {
        b - a
    }
}

/// The cells of a walk as the numbers they are.
pub open spec fn as_cells(steps: Seq<usize>) -> Seq<int> {
    steps.map_values(|step: usize| step as int)
}

impl Grid {
    /// Column of the cell with index `idx`.
    pub open spec fn column_of(&self, idx: int) -> int {
        idx % (self.cols as int)
    }

    /// Row of the cell with index `idx`.
    pub open spec fn row_of(&self, idx: int) -> int {
        idx / (self.cols as int)
    }

    /// How far two cells are apart in steps: the larger of their distances in columns
    /// and in rows.
    pub open spec fn reach(&self, a: int, b: int) -> int {
        let across = span(self.column_of(a), self.column_of(b));
        let down = span(self.row_of(a), self.row_of(b));
        if across >= down {
            across
        } else {
            down
        }
    }

    /// Cost of a step from `a` to `b`, in hundredths: that of a diagonal step if both
    /// column and row change, else that of an orthogonal one.
    pub open spec fn move_cost(&self, a: int, b: int) -> int {
        if self.column_of(a) != self.column_of(b) && self.row_of(a) != self.row_of(b) {
            DIAGONAL_COST as int
        } else {
            ORTHOGONAL_COST as int
        }
    }

    /// Cost of a walk: the sum of the costs of its steps.
    pub open spec fn walk_cost(&self, path: Seq<int>) -> int
        decreases path.len(),
    {
        if path.len() <= 1 {
            0
        } else {
            self.walk_cost(path.drop_last()) + self.move_cost(path[path.len() - 2], path.last())
        }
    }

    /// What a search for a path from `from` to `to` may answer: without success, no
    /// steps at all; with success, a walk that starts on `from` and ends on `to`.
    pub open spec fn is_route(&self, from: int, to: int, success: bool, path: Seq<int>) -> bool {
        if success {
            self.is_path(path) && path[0] == from && path.last() == to
        } else {
            path.len() == 0
        }
    }

    /// Whether `success` and `steps` are an answer that a search for a path from `from` to
    /// `to` may give.
    pub fn check_route(
        &self,
        from: usize,
        to: usize,
        success: bool,
        steps: &Vec<usize>,
    ) -> (ok: bool)
        requires
            self.wf(),
        ensures
            ok == self.is_route(from as int, to as int, success, as_cells(steps@)),
    {
        if !success {
            return steps.len() == 0;
        }
        match self.walk_cost_of(steps) {
            Some(_) => steps[0] == from && steps[steps.len() - 1] == to,
            None => false,
        }
    }

    /// Cost of the step from `from` to `to`, if `to` is an exit of `from`.
    pub fn exit_cost(&self, from: usize, to: usize) -> (cost: Option<u32>)
        requires
            self.wf(),
            from < self.area(),
        ensures
            cost.is_some() == self.is_step(from as int, to as int),
            cost matches Some(c) ==> c == self.move_cost(from as int, to as int),
    {
        let exits = self.get_available_exits(from);
        let mut j: usize = 0;
        while j < exits.len()
            invariant
                j <= exits@.len(),
                exits@ == self.spec_exits(from as int),
                self.wf(),
                from < self.area(),
                forall|m: int| 0 <= m < j ==> (#[trigger] exits@[m]).0 != to,
            decreases exits@.len() - j,
        {
            if exits[j].0 == to {
                proof {
                    lemma_exits_are_neighbours(*self, from as int, 8, j as int);
                }
                return Some(exits[j].1);
            }
            j += 1;
        }
        None
    }

    /// Cost of the walk `steps`, in hundredths, if it is a walk: if it starts on the
    /// grid and each further cell is an exit of the one before it.
    pub fn walk_cost_of(&self, steps: &Vec<usize>) -> (cost: Option<u128>)
        requires
            self.wf(),
        ensures
            cost.is_some() == self.is_path(as_cells(steps@)),
            cost matches Some(c) ==> c == self.walk_cost(as_cells(steps@)),
    {
        let ghost cells = as_cells(steps@);
        proof {
            assert(self.area() == self.tiles.len());
        }
        if steps.len() == 0 || steps[0] >= self.tiles.len() {
            return None;
        }
        let mut total: u128 = 0;
        let mut i: usize = 1;
        proof {
            assert(self.walk_cost(cells.take(1)) == 0);
        }
        while i < steps.len()
            invariant
                1 <= i <= steps@.len(),
                cells == as_cells(steps@),
                self.wf(),
                0 <= cells[0] < self.area(),
                steps@[i - 1] < self.area(),
                forall|m: int| 1 <= m < i ==> self.is_step(cells[m - 1], #[trigger] cells[m]),
                total == self.walk_cost(cells.take(i as int)),
                total <= DIAGONAL_COST * i,
            decreases steps@.len() - i,
        {
            proof {
                assert(cells.take(i + 1).drop_last() == cells.take(i as int));
                assert(cells.take(i + 1).last() == cells[i as int]);
                assert(cells.take(i + 1)[i - 1] == cells[i - 1]);
            }
            match self.exit_cost(steps[i - 1], steps[i]) {
                Some(cost) => {
                    proof {
                        let j = choose|j: int|
                            0 <= j < self.spec_exits(cells[i - 1]).len() && (
                            #[trigger] self.spec_exits(cells[i - 1])[j]).0 == cells[i as int];
                        lemma_exits_are_neighbours(*self, cells[i - 1], 8, j);
                    }
                    total = total + cost as u128;
                },
                None => {
                    assert(!self.is_step(cells[i - 1], cells[i as int]));
                    return None;
                },
            }
            i += 1;
        }
        proof {
            assert(cells.take(i as int) == cells);
        }
        Some(total)
    }
}

/// Every exit of a cell is a neighbour of it that can be stepped onto, and is listed
/// with the cost of the step to it.
pub proof fn lemma_exits_are_neighbours(g: Grid, a: int, k: int, j: int)
    requires
        g.wf(),
        0 <= a < g.area(),
        0 <= k <= 8,
        0 <= j < g.exits_upto(a, k).len(),
    ensures
        0 <= g.exits_upto(a, k)[j].0 < g.area(),
        g.exits_upto(a, k)[j].0 != a,
        g.exit_valid(
            g.column_of(g.exits_upto(a, k)[j].0 as int),
            g.row_of(g.exits_upto(a, k)[j].0 as int),
        ),
        span(g.column_of(a), g.column_of(g.exits_upto(a, k)[j].0 as int)) <= 1,
        span(g.row_of(a), g.row_of(g.exits_upto(a, k)[j].0 as int)) <= 1,
        g.exits_upto(a, k)[j].1 == g.move_cost(a, g.exits_upto(a, k)[j].0 as int),
    decreases k,
{
    let listed = g.exits_upto(a, k - 1);
    if j < listed.len() {
        lemma_exits_are_neighbours(g, a, k - 1, j);
    } else {
        assert(g.cols > 0) by (nonlinear_arith)
            requires
                0 <= a < g.cols * g.rows,
        ;
        let nx = g.column_of(a) + direction(k - 1).0;
        let ny = g.row_of(a) + direction(k - 1).1;
        lemma_index_cell(g.cols as int, g.rows as int, a);
        lemma_cell_index(g.cols as int, g.rows as int, nx, ny);
        assert(g.area() == g.tiles.len());
    }
}

/// No walk is shorter or cheaper than the distance allows: a walk between two cells
/// has at least as many steps as the cells are apart, and costs at least as many
/// orthogonal steps.
pub proof fn lemma_walk_lower_bound(g: Grid, path: Seq<int>)
    requires
        g.wf(),
        g.is_path(path),
    ensures
        0 <= path.last() < g.area(),
        path.len() - 1 >= g.reach(path[0], path.last()),
        g.walk_cost(path) >= ORTHOGONAL_COST * g.reach(path[0], path.last()),
    decreases path.len(),
{
    if path.len() > 1 {
        let before = path.drop_last();
        assert(g.is_path(before)) by {
            assert forall|i: int| 1 <= i < before.len() implies g.is_step(
                before[i - 1],
                #[trigger] before[i],
            ) by {
                assert(g.is_step(path[i - 1], path[i]));
            }
        }
        lemma_walk_lower_bound(g, before);
        let from = before.last();
        let to = path.last();
        assert(g.is_step(path[path.len() - 2], path[path.len() - 1]));
        let j = choose|j: int|
            0 <= j < g.spec_exits(from).len() && (#[trigger] g.spec_exits(from)[j]).0 == to;
        lemma_exits_are_neighbours(g, from, 8, j);
    }
}

/// Along a row whose cells between two columns can all be stepped onto, the straight
/// walk from the one to the other is a walk: it has one cell more than the columns are
/// apart and costs one orthogonal step for each.
pub proof fn lemma_straight_row_walk(g: Grid, y: int, from: int, to: int) -> (path: Seq<int>)
    requires
        g.wf(),
        g.in_bounds(from, y),
        forall|x: int| crate::map::between(from, to, x) && x != from ==> g.exit_valid(x, y),
    ensures
        g.is_path(path),
        path[0] == g.spec_index(from, y),
        path.last() == g.spec_index(to, y),
        path.len() == span(from, to) + 1,
        g.walk_cost(path) == ORTHOGONAL_COST * span(from, to),
    decreases span(from, to),
{
    lemma_cell_index(g.cols as int, g.rows as int, from, y);
    if to == from {
        let path = seq![g.spec_index(from, y)];
        assert(g.is_path(path));
        path
    } else {
        let near = if to > from {
            to - 1
        } else {
            to + 1
        };
        let before = lemma_straight_row_walk(g, y, from, near);
        assert(near == from || g.exit_valid(near, y));
        assert(g.exit_valid(to, y));
        crate::connectivity::lemma_step_to_neighbour(
            g,
            near,
            y,
            if to > from {
                1
            } else {
                0
            },
        );
        lemma_cell_index(g.cols as int, g.rows as int, near, y);
        lemma_cell_index(g.cols as int, g.rows as int, to, y);
        let path = before.push(g.spec_index(to, y));
        assert forall|i: int| 1 <= i < path.len() implies g.is_step(
            path[i - 1],
            #[trigger] path[i],
        ) by {
            if i < before.len() {
                assert(g.is_step(before[i - 1], before[i]));
            }
        }
        assert(path.drop_last() == before);
        path
    }
}

/// A straight corridor is walked straight. Between two cells of a row, with every cell
/// between them free to step onto, there is a walk with one cell more than the two are
/// apart that costs one orthogonal step for each; and no walk between the two, through
/// whatever cells, has fewer cells or costs less.
pub proof fn lemma_straight_is_cheapest(
    g: Grid,
    y: int,
    from: int,
    to: int,
    other: Seq<int>,
) -> (straight: Seq<int>)
    requires
        g.wf(),
        g.in_bounds(from, y),
        forall|x: int| crate::map::between(from, to, x) && x != from ==> g.exit_valid(x, y),
        g.is_path(other),
        other[0] == g.spec_index(from, y),
        other.last() == g.spec_index(to, y),
    ensures
        g.is_path(straight),
        straight[0] == g.spec_index(from, y),
        straight.last() == g.spec_index(to, y),
        straight.len() == span(from, to) + 1,
        g.walk_cost(straight) == ORTHOGONAL_COST * span(from, to),
        other.len() >= straight.len(),
        g.walk_cost(other) >= g.walk_cost(straight),
{
    let straight = lemma_straight_row_walk(g, y, from, to);
    lemma_walk_lower_bound(g, other);
    lemma_cell_index(g.cols as int, g.rows as int, from, y);
    if to != from {
        assert(g.exit_valid(to, y));
    }
    lemma_cell_index(g.cols as int, g.rows as int, to, y);
    assert(g.reach(other[0], other.last()) >= span(from, to));
    assert(ORTHOGONAL_COST * g.reach(other[0], other.last()) >= ORTHOGONAL_COST * span(from, to))
        by (nonlinear_arith)
        requires
            g.reach(other[0], other.last()) >= span(from, to),
    ;
    straight
}

/// Along a column whose cells between two rows can all be stepped onto, the straight
/// walk from the one to the other is a walk: it has one cell more than the rows are
/// apart and costs one orthogonal step for each.
pub proof fn lemma_straight_column_walk(g: Grid, x: int, from: int, to: int) -> (path: Seq<int>)
    requires
        g.wf(),
        g.in_bounds(x, from),
        forall|y: int| crate::map::between(from, to, y) && y != from ==> g.exit_valid(x, y),
    ensures
        g.is_path(path),
        path[0] == g.spec_index(x, from),
        path.last() == g.spec_index(x, to),
        path.len() == span(from, to) + 1,
        g.walk_cost(path) == ORTHOGONAL_COST * span(from, to),
    decreases span(from, to),
{
    lemma_cell_index(g.cols as int, g.rows as int, x, from);
    if to == from {
        let path = seq![g.spec_index(x, from)];
        assert(g.is_path(path));
        path
    } else {
        let near = if to > from {
            to - 1
        } else {
            to + 1
        };
        let before = lemma_straight_column_walk(g, x, from, near);
        assert(near == from || g.exit_valid(x, near));
        assert(g.exit_valid(x, to));
        crate::connectivity::lemma_step_to_neighbour(
            g,
            x,
            near,
            if to > from {
                3
            } else {
                2
            },
        );
        lemma_cell_index(g.cols as int, g.rows as int, x, near);
        lemma_cell_index(g.cols as int, g.rows as int, x, to);
        let path = before.push(g.spec_index(x, to));
        assert forall|i: int| 1 <= i < path.len() implies g.is_step(
            path[i - 1],
            #[trigger] path[i],
        ) by {
            if i < before.len() {
                assert(g.is_step(before[i - 1], before[i]));
            }
        }
        assert(path.drop_last() == before);
        path
    }
}

/// The same down a column. Between two cells of a column, with every cell
/// between them free to step onto, there is a walk with one cell more than the two are
/// apart that costs one orthogonal step for each; and no walk between the two, through
/// whatever cells, has fewer cells or costs less.
pub proof fn lemma_straight_down_is_cheapest(
    g: Grid,
    x: int,
    from: int,
    to: int,
    other: Seq<int>,
) -> (straight: Seq<int>)
    requires
        g.wf(),
        g.in_bounds(x, from),
        forall|y: int| crate::map::between(from, to, y) && y != from ==> g.exit_valid(x, y),
        g.is_path(other),
        other[0] == g.spec_index(x, from),
        other.last() == g.spec_index(x, to),
    ensures
        g.is_path(straight),
        straight[0] == g.spec_index(x, from),
        straight.last() == g.spec_index(x, to),
        straight.len() == span(from, to) + 1,
        g.walk_cost(straight) == ORTHOGONAL_COST * span(from, to),
        other.len() >= straight.len(),
        g.walk_cost(other) >= g.walk_cost(straight),
{
    let straight = lemma_straight_column_walk(g, x, from, to);
    lemma_walk_lower_bound(g, other);
    lemma_cell_index(g.cols as int, g.rows as int, x, from);
    if to != from {
        assert(g.exit_valid(x, to));
    }
    lemma_cell_index(g.cols as int, g.rows as int, x, to);
    assert(g.reach(other[0], other.last()) >= span(from, to));
    assert(ORTHOGONAL_COST * g.reach(other[0], other.last()) >= ORTHOGONAL_COST * span(from, to))
        by (nonlinear_arith)
        requires
            g.reach(other[0], other.last()) >= span(from, to),
    ;
    straight
}

} // verus!
