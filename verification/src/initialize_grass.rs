//! The opening rule: a camp needs a tree beside it, so an unassigned
//! cell with no tree above, below, left or right of it is grass.

use vstd::prelude::*;
use crate::board::{same_camps_keep_quota, within_quota, Board};
use crate::grid::{beside_tree, camp_at, in_table, same_shape, tree_at};
use crate::narrowing::{narrows, same_camps, trees_stay};
use crate::solution::{keeps_every_solution, narrowing_keeps_trees, solves};
use crate::tile::Tile;

verus! {

/// The table in which every unassigned cell without a tree beside it has
/// become grass.
pub open spec fn grass_where_treeless(g: Seq<Seq<Tile>>) -> Seq<Seq<Tile>> {
    Seq::new(
        g.len(),
        |r: int|
            Seq::new(
                g[r].len(),
                |c: int|
                    if g[r][c] == Tile::Unassigned && !beside_tree(g, r, c) {
                        Tile::Grass
                    } else {
                        g[r][c]
                    },
            ),
    )
}

/// Applying the rule narrows the table and adds no camp.
pub proof fn grass_where_treeless_narrows(g: Seq<Seq<Tile>>)
    ensures
        narrows(g, grass_where_treeless(g)),
        same_camps(g, grass_where_treeless(g)),
{
}

/// The rule rules out no solution: in a solution every camp has a tree
/// beside it, so a cell without one holds no camp.
pub proof fn grass_where_treeless_keeps_solutions(
    g: Seq<Seq<Tile>>,
    rows: Seq<usize>,
    columns: Seq<usize>,
)
    ensures
        keeps_every_solution(g, grass_where_treeless(g), rows, columns),
{
    let h = grass_where_treeless(g);
    assert forall|s: Seq<Seq<Tile>>, tree_of: spec_fn(int, int) -> (int, int)| #[trigger]
        solves(g, rows, columns, s, tree_of) implies narrows(h, s) by {
        narrowing_keeps_trees(g, s);
        assert forall|r: int, c: int| in_table(h, r, c) implies if h[r][c] == Tile::Unassigned {
            s[r][c] != Tile::Tree
        } else {
            s[r][c] == h[r][c]
        } by {
            assert(in_table(g, r, c));
            assert(g[r].len() == s[r].len());
            if g[r][c] == Tile::Unassigned && !beside_tree(g, r, c) {
                if s[r][c] == Tile::Camp {
                    assert(camp_at(s, r, c));
                    let tree = tree_of(r, c);
                    assert(tree_at(g, tree.0, tree.1));
                }
            }
        }
        assert forall|r: int| 0 <= r < h.len() implies (#[trigger] h[r]).len() == s[r].len() by {
            assert(g[r].len() == s[r].len());
        }
    }
}

/// Applying the rule a second time changes nothing.
pub proof fn grass_where_treeless_settles(g: Seq<Seq<Tile>>)
    ensures
        grass_where_treeless(grass_where_treeless(g)) == grass_where_treeless(g),
{
    let h = grass_where_treeless(g);
    assert forall|r: int, c: int| in_table(g, r, c) implies beside_tree(h, r, c) == beside_tree(
        g,
        r,
        c,
    ) by {
        assert(tree_at(h, r - 1, c) == tree_at(g, r - 1, c));
        assert(tree_at(h, r + 1, c) == tree_at(g, r + 1, c));
        assert(tree_at(h, r, c - 1) == tree_at(g, r, c - 1));
        assert(tree_at(h, r, c + 1) == tree_at(g, r, c + 1));
    }
    assert(grass_where_treeless(h) =~~= h);
}

/// Whether a tree stands beside `(row, column)`.
fn has_tree_beside(board: &Board, row: usize, column: usize) -> (b: bool)
    requires
        board.well_formed(),
        in_table(board.grid@, row as int, column as int),
    ensures
        b == beside_tree(board.grid@, row as int, column as int),
{
    let height: usize = board.rows.len();
    let width: usize = board.columns.len();
    let ghost g = board.grid@;
    assert(g[row as int].len() == width);
    if row + 1 != height {
        assert(g[row + 1].len() == width);
        if board.grid.at(row + 1, column) == Tile::Tree {
            return true;
        }
    }
    if column + 1 != width && board.grid.at(row, column + 1) == Tile::Tree {
        return true;
    }
    if row != 0 {
        assert(g[row - 1].len() == width);
        if board.grid.at(row - 1, column) == Tile::Tree {
            return true;
        }
    }
    if column != 0 && board.grid.at(row, column - 1) == Tile::Tree {
        return true;
    }
    false
}

/// Turn every unassigned cell that has no tree beside it into grass.
/// Returns whether any cell changed.
pub fn initialize_grass(board: &mut Board) -> (changed: bool)
    requires
        old(board).well_formed(),
    ensures
        final(board).rows == old(board).rows,
        final(board).columns == old(board).columns,
        final(board).grid@ == grass_where_treeless(old(board).grid@),
        changed == (final(board).grid@ != old(board).grid@),
        final(board).well_formed(),
        narrows(old(board).grid@, final(board).grid@),
        same_camps(old(board).grid@, final(board).grid@),
        keeps_every_solution(
            old(board).grid@,
            final(board).grid@,
            old(board).rows@,
            old(board).columns@,
        ),
        within_quota(old(board).grid@, old(board).rows@, old(board).columns@) ==> within_quota(
            final(board).grid@,
            final(board).rows@,
            final(board).columns@,
        ),
{
    let ghost before = board.grid@;
    let ghost goal = grass_where_treeless(before);
    let height: usize = board.rows.len();
    let width: usize = board.columns.len();
    let mut changed = false;
    for row in 0..height
        invariant
            board.rows == old(board).rows,
            board.columns == old(board).columns,
            height == board.rows@.len(),
            width == board.columns@.len(),
            before == old(board).grid@,
            goal == grass_where_treeless(before),
            board.well_formed(),
            same_shape(board.grid@, before),
            changed == (board.grid@ != before),
            forall|i: int, j: int|
                in_table(before, i, j) ==> #[trigger] board.grid@[i][j] == if i < row {
                    goal[i][j]
                } else {
                    before[i][j]
                },
    {
        for column in 0..width
            invariant
                board.rows == old(board).rows,
                board.columns == old(board).columns,
                height == board.rows@.len(),
                width == board.columns@.len(),
                row < height,
                before == old(board).grid@,
                goal == grass_where_treeless(before),
                board.well_formed(),
                same_shape(board.grid@, before),
                changed == (board.grid@ != before),
                forall|i: int, j: int|
                    in_table(before, i, j) ==> #[trigger] board.grid@[i][j] == if i < row || (i
                        == row && j < column) {
                        goal[i][j]
                    } else {
                        before[i][j]
                    },
        {
            assert(in_table(before, row as int, column as int));
            assert(board.grid@[row as int].len() == before[row as int].len());
            if board.grid.at(row, column) == Tile::Unassigned {
                let treed = has_tree_beside(board, row, column);
                proof {
                    let now = board.grid@;
                    let r = row as int;
                    let c = column as int;
                    trees_stay(before, now, r - 1, c);
                    trees_stay(before, now, r, c - 1);
                    trees_stay(before, now, r, c + 1);
                    trees_stay(before, now, r + 1, c);
                }
                if !treed {
                    board.grid.set(row, column, Tile::Grass);
                    changed = true;
                    assert(board.grid@[row as int][column as int] != before[row as int][column as int]);
                }
            }
        }
    }
    proof {
        assert(board.grid@ =~~= goal) by {
            assert forall|i: int| 0 <= i < goal.len() implies board.grid@[i] =~= goal[i] by {
                assert(board.grid@[i].len() == before[i].len());
                assert forall|j: int| 0 <= j < goal[i].len() implies board.grid@[i][j]
                    == goal[i][j] by {
                    assert(in_table(before, i, j));
                }
            }
        }
        grass_where_treeless_narrows(before);
        grass_where_treeless_keeps_solutions(before, board.rows@, board.columns@);
        same_camps_keep_quota(before, goal, board.rows@, board.columns@);
    }
    changed
}

} // verus!
