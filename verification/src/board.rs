//! The puzzle: a table of tiles together with the number of camps that
//! each row and each column must hold in the end.

use vstd::prelude::*;
use vstd::string::*;
use crate::associate_trees::{
    associate_trees, trees_associated, trees_associated_keeps_solutions,
    trees_associated_narrows,
};
use crate::fill_camps::{
    camps_filled, camps_filled_keeps_every_way, camps_filled_narrows, fill_camps,
};
use crate::fill_zeros::{
    fill_zeros, zeros_filled, zeros_filled_keeps_every_way, zeros_filled_narrows,
};
use crate::grid::{
    around, blank_table, camps_apart, column_of, count_of, in_table, rectangular, solved, width,
    Grid,
};
use crate::initialize_grass::{grass_where_treeless, initialize_grass};
use crate::intersection::{
    intersections_found, intersections_found_keeps_every_way, intersections_found_narrows,
    narrowed_fits, no_placement_text, process_intersections,
};
use crate::narrowing::{
    narrowing_counts, narrows, narrows_twice, same_camps, same_camps_same_counts,
    same_camps_stay_apart, unassigned_in,
};
use crate::solution::{admits, decided_is_final, keeps_every_solution, solves};
use crate::text::{first_stray, grid_text, readable, table_of_text};
use crate::tile::{unknown_tile_text, Tile};

verus! {

/// A table together with the camp quota of every row and column.
#[derive(PartialEq, Eq, Debug)]
pub struct Board {
    /// The number of camps each row must hold.
    pub rows: Vec<usize>,
    /// The number of camps each column must hold.
    pub columns: Vec<usize>,
    /// The table of tiles.
    pub grid: Grid,
}

/// The table has `height` rows of `width` tiles each.
pub open spec fn fits(g: Seq<Seq<Tile>>, height: nat, width: nat) -> bool {
    &&& g.len() == height
    &&& forall|r: int| 0 <= r < g.len() ==> (#[trigger] g[r]).len() == width
}

/// The text of the error for a table whose size differs from what the
/// quotas call for.
pub open spec fn size_mismatch_text() -> Seq<char> {
    "Grid size doesn't match the row and column descriptors"@
}

/// No row and no column of the table holds more camps than its quota.
pub open spec fn within_quota(g: Seq<Seq<Tile>>, rows: Seq<usize>, columns: Seq<usize>) -> bool {
    &&& forall|r: int| 0 <= r < rows.len() ==> count_of(#[trigger] g[r], Tile::Camp) <= rows[r]
    &&& forall|c: int|
        0 <= c < columns.len() ==> count_of(#[trigger] column_of(g, c), Tile::Camp) <= columns[c]
}

/// Every row and every column of the table holds exactly its quota of
/// camps.
pub open spec fn meets_quota(g: Seq<Seq<Tile>>, rows: Seq<usize>, columns: Seq<usize>) -> bool {
    &&& forall|r: int| 0 <= r < rows.len() ==> count_of(#[trigger] g[r], Tile::Camp) == rows[r]
    &&& forall|c: int|
        0 <= c < columns.len() ==> count_of(#[trigger] column_of(g, c), Tile::Camp) == columns[c]
}

/// A table with the same camps as one that is within the quotas is
/// within them too.
pub proof fn same_camps_keep_quota(
    a: Seq<Seq<Tile>>,
    b: Seq<Seq<Tile>>,
    rows: Seq<usize>,
    columns: Seq<usize>,
)
    requires
        fits(a, rows.len(), columns.len()),
        same_camps(a, b),
    ensures
        within_quota(a, rows, columns) ==> within_quota(b, rows, columns),
{
    same_camps_same_counts(a, b);
    if within_quota(a, rows, columns) {
        assert forall|r: int| 0 <= r < rows.len() implies count_of(#[trigger] b[r], Tile::Camp)
            <= rows[r] by {
            assert(count_of(a[r], Tile::Camp) == count_of(b[r], Tile::Camp));
        }
        assert forall|c: int| 0 <= c < columns.len() implies count_of(
            #[trigger] column_of(b, c),
            Tile::Camp,
        ) <= columns[c] by {
            assert forall|r: int| 0 <= r < a.len() implies c < (#[trigger] a[r]).len() by {}
            assert(count_of(column_of(a, c), Tile::Camp) == count_of(column_of(b, c), Tile::Camp));
        }
    }
}

/// The text that opens the error for a board on which the rules have
/// nothing more to say though cells are still unassigned.
pub open spec fn steady_state_text() -> Seq<char> {
    "Reached steady state\n"@
}

/// The table on which the four rules come to rest, and whether they do
/// so without finding a line impossible.
///
/// The rules are tried in a fixed order: used-up quotas, tight quotas,
/// common placements, trees and camps.  As soon as one changes the table
/// the round starts anew.  The rules rest on a table that none of them
/// changes, or on one where the third finds a line on which the camps it
/// lacks cannot be placed.
pub open spec fn settled_from(g: Seq<Seq<Tile>>, rows: Seq<usize>, columns: Seq<usize>) -> (
    Seq<Seq<Tile>>,
    bool,
)
    decreases unassigned_in(g),
    when fits(g, rows.len(), columns.len())
    via settled_from_ends
{
    let zeroed = zeros_filled(g, rows, columns);
    let camped = camps_filled(g, rows, columns);
    let found = intersections_found(g, rows, columns);
    let paired = trees_associated(g);
    if zeroed != g {
        settled_from(zeroed, rows, columns)
    } else if camped != g {
        settled_from(camped, rows, columns)
    } else if found is None {
        (g, false)
    } else if found->0 != g {
        settled_from(found->0, rows, columns)
    } else if paired != g {
        settled_from(paired, rows, columns)
    } else {
        (g, true)
    }
}

#[via_fn]
proof fn settled_from_ends(g: Seq<Seq<Tile>>, rows: Seq<usize>, columns: Seq<usize>) {
    zeros_filled_narrows(g, rows, columns);
    narrowing_counts(g, zeros_filled(g, rows, columns));
    narrowed_fits(g, zeros_filled(g, rows, columns), rows.len(), columns.len());
    camps_filled_narrows(g, rows, columns);
    narrowing_counts(g, camps_filled(g, rows, columns));
    narrowed_fits(g, camps_filled(g, rows, columns), rows.len(), columns.len());
    if intersections_found(g, rows, columns) is Some {
        intersections_found_narrows(g, rows, columns);
        narrowing_counts(g, intersections_found(g, rows, columns)->0);
        narrowed_fits(g, intersections_found(g, rows, columns)->0, rows.len(), columns.len());
    }
    trees_associated_narrows(g);
    narrowing_counts(g, trees_associated(g));
    narrowed_fits(g, trees_associated(g), rows.len(), columns.len());
}

/// Where the rules come to rest: on a narrowing of the table they
/// started from that has its size.  If they rest without finding a line
/// impossible, none of the four changes the table any more; if they
/// found one, the first two change nothing and the third finds no table.
pub proof fn settled_from_rests(g: Seq<Seq<Tile>>, rows: Seq<usize>, columns: Seq<usize>)
    requires
        fits(g, rows.len(), columns.len()),
    ensures
        narrows(g, settled_from(g, rows, columns).0),
        fits(settled_from(g, rows, columns).0, rows.len(), columns.len()),
        camps_apart(g) ==> camps_apart(settled_from(g, rows, columns).0),
        at_rest(settled_from(g, rows, columns).0, rows, columns, settled_from(g, rows, columns).1),
    decreases unassigned_in(g),
{
    let zeroed = zeros_filled(g, rows, columns);
    let camped = camps_filled(g, rows, columns);
    let found = intersections_found(g, rows, columns);
    let paired = trees_associated(g);
    zeros_filled_narrows(g, rows, columns);
    camps_filled_narrows(g, rows, columns);
    trees_associated_narrows(g);
    if found is Some {
        intersections_found_narrows(g, rows, columns);
    }
    let next = if zeroed != g {
        zeroed
    } else if camped != g {
        camped
    } else if found is None {
        g
    } else if found->0 != g {
        found->0
    } else {
        paired
    };
    if next != g {
        narrowing_counts(g, next);
        narrowed_fits(g, next, rows.len(), columns.len());
        settled_from_rests(next, rows, columns);
        narrows_twice(g, next, settled_from(next, rows, columns).0);
        if camps_apart(g) {
            if zeroed != g || (camped == g && found is Some && found->0 == g) {
                same_camps_stay_apart(g, next);
            }
        }
    }
}

/// The rules rule out no solution, and where there is one they find no
/// line impossible.
pub proof fn settled_from_keeps_solutions(
    g: Seq<Seq<Tile>>,
    rows: Seq<usize>,
    columns: Seq<usize>,
    s: Seq<Seq<Tile>>,
    tree_of: spec_fn(int, int) -> (int, int),
)
    requires
        fits(g, rows.len(), columns.len()),
        solves(g, rows, columns, s, tree_of),
    ensures
        settled_from(g, rows, columns).1,
        narrows(settled_from(g, rows, columns).0, s),
    decreases unassigned_in(g),
{
    let zeroed = zeros_filled(g, rows, columns);
    let camped = camps_filled(g, rows, columns);
    let found = intersections_found(g, rows, columns);
    let paired = trees_associated(g);
    zeros_filled_narrows(g, rows, columns);
    zeros_filled_keeps_every_way(g, rows, columns);
    camps_filled_narrows(g, rows, columns);
    camps_filled_keeps_every_way(g, rows, columns);
    intersections_found_keeps_every_way(g, rows, columns);
    trees_associated_narrows(g);
    trees_associated_keeps_solutions(g, s, tree_of);
    assert(admits(g, rows, columns, s));
    if found is Some {
        intersections_found_narrows(g, rows, columns);
    }
    let next = if zeroed != g {
        zeroed
    } else if camped != g {
        camped
    } else if found->0 != g {
        found->0
    } else {
        paired
    };
    if next != g {
        narrowing_counts(g, next);
        narrowed_fits(g, next, rows.len(), columns.len());
        settled_from_keeps_solutions(next, rows, columns, s, tree_of);
    }
}

/// None of the rules has anything more to say on the table: the first
/// two leave it as it is, and the third either does so too, and the
/// fourth as well (`sound`), or finds a line impossible.
pub open spec fn at_rest(
    g: Seq<Seq<Tile>>,
    rows: Seq<usize>,
    columns: Seq<usize>,
    sound: bool,
) -> bool {
    &&& zeros_filled(g, rows, columns) == g
    &&& camps_filled(g, rows, columns) == g
    &&& if sound {
        intersections_found(g, rows, columns) == Some(g) && trees_associated(g) == g
    } else {
        intersections_found(g, rows, columns) is None
    }
}

/// A table that has the size the quotas call for has rows of one
/// length.
pub proof fn fitting_is_rectangular(g: Seq<Seq<Tile>>, height: nat, width: nat)
    requires
        fits(g, height, width),
    ensures
        rectangular(g),
{
    if g.len() > 0 {
        assert(g[0].len() == width);
    }
}

impl Board {
    /// The table has one row per row quota and one column per column
    /// quota.
    pub open spec fn well_formed(&self) -> bool {
        fits(self.grid@, self.rows@.len(), self.columns@.len())
    }

    /// Put a table and its quotas together.  The table must have as many
    /// rows as there are row quotas, and every row as many tiles as there
    /// are column quotas.
    pub fn new(rows: Vec<usize>, columns: Vec<usize>, grid: Grid) -> (board: Board)
        requires
            fits(grid@, rows@.len(), columns@.len()),
        ensures
            board.rows == rows,
            board.columns == columns,
            board.grid == grid,
            board.well_formed(),
    {
        Board { rows, columns, grid }
    }

    /// Read the table from text and put it together with the quotas.
    ///
    /// Fails if the text holds a character that is no tile, or if the
    /// table's size is not the one the quotas call for.
    pub fn new_parse(rows: Vec<usize>, columns: Vec<usize>, s: &str) -> (res: Result<Board, String>)
        ensures
            match res {
                Ok(board) => {
                    &&& readable(s@)
                    &&& board.rows == rows
                    &&& board.columns == columns
                    &&& board.grid@ == table_of_text(s@)
                    &&& board.well_formed()
                },
                Err(e) => {
                    ||| exists|at: int| first_stray(s@, at) && e@ == unknown_tile_text(s@[at])
                    ||| {
                        &&& readable(s@)
                        &&& !fits(table_of_text(s@), rows@.len(), columns@.len())
                        &&& e@ == size_mismatch_text()
                    }
                },
            },
    {
        match Grid::parse(s) {
            Ok(grid) => {
                if has_size(&grid, rows.len(), columns.len()) {
                    Ok(Board::new(rows, columns, grid))
                } else {
                    Err(String::from_str("Grid size doesn't match the row and column descriptors"))
                }
            },
            Err(e) => Err(e),
        }
    }

    /// A board of the size the quotas call for, with every cell
    /// unassigned.
    pub fn new_blank(rows: Vec<usize>, columns: Vec<usize>) -> (board: Board)
        ensures
            board.rows == rows,
            board.columns == columns,
            board.grid@ == blank_table(rows@.len(), columns@.len()),
            board.well_formed(),
    {
        let grid = Grid::blank(rows.len(), columns.len());
        Board::new(rows, columns, grid)
    }

    /// Solve the board in place as far as the rules reach.
    ///
    /// First every unassigned cell without a tree beside it becomes
    /// grass.  Then the four rules are applied in turn, starting over
    /// whenever one of them changes the table, until none does.
    ///
    /// Succeeds if no cell is unassigned in the end.  Otherwise the
    /// error says why the rules stopped and shows the table they
    /// reached, which the board then holds.
    pub fn solve(&mut self) -> (res: Result<(), String>)
        requires
            old(self).well_formed(),
        ensures
            final(self).rows == old(self).rows,
            final(self).columns == old(self).columns,
            final(self).well_formed(),
            final(self).grid@ == settled_from(
                grass_where_treeless(old(self).grid@),
                old(self).rows@,
                old(self).columns@,
            ).0,
            match res {
                Ok(_) => {
                    &&& settled_from(
                        grass_where_treeless(old(self).grid@),
                        old(self).rows@,
                        old(self).columns@,
                    ).1
                    &&& solved(final(self).grid@)
                },
                Err(e) => if settled_from(
                    grass_where_treeless(old(self).grid@),
                    old(self).rows@,
                    old(self).columns@,
                ).1 {
                    &&& !solved(final(self).grid@)
                    &&& e@ == steady_state_text() + grid_text(final(self).grid@)
                } else {
                    e@ == no_placement_text().push('\n') + grid_text(final(self).grid@)
                },
            },
            narrows(old(self).grid@, final(self).grid@),
            camps_apart(old(self).grid@) ==> camps_apart(final(self).grid@),
            keeps_every_solution(
                old(self).grid@,
                final(self).grid@,
                old(self).rows@,
                old(self).columns@,
            ),
            forall|s: Seq<Seq<Tile>>, tree_of: spec_fn(int, int) -> (int, int)| #[trigger]
                solves(old(self).grid@, old(self).rows@, old(self).columns@, s, tree_of) ==> {
                    &&& settled_from(
                        grass_where_treeless(old(self).grid@),
                        old(self).rows@,
                        old(self).columns@,
                    ).1
                    &&& res is Ok ==> s == final(self).grid@
                },
    {
        let ghost rows = self.rows@;
        let ghost columns = self.columns@;
        let ghost before = self.grid@;
        initialize_grass(self);
        let ghost start = self.grid@;
        proof {
            assert forall|s: Seq<Seq<Tile>>, tree_of: spec_fn(int, int) -> (int, int)| #[trigger]
                solves(before, rows, columns, s, tree_of) implies {
                &&& settled_from(start, rows, columns).1
                &&& narrows(settled_from(start, rows, columns).0, s)
            } by {
                settled_from_keeps_solutions(start, rows, columns, s, tree_of);
            }
            if camps_apart(before) {
                same_camps_stay_apart(before, start);
            }
        }
        loop
            invariant
                self.rows == old(self).rows,
                self.columns == old(self).columns,
                rows == self.rows@,
                columns == self.columns@,
                before == old(self).grid@,
                start == grass_where_treeless(before),
                self.well_formed(),
                narrows(before, self.grid@),
                camps_apart(before) ==> camps_apart(self.grid@),
                settled_from(self.grid@, rows, columns) == settled_from(start, rows, columns),
                forall|s: Seq<Seq<Tile>>, tree_of: spec_fn(int, int) -> (int, int)| #[trigger]
                    solves(before, rows, columns, s, tree_of) ==> {
                        &&& settled_from(start, rows, columns).1
                        &&& narrows(settled_from(start, rows, columns).0, s)
                    },
            ensures
                self.rows == old(self).rows,
                self.columns == old(self).columns,
                self.well_formed(),
                narrows(before, self.grid@),
                camps_apart(before) ==> camps_apart(self.grid@),
                settled_from(start, rows, columns) == (self.grid@, true),
                keeps_every_solution(before, self.grid@, rows, columns),
            decreases unassigned_in(self.grid@),
        {
            let ghost now = self.grid@;
            if fill_zeros(self) {
                proof {
                    narrowing_counts(now, self.grid@);
                    narrows_twice(before, now, self.grid@);
                    if camps_apart(now) {
                        same_camps_stay_apart(now, self.grid@);
                    }
                }
                continue ;
            }
            if fill_camps(self) {
                proof {
                    narrowing_counts(now, self.grid@);
                    narrows_twice(before, now, self.grid@);
                }
                continue ;
            }
            match process_intersections(self) {
                Err(mut e) => {
                    e.push('\n');
                    let shown = self.grid.debug();
                    e.append(shown.as_str());
                    return Err(e);
                },
                Ok(changed) => {
                    if changed {
                        proof {
                            narrowing_counts(now, self.grid@);
                            narrows_twice(before, now, self.grid@);
                        }
                        continue ;
                    }
                },
            }
            proof {
                fitting_is_rectangular(now, rows.len(), columns.len());
            }
            if associate_trees(&mut self.grid) {
                proof {
                    narrowing_counts(now, self.grid@);
                    narrows_twice(before, now, self.grid@);
                    narrowed_fits(now, self.grid@, rows.len(), columns.len());
                    if camps_apart(now) {
                        same_camps_stay_apart(now, self.grid@);
                    }
                }
                continue ;
            }
            break ;
        }
        if self.grid.is_solved() {
            proof {
                assert forall|s: Seq<Seq<Tile>>, tree_of: spec_fn(int, int) -> (int, int)| #[trigger]
                    solves(before, rows, columns, s, tree_of) implies s == self.grid@ by {
                    decided_is_final(self.grid@, s);
                }
            }
            Ok(())
        } else {
            let mut e = String::from_str("Reached steady state\n");
            let shown = self.grid.debug();
            e.append(shown.as_str());
            Err(e)
        }
    }

    /// The table as text; see `Grid::debug`.
    pub fn debug(&self) -> (s: String)
        ensures
            s@ == grid_text(self.grid@),
    {
        self.grid.debug()
    }

    /// The tile at `(row, column)`, or `None` outside the table.
    pub fn get(&self, row: usize, column: usize) -> (t: Option<Tile>)
        ensures
            t == if in_table(self.grid@, row as int, column as int) {
                Some(self.grid@[row as int][column as int])
            } else {
                None
            },
    {
        self.grid.get(row, column)
    }

    /// The number of rows of the table.
    pub fn num_rows(&self) -> (n: usize)
        ensures
            n == self.grid@.len(),
    {
        self.grid.num_rows()
    }

    /// The number of columns of the table.
    pub fn num_columns(&self) -> (n: usize)
        ensures
            n == width(self.grid@),
    {
        self.grid.num_columns()
    }

    /// The number of tiles equal to `tile` in the given row.
    pub fn count_in_row(&self, row: usize, tile: Tile) -> (n: usize)
        requires
            row < self.grid@.len(),
        ensures
            n == count_of(self.grid@[row as int], tile),
    {
        self.grid.count_in_row(row, tile)
    }

    /// The number of tiles equal to `tile` in the given column.
    pub fn count_in_column(&self, column: usize, tile: Tile) -> (n: usize)
        requires
            forall|r: int| 0 <= r < self.grid@.len() ==> column < (#[trigger] self.grid@[r]).len(),
        ensures
            n == count_of(column_of(self.grid@, column as int), tile),
    {
        self.grid.count_in_column(column, tile)
    }

    /// The coordinates next to `(row, column)`; see
    /// `Grid::surrounding_tiles`.
    pub fn surrounding_tiles(&self, row: usize, column: usize) -> (cells: Vec<(usize, usize)>)
        requires
            in_table(self.grid@, row as int, column as int),
        ensures
            cells@ == around(
                self.grid@.len() as int,
                width(self.grid@) as int,
                row as int,
                column as int,
            ),
    {
        self.grid.surrounding_tiles(row, column)
    }

    /// Whether no cell is unassigned any more.
    pub fn is_solved(&self) -> (b: bool)
        ensures
            b == solved(self.grid@),
    {
        self.grid.is_solved()
    }
}

impl Clone for Board {
    /// An independent copy with the same quotas and tiles.
    fn clone(&self) -> (copy: Board)
        ensures
            copy.rows@ == self.rows@,
            copy.columns@ == self.columns@,
            copy.grid@ == self.grid@,
    {
        let copy = Board {
            rows: self.rows.clone(),
            columns: self.columns.clone(),
            grid: self.grid.clone(),
        };
        assert(copy.rows@ =~= self.rows@);
        assert(copy.columns@ =~= self.columns@);
        copy
    }
}

/// Whether the table has `height` rows of `width` tiles each.
fn has_size(grid: &Grid, height: usize, width: usize) -> (b: bool)
    ensures
        b == fits(grid@, height as nat, width as nat),
{
    if grid.num_rows() != height {
        return false;
    }
    for r in 0..height
        invariant
            grid@.len() == height,
            forall|i: int| 0 <= i < r ==> (#[trigger] grid@[i]).len() == width,
    {
        if grid.array[r].len() != width {
            assert(grid@[r as int].len() != width);
            return false;
        }
    }
    true
}

} // verus!
