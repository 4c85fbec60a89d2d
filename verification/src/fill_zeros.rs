//! The rule for used-up quotas: once a row or a column holds as many
//! camps as it must, every cell of it that is still unassigned is grass.

use vstd::prelude::*;
use crate::board::{fits, same_camps_keep_quota, within_quota, Board};
use crate::grid::{column_of, count_of, in_table, same_shape, Grid};
use crate::narrowing::{narrows, same_camps, same_camps_same_counts};
use crate::solution::{admits, camps_stay, keeps_every_way};
use crate::tile::Tile;

verus! {

/// The row already holds its quota of camps.
pub open spec fn row_full(g: Seq<Seq<Tile>>, rows: Seq<usize>, row: int) -> bool {
    count_of(g[row], Tile::Camp) == rows[row]
}

/// The column already holds its quota of camps.
pub open spec fn column_full(g: Seq<Seq<Tile>>, columns: Seq<usize>, column: int) -> bool {
    count_of(column_of(g, column), Tile::Camp) == columns[column]
}

/// The table in which every unassigned cell of a full row or a full
/// column has become grass.
pub open spec fn zeros_filled(g: Seq<Seq<Tile>>, rows: Seq<usize>, columns: Seq<usize>) -> Seq<
    Seq<Tile>,
> {
    Seq::new(
        g.len(),
        |r: int|
            Seq::new(
                g[r].len(),
                |c: int|
                    if g[r][c] == Tile::Unassigned && (row_full(g, rows, r) || column_full(
                        g,
                        columns,
                        c,
                    )) {
                        Tile::Grass
                    } else {
                        g[r][c]
                    },
            ),
    )
}

/// The table in which every unassigned cell of one row has become grass.
pub open spec fn row_grassed(g: Seq<Seq<Tile>>, row: int) -> Seq<Seq<Tile>> {
    Seq::new(
        g.len(),
        |r: int|
            Seq::new(
                g[r].len(),
                |c: int|
                    if r == row && g[r][c] == Tile::Unassigned {
                        Tile::Grass
                    } else {
                        g[r][c]
                    },
            ),
    )
}

/// The table in which every unassigned cell of one column has become
/// grass.
pub open spec fn column_grassed(g: Seq<Seq<Tile>>, column: int) -> Seq<Seq<Tile>> {
    Seq::new(
        g.len(),
        |r: int|
            Seq::new(
                g[r].len(),
                |c: int|
                    if c == column && g[r][c] == Tile::Unassigned {
                        Tile::Grass
                    } else {
                        g[r][c]
                    },
            ),
    )
}

/// Applying the rule narrows the table and adds no camp.
pub proof fn zeros_filled_narrows(g: Seq<Seq<Tile>>, rows: Seq<usize>, columns: Seq<usize>)
    ensures
        narrows(g, zeros_filled(g, rows, columns)),
        same_camps(g, zeros_filled(g, rows, columns)),
{
}

/// The rule rules out no way to decide the table within the rules: a
/// line that holds its quota of camps gets no further camp.
pub proof fn zeros_filled_keeps_every_way(
    g: Seq<Seq<Tile>>,
    rows: Seq<usize>,
    columns: Seq<usize>,
)
    requires
        fits(g, rows.len(), columns.len()),
    ensures
        keeps_every_way(g, zeros_filled(g, rows, columns), rows, columns),
{
    let h = zeros_filled(g, rows, columns);
    assert forall|s: Seq<Seq<Tile>>| #[trigger] admits(g, rows, columns, s) implies narrows(
        h,
        s,
    ) by {
        assert forall|r: int, c: int| in_table(h, r, c) implies if h[r][c] == Tile::Unassigned {
            s[r][c] != Tile::Tree
        } else {
            s[r][c] == h[r][c]
        } by {
            assert(in_table(g, r, c));
            assert(g[r].len() == s[r].len());
            if g[r][c] == Tile::Unassigned && row_full(g, rows, r) {
                assert forall|i: int|
                    0 <= i < g[r].len() && g[r][i] != Tile::Unassigned implies s[r][i]
                    == g[r][i] by {
                    assert(in_table(g, r, i));
                }
                assert(count_of(s[r], Tile::Camp) == rows[r]);
                camps_stay(g[r], s[r]);
            }
            if g[r][c] == Tile::Unassigned && column_full(g, columns, c) {
                let x = column_of(g, c);
                let y = column_of(s, c);
                assert forall|i: int| 0 <= i < x.len() && x[i] != Tile::Unassigned implies y[i]
                    == x[i] by {
                    assert(g[i].len() == columns.len());
                    assert(in_table(g, i, c));
                }
                assert(count_of(y, Tile::Camp) == columns[c]);
                camps_stay(x, y);
                assert(x[r] == g[r][c] && y[r] == s[r][c]);
            }
        }
        assert forall|r: int| 0 <= r < h.len() implies (#[trigger] h[r]).len() == s[r].len() by {
            assert(g[r].len() == s[r].len());
        }
    }
}

/// Applying the rule a second time changes nothing.
pub proof fn zeros_filled_settles(g: Seq<Seq<Tile>>, rows: Seq<usize>, columns: Seq<usize>)
    requires
        fits(g, rows.len(), columns.len()),
    ensures
        zeros_filled(zeros_filled(g, rows, columns), rows, columns) == zeros_filled(
            g,
            rows,
            columns,
        ),
{
    let h = zeros_filled(g, rows, columns);
    zeros_filled_narrows(g, rows, columns);
    same_camps_same_counts(g, h);
    assert forall|r: int, c: int| in_table(h, r, c) implies zeros_filled(h, rows, columns)[r][c]
        == h[r][c] by {
        assert(in_table(g, r, c));
        assert(count_of(g[r], Tile::Camp) == count_of(h[r], Tile::Camp));
        assert forall|i: int| 0 <= i < g.len() implies c < (#[trigger] g[i]).len() by {}
        assert(count_of(column_of(g, c), Tile::Camp) == count_of(column_of(h, c), Tile::Camp));
    }
    assert(zeros_filled(h, rows, columns) =~~= h);
}

/// Turn every unassigned cell of one row into grass.
fn grass_row(grid: &mut Grid, row: usize) -> (changed: bool)
    requires
        row < old(grid)@.len(),
    ensures
        final(grid)@ == row_grassed(old(grid)@, row as int),
        changed == (final(grid)@ != old(grid)@),
{
    let ghost before = grid@;
    let ghost goal = row_grassed(before, row as int);
    let len: usize = grid.array[row].len();
    let mut changed = false;
    for column in 0..len
        invariant
            row < before.len(),
            len == before[row as int].len(),
            before == old(grid)@,
            goal == row_grassed(before, row as int),
            same_shape(grid@, before),
            changed == (grid@ != before),
            forall|i: int, j: int|
                in_table(before, i, j) ==> #[trigger] grid@[i][j] == if j < column {
                    goal[i][j]
                } else {
                    before[i][j]
                },
    {
        assert(grid@[row as int].len() == before[row as int].len());
        assert(in_table(before, row as int, column as int));
        if grid.at(row, column) == Tile::Unassigned {
            grid.set(row, column, Tile::Grass);
            changed = true;
            assert(grid@[row as int][column as int] != before[row as int][column as int]);
        }
    }
    assert(grid@ =~~= goal) by {
        assert forall|i: int| 0 <= i < goal.len() implies grid@[i] =~= goal[i] by {
            assert(grid@[i].len() == before[i].len());
            assert forall|j: int| 0 <= j < goal[i].len() implies grid@[i][j] == goal[i][j] by {
                assert(in_table(before, i, j));
                if i == row {
                    assert(j < len);
                }
            }
        }
    }
    changed
}

/// Turn every unassigned cell of one column into grass.
fn grass_column(grid: &mut Grid, column: usize) -> (changed: bool)
    requires
        forall|r: int| 0 <= r < old(grid)@.len() ==> column < (#[trigger] old(grid)@[r]).len(),
    ensures
        final(grid)@ == column_grassed(old(grid)@, column as int),
        changed == (final(grid)@ != old(grid)@),
{
    let ghost before = grid@;
    let ghost goal = column_grassed(before, column as int);
    let height: usize = grid.array.len();
    let mut changed = false;
    for row in 0..height
        invariant
            height == before.len(),
            forall|r: int| 0 <= r < before.len() ==> column < (#[trigger] before[r]).len(),
            before == old(grid)@,
            goal == column_grassed(before, column as int),
            same_shape(grid@, before),
            changed == (grid@ != before),
            forall|i: int, j: int|
                in_table(before, i, j) ==> #[trigger] grid@[i][j] == if i < row {
                    goal[i][j]
                } else {
                    before[i][j]
                },
    {
        assert(grid@[row as int].len() == before[row as int].len());
        assert(in_table(before, row as int, column as int));
        if grid.at(row, column) == Tile::Unassigned {
            grid.set(row, column, Tile::Grass);
            changed = true;
            assert(grid@[row as int][column as int] != before[row as int][column as int]);
        }
    }
    assert(grid@ =~~= goal) by {
        assert forall|i: int| 0 <= i < goal.len() implies grid@[i] =~= goal[i] by {
            assert(grid@[i].len() == before[i].len());
            assert forall|j: int| 0 <= j < goal[i].len() implies grid@[i][j] == goal[i][j] by {
                assert(in_table(before, i, j));
            }
        }
    }
    changed
}

/// Turn the unassigned cells of every row and every column that already
/// holds its quota of camps into grass.  Returns whether any cell
/// changed.
pub fn fill_zeros(board: &mut Board) -> (changed: bool)
    requires
        old(board).well_formed(),
    ensures
        final(board).rows == old(board).rows,
        final(board).columns == old(board).columns,
        final(board).grid@ == zeros_filled(
            old(board).grid@,
            old(board).rows@,
            old(board).columns@,
        ),
        changed == (final(board).grid@ != old(board).grid@),
        final(board).well_formed(),
        narrows(old(board).grid@, final(board).grid@),
        same_camps(old(board).grid@, final(board).grid@),
        keeps_every_way(
            old(board).grid@,
            final(board).grid@,
            old(board).rows@,
            old(board).columns@,
        ),
        within_quota(old(board).grid@, old(board).rows@, old(board).columns@) ==> within_quota(
            final(board).grid@,
            final(board).rows@,
            final(board).columns@,
        ),
{
    let ghost before = board.grid@;
    let ghost rows = board.rows@;
    let ghost columns = board.columns@;
    let ghost goal = zeros_filled(before, rows, columns);
    let height: usize = board.rows.len();
    let width: usize = board.columns.len();
    let mut changed = false;
    for row in 0..height
        invariant
            board.rows == old(board).rows,
            board.columns == old(board).columns,
            rows == board.rows@,
            columns == board.columns@,
            height == rows.len(),
            width == columns.len(),
            before == old(board).grid@,
            board.well_formed(),
            same_shape(board.grid@, before),
            changed == (board.grid@ != before),
            forall|i: int, j: int|
                in_table(before, i, j) ==> #[trigger] board.grid@[i][j] == if i < row
                    && before[i][j] == Tile::Unassigned && row_full(before, rows, i) {
                    Tile::Grass
                } else {
                    before[i][j]
                },
    {
        let ghost current = board.grid@;
        assert(current[row as int] =~= before[row as int]) by {
            assert(current[row as int].len() == before[row as int].len());
            assert forall|j: int| 0 <= j < before[row as int].len() implies current[row as int][j]
                == before[row as int][j] by {
                assert(in_table(before, row as int, j));
            }
        }
        if board.grid.count_in_row(row, Tile::Camp) == board.rows[row] {
            let here = grass_row(&mut board.grid, row);
            proof {
                if here {
                    assert(board.grid@[row as int] != before[row as int]) by {
                        if board.grid@[row as int] == current[row as int] {
                            assert forall|i: int| 0 <= i < current.len() implies board.grid@[i]
                                =~= current[i] by {}
                            assert(board.grid@ =~= current);
                        }
                    }
                }
            }
            changed = changed || here;
        }
    }
    let ghost mid = board.grid@;
    proof {
        assert(same_camps(before, mid));
        same_camps_same_counts(before, mid);
    }
    for column in 0..width
        invariant
            board.rows == old(board).rows,
            board.columns == old(board).columns,
            rows == board.rows@,
            columns == board.columns@,
            height == rows.len(),
            width == columns.len(),
            before == old(board).grid@,
            board.well_formed(),
            same_shape(board.grid@, before),
            changed == (board.grid@ != before),
            forall|i: int, j: int|
                in_table(before, i, j) ==> #[trigger] board.grid@[i][j] == if before[i][j]
                    == Tile::Unassigned && (row_full(before, rows, i) || (j < column
                    && column_full(before, columns, j))) {
                    Tile::Grass
                } else {
                    before[i][j]
                },
    {
        let ghost current = board.grid@;
        proof {
            assert(same_camps(before, current));
            same_camps_same_counts(before, current);
            assert forall|r: int| 0 <= r < before.len() implies column < (
            #[trigger] before[r]).len() by {
                assert(current[r].len() == before[r].len());
            }
            assert(count_of(column_of(before, column as int), Tile::Camp) == count_of(
                column_of(current, column as int),
                Tile::Camp,
            ));
        }
        if board.grid.count_in_column(column, Tile::Camp) == board.columns[column] {
            let here = grass_column(&mut board.grid, column);
            proof {
                if here {
                    if board.grid@ == before {
                        assert(current =~~= before) by {
                            assert forall|i: int| 0 <= i < before.len() implies current[i]
                                =~= before[i] by {
                                assert(current[i].len() == before[i].len());
                                assert forall|j: int| 0 <= j < before[i].len() implies current[i][j]
                                    == before[i][j] by {
                                    assert(in_table(before, i, j));
                                }
                            }
                        }
                    }
                }
            }
            changed = changed || here;
        }
    }
    proof {
        assert(board.grid@ =~~= goal) by {
            assert forall|i: int| 0 <= i < goal.len() implies board.grid@[i] =~= goal[i] by {
                assert(board.grid@[i].len() == before[i].len());
                assert forall|j: int| 0 <= j < goal[i].len() implies board.grid@[i][j]
                    == goal[i][j] by {
                    assert(in_table(before, i, j));
                }
            }
        }
        zeros_filled_narrows(before, rows, columns);
        zeros_filled_keeps_every_way(before, rows, columns);
        same_camps_keep_quota(before, goal, rows, columns);
    }
    changed
}

} // verus!
