//! The rule for tight quotas: where the camps and the unassigned cells
//! of a row or column together are exactly its quota, every unassigned
//! cell of it must be a camp.

use vstd::prelude::*;
use crate::board::{fits, within_quota, Board};
use crate::grid::{
    camp_near, camps_apart, column_of, count_of, in_table, solved, with_camp,
    with_camp_keeps_apart, Grid,
};
use crate::narrowing::{
    count_of_two, narrowing_stays_changed, narrows, narrows_twice, with_camp_narrows,
};
use crate::solution::{
    admits, camps_come_from_open_cells, forced_camp_is_safe, keeps_every_way,
    open_table_is_within_quota,
};
use crate::tile::Tile;

verus! {

/// The line needs every one of its unassigned cells to reach `quota`
/// camps.
pub open spec fn needs_all(line: Seq<Tile>, quota: usize) -> bool {
    quota == count_of(line, Tile::Unassigned) + count_of(line, Tile::Camp)
}

/// The table after an attempt to put a camp on `(row, column)`: the camp
/// is placed if the cell is unassigned and no camp is near, else nothing
/// changes.
pub open spec fn camp_tried(g: Seq<Seq<Tile>>, row: int, column: int) -> Seq<Seq<Tile>> {
    if g[row][column] == Tile::Unassigned && !camp_near(g, row, column) {
        with_camp(g, row, column)
    } else {
        g
    }
}

/// The table after camps were tried, from left to right, on the first
/// `upto` cells of a row.
pub open spec fn row_camped(g: Seq<Seq<Tile>>, row: int, upto: nat) -> Seq<Seq<Tile>>
    decreases upto,
{
    if upto == 0 {
        g
    } else {
        camp_tried(row_camped(g, row, (upto - 1) as nat), row, upto - 1)
    }
}

/// The table after camps were tried, from the top down, on the first
/// `upto` cells of a column.
pub open spec fn column_camped(g: Seq<Seq<Tile>>, column: int, upto: nat) -> Seq<Seq<Tile>>
    decreases upto,
{
    if upto == 0 {
        g
    } else {
        camp_tried(column_camped(g, column, (upto - 1) as nat), upto - 1, column)
    }
}

/// The table after the first `upto` rows were handled in turn: a row
/// that, as the table then stands, needs all its unassigned cells gets
/// camps tried on all of them.
pub open spec fn rows_camped(g: Seq<Seq<Tile>>, rows: Seq<usize>, upto: nat) -> Seq<Seq<Tile>>
    decreases upto,
{
    if upto == 0 {
        g
    } else {
        let sofar = rows_camped(g, rows, (upto - 1) as nat);
        let row = upto - 1;
        if needs_all(sofar[row], rows[row]) {
            row_camped(sofar, row, sofar[row].len())
        } else {
            sofar
        }
    }
}

/// The same for the first `upto` columns.
pub open spec fn columns_camped(g: Seq<Seq<Tile>>, columns: Seq<usize>, upto: nat) -> Seq<
    Seq<Tile>,
>
    decreases upto,
{
    if upto == 0 {
        g
    } else {
        let sofar = columns_camped(g, columns, (upto - 1) as nat);
        let column = upto - 1;
        if needs_all(column_of(sofar, column), columns[column]) {
            column_camped(sofar, column, sofar.len())
        } else {
            sofar
        }
    }
}

/// The table after the whole rule: all rows in turn, then all columns.
pub open spec fn camps_filled(g: Seq<Seq<Tile>>, rows: Seq<usize>, columns: Seq<usize>) -> Seq<
    Seq<Tile>,
> {
    columns_camped(rows_camped(g, rows, rows.len()), columns, columns.len())
}

/// Trying a camp narrows the table.
pub proof fn camp_tried_narrows(g: Seq<Seq<Tile>>, row: int, column: int)
    requires
        in_table(g, row, column),
    ensures
        narrows(g, camp_tried(g, row, column)),
        camps_apart(g) ==> camps_apart(camp_tried(g, row, column)),
{
    if g[row][column] == Tile::Unassigned && !camp_near(g, row, column) {
        with_camp_narrows(g, row, column);
        if camps_apart(g) {
            with_camp_keeps_apart(g, row, column);
        }
    }
}

/// Trying camps along a row narrows the table and keeps camps apart.
pub proof fn row_camped_narrows(g: Seq<Seq<Tile>>, row: int, upto: nat)
    requires
        0 <= row < g.len(),
        upto <= g[row].len(),
    ensures
        narrows(g, row_camped(g, row, upto)),
        camps_apart(g) ==> camps_apart(row_camped(g, row, upto)),
    decreases upto,
{
    if upto > 0 {
        let sofar = row_camped(g, row, (upto - 1) as nat);
        row_camped_narrows(g, row, (upto - 1) as nat);
        assert(g[row].len() == sofar[row].len());
        camp_tried_narrows(sofar, row, upto - 1);
        narrows_twice(g, sofar, camp_tried(sofar, row, upto - 1));
    }
}

/// Trying camps along a column narrows the table and keeps camps apart.
pub proof fn column_camped_narrows(g: Seq<Seq<Tile>>, column: int, upto: nat)
    requires
        upto <= g.len(),
        0 <= column,
        forall|r: int| 0 <= r < g.len() ==> column < (#[trigger] g[r]).len(),
    ensures
        narrows(g, column_camped(g, column, upto)),
        camps_apart(g) ==> camps_apart(column_camped(g, column, upto)),
    decreases upto,
{
    if upto > 0 {
        let sofar = column_camped(g, column, (upto - 1) as nat);
        column_camped_narrows(g, column, (upto - 1) as nat);
        assert(g[upto - 1].len() == sofar[upto - 1].len());
        camp_tried_narrows(sofar, upto - 1, column);
        narrows_twice(g, sofar, camp_tried(sofar, upto - 1, column));
    }
}

/// Handling rows narrows the table and keeps camps apart.
pub proof fn rows_camped_narrows(g: Seq<Seq<Tile>>, rows: Seq<usize>, upto: nat)
    requires
        upto <= g.len(),
    ensures
        narrows(g, rows_camped(g, rows, upto)),
        camps_apart(g) ==> camps_apart(rows_camped(g, rows, upto)),
    decreases upto,
{
    if upto > 0 {
        let sofar = rows_camped(g, rows, (upto - 1) as nat);
        rows_camped_narrows(g, rows, (upto - 1) as nat);
        let row = upto - 1;
        row_camped_narrows(sofar, row, sofar[row].len());
        narrows_twice(g, sofar, row_camped(sofar, row, sofar[row].len()));
    }
}

/// Handling columns narrows the table and keeps camps apart.
pub proof fn columns_camped_narrows(g: Seq<Seq<Tile>>, columns: Seq<usize>, upto: nat)
    requires
        forall|r: int| 0 <= r < g.len() ==> upto <= (#[trigger] g[r]).len(),
    ensures
        narrows(g, columns_camped(g, columns, upto)),
        camps_apart(g) ==> camps_apart(columns_camped(g, columns, upto)),
    decreases upto,
{
    if upto > 0 {
        let sofar = columns_camped(g, columns, (upto - 1) as nat);
        columns_camped_narrows(g, columns, (upto - 1) as nat);
        let column = upto - 1;
        assert forall|r: int| 0 <= r < sofar.len() implies column < (
        #[trigger] sofar[r]).len() by {
            assert(g[r].len() == sofar[r].len());
        }
        column_camped_narrows(sofar, column, sofar.len());
        narrows_twice(g, sofar, column_camped(sofar, column, sofar.len()));
    }
}

/// The whole rule narrows the table and keeps camps apart.
pub proof fn camps_filled_narrows(g: Seq<Seq<Tile>>, rows: Seq<usize>, columns: Seq<usize>)
    requires
        fits(g, rows.len(), columns.len()),
    ensures
        narrows(g, camps_filled(g, rows, columns)),
        camps_apart(g) ==> camps_apart(camps_filled(g, rows, columns)),
{
    let mid = rows_camped(g, rows, rows.len());
    rows_camped_narrows(g, rows, rows.len());
    assert forall|r: int| 0 <= r < mid.len() implies columns.len() <= (#[trigger] mid[r]).len() by {
        assert(g[r].len() == mid[r].len());
    }
    columns_camped_narrows(mid, columns, columns.len());
    narrows_twice(g, mid, camps_filled(g, rows, columns));
}

/// Where a way to decide the table has a camp on every unassigned cell
/// of a row, trying camps along the row does not rule it out.
proof fn row_camped_keeps(g: Seq<Seq<Tile>>, s: Seq<Seq<Tile>>, row: int, upto: nat)
    requires
        0 <= row < g.len(),
        upto <= g[row].len(),
        narrows(g, s),
        solved(s),
        camps_apart(s),
        forall|j: int| 0 <= j < g[row].len() && g[row][j] == Tile::Unassigned ==> s[row][j] == Tile::Camp,
    ensures
        narrows(row_camped(g, row, upto), s),
    decreases upto,
{
    if upto > 0 {
        let sofar = row_camped(g, row, (upto - 1) as nat);
        row_camped_keeps(g, s, row, (upto - 1) as nat);
        row_camped_narrows(g, row, (upto - 1) as nat);
        let column = upto - 1;
        assert(g[row].len() == sofar[row].len());
        assert(in_table(g, row, column));
        if sofar[row][column] == Tile::Unassigned {
            forced_camp_is_safe(sofar, s, row, column);
        }
    }
}

/// The same along a column.
proof fn column_camped_keeps(g: Seq<Seq<Tile>>, s: Seq<Seq<Tile>>, column: int, upto: nat)
    requires
        upto <= g.len(),
        0 <= column,
        forall|r: int| 0 <= r < g.len() ==> column < (#[trigger] g[r]).len(),
        narrows(g, s),
        solved(s),
        camps_apart(s),
        forall|i: int| 0 <= i < g.len() && g[i][column] == Tile::Unassigned ==> s[i][column] == Tile::Camp,
    ensures
        narrows(column_camped(g, column, upto), s),
    decreases upto,
{
    if upto > 0 {
        let sofar = column_camped(g, column, (upto - 1) as nat);
        column_camped_keeps(g, s, column, (upto - 1) as nat);
        column_camped_narrows(g, column, (upto - 1) as nat);
        let row = upto - 1;
        assert(g[row].len() == sofar[row].len());
        assert(in_table(g, row, column));
        if sofar[row][column] == Tile::Unassigned {
            forced_camp_is_safe(sofar, s, row, column);
        }
    }
}

/// Handling rows rules out no way to decide the table within the rules.
proof fn rows_camped_keeps(
    g: Seq<Seq<Tile>>,
    rows: Seq<usize>,
    columns: Seq<usize>,
    s: Seq<Seq<Tile>>,
    upto: nat,
)
    requires
        fits(g, rows.len(), columns.len()),
        upto <= rows.len(),
        admits(g, rows, columns, s),
    ensures
        narrows(rows_camped(g, rows, upto), s),
    decreases upto,
{
    if upto > 0 {
        let sofar = rows_camped(g, rows, (upto - 1) as nat);
        rows_camped_keeps(g, rows, columns, s, (upto - 1) as nat);
        rows_camped_narrows(g, rows, (upto - 1) as nat);
        let row = upto - 1;
        assert(g[row].len() == sofar[row].len());
        assert(sofar[row].len() == s[row].len());
        if needs_all(sofar[row], rows[row]) {
            assert forall|i: int|
                0 <= i < sofar[row].len() && sofar[row][i] != Tile::Unassigned implies s[row][i]
                == sofar[row][i] by {
                assert(in_table(sofar, row, i));
            }
            camps_come_from_open_cells(sofar[row], s[row]);
            row_camped_keeps(sofar, s, row, sofar[row].len());
        }
    }
}

/// Handling columns rules out no way to decide the table within the
/// rules.
proof fn columns_camped_keeps(
    g: Seq<Seq<Tile>>,
    rows: Seq<usize>,
    columns: Seq<usize>,
    s: Seq<Seq<Tile>>,
    upto: nat,
)
    requires
        fits(g, rows.len(), columns.len()),
        upto <= columns.len(),
        admits(g, rows, columns, s),
    ensures
        narrows(columns_camped(g, columns, upto), s),
    decreases upto,
{
    if upto > 0 {
        let sofar = columns_camped(g, columns, (upto - 1) as nat);
        columns_camped_keeps(g, rows, columns, s, (upto - 1) as nat);
        columns_camped_narrows(g, columns, (upto - 1) as nat);
        let column = upto - 1;
        let x = column_of(sofar, column);
        let y = column_of(s, column);
        assert forall|r: int| 0 <= r < sofar.len() implies column < (
        #[trigger] sofar[r]).len() by {
            assert(g[r].len() == sofar[r].len());
        }
        if needs_all(x, columns[column]) {
            assert forall|i: int| 0 <= i < x.len() && x[i] != Tile::Unassigned implies y[i]
                == x[i] by {
                assert(in_table(sofar, i, column));
            }
            camps_come_from_open_cells(x, y);
            assert forall|i: int|
                0 <= i < sofar.len() && sofar[i][column] == Tile::Unassigned implies s[i][column]
                == Tile::Camp by {
                assert(x[i] == Tile::Unassigned);
                assert(y[i] == Tile::Camp);
            }
            column_camped_keeps(sofar, s, column, sofar.len());
        }
    }
}

/// The rule rules out no way to decide the table within the rules.  So
/// if there is such a way, no row or column holds more camps than its
/// quota afterwards.
pub proof fn camps_filled_keeps_every_way(
    g: Seq<Seq<Tile>>,
    rows: Seq<usize>,
    columns: Seq<usize>,
)
    requires
        fits(g, rows.len(), columns.len()),
    ensures
        keeps_every_way(g, camps_filled(g, rows, columns), rows, columns),
        (exists|s: Seq<Seq<Tile>>| admits(g, rows, columns, s)) ==> within_quota(
            camps_filled(g, rows, columns),
            rows,
            columns,
        ),
{
    let mid = rows_camped(g, rows, rows.len());
    let end = camps_filled(g, rows, columns);
    rows_camped_narrows(g, rows, rows.len());
    camps_filled_narrows(g, rows, columns);
    assert(fits(mid, rows.len(), columns.len())) by {
        assert forall|r: int| 0 <= r < mid.len() implies (#[trigger] mid[r]).len()
            == columns.len() by {
            assert(g[r].len() == mid[r].len());
        }
    }
    assert(fits(end, rows.len(), columns.len())) by {
        assert forall|r: int| 0 <= r < end.len() implies (#[trigger] end[r]).len()
            == columns.len() by {
            assert(g[r].len() == end[r].len());
        }
    }
    assert forall|s: Seq<Seq<Tile>>| #[trigger] admits(g, rows, columns, s) implies narrows(
        end,
        s,
    ) by {
        rows_camped_keeps(g, rows, columns, s, rows.len());
        columns_camped_keeps(mid, rows, columns, s, columns.len());
    }
    if exists|s: Seq<Seq<Tile>>| admits(g, rows, columns, s) {
        let s = choose|s: Seq<Seq<Tile>>| admits(g, rows, columns, s);
        open_table_is_within_quota(end, rows, columns, s);
    }
}

/// No camp is due: in every row and column that needs all its
/// unassigned cells, each of them has a camp near, so that none can be
/// placed.
pub open spec fn no_camp_due(g: Seq<Seq<Tile>>, rows: Seq<usize>, columns: Seq<usize>) -> bool {
    forall|r: int, c: int|
        in_table(g, r, c) && g[r][c] == Tile::Unassigned && (needs_all(g[r], rows[r]) || needs_all(
            column_of(g, c),
            columns[c],
        )) ==> #[trigger] camp_near(g, r, c)
}

/// Trying camps along a row changes nothing exactly if every cell tried
/// is decided or has a camp near.
proof fn row_camped_rests(g: Seq<Seq<Tile>>, row: int, upto: nat)
    requires
        0 <= row < g.len(),
        upto <= g[row].len(),
    ensures
        (row_camped(g, row, upto) == g) == (forall|j: int|
            0 <= j < upto && g[row][j] == Tile::Unassigned ==> #[trigger] camp_near(g, row, j)),
    decreases upto,
{
    if upto > 0 {
        let sofar = row_camped(g, row, (upto - 1) as nat);
        row_camped_rests(g, row, (upto - 1) as nat);
        row_camped_narrows(g, row, (upto - 1) as nat);
        assert(g[row].len() == sofar[row].len());
        camp_tried_narrows(sofar, row, upto - 1);
        narrowing_stays_changed(g, sofar, camp_tried(sofar, row, upto - 1));
        if sofar == g {
            if g[row][upto - 1] == Tile::Unassigned && !camp_near(g, row, upto - 1) {
                with_camp_narrows(g, row, upto - 1);
            }
        }
    }
}

/// Trying camps along a column changes nothing exactly if every cell
/// tried is decided or has a camp near.
proof fn column_camped_rests(g: Seq<Seq<Tile>>, column: int, upto: nat)
    requires
        upto <= g.len(),
        0 <= column,
        forall|r: int| 0 <= r < g.len() ==> column < (#[trigger] g[r]).len(),
    ensures
        (column_camped(g, column, upto) == g) == (forall|i: int|
            0 <= i < upto && g[i][column] == Tile::Unassigned ==> #[trigger] camp_near(
                g,
                i,
                column,
            )),
    decreases upto,
{
    if upto > 0 {
        let sofar = column_camped(g, column, (upto - 1) as nat);
        column_camped_rests(g, column, (upto - 1) as nat);
        column_camped_narrows(g, column, (upto - 1) as nat);
        assert(g[upto - 1].len() == sofar[upto - 1].len());
        camp_tried_narrows(sofar, upto - 1, column);
        narrowing_stays_changed(g, sofar, camp_tried(sofar, upto - 1, column));
        if sofar == g {
            if g[upto - 1][column] == Tile::Unassigned && !camp_near(g, upto - 1, column) {
                with_camp_narrows(g, upto - 1, column);
            }
        }
    }
}

/// Handling rows changes nothing exactly if in none of them a camp is
/// due.
proof fn rows_camped_rests(g: Seq<Seq<Tile>>, rows: Seq<usize>, upto: nat)
    requires
        upto <= g.len(),
    ensures
        (rows_camped(g, rows, upto) == g) == (forall|r: int, c: int|
            0 <= r < upto && 0 <= c < g[r].len() && g[r][c] == Tile::Unassigned && needs_all(
                g[r],
                rows[r],
            ) ==> #[trigger] camp_near(g, r, c)),
    decreases upto,
{
    if upto > 0 {
        let sofar = rows_camped(g, rows, (upto - 1) as nat);
        let row = upto - 1;
        rows_camped_rests(g, rows, (upto - 1) as nat);
        rows_camped_narrows(g, rows, (upto - 1) as nat);
        row_camped_narrows(sofar, row, sofar[row].len());
        narrowing_stays_changed(g, sofar, row_camped(sofar, row, sofar[row].len()));
        if sofar == g {
            row_camped_rests(g, row, g[row].len());
        }
    }
}

/// Handling columns changes nothing exactly if in none of them a camp
/// is due.
proof fn columns_camped_rests(g: Seq<Seq<Tile>>, columns: Seq<usize>, upto: nat)
    requires
        forall|r: int| 0 <= r < g.len() ==> upto <= (#[trigger] g[r]).len(),
    ensures
        (columns_camped(g, columns, upto) == g) == (forall|r: int, c: int|
            0 <= r < g.len() && 0 <= c < upto && g[r][c] == Tile::Unassigned && needs_all(
                column_of(g, c),
                columns[c],
            ) ==> #[trigger] camp_near(g, r, c)),
    decreases upto,
{
    if upto > 0 {
        let sofar = columns_camped(g, columns, (upto - 1) as nat);
        let column = upto - 1;
        columns_camped_rests(g, columns, (upto - 1) as nat);
        columns_camped_narrows(g, columns, (upto - 1) as nat);
        assert forall|r: int| 0 <= r < sofar.len() implies column < (#[trigger] sofar[r]).len() by {
            assert(g[r].len() == sofar[r].len());
        }
        column_camped_narrows(sofar, column, sofar.len());
        narrowing_stays_changed(g, sofar, column_camped(sofar, column, sofar.len()));
        if sofar == g {
            column_camped_rests(g, column, g.len());
        }
    }
}

/// The rule changes nothing exactly on the tables on which no camp is
/// due.
pub proof fn camps_filled_rests(g: Seq<Seq<Tile>>, rows: Seq<usize>, columns: Seq<usize>)
    requires
        fits(g, rows.len(), columns.len()),
    ensures
        (camps_filled(g, rows, columns) == g) == no_camp_due(g, rows, columns),
{
    let mid = rows_camped(g, rows, rows.len());
    rows_camped_narrows(g, rows, rows.len());
    assert forall|r: int| 0 <= r < mid.len() implies columns.len() <= (#[trigger] mid[r]).len() by {
        assert(g[r].len() == mid[r].len());
    }
    columns_camped_narrows(mid, columns, columns.len());
    narrowing_stays_changed(g, mid, camps_filled(g, rows, columns));
    rows_camped_rests(g, rows, rows.len());
    if mid == g {
        columns_camped_rests(g, columns, columns.len());
    }
    if no_camp_due(g, rows, columns) {
        assert(mid == g);
    }
    if camps_filled(g, rows, columns) == g {
        assert forall|r: int, c: int|
            in_table(g, r, c) && g[r][c] == Tile::Unassigned && (needs_all(g[r], rows[r])
                || needs_all(column_of(g, c), columns[c])) implies #[trigger] camp_near(
            g,
            r,
            c,
        ) by {
            assert(g[r].len() == columns.len());
        }
    }
}

/// Applying the rule a second time changes nothing, provided that after
/// the first time no camp is due.  (A camp can become due through the
/// first application: placing one turns cells round it into grass, which
/// may leave another line in need of all its unassigned cells.)
pub proof fn camps_filled_settles(g: Seq<Seq<Tile>>, rows: Seq<usize>, columns: Seq<usize>)
    requires
        fits(g, rows.len(), columns.len()),
        no_camp_due(camps_filled(g, rows, columns), rows, columns),
    ensures
        camps_filled(camps_filled(g, rows, columns), rows, columns) == camps_filled(
            g,
            rows,
            columns,
        ),
{
    let once = camps_filled(g, rows, columns);
    camps_filled_narrows(g, rows, columns);
    assert(fits(once, rows.len(), columns.len())) by {
        assert forall|r: int| 0 <= r < once.len() implies (#[trigger] once[r]).len()
            == columns.len() by {
            assert(g[r].len() == once[r].len());
        }
    }
    camps_filled_rests(once, rows, columns);
}

/// Try a camp on every unassigned cell of a row, from left to right.
fn camp_row(grid: &mut Grid, row: usize) -> (changed: bool)
    requires
        row < old(grid)@.len(),
    ensures
        final(grid)@ == row_camped(old(grid)@, row as int, old(grid)@[row as int].len()),
        changed == (final(grid)@ != old(grid)@),
{
    let ghost before = grid@;
    let len: usize = grid.array[row].len();
    let mut changed = false;
    for column in 0..len
        invariant
            before == old(grid)@,
            row < before.len(),
            len == before[row as int].len(),
            grid@ == row_camped(before, row as int, column as nat),
            changed == (grid@ != before),
    {
        let ghost sofar = grid@;
        proof {
            row_camped_narrows(before, row as int, column as nat);
            assert(before[row as int].len() == sofar[row as int].len());
            camp_tried_narrows(sofar, row as int, column as int);
            narrowing_stays_changed(before, sofar, camp_tried(sofar, row as int, column as int));
        }
        if grid.at(row, column) == Tile::Unassigned {
            match grid.set_camp(row, column) {
                Ok(_) => {
                    proof {
                        with_camp_narrows(sofar, row as int, column as int);
                    }
                    changed = true;
                },
                Err(_) => {},
            }
        }
        assert(grid@ == camp_tried(sofar, row as int, column as int));
    }
    changed
}

/// Try a camp on every unassigned cell of a column, from the top down.
fn camp_column(grid: &mut Grid, column: usize) -> (changed: bool)
    requires
        forall|r: int| 0 <= r < old(grid)@.len() ==> column < (#[trigger] old(grid)@[r]).len(),
    ensures
        final(grid)@ == column_camped(old(grid)@, column as int, old(grid)@.len()),
        changed == (final(grid)@ != old(grid)@),
{
    let ghost before = grid@;
    let height: usize = grid.array.len();
    let mut changed = false;
    for row in 0..height
        invariant
            before == old(grid)@,
            height == before.len(),
            forall|r: int| 0 <= r < before.len() ==> column < (#[trigger] before[r]).len(),
            grid@ == column_camped(before, column as int, row as nat),
            changed == (grid@ != before),
    {
        let ghost sofar = grid@;
        proof {
            column_camped_narrows(before, column as int, row as nat);
            assert(before[row as int].len() == sofar[row as int].len());
            camp_tried_narrows(sofar, row as int, column as int);
            narrowing_stays_changed(before, sofar, camp_tried(sofar, row as int, column as int));
        }
        if grid.at(row, column) == Tile::Unassigned {
            match grid.set_camp(row, column) {
                Ok(_) => {
                    proof {
                        with_camp_narrows(sofar, row as int, column as int);
                    }
                    changed = true;
                },
                Err(_) => {},
            }
        }
        assert(grid@ == camp_tried(sofar, row as int, column as int));
    }
    changed
}

/// For every row, then every column, whose camps and unassigned cells
/// together are exactly its quota: put a camp on each of its unassigned
/// cells.  A camp turns the unassigned cells round it into grass, and is
/// not placed where another camp is near.  Returns whether any cell
/// changed.
pub fn fill_camps(board: &mut Board) -> (changed: bool)
    requires
        old(board).well_formed(),
    ensures
        final(board).rows == old(board).rows,
        final(board).columns == old(board).columns,
        final(board).grid@ == camps_filled(
            old(board).grid@,
            old(board).rows@,
            old(board).columns@,
        ),
        changed == (final(board).grid@ != old(board).grid@),
        final(board).well_formed(),
        narrows(old(board).grid@, final(board).grid@),
        camps_apart(old(board).grid@) ==> camps_apart(final(board).grid@),
        keeps_every_way(
            old(board).grid@,
            final(board).grid@,
            old(board).rows@,
            old(board).columns@,
        ),
        (exists|s: Seq<Seq<Tile>>| admits(old(board).grid@, old(board).rows@, old(board).columns@, s))
            ==> within_quota(final(board).grid@, final(board).rows@, final(board).columns@),
{
    let ghost before = board.grid@;
    let ghost rows = board.rows@;
    let ghost columns = board.columns@;
    let height: usize = board.rows.len();
    let width: usize = board.columns.len();
    let mut changed = false;
    for row in 0..height
        invariant
            board.rows == old(board).rows,
            board.columns == old(board).columns,
            rows == board.rows@,
            columns == board.columns@,
            height == rows.len(),
            width == columns.len(),
            before == old(board).grid@,
            fits(before, rows.len(), columns.len()),
            board.grid@ == rows_camped(before, rows, row as nat),
            changed == (board.grid@ != before),
    {
        let ghost sofar = board.grid@;
        proof {
            rows_camped_narrows(before, rows, row as nat);
            assert(before[row as int].len() == sofar[row as int].len());
            row_camped_narrows(sofar, row as int, sofar[row as int].len());
            narrowing_stays_changed(
                before,
                sofar,
                row_camped(sofar, row as int, sofar[row as int].len()),
            );
            count_of_two(sofar[row as int], Tile::Unassigned, Tile::Camp);
        }
        let open: usize = board.grid.count_in_row(row, Tile::Unassigned);
        let camps: usize = board.grid.count_in_row(row, Tile::Camp);
        if board.rows[row] == open + camps {
            let here = camp_row(&mut board.grid, row);
            changed = changed || here;
        }
    }
    let ghost mid = board.grid@;
    proof {
        rows_camped_narrows(before, rows, rows.len());
    }
    for column in 0..width
        invariant
            board.rows == old(board).rows,
            board.columns == old(board).columns,
            rows == board.rows@,
            columns == board.columns@,
            height == rows.len(),
            width == columns.len(),
            before == old(board).grid@,
            fits(before, rows.len(), columns.len()),
            mid == rows_camped(before, rows, rows.len()),
            narrows(before, mid),
            board.grid@ == columns_camped(mid, columns, column as nat),
            changed == (board.grid@ != before),
    {
        let ghost sofar = board.grid@;
        proof {
            assert forall|r: int| 0 <= r < mid.len() implies column < (#[trigger] mid[r]).len() by {
                assert(before[r].len() == mid[r].len());
            }
            columns_camped_narrows(mid, columns, column as nat);
            assert forall|r: int| 0 <= r < sofar.len() implies column < (
            #[trigger] sofar[r]).len() by {
                assert(mid[r].len() == sofar[r].len());
            }
            column_camped_narrows(sofar, column as int, sofar.len());
            narrows_twice(before, mid, sofar);
            narrowing_stays_changed(
                before,
                sofar,
                column_camped(sofar, column as int, sofar.len()),
            );
            count_of_two(column_of(sofar, column as int), Tile::Unassigned, Tile::Camp);
        }
        let open: usize = board.grid.count_in_column(column, Tile::Unassigned);
        let camps: usize = board.grid.count_in_column(column, Tile::Camp);
        if board.columns[column] == open + camps {
            let here = camp_column(&mut board.grid, column);
            changed = changed || here;
        }
    }
    proof {
        camps_filled_narrows(before, rows, columns);
        camps_filled_keeps_every_way(before, rows, columns);
        assert forall|r: int| 0 <= r < before.len() implies (#[trigger] board.grid@[r]).len()
            == columns.len() by {
            assert(before[r].len() == board.grid@[r].len());
        }
    }
    changed
}

} // verus!
