//! The rule that tries every placement: for one row or column, list all
//! the ways to put its missing camps on its unassigned cells without two
//! camps touching, and keep what all of them have in common.

use vstd::prelude::*;
use vstd::string::*;
use crate::board::{fits, within_quota, Board};
use crate::grid::{
    camp_at, camp_near, camps_apart, column_of, count_of, in_table, same_shape, solved, touching,
    with_camp, with_camp_keeps_apart, Grid,
};
use crate::narrowing::{narrowing_stays_changed, narrows, narrows_twice, with_camp_narrows};
use crate::solution::{admits, forced_camp_is_safe, keeps_every_way, open_table_is_within_quota};
use crate::tile::Tile;

verus! {

/// The row of the cell after `(row, column)` on a line that runs down a
/// column (`down`) or along a row.
pub open spec fn next_row(row: int, down: bool) -> int {
    if down {
        row + 1
    } else {
        row
    }
}

/// The column of the cell after `(row, column)` on such a line.
pub open spec fn next_column(column: int, down: bool) -> int {
    if down {
        column
    } else {
        column + 1
    }
}

/// How many cells of the line lie ahead, counting `(row, column)`.
pub open spec fn cells_ahead(g: Seq<Seq<Tile>>, row: int, column: int, down: bool) -> int {
    if !in_table(g, row, column) {
        0
    } else if down {
        g.len() - row
    } else {
        g[row].len() - column
    }
}

/// All the tables that come of `g` by putting exactly `count` camps on
/// unassigned cells of a line, from `(row, column)` on to the line's end.
/// Each camp turns the unassigned cells round it into grass, and none is
/// put where a camp is near.  At each cell the tables with a camp on it
/// come before those without.
pub open spec fn possibilities(
    g: Seq<Seq<Tile>>,
    count: nat,
    row: int,
    column: int,
    down: bool,
) -> Seq<Seq<Seq<Tile>>>
    decreases cells_ahead(g, row, column, down),
{
    if count == 0 {
        seq![g]
    } else if !in_table(g, row, column) {
        Seq::empty()
    } else {
        let with = if g[row][column] == Tile::Unassigned && !camp_near(g, row, column) {
            possibilities(
                with_camp(g, row, column),
                (count - 1) as nat,
                next_row(row, down),
                next_column(column, down),
                down,
            )
        } else {
            Seq::empty()
        };
        with + possibilities(g, count, next_row(row, down), next_column(column, down), down)
    }
}

/// All the tables of a sequence hold the same tile at `(row, column)`.
pub open spec fn agree(ps: Seq<Seq<Seq<Tile>>>, row: int, column: int) -> bool {
    forall|i: int| 0 <= i < ps.len() ==> (#[trigger] ps[i])[row][column] == ps[0][row][column]
}

/// What the tables of a sequence have in common: a cell holds the tile
/// that all of them hold there, and is unassigned where they differ.
pub open spec fn common(ps: Seq<Seq<Seq<Tile>>>) -> Seq<Seq<Tile>> {
    Seq::new(
        ps[0].len(),
        |r: int|
            Seq::new(
                ps[0][r].len(),
                |c: int|
                    if agree(ps, r, c) {
                        ps[0][r][c]
                    } else {
                        Tile::Unassigned
                    },
            ),
    )
}

/// The table after one line was worked on: what all the ways to place
/// the camps that the line still lacks have in common.  There is no such
/// table if the line holds more camps than its quota or if there is no
/// way to place what it lacks.
pub open spec fn line_deduced(
    g: Seq<Seq<Tile>>,
    quota: usize,
    row: int,
    column: int,
    down: bool,
) -> Option<Seq<Seq<Tile>>> {
    let line = if down {
        column_of(g, column)
    } else {
        g[row]
    };
    let camps = count_of(line, Tile::Camp);
    if camps > quota {
        None
    } else {
        let ps = possibilities(g, (quota - camps) as nat, row, column, down);
        if ps.len() == 0 {
            None
        } else {
            Some(common(ps))
        }
    }
}

/// The table after the first `upto` rows were worked on in turn, if none
/// of them was found impossible.
pub open spec fn rows_deduced(g: Seq<Seq<Tile>>, rows: Seq<usize>, upto: nat) -> Option<
    Seq<Seq<Tile>>,
>
    decreases upto,
{
    if upto == 0 {
        Some(g)
    } else {
        match rows_deduced(g, rows, (upto - 1) as nat) {
            None => None,
            Some(sofar) => line_deduced(sofar, rows[upto - 1], upto - 1, 0, false),
        }
    }
}

/// The same for the first `upto` columns.
pub open spec fn columns_deduced(g: Seq<Seq<Tile>>, columns: Seq<usize>, upto: nat) -> Option<
    Seq<Seq<Tile>>,
>
    decreases upto,
{
    if upto == 0 {
        Some(g)
    } else {
        match columns_deduced(g, columns, (upto - 1) as nat) {
            None => None,
            Some(sofar) => line_deduced(sofar, columns[upto - 1], 0, upto - 1, true),
        }
    }
}

/// The table after the whole rule, all rows and then all columns, if no
/// line was found impossible.
pub open spec fn intersections_found(
    g: Seq<Seq<Tile>>,
    rows: Seq<usize>,
    columns: Seq<usize>,
) -> Option<Seq<Seq<Tile>>> {
    match rows_deduced(g, rows, rows.len()) {
        None => None,
        Some(mid) => columns_deduced(mid, columns, columns.len()),
    }
}

/// Every listed table narrows the table it was listed for, and keeps
/// camps apart if that one does.
pub proof fn possibilities_narrow(
    g: Seq<Seq<Tile>>,
    count: nat,
    row: int,
    column: int,
    down: bool,
    i: int,
)
    requires
        0 <= i < possibilities(g, count, row, column, down).len(),
    ensures
        narrows(g, possibilities(g, count, row, column, down)[i]),
        camps_apart(g) ==> camps_apart(possibilities(g, count, row, column, down)[i]),
    decreases cells_ahead(g, row, column, down),
{
    if count > 0 && in_table(g, row, column) {
        let nr = next_row(row, down);
        let nc = next_column(column, down);
        let h = with_camp(g, row, column);
        let placed = g[row][column] == Tile::Unassigned && !camp_near(g, row, column);
        let with = if placed {
            possibilities(h, (count - 1) as nat, nr, nc, down)
        } else {
            Seq::empty()
        };
        if i < with.len() {
            possibilities_narrow(h, (count - 1) as nat, nr, nc, down, i);
            with_camp_narrows(g, row, column);
            narrows_twice(g, h, with[i]);
            if camps_apart(g) {
                with_camp_keeps_apart(g, row, column);
            }
        } else {
            possibilities_narrow(g, count, nr, nc, down, i - with.len());
        }
    }
}

/// What tables that all narrow `g` have in common narrows `g` too, and
/// each of them narrows it.
pub proof fn common_narrows(g: Seq<Seq<Tile>>, ps: Seq<Seq<Seq<Tile>>>)
    requires
        ps.len() > 0,
        forall|i: int| 0 <= i < ps.len() ==> narrows(g, #[trigger] ps[i]),
    ensures
        narrows(g, common(ps)),
        forall|i: int| 0 <= i < ps.len() ==> narrows(common(ps), #[trigger] ps[i]),
        camps_apart(ps[0]) ==> camps_apart(common(ps)),
{
    let m = common(ps);
    assert(narrows(g, ps[0]));
    assert forall|r: int| 0 <= r < g.len() implies (#[trigger] g[r]).len() == m[r].len() by {
        assert(g[r].len() == ps[0][r].len());
    }
    assert forall|r: int, c: int| in_table(g, r, c) implies if g[r][c] == Tile::Unassigned {
        m[r][c] != Tile::Tree
    } else {
        m[r][c] == g[r][c]
    } by {
        assert(g[r].len() == ps[0][r].len());
        let t = ps[0][r][c];
        if g[r][c] != Tile::Unassigned {
            assert forall|i: int| 0 <= i < ps.len() implies (#[trigger] ps[i])[r][c]
                == ps[0][r][c] by {
                assert(narrows(g, ps[i]));
                let u = ps[i][r][c];
            }
        }
    }
    assert forall|i: int| 0 <= i < ps.len() implies narrows(m, #[trigger] ps[i]) by {
        assert(narrows(g, ps[i]));
        assert forall|r: int| 0 <= r < m.len() implies (#[trigger] m[r]).len() == ps[i][r].len() by {
            assert(g[r].len() == ps[i][r].len());
            assert(g[r].len() == ps[0][r].len());
        }
        assert forall|r: int, c: int| in_table(m, r, c) implies if m[r][c] == Tile::Unassigned {
            ps[i][r][c] != Tile::Tree
        } else {
            ps[i][r][c] == m[r][c]
        } by {
            assert(g[r].len() == ps[0][r].len());
            assert(in_table(g, r, c));
        }
    }
    if camps_apart(ps[0]) {
        assert forall|r1: int, c1: int, r2: int, c2: int|
            #[trigger] camp_at(m, r1, c1) && #[trigger] camp_at(
                m,
                r2,
                c2,
            ) && touching(r1, c1, r2, c2) implies r1 == r2 && c1 == c2 by {
            assert(camp_at(ps[0], r1, c1));
            assert(camp_at(ps[0], r2, c2));
        }
    }
}

/// The tables held by a list of grids.
pub open spec fn tables_of(grids: Seq<Grid>) -> Seq<Seq<Seq<Tile>>> {
    Seq::new(grids.len(), |i: int| grids[i]@)
}

/// The text of the error for a line on which the camps it lacks cannot
/// be placed.
pub open spec fn no_placement_text() -> Seq<char> {
    "No way to place the camps of a row or column"@
}

/// Add to `possibilities` every table that comes of `grid` by putting
/// exactly `count` camps on unassigned cells of a line, from
/// `(row, column)` on; the line runs down the column if `down`, else
/// along the row.
fn enumerate(
    possibilities: &mut Vec<Grid>,
    grid: Grid,
    count: usize,
    row: usize,
    column: usize,
    down: bool,
)
    ensures
        tables_of(final(possibilities)@) == tables_of(old(possibilities)@) + self::possibilities(
            grid@,
            count as nat,
            row as int,
            column as int,
            down,
        ),
    decreases cells_ahead(grid@, row as int, column as int, down),
{
    let ghost found = tables_of(possibilities@);
    if count == 0 {
        possibilities.push(grid);
        assert(tables_of(possibilities@) =~= found + seq![grid@]);
        return ;
    }
    match grid.get(row, column) {
        None => {
            assert(tables_of(possibilities@) =~= found + Seq::empty());
        },
        Some(tile) => {
            assert(row < grid.array.len() && column < grid.array[row as int].len());
            let next_r: usize = if down { row + 1 } else { row };
            let next_c: usize = if down { column } else { column + 1 };
            if tile == Tile::Unassigned {
                let mut with = grid.clone();
                match with.set_camp(row, column) {
                    Ok(_) => {
                        enumerate(possibilities, with, count - 1, next_r, next_c, down);
                    },
                    Err(_) => {},
                }
            }
            enumerate(possibilities, grid, count, next_r, next_c, down);
            assert(tables_of(possibilities@) =~= found + self::possibilities(
                grid@,
                count as nat,
                row as int,
                column as int,
                down,
            ));
        },
    }
}

/// Add to `possibilities` every table that comes of `grid` by putting
/// exactly `count` camps on unassigned cells of row `row`, from
/// `column` on.
pub fn process_row(
    possibilities: &mut Vec<Grid>,
    grid: Grid,
    count: usize,
    row: usize,
    column: usize,
)
    ensures
        tables_of(final(possibilities)@) == tables_of(old(possibilities)@) + self::possibilities(
            grid@,
            count as nat,
            row as int,
            column as int,
            false,
        ),
{
    enumerate(possibilities, grid, count, row, column, false)
}

/// Add to `possibilities` every table that comes of `grid` by putting
/// exactly `count` camps on unassigned cells of column `column`, from
/// `row` on.
pub fn process_column(
    possibilities: &mut Vec<Grid>,
    grid: Grid,
    count: usize,
    row: usize,
    column: usize,
)
    ensures
        tables_of(final(possibilities)@) == tables_of(old(possibilities)@) + self::possibilities(
            grid@,
            count as nat,
            row as int,
            column as int,
            true,
        ),
{
    enumerate(possibilities, grid, count, row, column, true)
}

/// The first `upto` tables of a sequence hold the same tile at
/// `(row, column)`.
pub open spec fn agree_upto(ps: Seq<Seq<Seq<Tile>>>, upto: int, row: int, column: int) -> bool {
    forall|i: int| 0 <= i < upto ==> (#[trigger] ps[i])[row][column] == ps[0][row][column]
}

/// What a list of tables of one shape has in common: a cell holds the
/// tile that all of them hold there, and is unassigned where they
/// differ.  The list must not be empty.
pub fn intersection(possibilities: Vec<Grid>) -> (grid: Grid)
    requires
        possibilities@.len() > 0,
        forall|i: int|
            0 <= i < possibilities@.len() ==> same_shape(
                (#[trigger] possibilities@[i])@,
                possibilities@[0]@,
            ),
    ensures
        grid@ == common(tables_of(possibilities@)),
{
    let ghost ps = tables_of(possibilities@);
    let mut grid = possibilities[0].clone();
    let total: usize = possibilities.len();
    let height: usize = grid.num_rows();
    for k in 1..total
        invariant
            ps == tables_of(possibilities@),
            total == ps.len(),
            height == ps[0].len(),
            forall|i: int| 0 <= i < ps.len() ==> same_shape(#[trigger] ps[i], ps[0]),
            same_shape(grid@, ps[0]),
            forall|r: int, c: int|
                in_table(ps[0], r, c) ==> #[trigger] grid@[r][c] == if agree_upto(ps, k as int, r, c) {
                    ps[0][r][c]
                } else {
                    Tile::Unassigned
                },
    {
        let other = &possibilities[k];
        assert(other@ == ps[k as int]);
        assert(same_shape(ps[k as int], ps[0]));
        let ghost start = grid@;
        for row in 0..height
            invariant
                ps == tables_of(possibilities@),
                1 <= k < ps.len(),
                other@ == ps[k as int],
                height == ps[0].len(),
                same_shape(ps[k as int], ps[0]),
                same_shape(grid@, ps[0]),
                same_shape(start, ps[0]),
                forall|r: int, c: int|
                    in_table(ps[0], r, c) ==> #[trigger] start[r][c] == if agree_upto(
                        ps,
                        k as int,
                        r,
                        c,
                    ) {
                        ps[0][r][c]
                    } else {
                        Tile::Unassigned
                    },
                forall|r: int, c: int|
                    in_table(ps[0], r, c) ==> #[trigger] grid@[r][c] == if r < row && start[r][c]
                        != ps[k as int][r][c] {
                        Tile::Unassigned
                    } else {
                        start[r][c]
                    },
        {
            assert(grid@[row as int].len() == ps[0][row as int].len());
            assert(other@[row as int].len() == ps[0][row as int].len());
            let len: usize = grid.array[row].len();
            for column in 0..len
                invariant
                    ps == tables_of(possibilities@),
                    1 <= k < ps.len(),
                    other@ == ps[k as int],
                    row < height,
                    height == ps[0].len(),
                    len == ps[0][row as int].len(),
                    same_shape(ps[k as int], ps[0]),
                    same_shape(grid@, ps[0]),
                    same_shape(start, ps[0]),
                    forall|r: int, c: int|
                        in_table(ps[0], r, c) ==> #[trigger] grid@[r][c] == if (r < row || (r
                            == row && c < column)) && start[r][c] != ps[k as int][r][c] {
                            Tile::Unassigned
                        } else {
                            start[r][c]
                        },
            {
                assert(in_table(ps[0], row as int, column as int));
                assert(grid@[row as int].len() == ps[0][row as int].len());
                assert(other@[row as int].len() == ps[0][row as int].len());
                if grid.at(row, column) != other.at(row, column) {
                    grid.set(row, column, Tile::Unassigned);
                }
            }
        }
        assert forall|r: int, c: int| in_table(ps[0], r, c) implies #[trigger] grid@[r][c]
            == if agree_upto(ps, k + 1, r, c) {
            ps[0][r][c]
        } else {
            Tile::Unassigned
        } by {
            if agree_upto(ps, k + 1, r, c) {
                assert(agree_upto(ps, k as int, r, c));
                assert(ps[k as int][r][c] == ps[0][r][c]);
            } else {
                if agree_upto(ps, k as int, r, c) {
                    assert(ps[k as int][r][c] != ps[0][r][c]);
                }
            }
        }
    }
    assert(grid@ =~~= common(ps)) by {
        assert forall|r: int| 0 <= r < ps[0].len() implies grid@[r] =~= common(ps)[r] by {
            assert(grid@[r].len() == ps[0][r].len());
            assert forall|c: int| 0 <= c < ps[0][r].len() implies grid@[r][c] == common(ps)[r][c] by {
                assert(in_table(ps[0], r, c));
                assert(agree_upto(ps, total as int, r, c) == agree(ps, r, c));
            }
        }
    }
    grid
}

/// The tiles of the line through `(row, column)`.
pub open spec fn line_of(g: Seq<Seq<Tile>>, row: int, column: int, down: bool) -> Seq<Tile> {
    if down {
        column_of(g, column)
    } else {
        g[row]
    }
}

/// The line through `(row, column)` lies in the table, and the cell is
/// on it or just past its end.
pub open spec fn on_line(g: Seq<Seq<Tile>>, row: int, column: int, down: bool) -> bool {
    if down {
        &&& 0 <= row <= g.len()
        &&& 0 <= column
        &&& forall|r: int| 0 <= r < g.len() ==> column < (#[trigger] g[r]).len()
    } else {
        &&& 0 <= row < g.len()
        &&& 0 <= column <= g[row].len()
    }
}

/// The place of `(row, column)` on its line.
pub open spec fn place_on_line(row: int, column: int, down: bool) -> int {
    if down {
        row
    } else {
        column
    }
}

/// Of the cells of a line from `(row, column)` on, the number that are
/// unassigned in `g` and hold a camp in `s`.
pub open spec fn camps_to_come(
    g: Seq<Seq<Tile>>,
    s: Seq<Seq<Tile>>,
    row: int,
    column: int,
    down: bool,
) -> nat
    decreases cells_ahead(g, row, column, down),
{
    if !in_table(g, row, column) {
        0
    } else {
        let here: nat = if g[row][column] == Tile::Unassigned && s[row][column] == Tile::Camp {
            1
        } else {
            0
        };
        here + camps_to_come(g, s, next_row(row, down), next_column(column, down), down)
    }
}

/// Counting from the front: a sequence holds `t` as often as its first
/// tile and the rest do together.
proof fn count_of_from_front(x: Seq<Tile>, t: Tile)
    requires
        x.len() > 0,
    ensures
        count_of(x, t) == count_of(x.drop_first(), t) + if x[0] == t {
            1nat
        } else {
            0nat
        },
    decreases x.len(),
{
    if x.len() == 1 {
        assert(x.drop_first() =~= x.drop_last());
    } else {
        count_of_from_front(x.drop_last(), t);
        assert(x.drop_first().drop_last() =~= x.drop_last().drop_first());
    }
}

/// The camps that a further decided table has on the rest of a line are
/// those the table has there already and those still to come.
proof fn to_come_counts(
    g: Seq<Seq<Tile>>,
    s: Seq<Seq<Tile>>,
    row: int,
    column: int,
    down: bool,
)
    requires
        narrows(g, s),
        on_line(g, row, column, down),
    ensures
        count_of(line_of(s, row, column, down).skip(place_on_line(row, column, down)), Tile::Camp)
            == count_of(
            line_of(g, row, column, down).skip(place_on_line(row, column, down)),
            Tile::Camp,
        ) + camps_to_come(g, s, row, column, down),
    decreases cells_ahead(g, row, column, down),
{
    let a = line_of(g, row, column, down);
    let b = line_of(s, row, column, down);
    let k = place_on_line(row, column, down);
    if !down {
        assert(g[row].len() == s[row].len());
    }
    assert(a.len() == b.len());
    if in_table(g, row, column) {
        let nr = next_row(row, down);
        let nc = next_column(column, down);
        to_come_counts(g, s, nr, nc, down);
        assert(line_of(g, nr, nc, down) == a);
        assert(line_of(s, nr, nc, down) == b);
        assert(a.skip(k).drop_first() =~= a.skip(k + 1));
        assert(b.skip(k).drop_first() =~= b.skip(k + 1));
        count_of_from_front(a.skip(k), Tile::Camp);
        count_of_from_front(b.skip(k), Tile::Camp);
        assert(g[row].len() == s[row].len());
        assert(a[k] == g[row][column]);
        assert(b[k] == s[row][column]);
    } else {
        assert(k == a.len());
        assert(a.skip(k) =~= Seq::<Tile>::empty());
        assert(b.skip(k) =~= Seq::<Tile>::empty());
    }
}

/// Two tables that, but for one cell behind `(row, column)`, are
/// unassigned at the same places where `s` has camps have the same camps
/// to come.
proof fn to_come_agrees(
    g: Seq<Seq<Tile>>,
    h: Seq<Seq<Tile>>,
    s: Seq<Seq<Tile>>,
    row: int,
    column: int,
    down: bool,
    r0: int,
    c0: int,
)
    requires
        same_shape(g, h),
        if down {
            r0 < row
        } else {
            c0 < column
        },
        forall|r: int, c: int|
            in_table(g, r, c) && !(r == r0 && c == c0) ==> (#[trigger] h[r][c] == Tile::Unassigned
                && s[r][c] == Tile::Camp) == (g[r][c] == Tile::Unassigned && s[r][c]
                == Tile::Camp),
    ensures
        camps_to_come(h, s, row, column, down) == camps_to_come(g, s, row, column, down),
    decreases cells_ahead(g, row, column, down),
{
    if 0 <= row < g.len() {
        assert(g[row].len() == h[row].len());
    }
    if in_table(g, row, column) {
        to_come_agrees(g, h, s, next_row(row, down), next_column(column, down), down, r0, c0);
    }
}

/// A way to decide the table that has exactly `count` camps still to
/// come on the line is further decided from one of the listed tables.
proof fn way_is_listed(
    g: Seq<Seq<Tile>>,
    s: Seq<Seq<Tile>>,
    count: nat,
    row: int,
    column: int,
    down: bool,
) -> (i: int)
    requires
        narrows(g, s),
        solved(s),
        camps_apart(s),
        camps_to_come(g, s, row, column, down) == count,
    ensures
        0 <= i < possibilities(g, count, row, column, down).len(),
        narrows(possibilities(g, count, row, column, down)[i], s),
    decreases cells_ahead(g, row, column, down),
{
    if count == 0 {
        0
    } else {
        assert(in_table(g, row, column));
        let nr = next_row(row, down);
        let nc = next_column(column, down);
        let h = with_camp(g, row, column);
        let placed = g[row][column] == Tile::Unassigned && !camp_near(g, row, column);
        let with = if placed {
            possibilities(h, (count - 1) as nat, nr, nc, down)
        } else {
            Seq::empty()
        };
        assert(g[row].len() == s[row].len());
        if g[row][column] == Tile::Unassigned && s[row][column] == Tile::Camp {
            forced_camp_is_safe(g, s, row, column);
            assert(camp_at(s, row, column));
            assert forall|r: int, c: int|
                in_table(g, r, c) && !(r == row && c == column) implies (#[trigger] h[r][c]
                == Tile::Unassigned && s[r][c] == Tile::Camp) == (g[r][c] == Tile::Unassigned
                && s[r][c] == Tile::Camp) by {
                assert(g[r].len() == s[r].len());
                if touching(r, c, row, column) && s[r][c] == Tile::Camp {
                    assert(camp_at(s, r, c));
                }
            }
            to_come_agrees(g, h, s, nr, nc, down, row, column);
            way_is_listed(h, s, (count - 1) as nat, nr, nc, down)
        } else {
            let j = way_is_listed(g, s, count, nr, nc, down);
            with.len() + j
        }
    }
}

/// Working on a line narrows the table and keeps camps apart.
pub proof fn line_deduced_narrows(
    g: Seq<Seq<Tile>>,
    quota: usize,
    row: int,
    column: int,
    down: bool,
)
    requires
        line_deduced(g, quota, row, column, down) is Some,
    ensures
        narrows(g, line_deduced(g, quota, row, column, down)->0),
        camps_apart(g) ==> camps_apart(line_deduced(g, quota, row, column, down)->0),
{
    let camps = count_of(line_of(g, row, column, down), Tile::Camp);
    let count = (quota - camps) as nat;
    let ps = possibilities(g, count, row, column, down);
    assert forall|i: int| 0 <= i < ps.len() implies narrows(g, #[trigger] ps[i]) by {
        possibilities_narrow(g, count, row, column, down, i);
    }
    possibilities_narrow(g, count, row, column, down, 0);
    common_narrows(g, ps);
}

/// A line that some way to decide the table fills to its quota is not
/// found impossible, and working on it does not rule that way out.
proof fn line_deduced_keeps(
    g: Seq<Seq<Tile>>,
    quota: usize,
    row: int,
    column: int,
    down: bool,
    s: Seq<Seq<Tile>>,
)
    requires
        narrows(g, s),
        solved(s),
        camps_apart(s),
        on_line(g, row, column, down),
        place_on_line(row, column, down) == 0,
        count_of(line_of(s, row, column, down), Tile::Camp) == quota,
    ensures
        line_deduced(g, quota, row, column, down) is Some,
        narrows(line_deduced(g, quota, row, column, down)->0, s),
{
    let a = line_of(g, row, column, down);
    let b = line_of(s, row, column, down);
    to_come_counts(g, s, row, column, down);
    assert(a.skip(0) =~= a);
    assert(b.skip(0) =~= b);
    let camps = count_of(a, Tile::Camp);
    let count = (quota - camps) as nat;
    let ps = possibilities(g, count, row, column, down);
    let i = way_is_listed(g, s, count, row, column, down);
    assert forall|k: int| 0 <= k < ps.len() implies narrows(g, #[trigger] ps[k]) by {
        possibilities_narrow(g, count, row, column, down, k);
    }
    common_narrows(g, ps);
    narrows_twice(common(ps), ps[i], s);
}

/// Working on rows narrows the table and keeps camps apart.
pub proof fn rows_deduced_narrows(g: Seq<Seq<Tile>>, rows: Seq<usize>, upto: nat)
    requires
        rows_deduced(g, rows, upto) is Some,
    ensures
        narrows(g, rows_deduced(g, rows, upto)->0),
        camps_apart(g) ==> camps_apart(rows_deduced(g, rows, upto)->0),
    decreases upto,
{
    if upto > 0 {
        rows_deduced_narrows(g, rows, (upto - 1) as nat);
        let sofar = rows_deduced(g, rows, (upto - 1) as nat)->0;
        line_deduced_narrows(sofar, rows[upto - 1], upto - 1, 0, false);
        narrows_twice(g, sofar, rows_deduced(g, rows, upto)->0);
    }
}

/// Working on columns narrows the table and keeps camps apart.
pub proof fn columns_deduced_narrows(g: Seq<Seq<Tile>>, columns: Seq<usize>, upto: nat)
    requires
        columns_deduced(g, columns, upto) is Some,
    ensures
        narrows(g, columns_deduced(g, columns, upto)->0),
        camps_apart(g) ==> camps_apart(columns_deduced(g, columns, upto)->0),
    decreases upto,
{
    if upto > 0 {
        columns_deduced_narrows(g, columns, (upto - 1) as nat);
        let sofar = columns_deduced(g, columns, (upto - 1) as nat)->0;
        line_deduced_narrows(sofar, columns[upto - 1], 0, upto - 1, true);
        narrows_twice(g, sofar, columns_deduced(g, columns, upto)->0);
    }
}

/// The whole rule narrows the table and keeps camps apart.
pub proof fn intersections_found_narrows(
    g: Seq<Seq<Tile>>,
    rows: Seq<usize>,
    columns: Seq<usize>,
)
    requires
        intersections_found(g, rows, columns) is Some,
    ensures
        narrows(g, intersections_found(g, rows, columns)->0),
        camps_apart(g) ==> camps_apart(intersections_found(g, rows, columns)->0),
{
    rows_deduced_narrows(g, rows, rows.len());
    let mid = rows_deduced(g, rows, rows.len())->0;
    columns_deduced_narrows(mid, columns, columns.len());
    narrows_twice(g, mid, intersections_found(g, rows, columns)->0);
}

/// A table narrowed from one of a given size has that size.
pub proof fn narrowed_fits(a: Seq<Seq<Tile>>, b: Seq<Seq<Tile>>, height: nat, width: nat)
    requires
        narrows(a, b),
        fits(a, height, width),
    ensures
        fits(b, height, width),
{
    assert forall|r: int| 0 <= r < b.len() implies (#[trigger] b[r]).len() == width by {
        assert(a[r].len() == b[r].len());
    }
}

/// Working on rows finds none impossible and rules out no way to decide
/// the table within the rules.
proof fn rows_deduced_keeps(
    g: Seq<Seq<Tile>>,
    rows: Seq<usize>,
    columns: Seq<usize>,
    s: Seq<Seq<Tile>>,
    upto: nat,
)
    requires
        fits(g, rows.len(), columns.len()),
        upto <= rows.len(),
        admits(g, rows, columns, s),
    ensures
        rows_deduced(g, rows, upto) is Some,
        narrows(rows_deduced(g, rows, upto)->0, s),
    decreases upto,
{
    if upto > 0 {
        rows_deduced_keeps(g, rows, columns, s, (upto - 1) as nat);
        rows_deduced_narrows(g, rows, (upto - 1) as nat);
        let sofar = rows_deduced(g, rows, (upto - 1) as nat)->0;
        narrowed_fits(g, sofar, rows.len(), columns.len());
        let row = upto - 1;
        assert(count_of(s[row], Tile::Camp) == rows[row]);
        line_deduced_keeps(sofar, rows[row], row, 0, false, s);
    }
}

/// Working on columns finds none impossible and rules out no way to
/// decide the table within the rules.
proof fn columns_deduced_keeps(
    g: Seq<Seq<Tile>>,
    rows: Seq<usize>,
    columns: Seq<usize>,
    s: Seq<Seq<Tile>>,
    upto: nat,
)
    requires
        fits(g, rows.len(), columns.len()),
        upto <= columns.len(),
        admits(g, rows, columns, s),
    ensures
        columns_deduced(g, columns, upto) is Some,
        narrows(columns_deduced(g, columns, upto)->0, s),
    decreases upto,
{
    if upto > 0 {
        columns_deduced_keeps(g, rows, columns, s, (upto - 1) as nat);
        columns_deduced_narrows(g, columns, (upto - 1) as nat);
        let sofar = columns_deduced(g, columns, (upto - 1) as nat)->0;
        narrowed_fits(g, sofar, rows.len(), columns.len());
        let column = upto - 1;
        assert(count_of(column_of(s, column), Tile::Camp) == columns[column]);
        line_deduced_keeps(sofar, columns[column], 0, column, true, s);
    }
}

/// Where the table can be decided within the rules at all, the rule
/// finds no line impossible and rules out none of the ways to do so; no
/// row or column then holds more camps than its quota.
pub proof fn intersections_found_keeps_every_way(
    g: Seq<Seq<Tile>>,
    rows: Seq<usize>,
    columns: Seq<usize>,
)
    requires
        fits(g, rows.len(), columns.len()),
    ensures
        (exists|s: Seq<Seq<Tile>>| admits(g, rows, columns, s)) ==> {
            &&& intersections_found(g, rows, columns) is Some
            &&& within_quota(intersections_found(g, rows, columns)->0, rows, columns)
        },
        intersections_found(g, rows, columns) is Some ==> keeps_every_way(
            g,
            intersections_found(g, rows, columns)->0,
            rows,
            columns,
        ),
{
    assert forall|s: Seq<Seq<Tile>>| #[trigger] admits(g, rows, columns, s) implies {
        &&& intersections_found(g, rows, columns) is Some
        &&& narrows(intersections_found(g, rows, columns)->0, s)
    } by {
        rows_deduced_keeps(g, rows, columns, s, rows.len());
        rows_deduced_narrows(g, rows, rows.len());
        let mid = rows_deduced(g, rows, rows.len())->0;
        narrowed_fits(g, mid, rows.len(), columns.len());
        columns_deduced_keeps(mid, rows, columns, s, columns.len());
    }
    if exists|s: Seq<Seq<Tile>>| admits(g, rows, columns, s) {
        let s = choose|s: Seq<Seq<Tile>>| admits(g, rows, columns, s);
        let end = intersections_found(g, rows, columns)->0;
        intersections_found_narrows(g, rows, columns);
        narrowed_fits(g, end, rows.len(), columns.len());
        open_table_is_within_quota(end, rows, columns, s);
    }
}

/// No line has anything in common to add: working on any single row or
/// column leaves the table as it is.
pub open spec fn no_line_narrows(g: Seq<Seq<Tile>>, rows: Seq<usize>, columns: Seq<usize>) -> bool {
    &&& forall|r: int|
        0 <= r < rows.len() ==> #[trigger] line_deduced(g, rows[r], r, 0, false) == Some(g)
    &&& forall|c: int|
        0 <= c < columns.len() ==> #[trigger] line_deduced(g, columns[c], 0, c, true) == Some(g)
}

/// Working on rows leaves the table as it is exactly if working on each
/// single one of them does.
proof fn rows_deduced_rests(g: Seq<Seq<Tile>>, rows: Seq<usize>, upto: nat)
    ensures
        (rows_deduced(g, rows, upto) == Some(g)) == (forall|r: int|
            0 <= r < upto ==> #[trigger] line_deduced(g, rows[r], r, 0, false) == Some(g)),
    decreases upto,
{
    if upto > 0 {
        rows_deduced_rests(g, rows, (upto - 1) as nat);
        let before = rows_deduced(g, rows, (upto - 1) as nat);
        if rows_deduced(g, rows, upto) == Some(g) {
            rows_deduced_narrows(g, rows, (upto - 1) as nat);
            line_deduced_narrows(before->0, rows[upto - 1], upto - 1, 0, false);
            narrowing_stays_changed(g, before->0, g);
        }
    }
}

/// Working on columns leaves the table as it is exactly if working on
/// each single one of them does.
proof fn columns_deduced_rests(g: Seq<Seq<Tile>>, columns: Seq<usize>, upto: nat)
    ensures
        (columns_deduced(g, columns, upto) == Some(g)) == (forall|c: int|
            0 <= c < upto ==> #[trigger] line_deduced(g, columns[c], 0, c, true) == Some(g)),
    decreases upto,
{
    if upto > 0 {
        columns_deduced_rests(g, columns, (upto - 1) as nat);
        let before = columns_deduced(g, columns, (upto - 1) as nat);
        if columns_deduced(g, columns, upto) == Some(g) {
            columns_deduced_narrows(g, columns, (upto - 1) as nat);
            line_deduced_narrows(before->0, columns[upto - 1], 0, upto - 1, true);
            narrowing_stays_changed(g, before->0, g);
        }
    }
}

/// The rule leaves the table as it is exactly if no single line has
/// anything to add.
pub proof fn intersections_found_rests(
    g: Seq<Seq<Tile>>,
    rows: Seq<usize>,
    columns: Seq<usize>,
)
    ensures
        (intersections_found(g, rows, columns) == Some(g)) == no_line_narrows(g, rows, columns),
{
    rows_deduced_rests(g, rows, rows.len());
    columns_deduced_rests(g, columns, columns.len());
    if intersections_found(g, rows, columns) == Some(g) {
        let mid = rows_deduced(g, rows, rows.len())->0;
        rows_deduced_narrows(g, rows, rows.len());
        columns_deduced_narrows(mid, columns, columns.len());
        narrowing_stays_changed(g, mid, g);
    }
}

/// Applying the rule a second time changes nothing, provided that after
/// the first time no single line has anything to add.  (What a later
/// line adds can give an earlier one more to say.)
pub proof fn intersections_found_settles(
    g: Seq<Seq<Tile>>,
    rows: Seq<usize>,
    columns: Seq<usize>,
)
    requires
        intersections_found(g, rows, columns) is Some,
        no_line_narrows(intersections_found(g, rows, columns)->0, rows, columns),
    ensures
        intersections_found(intersections_found(g, rows, columns)->0, rows, columns)
            == intersections_found(g, rows, columns),
{
    intersections_found_rests(intersections_found(g, rows, columns)->0, rows, columns);
}

/// Once a row was found impossible, working on further rows finds no
/// table either.
proof fn rows_deduced_stays_none(g: Seq<Seq<Tile>>, rows: Seq<usize>, from: nat, upto: nat)
    requires
        from <= upto,
        rows_deduced(g, rows, from) is None,
    ensures
        rows_deduced(g, rows, upto) is None,
    decreases upto,
{
    if from < upto {
        rows_deduced_stays_none(g, rows, from, (upto - 1) as nat);
    }
}

/// Once a column was found impossible, working on further columns finds
/// no table either.
proof fn columns_deduced_stays_none(g: Seq<Seq<Tile>>, columns: Seq<usize>, from: nat, upto: nat)
    requires
        from <= upto,
        columns_deduced(g, columns, from) is None,
    ensures
        columns_deduced(g, columns, upto) is None,
    decreases upto,
{
    if from < upto {
        columns_deduced_stays_none(g, columns, from, (upto - 1) as nat);
    }
}

/// Work on one line of the table: list every way to place the camps it
/// lacks and keep what they have in common.  Returns whether the table
/// changed, or `None`, with the table as it was, if the line holds more
/// camps than `quota` or the camps it lacks cannot be placed.
fn deduce_line(grid: &mut Grid, quota: usize, row: usize, column: usize, down: bool) -> (res:
    Option<bool>)
    requires
        on_line(old(grid)@, row as int, column as int, down),
        place_on_line(row as int, column as int, down) == 0,
    ensures
        match res {
            Some(changed) => {
                &&& line_deduced(old(grid)@, quota, row as int, column as int, down) == Some(
                    final(grid)@,
                )
                &&& changed == (final(grid)@ != old(grid)@)
            },
            None => {
                &&& line_deduced(old(grid)@, quota, row as int, column as int, down) is None
                &&& final(grid)@ == old(grid)@
            },
        },
{
    let ghost before = grid@;
    let camps: usize = if down {
        grid.count_in_column(column, Tile::Camp)
    } else {
        grid.count_in_row(row, Tile::Camp)
    };
    if camps > quota {
        return None;
    }
    let count: usize = quota - camps;
    let mut found: Vec<Grid> = Vec::new();
    if down {
        process_column(&mut found, grid.clone(), count, row, column);
    } else {
        process_row(&mut found, grid.clone(), count, row, column);
    }
    let ghost ps = possibilities(before, count as nat, row as int, column as int, down);
    assert(tables_of(found@) =~= ps);
    if found.len() == 0 {
        return None;
    }
    proof {
        assert forall|i: int| 0 <= i < found@.len() implies same_shape(
            (#[trigger] found@[i])@,
            found@[0]@,
        ) by {
            assert(found@[i]@ == ps[i]);
            assert(found@[0]@ == ps[0]);
            possibilities_narrow(before, count as nat, row as int, column as int, down, i);
            possibilities_narrow(before, count as nat, row as int, column as int, down, 0);
            assert forall|r: int| 0 <= r < ps[i].len() implies (#[trigger] ps[i][r]).len()
                == ps[0][r].len() by {
                assert(before[r].len() == ps[i][r].len());
                assert(before[r].len() == ps[0][r].len());
            }
        }
    }
    let shared = intersection(found);
    let changed = !grid.same(&shared);
    *grid = shared;
    Some(changed)
}

/// For every row, then every column: list all the ways to put the camps
/// it still lacks on its unassigned cells without two camps touching,
/// and keep of the table what all of them have in common.  Returns
/// whether any cell changed.
///
/// Fails, leaving the board as it was, if some line holds more camps
/// than its quota or the camps it lacks cannot be placed.
pub fn process_intersections(board: &mut Board) -> (res: Result<bool, String>)
    requires
        old(board).well_formed(),
    ensures
        final(board).rows == old(board).rows,
        final(board).columns == old(board).columns,
        match res {
            Ok(changed) => {
                &&& intersections_found(old(board).grid@, old(board).rows@, old(board).columns@)
                    == Some(final(board).grid@)
                &&& changed == (final(board).grid@ != old(board).grid@)
            },
            Err(e) => {
                &&& intersections_found(old(board).grid@, old(board).rows@, old(board).columns@)
                    is None
                &&& final(board).grid@ == old(board).grid@
                &&& e@ == no_placement_text()
            },
        },
        final(board).well_formed(),
        narrows(old(board).grid@, final(board).grid@),
        camps_apart(old(board).grid@) ==> camps_apart(final(board).grid@),
        keeps_every_way(
            old(board).grid@,
            final(board).grid@,
            old(board).rows@,
            old(board).columns@,
        ),
        (exists|s: Seq<Seq<Tile>>| admits(old(board).grid@, old(board).rows@, old(board).columns@, s))
            ==> res is Ok && within_quota(
            final(board).grid@,
            final(board).rows@,
            final(board).columns@,
        ),
{
    let ghost before = board.grid@;
    let ghost rows = board.rows@;
    let ghost columns = board.columns@;
    let saved = board.grid.clone();
    let height: usize = board.rows.len();
    let width: usize = board.columns.len();
    let mut changed = false;
    for row in 0..height
        invariant
            board.rows == old(board).rows,
            board.columns == old(board).columns,
            rows == board.rows@,
            columns == board.columns@,
            height == rows.len(),
            width == columns.len(),
            before == old(board).grid@,
            saved@ == before,
            fits(before, rows.len(), columns.len()),
            rows_deduced(before, rows, row as nat) == Some(board.grid@),
            changed == (board.grid@ != before),
    {
        let ghost sofar = board.grid@;
        proof {
            rows_deduced_narrows(before, rows, row as nat);
            narrowed_fits(before, sofar, rows.len(), columns.len());
        }
        match deduce_line(&mut board.grid, board.rows[row], row, 0, false) {
            Some(here) => {
                proof {
                    line_deduced_narrows(sofar, rows[row as int], row as int, 0, false);
                    narrowing_stays_changed(before, sofar, board.grid@);
                }
                changed = changed || here;
            },
            None => {
                proof {
                    rows_deduced_stays_none(before, rows, (row + 1) as nat, rows.len());
                    intersections_found_keeps_every_way(before, rows, columns);
                }
                board.grid = saved;
                return Err(String::from_str("No way to place the camps of a row or column"));
            },
        }
    }
    let ghost mid = board.grid@;
    proof {
        rows_deduced_narrows(before, rows, rows.len());
        narrowed_fits(before, mid, rows.len(), columns.len());
    }
    for column in 0..width
        invariant
            board.rows == old(board).rows,
            board.columns == old(board).columns,
            rows == board.rows@,
            columns == board.columns@,
            height == rows.len(),
            width == columns.len(),
            before == old(board).grid@,
            saved@ == before,
            fits(before, rows.len(), columns.len()),
            fits(mid, rows.len(), columns.len()),
            rows_deduced(before, rows, rows.len()) == Some(mid),
            narrows(before, mid),
            columns_deduced(mid, columns, column as nat) == Some(board.grid@),
            changed == (board.grid@ != before),
    {
        let ghost sofar = board.grid@;
        proof {
            columns_deduced_narrows(mid, columns, column as nat);
            narrowed_fits(mid, sofar, rows.len(), columns.len());
            narrows_twice(before, mid, sofar);
        }
        match deduce_line(&mut board.grid, board.columns[column], 0, column, true) {
            Some(here) => {
                proof {
                    line_deduced_narrows(sofar, columns[column as int], 0, column as int, true);
                    narrowing_stays_changed(before, sofar, board.grid@);
                }
                changed = changed || here;
            },
            None => {
                proof {
                    columns_deduced_stays_none(mid, columns, (column + 1) as nat, columns.len());
                    intersections_found_keeps_every_way(before, rows, columns);
                }
                board.grid = saved;
                return Err(String::from_str("No way to place the camps of a row or column"));
            },
        }
    }
    proof {
        intersections_found_narrows(before, rows, columns);
        intersections_found_keeps_every_way(before, rows, columns);
        narrowed_fits(before, board.grid@, rows.len(), columns.len());
    }
    Ok(changed)
}

} // verus!
