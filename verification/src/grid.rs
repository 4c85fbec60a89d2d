//! The rectangular table of tiles, with the operations the deduction
//! rules are built from.

use vstd::prelude::*;
use crate::text::{
    decimal, first_stray, grid_text, push_decimal, readable, row_text, stray, table_of_text,
};
use crate::tile::{unknown_tile_text, Tile};

verus! {

/// A table of tiles, stored row by row.
#[derive(PartialEq, Eq, Debug)]
pub struct Grid {
    pub array: Vec<Vec<Tile>>,
}

impl View for Grid {
    type V = Seq<Seq<Tile>>;

    /// The rows of the table, each as a sequence of tiles.
    open spec fn view(&self) -> Seq<Seq<Tile>> {
        rows_of(self.array@)
    }
}

/// The rows of a stored table, each as a sequence of tiles.
pub open spec fn rows_of(array: Seq<Vec<Tile>>) -> Seq<Seq<Tile>> {
    Seq::new(array.len(), |r: int| array[r]@)
}

/// Whether `(row, column)` names a cell of the table.
pub open spec fn in_table(g: Seq<Seq<Tile>>, row: int, column: int) -> bool {
    0 <= row < g.len() && 0 <= column < g[row].len()
}

/// The number of columns of a table: the length of its first row.
pub open spec fn width(g: Seq<Seq<Tile>>) -> nat {
    if g.len() == 0 {
        0
    } else {
        g[0].len()
    }
}

/// Every row has the same length.
pub open spec fn rectangular(g: Seq<Seq<Tile>>) -> bool {
    forall|r: int| 0 <= r < g.len() ==> (#[trigger] g[r]).len() == width(g)
}

/// Two tables have the same number of rows, and row by row the same length.
pub open spec fn same_shape(a: Seq<Seq<Tile>>, b: Seq<Seq<Tile>>) -> bool {
    &&& a.len() == b.len()
    &&& forall|r: int| 0 <= r < a.len() ==> (#[trigger] a[r]).len() == b[r].len()
}

/// The table `g` with the cell at `(row, column)` replaced by `t`.
pub open spec fn with_tile(g: Seq<Seq<Tile>>, row: int, column: int, t: Tile) -> Seq<Seq<Tile>> {
    g.update(row, g[row].update(column, t))
}

/// How many tiles of a sequence equal `t`.
pub open spec fn count_of(s: Seq<Tile>, t: Tile) -> nat
    decreases s.len(),
{
    if s.len() == 0 {
        0
    } else {
        count_of(s.drop_last(), t) + if s.last() == t {
            1nat
        } else {
            0nat
        }
    }
}

/// The tiles of column `column`, from the top row down.  Meant for tables
/// in which every row reaches that column.
pub open spec fn column_of(g: Seq<Seq<Tile>>, column: int) -> Seq<Tile> {
    Seq::new(g.len(), |r: int| g[r][column])
}

/// No cell of the table is unassigned.
pub open spec fn solved(g: Seq<Seq<Tile>>) -> bool {
    forall|r: int, c: int| in_table(g, r, c) ==> (#[trigger] g[r][c]) != Tile::Unassigned
}

/// The table of `height` rows and `width` columns in which every cell is
/// unassigned.
pub open spec fn blank_table(height: nat, width: nat) -> Seq<Seq<Tile>> {
    Seq::new(height, |r: int| Seq::new(width, |c: int| Tile::Unassigned))
}

/// The cells next to `(row, column)` in a table of `height` rows and
/// `width` columns: above, left, right, below, in that order, leaving out
/// those beyond the table's edge.
pub open spec fn around(height: int, width: int, row: int, column: int) -> Seq<(usize, usize)> {
    (if row != 0 {
        seq![((row - 1) as usize, column as usize)]
    } else {
        Seq::empty()
    }) + (if column != 0 {
        seq![(row as usize, (column - 1) as usize)]
    } else {
        Seq::empty()
    }) + (if column + 1 != width {
        seq![(row as usize, (column + 1) as usize)]
    } else {
        Seq::empty()
    }) + (if row + 1 != height {
        seq![((row + 1) as usize, column as usize)]
    } else {
        Seq::empty()
    })
}

/// Two cells share an edge.
pub open spec fn adjacent(r1: int, c1: int, r2: int, c2: int) -> bool {
    (r1 == r2 && (c1 == c2 + 1 || c2 == c1 + 1)) || (c1 == c2 && (r1 == r2 + 1 || r2 == r1 + 1))
}

/// Two cells are the same or share an edge or a corner.
pub open spec fn touching(r1: int, c1: int, r2: int, c2: int) -> bool {
    -1 <= r1 - r2 <= 1 && -1 <= c1 - c2 <= 1
}

/// The cell `(row, column)` of the table holds a tree.
pub open spec fn tree_at(g: Seq<Seq<Tile>>, row: int, column: int) -> bool {
    in_table(g, row, column) && g[row][column] == Tile::Tree
}

/// A tree stands directly above, below, left or right of `(row, column)`.
pub open spec fn beside_tree(g: Seq<Seq<Tile>>, row: int, column: int) -> bool {
    ||| tree_at(g, row - 1, column)
    ||| tree_at(g, row, column - 1)
    ||| tree_at(g, row, column + 1)
    ||| tree_at(g, row + 1, column)
}

/// The cell `(row, column)` of the table holds a camp.
pub open spec fn camp_at(g: Seq<Seq<Tile>>, row: int, column: int) -> bool {
    in_table(g, row, column) && g[row][column] == Tile::Camp
}

/// Some camp stands on `(row, column)` or on one of the up to eight
/// cells round it.
pub open spec fn camp_near(g: Seq<Seq<Tile>>, row: int, column: int) -> bool {
    exists|r: int, c: int| #[trigger] camp_at(g, r, c) && touching(r, c, row, column)
}

/// No two different camps of the table touch, not even at a corner.
pub open spec fn camps_apart(g: Seq<Seq<Tile>>) -> bool {
    forall|r1: int, c1: int, r2: int, c2: int|
        #[trigger] camp_at(g, r1, c1) && #[trigger] camp_at(g, r2, c2) && touching(r1, c1, r2, c2)
            ==> r1 == r2 && c1 == c2
}

/// The table after a camp is put on `(row, column)`: that cell holds a
/// camp, every unassigned cell touching it has become grass, and the rest
/// is as before.
pub open spec fn with_camp(g: Seq<Seq<Tile>>, row: int, column: int) -> Seq<Seq<Tile>> {
    Seq::new(
        g.len(),
        |r: int|
            Seq::new(
                g[r].len(),
                |c: int|
                    if r == row && c == column {
                        Tile::Camp
                    } else if touching(r, c, row, column) && g[r][c] == Tile::Unassigned {
                        Tile::Grass
                    } else {
                        g[r][c]
                    },
            ),
    )
}

/// The text of the error for a camp that would touch another one.
pub open spec fn camp_clash_text(row: nat, column: nat) -> Seq<char> {
    "Camps next to each other at row "@ + decimal(row) + ", column "@ + decimal(column)
}

/// Putting a camp where none is near keeps all camps apart.
pub proof fn with_camp_keeps_apart(g: Seq<Seq<Tile>>, row: int, column: int)
    requires
        camps_apart(g),
        in_table(g, row, column),
        !camp_near(g, row, column),
    ensures
        camps_apart(with_camp(g, row, column)),
{
    let h = with_camp(g, row, column);
    assert forall|r1: int, c1: int, r2: int, c2: int|
        #[trigger] camp_at(h, r1, c1) && #[trigger] camp_at(h, r2, c2) && touching(
            r1,
            c1,
            r2,
            c2,
        ) implies r1 == r2 && c1 == c2 by {
        let first_new = r1 == row && c1 == column;
        let second_new = r2 == row && c2 == column;
        if !first_new {
            assert(camp_at(g, r1, c1));
        }
        if !second_new {
            assert(camp_at(g, r2, c2));
        }
    }
}

impl Grid {
    /// Wrap a table of tiles.
    pub fn new(array: Vec<Vec<Tile>>) -> (grid: Grid)
        ensures
            grid.array == array,
    {
        Grid { array }
    }

    /// The tile at `(row, column)`, or `None` outside the table.
    pub fn get(&self, row: usize, column: usize) -> (t: Option<Tile>)
        ensures
            t == if in_table(self@, row as int, column as int) {
                Some(self@[row as int][column as int])
            } else {
                None
            },
    {
        if row < self.array.len() {
            if column < self.array[row].len() {
                Some(self.array[row][column])
            } else {
                None
            }
        } else {
            None
        }
    }

    /// Overwrite the tile at `(row, column)`.
    pub fn set(&mut self, row: usize, column: usize, t: Tile)
        requires
            in_table(old(self)@, row as int, column as int),
        ensures
            final(self)@ == with_tile(old(self)@, row as int, column as int, t),
    {
        self.array[row][column] = t;
        assert(self@ =~= with_tile(old(self)@, row as int, column as int, t));
    }

    /// A table of the given size in which every cell is unassigned.
    pub fn blank(rows: usize, columns: usize) -> (grid: Grid)
        ensures
            grid@ == blank_table(rows as nat, columns as nat),
    {
        let mut array: Vec<Vec<Tile>> = Vec::new();
        for r in 0..rows
            invariant
                array@.len() == r,
                forall|i: int| 0 <= i < r ==> (#[trigger] array@[i])@ == Seq::new(
                    columns as nat,
                    |c: int| Tile::Unassigned,
                ),
        {
            let mut row: Vec<Tile> = Vec::new();
            for c in 0..columns
                invariant
                    row@.len() == c,
                    forall|j: int| 0 <= j < c ==> #[trigger] row@[j] == Tile::Unassigned,
            {
                row.push(Tile::Unassigned);
            }
            assert(row@ =~= Seq::new(columns as nat, |c: int| Tile::Unassigned));
            array.push(row);
        }
        let grid = Grid { array };
        assert(grid@ =~= blank_table(rows as nat, columns as nat));
        grid
    }

    /// The tile at `(row, column)`, which must lie in the table.
    pub fn at(&self, row: usize, column: usize) -> (t: Tile)
        requires
            in_table(self@, row as int, column as int),
        ensures
            t == self@[row as int][column as int],
    {
        self.array[row][column]
    }

    /// The number of tiles equal to `tile` in the given row.
    pub fn count_in_row(&self, row: usize, tile: Tile) -> (n: usize)
        requires
            row < self@.len(),
        ensures
            n == count_of(self@[row as int], tile),
    {
        let ghost line = self@[row as int];
        let len: usize = self.array[row].len();
        let mut count: usize = 0;
        for column in 0..len
            invariant
                row < self@.len(),
                line == self@[row as int],
                len == line.len(),
                count == count_of(line.take(column as int), tile),
                count <= column,
        {
            assert(line.take(column + 1).drop_last() =~= line.take(column as int));
            if self.array[row][column] == tile {
                count += 1;
            }
        }
        assert(line.take(len as int) =~= line);
        count
    }

    /// The number of tiles equal to `tile` in the given column, which
    /// every row must reach.
    pub fn count_in_column(&self, column: usize, tile: Tile) -> (n: usize)
        requires
            forall|r: int| 0 <= r < self@.len() ==> column < (#[trigger] self@[r]).len(),
        ensures
            n == count_of(column_of(self@, column as int), tile),
    {
        let ghost line = column_of(self@, column as int);
        let len: usize = self.array.len();
        let mut count: usize = 0;
        for row in 0..len
            invariant
                forall|r: int| 0 <= r < self@.len() ==> column < (#[trigger] self@[r]).len(),
                line == column_of(self@, column as int),
                len == line.len(),
                len == self@.len(),
                count == count_of(line.take(row as int), tile),
                count <= row,
        {
            assert(line.take(row + 1).drop_last() =~= line.take(row as int));
            assert(column < self@[row as int].len());
            if self.array[row][column] == tile {
                count += 1;
            }
        }
        assert(line.take(len as int) =~= line);
        count
    }

    /// The coordinates next to `(row, column)`, which must lie in the
    /// table: above, left, right and below, without those past an edge.
    /// Where a camp stands on `(row, column)`, these are the cells that
    /// may hold the tree it belongs to.
    pub fn surrounding_tiles(&self, row: usize, column: usize) -> (cells: Vec<(usize, usize)>)
        requires
            in_table(self@, row as int, column as int),
        ensures
            cells@ == around(self@.len() as int, width(self@) as int, row as int, column as int),
    {
        let height: usize = self.array.len();
        assert(column < self.array[row as int].len());
        let mut cells: Vec<(usize, usize)> = Vec::new();
        if row != 0 {
            cells.push((row - 1, column));
        }
        if column != 0 {
            cells.push((row, column - 1));
        }
        if column + 1 != self.num_columns() {
            cells.push((row, column + 1));
        }
        if row + 1 != height {
            cells.push((row + 1, column));
        }
        assert(cells@ =~= around(
            self@.len() as int,
            width(self@) as int,
            row as int,
            column as int,
        ));
        cells
    }

    /// Whether no cell is unassigned any more.  This does not say that
    /// the assignment is a correct solution of any puzzle.
    pub fn is_solved(&self) -> (b: bool)
        ensures
            b == solved(self@),
    {
        for r in 0..self.array.len()
            invariant
                forall|i: int, c: int|
                    0 <= i < r && 0 <= c < self@[i].len() ==> (#[trigger] self@[i][c])
                        != Tile::Unassigned,
        {
            let len: usize = self.array[r].len();
            for c in 0..len
                invariant
                    r < self@.len(),
                    len == self@[r as int].len(),
                    forall|j: int|
                        0 <= j < c ==> (#[trigger] self@[r as int][j]) != Tile::Unassigned,
            {
                if self.array[r][c] == Tile::Unassigned {
                    return false;
                }
            }
        }
        true
    }

    /// Whether two tables hold the same tiles.
    pub fn same(&self, other: &Grid) -> (b: bool)
        ensures
            b == (self@ == other@),
    {
        if self.array.len() != other.array.len() {
            return false;
        }
        for r in 0..self.array.len()
            invariant
                self@.len() == other@.len(),
                forall|i: int| 0 <= i < r ==> (#[trigger] self@[i]) == other@[i],
        {
            let len: usize = self.array[r].len();
            if len != other.array[r].len() {
                assert(self@[r as int].len() != other@[r as int].len());
                return false;
            }
            for c in 0..len
                invariant
                    r < self@.len(),
                    self@.len() == other@.len(),
                    len == self@[r as int].len(),
                    len == other@[r as int].len(),
                    forall|j: int|
                        0 <= j < c ==> (#[trigger] self@[r as int][j]) == other@[r as int][j],
            {
                if self.array[r][c] != other.array[r][c] {
                    assert(self@[r as int][c as int] != other@[r as int][c as int]);
                    return false;
                }
            }
            assert(self@[r as int] =~= other@[r as int]);
        }
        assert(self@ =~= other@);
        true
    }

    /// Put a camp on `(row, column)`, which must lie in the table, and
    /// turn every unassigned cell touching it into grass.
    ///
    /// Fails, leaving the table as it was, if a camp already stands on
    /// that cell or on one of the cells round it.
    pub fn set_camp(&mut self, row: usize, column: usize) -> (res: Result<(), String>)
        requires
            in_table(old(self)@, row as int, column as int),
        ensures
            match res {
                Ok(_) => {
                    &&& !camp_near(old(self)@, row as int, column as int)
                    &&& final(self)@ == with_camp(old(self)@, row as int, column as int)
                },
                Err(e) => {
                    &&& camp_near(old(self)@, row as int, column as int)
                    &&& final(self)@ == old(self)@
                    &&& e@ == camp_clash_text(row as nat, column as nat)
                },
            },
            camps_apart(old(self)@) && res is Ok ==> camps_apart(final(self)@),
    {
        let ghost before = self@;
        let height: usize = self.array.len();
        let span: usize = self.array[row].len();
        let top: usize = if row == 0 { 0 } else { row - 1 };
        let bottom: usize = if row + 1 < height { row + 1 } else { row };
        let left: usize = if column == 0 { 0 } else { column - 1 };
        let mut r: usize = top;
        while r <= bottom
            invariant
                self@ == before,
                in_table(before, row as int, column as int),
                height == before.len(),
                column < span,
                top == if row == 0 { 0 } else { row - 1 },
                bottom == if row + 1 < height { row + 1 } else { row as int },
                left == if column == 0 { 0 } else { column - 1 },
                top <= r <= bottom + 1,
                forall|i: int, j: int|
                    i < r && touching(i, j, row as int, column as int) ==> !#[trigger] camp_at(
                        before,
                        i,
                        j,
                    ),
            decreases bottom + 1 - r,
        {
            let reach: usize = self.array[r].len();
            let right: usize = if column + 1 < reach { column + 1 } else { column };
            let mut c: usize = left;
            while c <= right
                invariant
                    self@ == before,
                    in_table(before, row as int, column as int),
                    top == if row == 0 { 0 } else { row - 1 },
                    left == if column == 0 { 0 } else { column - 1 },
                    top <= r <= bottom <= row + 1,
                    r < before.len(),
                    column < span,
                    reach == before[r as int].len(),
                    right == if column + 1 < reach { column + 1 } else { column as int },
                    left <= c <= right + 1,
                    forall|j: int|
                        j < c && touching(r as int, j, row as int, column as int)
                            ==> !#[trigger] camp_at(before, r as int, j),
                decreases right + 1 - c,
            {
                if self.get(r, c) == Some(Tile::Camp) {
                    let mut e = String::from_str("Camps next to each other at row ");
                    push_decimal(&mut e, row);
                    e.append(", column ");
                    push_decimal(&mut e, column);
                    assert(camp_at(before, r as int, c as int) && touching(
                        r as int,
                        c as int,
                        row as int,
                        column as int,
                    ));
                    return Err(e);
                }
                c += 1;
            }
            r += 1;
        }
        assert(!camp_near(before, row as int, column as int));
        self.set(row, column, Tile::Camp);
        let ghost marked = self@;
        let ghost goal = with_camp(before, row as int, column as int);
        let mut r: usize = top;
        while r <= bottom
            invariant
                in_table(before, row as int, column as int),
                height == before.len(),
                column < span,
                marked == with_tile(before, row as int, column as int, Tile::Camp),
                goal == with_camp(before, row as int, column as int),
                top == if row == 0 { 0 } else { row - 1 },
                bottom == if row + 1 < height { row + 1 } else { row as int },
                left == if column == 0 { 0 } else { column - 1 },
                top <= r <= bottom + 1,
                same_shape(self@, before),
                forall|i: int, j: int|
                    in_table(before, i, j) ==> #[trigger] self@[i][j] == if i < r {
                        goal[i][j]
                    } else {
                        marked[i][j]
                    },
            decreases bottom + 1 - r,
        {
            let reach: usize = self.array[r].len();
            assert(self@[r as int].len() == before[r as int].len());
            let right: usize = if column + 1 < reach { column + 1 } else { column };
            let mut c: usize = left;
            while c <= right
                invariant
                    in_table(before, row as int, column as int),
                    marked == with_tile(before, row as int, column as int, Tile::Camp),
                    goal == with_camp(before, row as int, column as int),
                    top == if row == 0 { 0 } else { row - 1 },
                    left == if column == 0 { 0 } else { column - 1 },
                    top <= r <= bottom <= row + 1,
                    r < before.len(),
                    column < span,
                    reach == before[r as int].len(),
                    right == if column + 1 < reach { column + 1 } else { column as int },
                    left <= c <= right + 1,
                    same_shape(self@, before),
                    forall|i: int, j: int|
                        in_table(before, i, j) ==> #[trigger] self@[i][j] == if i < r || (i == r
                            && j < c) {
                            goal[i][j]
                        } else {
                            marked[i][j]
                        },
                decreases right + 1 - c,
            {
                if self.get(r, c) == Some(Tile::Unassigned) {
                    self.set(r, c, Tile::Grass);
                }
                c += 1;
            }
            r += 1;
        }
        assert(self@ =~= goal) by {
            assert forall|i: int| 0 <= i < goal.len() implies self@[i] =~= goal[i] by {
                assert forall|j: int| 0 <= j < goal[i].len() implies self@[i][j] == goal[i][j] by {
                    assert(in_table(before, i, j));
                }
            }
        }
        proof {
            if camps_apart(before) {
                with_camp_keeps_apart(before, row as int, column as int);
            }
        }
        Ok(())
    }

    /// Read a table from text: every line break starts a new row, every
    /// other character is one tile of the current row.
    ///
    /// Fails on the first character that is neither a tile nor a line
    /// break, with an error that names it.
    pub fn parse(s: &str) -> (res: Result<Grid, String>)
        ensures
            match res {
                Ok(grid) => readable(s@) && grid@ == table_of_text(s@),
                Err(e) => exists|at: int| first_stray(s@, at) && e@ == unknown_tile_text(s@[at]),
            },
    {
        let mut array: Vec<Vec<Tile>> = Vec::new();
        let mut row: Vec<Tile> = Vec::new();
        for c in it: s.chars()
            invariant
                it.seq() == s@,
                readable(s@.take(it.index() as int)),
                rows_of(array@).push(row@) == table_of_text(s@.take(it.index() as int)),
        {
            let ghost i = it.index() as int;
            let ghost sofar = s@.take(i);
            let ghost next = s@.take(i + 1);
            assert(next.drop_last() =~= sofar);
            assert(next.last() == c);
            if c == '\n' {
                assert(rows_of(array@.push(row)) =~= rows_of(array@).push(row@));
                array.push(row);
                row = Vec::new();
            } else {
                match Tile::parse(c) {
                    Ok(t) => {
                        row.push(t);
                        assert(rows_of(array@).push(row@) =~= table_of_text(next));
                    },
                    Err(e) => {
                        assert(first_stray(s@, i));
                        return Err(e);
                    },
                }
            }
            assert forall|k: int| 0 <= k < next.len() implies !stray(#[trigger] next[k]) by {
                if k < i {
                    assert(sofar[k] == next[k]);
                }
            }
        }
        assert(s@.take(s@.len() as int) =~= s@);
        assert(rows_of(array@.push(row)) =~= rows_of(array@).push(row@));
        array.push(row);
        Ok(Grid { array })
    }

    /// The table as text: one character per tile, rows separated by a
    /// line break.
    pub fn debug(&self) -> (s: String)
        ensures
            s@ == grid_text(self@),
    {
        let mut s = String::new();
        let height: usize = self.array.len();
        for r in 0..height
            invariant
                height == self@.len(),
                s@ == grid_text(self@.take(r as int)),
        {
            if r != 0 {
                s.push('\n');
            }
            let ghost head = s@;
            let len: usize = self.array[r].len();
            for c in 0..len
                invariant
                    r < self@.len(),
                    len == self@[r as int].len(),
                    s@ == head + row_text(self@[r as int].take(c as int)),
            {
                s.push(self.array[r][c].symbol());
                assert(row_text(self@[r as int].take(c + 1)) =~= row_text(
                    self@[r as int].take(c as int),
                ).push(self@[r as int][c as int].symbol_spec()));
            }
            assert(self@[r as int].take(len as int) =~= self@[r as int]);
            assert(self@.take(r + 1).drop_last() =~= self@.take(r as int));
            assert(s@ =~= grid_text(self@.take(r + 1)));
        }
        assert(self@.take(height as int) =~= self@);
        s
    }

    /// The number of rows.
    pub fn num_rows(&self) -> (n: usize)
        ensures
            n == self@.len(),
    {
        self.array.len()
    }

    /// The number of columns, taken from the first row.
    pub fn num_columns(&self) -> (n: usize)
        ensures
            n == width(self@),
    {
        if self.array.len() == 0 {
            0
        } else {
            self.array[0].len()
        }
    }
}

impl From<Vec<Vec<Tile>>> for Grid {
    /// Wrap a table of tiles; the same as `Grid::new`.
    fn from(array: Vec<Vec<Tile>>) -> (grid: Grid) {
        Grid::new(array)
    }
}

impl vstd::std_specs::convert::FromSpecImpl<Vec<Vec<Tile>>> for Grid {
    open spec fn obeys_from_spec() -> bool {
        true
    }

    open spec fn from_spec(array: Vec<Vec<Tile>>) -> Grid {
        Grid { array }
    }
}

impl Clone for Grid {
    /// An independent copy holding the same tiles.
    fn clone(&self) -> (copy: Grid)
        ensures
            copy@ == self@,
    {
        let mut array: Vec<Vec<Tile>> = Vec::new();
        for r in 0..self.array.len()
            invariant
                array@.len() == r,
                forall|i: int| 0 <= i < r ==> (#[trigger] array@[i])@ == self.array@[i]@,
        {
            let mut row: Vec<Tile> = Vec::new();
            let n: usize = self.array[r].len();
            for c in 0..n
                invariant
                    r < self.array@.len(),
                    n == self.array@[r as int]@.len(),
                    row@.len() == c,
                    forall|j: int| 0 <= j < c ==> #[trigger] row@[j] == self.array@[r as int]@[j],
            {
                row.push(self.array[r][c]);
            }
            assert(row@ =~= self.array@[r as int]@);
            array.push(row);
        }
        let copy = Grid { array };
        assert(copy@ =~= self@);
        copy
    }
}

} // verus!
