//! The rule that pairs trees with camps: a camp with exactly one tree
//! beside it belongs to that tree, a tree that has its camp needs no
//! other, and an unassigned cell beside no tree that still lacks a camp
//! is grass.

use vstd::prelude::*;
use crate::grid::{
    adjacent, around, camp_at, in_table, rectangular, same_shape, solved, tree_at, width, Grid,
};
use crate::narrowing::{narrows, same_camps, trees_stay};
use crate::solution::{camps_have_trees, narrowing_keeps_trees};
use crate::tile::Tile;

verus! {

/// What is known of a cell while trees and camps are paired.
#[derive(Clone, Copy, PartialEq, Eq, Debug, Structural)]
pub enum Association {
    /// A tree whose camp stands at `(row, column)`.
    CampAt(usize, usize),
    /// A tree for which no camp was found.
    NoCampAssociated,
    /// A camp that was not given to a tree.
    UnassignedCamp,
    /// A camp that was given to its tree, or a cell that is neither tree
    /// nor camp.
    NoTree,
    /// A cell that was not looked at yet.
    Unprocessed,
}

impl Association {
    /// Whether this is a tree that has its camp.
    pub fn is_camp_at(&self) -> (b: bool)
        ensures
            b == (*self is CampAt),
    {
        match self {
            Association::CampAt(_, _) => true,
            _ => false,
        }
    }
}

/// The number of trees directly above, below, left and right of
/// `(row, column)`.
pub open spec fn trees_beside(g: Seq<Seq<Tile>>, row: int, column: int) -> nat {
    (if tree_at(g, row - 1, column) {
        1nat
    } else {
        0nat
    }) + (if tree_at(g, row, column - 1) {
        1nat
    } else {
        0nat
    }) + (if tree_at(g, row, column + 1) {
        1nat
    } else {
        0nat
    }) + (if tree_at(g, row + 1, column) {
        1nat
    } else {
        0nat
    })
}

/// A camp stands on `(row, column)` with exactly one tree beside it: the
/// camp can only belong to that tree.
pub open spec fn lone_tree_camp(g: Seq<Seq<Tile>>, row: int, column: int) -> bool {
    camp_at(g, row, column) && trees_beside(g, row, column) == 1
}

/// A tree stands on `(row, column)`, and beside it a camp that can only
/// belong to it: the tree has its camp.
pub open spec fn booked(g: Seq<Seq<Tile>>, row: int, column: int) -> bool {
    &&& tree_at(g, row, column)
    &&& {
        ||| lone_tree_camp(g, row - 1, column)
        ||| lone_tree_camp(g, row, column - 1)
        ||| lone_tree_camp(g, row, column + 1)
        ||| lone_tree_camp(g, row + 1, column)
    }
}

/// A tree stands on `(row, column)` and does not have its camp yet.
pub open spec fn free_tree_at(g: Seq<Seq<Tile>>, row: int, column: int) -> bool {
    tree_at(g, row, column) && !booked(g, row, column)
}

/// Beside `(row, column)` stands a tree that does not have its camp yet.
pub open spec fn free_tree_beside(g: Seq<Seq<Tile>>, row: int, column: int) -> bool {
    ||| free_tree_at(g, row - 1, column)
    ||| free_tree_at(g, row, column - 1)
    ||| free_tree_at(g, row, column + 1)
    ||| free_tree_at(g, row + 1, column)
}

/// The table in which every unassigned cell that no tree beside it could
/// still need has become grass.
pub open spec fn trees_associated(g: Seq<Seq<Tile>>) -> Seq<Seq<Tile>> {
    Seq::new(
        g.len(),
        |r: int|
            Seq::new(
                g[r].len(),
                |c: int|
                    if g[r][c] == Tile::Unassigned && !free_tree_beside(g, r, c) {
                        Tile::Grass
                    } else {
                        g[r][c]
                    },
            ),
    )
}

/// Applying the rule narrows the table and adds no camp.
pub proof fn trees_associated_narrows(g: Seq<Seq<Tile>>)
    ensures
        narrows(g, trees_associated(g)),
        same_camps(g, trees_associated(g)),
{
}

/// Two tables of one shape with the same trees and camps have the same
/// trees that lack a camp.
pub proof fn same_trees_and_camps(g: Seq<Seq<Tile>>, h: Seq<Seq<Tile>>)
    requires
        same_shape(g, h),
        forall|r: int, c: int|
            in_table(g, r, c) ==> (#[trigger] h[r][c] == Tile::Tree) == (g[r][c] == Tile::Tree),
        forall|r: int, c: int|
            in_table(g, r, c) ==> (#[trigger] h[r][c] == Tile::Camp) == (g[r][c] == Tile::Camp),
    ensures
        forall|r: int, c: int| tree_at(h, r, c) == tree_at(g, r, c),
        forall|r: int, c: int| camp_at(h, r, c) == camp_at(g, r, c),
        forall|r: int, c: int| trees_beside(h, r, c) == trees_beside(g, r, c),
        forall|r: int, c: int| booked(h, r, c) == booked(g, r, c),
        forall|r: int, c: int| free_tree_beside(h, r, c) == free_tree_beside(g, r, c),
{
    assert forall|r: int, c: int| tree_at(h, r, c) == tree_at(g, r, c) by {
        if 0 <= r < g.len() {
            assert(g[r].len() == h[r].len());
        }
    }
    assert forall|r: int, c: int| camp_at(h, r, c) == camp_at(g, r, c) by {
        if 0 <= r < g.len() {
            assert(g[r].len() == h[r].len());
        }
    }
}

/// The rule rules out no table that decides `g` further and gives every
/// camp a tree of its own: a camp with one tree beside it takes that
/// tree, so no other camp can have it.
pub proof fn trees_associated_keeps_solutions(
    g: Seq<Seq<Tile>>,
    s: Seq<Seq<Tile>>,
    tree_of: spec_fn(int, int) -> (int, int),
)
    requires
        narrows(g, s),
        solved(s),
        camps_have_trees(s, tree_of),
    ensures
        narrows(trees_associated(g), s),
{
    let h = trees_associated(g);
    narrowing_keeps_trees(g, s);
    assert forall|r: int, c: int| in_table(h, r, c) implies if h[r][c] == Tile::Unassigned {
        s[r][c] != Tile::Tree
    } else {
        s[r][c] == h[r][c]
    } by {
        assert(in_table(g, r, c));
        assert(g[r].len() == s[r].len());
        if g[r][c] == Tile::Unassigned && !free_tree_beside(g, r, c) && s[r][c] == Tile::Camp {
            assert(camp_at(s, r, c));
            let tree = tree_of(r, c);
            assert(tree_at(g, tree.0, tree.1));
            assert(booked(g, tree.0, tree.1));
            let (kr, kc) = if lone_tree_camp(g, tree.0 - 1, tree.1) {
                (tree.0 - 1, tree.1)
            } else if lone_tree_camp(g, tree.0, tree.1 - 1) {
                (tree.0, tree.1 - 1)
            } else if lone_tree_camp(g, tree.0, tree.1 + 1) {
                (tree.0, tree.1 + 1)
            } else {
                (tree.0 + 1, tree.1)
            };
            assert(lone_tree_camp(g, kr, kc));
            assert(camp_at(s, kr, kc));
            let other = tree_of(kr, kc);
            assert(tree_at(g, other.0, other.1));
            assert(other == tree);
        }
    }
    assert forall|r: int| 0 <= r < h.len() implies (#[trigger] h[r]).len() == s[r].len() by {
        assert(g[r].len() == s[r].len());
    }
}

/// Applying the rule a second time changes nothing.
pub proof fn trees_associated_settles(g: Seq<Seq<Tile>>)
    ensures
        trees_associated(trees_associated(g)) == trees_associated(g),
{
    let h = trees_associated(g);
    same_trees_and_camps(g, h);
    assert(trees_associated(h) =~~= h);
}

/// The marks of a stored table of marks, row by row.
pub open spec fn marks_of(table: Seq<Vec<Association>>) -> Seq<Seq<Association>> {
    Seq::new(table.len(), |r: int| table[r]@)
}

/// The table of marks has a mark for every cell of the table of tiles,
/// and no others.
pub open spec fn covers(t: Seq<Seq<Association>>, g: Seq<Seq<Tile>>) -> bool {
    &&& t.len() == g.len()
    &&& forall|r: int| 0 <= r < g.len() ==> (#[trigger] t[r]).len() == g[r].len()
}

/// The table of marks with the mark at `(row, column)` replaced.
pub open spec fn with_mark(t: Seq<Seq<Association>>, row: int, column: int, a: Association) -> Seq<
    Seq<Association>,
> {
    t.update(row, t[row].update(column, a))
}

/// The table of `height` rows and `width` columns in which no cell was
/// looked at yet.
pub open spec fn blank_marks(height: nat, width: nat) -> Seq<Seq<Association>> {
    Seq::new(height, |r: int| Seq::new(width, |c: int| Association::Unprocessed))
}

/// The number of marks of a row that say the cell was not looked at.
pub open spec fn pending_in(line: Seq<Association>) -> nat
    decreases line.len(),
{
    if line.len() == 0 {
        0
    } else {
        pending_in(line.drop_last()) + if line.last() == Association::Unprocessed {
            1nat
        } else {
            0nat
        }
    }
}

/// The number of cells that were not looked at yet.
pub open spec fn pending(t: Seq<Seq<Association>>) -> nat
    decreases t.len(),
{
    if t.len() == 0 {
        0
    } else {
        pending(t.drop_last()) + pending_in(t.last())
    }
}

/// Replacing one mark of a row changes the number of cells not looked at
/// by what the old and the new mark say.
pub proof fn pending_in_update(line: Seq<Association>, at: int, a: Association)
    requires
        0 <= at < line.len(),
    ensures
        pending_in(line.update(at, a)) + (if line[at] == Association::Unprocessed {
            1nat
        } else {
            0nat
        }) == pending_in(line) + (if a == Association::Unprocessed {
            1nat
        } else {
            0nat
        }),
    decreases line.len(),
{
    let new = line.update(at, a);
    if at == line.len() - 1 {
        assert(new.drop_last() =~= line.drop_last());
    } else {
        pending_in_update(line.drop_last(), at, a);
        assert(new.drop_last() =~= line.drop_last().update(at, a));
    }
}

/// Replacing one mark of the table changes the number of cells not
/// looked at by what the old and the new mark say.
pub proof fn pending_update(t: Seq<Seq<Association>>, row: int, column: int, a: Association)
    requires
        0 <= row < t.len(),
        0 <= column < t[row].len(),
    ensures
        pending(with_mark(t, row, column, a)) + (if t[row][column] == Association::Unprocessed {
            1nat
        } else {
            0nat
        }) == pending(t) + (if a == Association::Unprocessed {
            1nat
        } else {
            0nat
        }),
    decreases t.len(),
{
    let new = with_mark(t, row, column, a);
    if row == t.len() - 1 {
        assert(new.drop_last() =~= t.drop_last());
        pending_in_update(t[row], column, a);
    } else {
        pending_update(t.drop_last(), row, column, a);
        assert(new.drop_last() =~= with_mark(t.drop_last(), row, column, a));
    }
}

/// The one tree beside `(row, column)`, where there is exactly one.
pub open spec fn lone_tree_of(g: Seq<Seq<Tile>>, row: int, column: int) -> (int, int) {
    if tree_at(g, row - 1, column) {
        (row - 1, column)
    } else if tree_at(g, row, column - 1) {
        (row, column - 1)
    } else if tree_at(g, row, column + 1) {
        (row, column + 1)
    } else {
        (row + 1, column)
    }
}

/// The marks after the cell `(row, column)` was visited.
///
/// A cell that was looked at before is left alone.  A tree is marked as
/// lacking a camp, then the cells beside it are visited.  A camp is
/// marked as not given to a tree, then the cells beside it are visited;
/// after that, if exactly one tree stands beside the camp, that tree is
/// marked as having this camp and the camp as done.  Any other cell is
/// marked as done.
pub open spec fn marked_from(
    g: Seq<Seq<Tile>>,
    t: Seq<Seq<Association>>,
    row: int,
    column: int,
) -> Seq<Seq<Association>>
    decreases pending(t), 0nat, 0nat,
{
    if !(0 <= row < t.len() && 0 <= column < t[row].len()) || t[row][column]
        != Association::Unprocessed {
        t
    } else if g[row][column] == Tile::Tree {
        let started = with_mark(t, row, column, Association::NoCampAssociated);
        proof {
            pending_update(t, row, column, Association::NoCampAssociated);
        }
        marked_around(g, started, around(g.len() as int, width(g) as int, row, column), 0)
    } else if g[row][column] == Tile::Camp {
        let started = with_mark(t, row, column, Association::UnassignedCamp);
        proof {
            pending_update(t, row, column, Association::UnassignedCamp);
        }
        let visited = marked_around(
            g,
            started,
            around(g.len() as int, width(g) as int, row, column),
            0,
        );
        if trees_beside(g, row, column) == 1 {
            let tree = lone_tree_of(g, row, column);
            with_mark(
                with_mark(
                    visited,
                    tree.0,
                    tree.1,
                    Association::CampAt(row as usize, column as usize),
                ),
                row,
                column,
                Association::NoTree,
            )
        } else {
            visited
        }
    } else {
        with_mark(t, row, column, Association::NoTree)
    }
}

/// The marks after the cells of `cells` were visited in turn, from the
/// one at place `from` on.  (Visiting a cell never adds cells not
/// looked at; the test for it only serves to show that this is well
/// defined.)
pub open spec fn marked_around(
    g: Seq<Seq<Tile>>,
    t: Seq<Seq<Association>>,
    cells: Seq<(usize, usize)>,
    from: nat,
) -> Seq<Seq<Association>>
    decreases pending(t), 1nat, cells.len() - from,
{
    if from >= cells.len() {
        t
    } else {
        let next = marked_from(g, t, cells[from as int].0 as int, cells[from as int].1 as int);
        if pending(next) <= pending(t) {
            marked_around(g, next, cells, from + 1)
        } else {
            next
        }
    }
}

/// A mark that names a camp is on a tree, and names a camp beside it
/// that can only belong to that tree.
pub open spec fn mark_fits(g: Seq<Seq<Tile>>, row: int, column: int, a: Association) -> bool {
    match a {
        Association::CampAt(r, c) => {
            &&& tree_at(g, row, column)
            &&& adjacent(row, column, r as int, c as int)
            &&& lone_tree_camp(g, r as int, c as int)
        },
        _ => true,
    }
}

/// Every mark fits its cell.
pub open spec fn marks_fit(g: Seq<Seq<Tile>>, t: Seq<Seq<Association>>) -> bool {
    forall|r: int, c: int| in_table(g, r, c) ==> mark_fits(g, r, c, #[trigger] t[r][c])
}

/// The tree at `(row, column)`, if there is one, is marked as having
/// its camp.
pub open spec fn camp_noted(g: Seq<Seq<Tile>>, t: Seq<Seq<Association>>, row: int, column: int) -> bool {
    tree_at(g, row, column) ==> t[row][column] is CampAt
}

/// If the cell holds a camp that can only belong to one tree, that tree
/// is marked as having its camp.
pub open spec fn settled(g: Seq<Seq<Tile>>, t: Seq<Seq<Association>>, row: int, column: int) -> bool {
    lone_tree_camp(g, row, column) ==> {
        &&& camp_noted(g, t, row - 1, column)
        &&& camp_noted(g, t, row, column - 1)
        &&& camp_noted(g, t, row, column + 1)
        &&& camp_noted(g, t, row + 1, column)
    }
}

/// Marks `b` come of marks `a` by visiting cells: a cell once looked at
/// stays so, a tree that has its camp keeps one, every cell looked at in
/// between is settled, and no cell was added that was not looked at.
pub open spec fn extends(g: Seq<Seq<Tile>>, a: Seq<Seq<Association>>, b: Seq<Seq<Association>>) -> bool {
    &&& covers(a, g)
    &&& covers(b, g)
    &&& pending(b) <= pending(a)
    &&& marks_fit(g, a) ==> marks_fit(g, b)
    &&& forall|r: int, c: int|
        #![trigger a[r][c]]
        #![trigger b[r][c]]
        in_table(g, r, c) ==> {
            &&& a[r][c] != Association::Unprocessed ==> b[r][c] != Association::Unprocessed
            &&& a[r][c] is CampAt ==> b[r][c] is CampAt
            &&& a[r][c] == Association::Unprocessed && b[r][c] != Association::Unprocessed
                ==> settled(g, b, r, c)
            &&& settled(g, a, r, c) ==> settled(g, b, r, c)
        }
}

/// In a table whose rows all have the same length, the cells listed as
/// lying beside a cell are cells of the table.
pub proof fn around_lies_in_table(g: Seq<Seq<Tile>>, row: int, column: int)
    requires
        rectangular(g),
        in_table(g, row, column),
    ensures
        forall|i: int|
            0 <= i < around(g.len() as int, width(g) as int, row, column).len() ==> in_table(
                g,
                (#[trigger] around(g.len() as int, width(g) as int, row, column)[i]).0 as int,
                around(g.len() as int, width(g) as int, row, column)[i].1 as int,
            ),
{
    let cells = around(g.len() as int, width(g) as int, row, column);
    assert(g[row].len() == width(g));
    assert forall|i: int| 0 <= i < cells.len() implies in_table(
        g,
        (#[trigger] cells[i]).0 as int,
        cells[i].1 as int,
    ) by {
        if row != 0 {
            assert(g[row - 1].len() == width(g));
        }
        if row + 1 != g.len() {
            assert(g[row + 1].len() == width(g));
        }
    }
}

/// Every table of marks comes of itself by visiting no cell.
pub proof fn extends_itself(g: Seq<Seq<Tile>>, a: Seq<Seq<Association>>)
    requires
        covers(a, g),
    ensures
        extends(g, a, a),
{
}

/// Visiting cells and then more cells is visiting cells.
pub proof fn extends_twice(
    g: Seq<Seq<Tile>>,
    a: Seq<Seq<Association>>,
    b: Seq<Seq<Association>>,
    c: Seq<Seq<Association>>,
)
    requires
        extends(g, a, b),
        extends(g, b, c),
    ensures
        extends(g, a, c),
{
    assert forall|r: int, k: int| in_table(g, r, k) implies {
        &&& a[r][k] != Association::Unprocessed ==> c[r][k] != Association::Unprocessed
        &&& a[r][k] is CampAt ==> c[r][k] is CampAt
        &&& a[r][k] == Association::Unprocessed && c[r][k] != Association::Unprocessed ==> settled(
            g,
            c,
            r,
            k,
        )
        &&& settled(g, a, r, k) ==> settled(g, c, r, k)
    } by {}
}

/// A table of marks in which no cell was looked at yet.
pub fn generate_associations(rows: usize, columns: usize) -> (table: Vec<Vec<Association>>)
    ensures
        marks_of(table@) == blank_marks(rows as nat, columns as nat),
{
    let mut table: Vec<Vec<Association>> = Vec::new();
    for r in 0..rows
        invariant
            table@.len() == r,
            forall|i: int|
                0 <= i < r ==> (#[trigger] table@[i])@ == Seq::new(
                    columns as nat,
                    |c: int| Association::Unprocessed,
                ),
    {
        let mut line: Vec<Association> = Vec::new();
        for c in 0..columns
            invariant
                line@.len() == c,
                forall|j: int| 0 <= j < c ==> #[trigger] line@[j] == Association::Unprocessed,
        {
            line.push(Association::Unprocessed);
        }
        assert(line@ =~= Seq::new(columns as nat, |c: int| Association::Unprocessed));
        table.push(line);
    }
    assert(marks_of(table@) =~= blank_marks(rows as nat, columns as nat));
    table
}

/// The one tree beside `(row, column)`, if exactly one stands there.
fn lone_tree(grid: &Grid, row: usize, column: usize) -> (res: Option<(usize, usize)>)
    requires
        in_table(grid@, row as int, column as int),
    ensures
        match res {
            Some(cell) => {
                &&& trees_beside(grid@, row as int, column as int) == 1
                &&& (cell.0 as int, cell.1 as int) == lone_tree_of(
                    grid@,
                    row as int,
                    column as int,
                )
            },
            None => trees_beside(grid@, row as int, column as int) != 1,
        },
{
    let height: usize = grid.num_rows();
    let reach: usize = grid.array[row].len();
    let mut count: usize = 0;
    let mut found: (usize, usize) = (row, column);
    if row + 1 < height && grid.get(row + 1, column) == Some(Tile::Tree) {
        count = count + 1;
        found = (row + 1, column);
    }
    if column + 1 < reach && grid.get(row, column + 1) == Some(Tile::Tree) {
        count = count + 1;
        found = (row, column + 1);
    }
    if column > 0 && grid.get(row, column - 1) == Some(Tile::Tree) {
        count = count + 1;
        found = (row, column - 1);
    }
    if row > 0 && grid.get(row - 1, column) == Some(Tile::Tree) {
        count = count + 1;
        found = (row - 1, column);
    }
    if count == 1 {
        Some(found)
    } else {
        None
    }
}

/// Visit each of the cells beside `(row, column)` in turn; see
/// `associate_tree`.
pub fn associate_surrounding_trees(
    grid: &Grid,
    row: usize,
    column: usize,
    associations: &mut Vec<Vec<Association>>,
)
    requires
        rectangular(grid@),
        covers(marks_of(old(associations)@), grid@),
        in_table(grid@, row as int, column as int),
    ensures
        marks_of(final(associations)@) == marked_around(
            grid@,
            marks_of(old(associations)@),
            around(grid@.len() as int, width(grid@) as int, row as int, column as int),
            0,
        ),
        extends(grid@, marks_of(old(associations)@), marks_of(final(associations)@)),
    decreases pending(marks_of(old(associations)@)), 1nat, 0nat,
{
    let ghost g = grid@;
    let ghost start = marks_of(associations@);
    let cells = grid.surrounding_tiles(row, column);
    let total: usize = cells.len();
    proof {
        around_lies_in_table(g, row as int, column as int);
        extends_itself(g, start);
    }
    for i in 0..total
        invariant
            g == grid@,
            rectangular(g),
            start == marks_of(old(associations)@),
            total == cells@.len(),
            cells@ == around(g.len() as int, width(g) as int, row as int, column as int),
            forall|k: int|
                0 <= k < cells@.len() ==> in_table(
                    g,
                    (#[trigger] cells@[k]).0 as int,
                    cells@[k].1 as int,
                ),
            extends(g, start, marks_of(associations@)),
            marked_around(g, marks_of(associations@), cells@, i as nat) == marked_around(
                g,
                start,
                cells@,
                0,
            ),
    {
        let ghost sofar = marks_of(associations@);
        let cell = cells[i];
        assert(in_table(g, cells@[i as int].0 as int, cells@[i as int].1 as int));
        associate_tree(grid, cell.0, cell.1, associations);
        proof {
            extends_twice(g, start, sofar, marks_of(associations@));
        }
    }
}

/// Visit the cell `(row, column)` and note what is found in the table
/// of marks.
///
/// A cell that was looked at before is left alone.  A tree is marked as
/// lacking a camp, then the cells beside it are visited.  A camp is
/// marked as not given to a tree, then the cells beside it are visited;
/// after that, if exactly one tree stands beside the camp, that tree is
/// marked as having this camp and the camp as done.  Any other cell is
/// marked as done.
pub fn associate_tree(
    grid: &Grid,
    row: usize,
    column: usize,
    associations: &mut Vec<Vec<Association>>,
)
    requires
        rectangular(grid@),
        covers(marks_of(old(associations)@), grid@),
        in_table(grid@, row as int, column as int),
    ensures
        marks_of(final(associations)@) == marked_from(
            grid@,
            marks_of(old(associations)@),
            row as int,
            column as int,
        ),
        extends(grid@, marks_of(old(associations)@), marks_of(final(associations)@)),
        marks_of(final(associations)@)[row as int][column as int] != Association::Unprocessed,
    decreases pending(marks_of(old(associations)@)), 0nat, 0nat,
{
    let ghost g = grid@;
    let ghost start = marks_of(associations@);
    proof {
        extends_itself(g, start);
    }
    assert(start[row as int].len() == g[row as int].len());
    if associations[row][column] == Association::Unprocessed {
        let tile = grid.at(row, column);
        if tile == Tile::Tree {
            associations[row][column] = Association::NoCampAssociated;
            let ghost started = marks_of(associations@);
            proof {
                assert(started =~= with_mark(
                    start,
                    row as int,
                    column as int,
                    Association::NoCampAssociated,
                ));
                pending_update(start, row as int, column as int, Association::NoCampAssociated);
                assert(extends(g, start, started)) by {
                    step_extends(
                        g,
                        start,
                        row as int,
                        column as int,
                        Association::NoCampAssociated,
                    );
                }
            }
            associate_surrounding_trees(grid, row, column, associations);
            proof {
                extends_twice(g, start, started, marks_of(associations@));
                assert(in_table(g, row as int, column as int));
            }
        } else if tile == Tile::Camp {
            associations[row][column] = Association::UnassignedCamp;
            let ghost started = marks_of(associations@);
            proof {
                assert(started =~= with_mark(
                    start,
                    row as int,
                    column as int,
                    Association::UnassignedCamp,
                ));
                pending_update(start, row as int, column as int, Association::UnassignedCamp);
            }
            associate_surrounding_trees(grid, row, column, associations);
            let ghost visited = marks_of(associations@);
            assert(visited[row as int].len() == g[row as int].len());
            match lone_tree(grid, row, column) {
                Some(tree) => {
                    assert(tree_at(g, tree.0 as int, tree.1 as int));
                    assert(visited[tree.0 as int].len() == g[tree.0 as int].len());
                    associations[tree.0][tree.1] = Association::CampAt(row, column);
                    let ghost noted = marks_of(associations@);
                    assert(noted =~= with_mark(
                        visited,
                        tree.0 as int,
                        tree.1 as int,
                        Association::CampAt(row, column),
                    ));
                    associations[row][column] = Association::NoTree;
                    assert(marks_of(associations@) =~= with_mark(
                        noted,
                        row as int,
                        column as int,
                        Association::NoTree,
                    ));
                    proof {
                        pending_update(
                            visited,
                            tree.0 as int,
                            tree.1 as int,
                            Association::CampAt(row, column),
                        );
                        pending_update(noted, row as int, column as int, Association::NoTree);
                    }
                },
                None => {},
            }
            proof {
                camp_visit_extends(
                    g,
                    start,
                    started,
                    visited,
                    marks_of(associations@),
                    row as int,
                    column as int,
                );
            }
        } else {
            associations[row][column] = Association::NoTree;
            proof {
                assert(marks_of(associations@) =~= with_mark(
                    start,
                    row as int,
                    column as int,
                    Association::NoTree,
                ));
                step_extends(g, start, row as int, column as int, Association::NoTree);
            }
        }
    }
}

/// Marking a cell that is no camp, and was not looked at, as looked at
/// is a visit.
proof fn step_extends(
    g: Seq<Seq<Tile>>,
    a: Seq<Seq<Association>>,
    row: int,
    column: int,
    m: Association,
)
    requires
        covers(a, g),
        in_table(g, row, column),
        a[row][column] == Association::Unprocessed,
        g[row][column] != Tile::Camp,
        m == Association::NoTree || m == Association::NoCampAssociated,
    ensures
        extends(g, a, with_mark(a, row, column, m)),
{
    let b = with_mark(a, row, column, m);
    pending_update(a, row, column, m);
    assert(a[row].len() == g[row].len());
    assert forall|r: int, c: int| in_table(g, r, c) implies {
        &&& a[r][c] != Association::Unprocessed ==> b[r][c] != Association::Unprocessed
        &&& a[r][c] is CampAt ==> b[r][c] is CampAt
        &&& a[r][c] == Association::Unprocessed && b[r][c] != Association::Unprocessed ==> settled(
            g,
            b,
            r,
            c,
        )
        &&& settled(g, a, r, c) ==> settled(g, b, r, c)
    } by {
        assert(a[r].len() == g[r].len());
        marks_kept(g, a, b, r - 1, c);
        marks_kept(g, a, b, r + 1, c);
        marks_kept(g, a, b, r, c - 1);
        marks_kept(g, a, b, r, c + 1);
    }
    assert forall|r: int| 0 <= r < g.len() implies (#[trigger] b[r]).len() == g[r].len() by {
        assert(a[r].len() == g[r].len());
    }
    if marks_fit(g, a) {
        assert forall|r: int, c: int| in_table(g, r, c) implies mark_fits(
            g,
            r,
            c,
            #[trigger] b[r][c],
        ) by {
            assert(a[r].len() == g[r].len());
        }
    }
}

/// Where marks `b` keep every note of a camp that marks `a` hold, a tree
/// noted in `a` as having its camp is so noted in `b`.
proof fn marks_kept(
    g: Seq<Seq<Tile>>,
    a: Seq<Seq<Association>>,
    b: Seq<Seq<Association>>,
    row: int,
    column: int,
)
    requires
        covers(a, g),
        in_table(g, row, column) ==> (a[row][column] is CampAt ==> b[row][column] is CampAt),
    ensures
        camp_noted(g, a, row, column) ==> camp_noted(g, b, row, column),
{
}

/// The visit of a camp: marked as begun, the cells beside it visited,
/// then its one tree noted and the camp marked as done.
proof fn camp_visit_extends(
    g: Seq<Seq<Tile>>,
    start: Seq<Seq<Association>>,
    started: Seq<Seq<Association>>,
    visited: Seq<Seq<Association>>,
    end: Seq<Seq<Association>>,
    row: int,
    column: int,
)
    requires
        covers(start, g),
        camp_at(g, row, column),
        start[row][column] == Association::Unprocessed,
        started == with_mark(start, row, column, Association::UnassignedCamp),
        extends(g, started, visited),
        pending(started) < pending(start),
        end == if trees_beside(g, row, column) == 1 {
            with_mark(
                with_mark(
                    visited,
                    lone_tree_of(g, row, column).0,
                    lone_tree_of(g, row, column).1,
                    Association::CampAt(row as usize, column as usize),
                ),
                row,
                column,
                Association::NoTree,
            )
        } else {
            visited
        },
        pending(end) <= pending(visited),
        0 <= row <= usize::MAX,
        0 <= column <= usize::MAX,
    ensures
        extends(g, start, end),
        end[row][column] != Association::Unprocessed,
{
    let lone = trees_beside(g, row, column) == 1;
    let tree = lone_tree_of(g, row, column);
    assert(start[row].len() == g[row].len());
    assert(visited[row].len() == g[row].len());
    assert(started[row][column] == Association::UnassignedCamp);
    assert(visited[row][column] != Association::Unprocessed);
    if lone {
        assert(tree_at(g, tree.0, tree.1));
        assert(visited[tree.0].len() == g[tree.0].len());
    }
    assert forall|r: int| 0 <= r < g.len() implies (#[trigger] end[r]).len() == g[r].len() by {
        assert(visited[r].len() == g[r].len());
    }
    assert forall|r: int, c: int| in_table(g, r, c) implies {
        &&& (#[trigger] end[r][c]) == if lone && r == row && c == column {
            Association::NoTree
        } else if lone && r == tree.0 && c == tree.1 {
            Association::CampAt(row as usize, column as usize)
        } else {
            visited[r][c]
        }
        &&& started[r][c] == if r == row && c == column {
            Association::UnassignedCamp
        } else {
            start[r][c]
        }
    } by {
        assert(visited[r].len() == g[r].len());
        assert(start[r].len() == g[r].len());
    }
    assert forall|r: int, c: int| in_table(g, r, c) implies {
        &&& start[r][c] != Association::Unprocessed ==> end[r][c] != Association::Unprocessed
        &&& start[r][c] is CampAt ==> end[r][c] is CampAt
        &&& start[r][c] == Association::Unprocessed && end[r][c] != Association::Unprocessed
            ==> settled(g, end, r, c)
        &&& settled(g, start, r, c) ==> settled(g, end, r, c)
    } by {
        noted_kept(g, start, started, visited, end, row, column, r - 1, c);
        noted_kept(g, start, started, visited, end, row, column, r + 1, c);
        noted_kept(g, start, started, visited, end, row, column, r, c - 1);
        noted_kept(g, start, started, visited, end, row, column, r, c + 1);
        if r == row && c == column {
            if lone {
                assert(end[tree.0][tree.1] is CampAt);
            }
        }
    }
    if marks_fit(g, start) {
        assert(marks_fit(g, started)) by {
            assert forall|r: int, c: int| in_table(g, r, c) implies mark_fits(
                g,
                r,
                c,
                #[trigger] started[r][c],
            ) by {
                let m = start[r][c];
            }
        }
        assert forall|r: int, c: int| in_table(g, r, c) implies mark_fits(
            g,
            r,
            c,
            #[trigger] end[r][c],
        ) by {
        }
    }
}

/// Through the visit of a camp, a tree noted as having its camp stays
/// so noted.
proof fn noted_kept(
    g: Seq<Seq<Tile>>,
    start: Seq<Seq<Association>>,
    started: Seq<Seq<Association>>,
    visited: Seq<Seq<Association>>,
    end: Seq<Seq<Association>>,
    row: int,
    column: int,
    r: int,
    c: int,
)
    requires
        camp_at(g, row, column),
        extends(g, started, visited),
        in_table(g, r, c) ==> started[r][c] == if r == row && c == column {
            Association::UnassignedCamp
        } else {
            start[r][c]
        },
        tree_at(g, r, c) ==> (visited[r][c] is CampAt ==> end[r][c] is CampAt),
    ensures
        camp_noted(g, start, r, c) ==> camp_noted(g, visited, r, c),
        camp_noted(g, visited, r, c) ==> camp_noted(g, end, r, c),
{
}

/// A tree stands on `(row, column)` and is not marked as having its
/// camp.
pub open spec fn unnoted_tree_at(
    g: Seq<Seq<Tile>>,
    t: Seq<Seq<Association>>,
    row: int,
    column: int,
) -> bool {
    tree_at(g, row, column) && !(t[row][column] is CampAt)
}

/// Whether a tree that is not marked as having its camp stands beside
/// `(row, column)`.
fn free_tree_near(grid: &Grid, table: &Vec<Vec<Association>>, row: usize, column: usize) -> (b:
    bool)
    requires
        covers(marks_of(table@), grid@),
        in_table(grid@, row as int, column as int),
    ensures
        b == {
            ||| unnoted_tree_at(grid@, marks_of(table@), row - 1, column as int)
            ||| unnoted_tree_at(grid@, marks_of(table@), row as int, column - 1)
            ||| unnoted_tree_at(grid@, marks_of(table@), row as int, column + 1)
            ||| unnoted_tree_at(grid@, marks_of(table@), row + 1, column as int)
        },
{
    let ghost g = grid@;
    let ghost t = marks_of(table@);
    let height: usize = grid.num_rows();
    let reach: usize = grid.array[row].len();
    assert(t[row as int].len() == g[row as int].len());
    if row > 0 && grid.get(row - 1, column) == Some(Tile::Tree) {
        assert(t[row - 1].len() == g[row - 1].len());
        if !table[row - 1][column].is_camp_at() {
            return true;
        }
    }
    if column > 0 && grid.get(row, column - 1) == Some(Tile::Tree) {
        if !table[row][column - 1].is_camp_at() {
            return true;
        }
    }
    if column + 1 < reach && grid.get(row, column + 1) == Some(Tile::Tree) {
        if !table[row][column + 1].is_camp_at() {
            return true;
        }
    }
    if row + 1 < height && grid.get(row + 1, column) == Some(Tile::Tree) {
        assert(t[row + 1].len() == g[row + 1].len());
        if !table[row + 1][column].is_camp_at() {
            return true;
        }
    }
    false
}

/// Once every cell was visited, the trees marked as having their camp
/// are exactly those beside a camp that can only belong to them.
proof fn all_visited_marks(g: Seq<Seq<Tile>>, t: Seq<Seq<Association>>)
    requires
        covers(t, g),
        marks_fit(g, t),
        forall|r: int, c: int| in_table(g, r, c) ==> #[trigger] settled(g, t, r, c),
    ensures
        forall|r: int, c: int| #[trigger] unnoted_tree_at(g, t, r, c) == free_tree_at(g, r, c),
{
    assert forall|r: int, c: int| #[trigger] unnoted_tree_at(g, t, r, c) == free_tree_at(
        g,
        r,
        c,
    ) by {
        if tree_at(g, r, c) {
            assert(t[r].len() == g[r].len());
            let m = t[r][c];
            assert(mark_fits(g, r, c, m));
            if booked(g, r, c) {
                if lone_tree_camp(g, r - 1, c) {
                    assert(settled(g, t, r - 1, c));
                }
                if lone_tree_camp(g, r + 1, c) {
                    assert(settled(g, t, r + 1, c));
                }
                if lone_tree_camp(g, r, c - 1) {
                    assert(settled(g, t, r, c - 1));
                }
                if lone_tree_camp(g, r, c + 1) {
                    assert(settled(g, t, r, c + 1));
                }
            }
        }
    }
}

/// Pair trees with camps, and turn into grass every unassigned cell that
/// no tree could still need: one beside which every tree already has a
/// camp that can only belong to it.  The table's rows must all have the
/// same length.  Returns whether any cell changed.
pub fn associate_trees(grid: &mut Grid) -> (changed: bool)
    requires
        rectangular(old(grid)@),
    ensures
        final(grid)@ == trees_associated(old(grid)@),
        changed == (final(grid)@ != old(grid)@),
        narrows(old(grid)@, final(grid)@),
        same_camps(old(grid)@, final(grid)@),
        forall|s: Seq<Seq<Tile>>, tree_of: spec_fn(int, int) -> (int, int)| #[trigger]
            camps_have_trees(s, tree_of) && narrows(old(grid)@, s) && solved(s) ==> narrows(
                final(grid)@,
                s,
            ),
{
    let ghost before = grid@;
    let ghost goal = trees_associated(before);
    let height: usize = grid.num_rows();
    let span: usize = grid.num_columns();
    let mut associations = generate_associations(height, span);
    let ghost blank = marks_of(associations@);
    proof {
        extends_itself(before, blank);
    }
    for row in 0..height
        invariant
            grid@ == before,
            rectangular(before),
            height == before.len(),
            span == width(before),
            blank == blank_marks(height as nat, span as nat),
            extends(before, blank, marks_of(associations@)),
            forall|r: int, c: int|
                0 <= r < row && 0 <= c < span ==> (#[trigger] marks_of(associations@)[r][c])
                    != Association::Unprocessed,
    {
        for column in 0..span
            invariant
                grid@ == before,
                rectangular(before),
                row < height,
                height == before.len(),
                span == width(before),
                blank == blank_marks(height as nat, span as nat),
                extends(before, blank, marks_of(associations@)),
                forall|r: int, c: int|
                    (0 <= r < row && 0 <= c < span) || (r == row && 0 <= c < column) ==> (
                    #[trigger] marks_of(associations@)[r][c]) != Association::Unprocessed,
        {
            let ghost sofar = marks_of(associations@);
            assert(before[row as int].len() == span);
            associate_tree(grid, row, column, &mut associations);
            proof {
                let now = marks_of(associations@);
                extends_twice(before, blank, sofar, now);
                assert forall|r: int, c: int|
                    (0 <= r < row && 0 <= c < span) || (r == row && 0 <= c < column + 1) implies (
                #[trigger] now[r][c]) != Association::Unprocessed by {
                    assert(before[r].len() == span);
                    assert(in_table(before, r, c));
                    let m = sofar[r][c];
                }
            }
        }
    }
    let ghost marks = marks_of(associations@);
    proof {
        assert forall|r: int, c: int| in_table(before, r, c) implies #[trigger] settled(
            before,
            marks,
            r,
            c,
        ) by {
            assert(before[r].len() == span);
        }
        assert(marks_fit(before, blank));
        all_visited_marks(before, marks);
        trees_associated_narrows(before);
    }
    let mut changed = false;
    for row in 0..height
        invariant
            before == old(grid)@,
            rectangular(before),
            height == before.len(),
            span == width(before),
            goal == trees_associated(before),
            marks == marks_of(associations@),
            covers(marks, before),
            forall|r: int, c: int|
                #[trigger] unnoted_tree_at(before, marks, r, c) == free_tree_at(before, r, c),
            same_shape(grid@, before),
            changed == (grid@ != before),
            forall|i: int, j: int|
                in_table(before, i, j) ==> #[trigger] grid@[i][j] == if i < row {
                    goal[i][j]
                } else {
                    before[i][j]
                },
    {
        for column in 0..span
            invariant
                before == old(grid)@,
                rectangular(before),
                row < height,
                height == before.len(),
                span == width(before),
                goal == trees_associated(before),
                marks == marks_of(associations@),
                covers(marks, before),
                forall|r: int, c: int|
                    #[trigger] unnoted_tree_at(before, marks, r, c) == free_tree_at(before, r, c),
                same_shape(grid@, before),
                changed == (grid@ != before),
                forall|i: int, j: int|
                    in_table(before, i, j) ==> #[trigger] grid@[i][j] == if i < row || (i == row
                        && j < column) {
                        goal[i][j]
                    } else {
                        before[i][j]
                    },
        {
            let ghost now = grid@;
            assert(before[row as int].len() == span);
            assert(now[row as int].len() == before[row as int].len());
            assert(in_table(before, row as int, column as int));
            if grid.at(row, column) == Tile::Unassigned {
                proof {
                    assert forall|r: int| 0 <= r < before.len() implies (#[trigger] marks[r]).len()
                        == now[r].len() by {
                        assert(now[r].len() == before[r].len());
                    }
                    let r = row as int;
                    let c = column as int;
                    trees_stay(before, now, r - 1, c);
                    trees_stay(before, now, r + 1, c);
                    trees_stay(before, now, r, c - 1);
                    trees_stay(before, now, r, c + 1);
                    assert(unnoted_tree_at(before, marks, r - 1, c) == free_tree_at(before, r - 1, c));
                    assert(unnoted_tree_at(before, marks, r + 1, c) == free_tree_at(before, r + 1, c));
                    assert(unnoted_tree_at(before, marks, r, c - 1) == free_tree_at(before, r, c - 1));
                    assert(unnoted_tree_at(before, marks, r, c + 1) == free_tree_at(before, r, c + 1));
                }
                if !free_tree_near(grid, &associations, row, column) {
                    grid.set(row, column, Tile::Grass);
                    changed = true;
                    assert(grid@[row as int][column as int] != before[row as int][column as int]);
                }
            }
        }
    }
    proof {
        assert forall|s: Seq<Seq<Tile>>, tree_of: spec_fn(int, int) -> (int, int)| #[trigger]
            camps_have_trees(s, tree_of) && narrows(before, s) && solved(s) implies narrows(
            goal,
            s,
        ) by {
            trees_associated_keeps_solutions(before, s, tree_of);
        }
        assert(grid@ =~~= goal) by {
            assert forall|i: int| 0 <= i < goal.len() implies grid@[i] =~= goal[i] by {
                assert(grid@[i].len() == before[i].len());
                assert forall|j: int| 0 <= j < goal[i].len() implies grid@[i][j] == goal[i][j] by {
                    assert(in_table(before, i, j));
                }
            }
        }
    }
    changed
}

} // verus!
