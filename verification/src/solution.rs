//! What the quotas and the rule that camps keep apart allow: the ways to
//! decide every cell of a table that respect both.  Rules that place
//! camps are held against these.

use vstd::prelude::*;
use crate::board::{fits, meets_quota, within_quota};
use crate::grid::{
    adjacent, camp_at, camp_near, camps_apart, column_of, count_of, in_table, solved, touching,
    tree_at, with_camp,
};
use crate::narrowing::narrows;
use crate::tile::Tile;

verus! {

/// Table `s` decides every cell of table `g` so that all camps keep apart
/// and every row and column holds exactly its quota.
pub open spec fn admits(
    g: Seq<Seq<Tile>>,
    rows: Seq<usize>,
    columns: Seq<usize>,
    s: Seq<Seq<Tile>>,
) -> bool {
    &&& narrows(g, s)
    &&& solved(s)
    &&& camps_apart(s)
    &&& meets_quota(s, rows, columns)
}

/// Every way to decide table `a` within the rules is also a way to
/// decide table `b`: going from `a` to `b` has ruled out none.
pub open spec fn keeps_every_way(
    a: Seq<Seq<Tile>>,
    b: Seq<Seq<Tile>>,
    rows: Seq<usize>,
    columns: Seq<usize>,
) -> bool {
    forall|s: Seq<Seq<Tile>>| #[trigger] admits(a, rows, columns, s) ==> narrows(b, s)
}

/// A sequence that holds `t` only where another one does holds it at
/// most as often.
pub proof fn count_of_at_most(a: Seq<Tile>, b: Seq<Tile>, t: Tile)
    requires
        a.len() == b.len(),
        forall|i: int| 0 <= i < a.len() && a[i] == t ==> b[i] == t,
    ensures
        count_of(a, t) <= count_of(b, t),
    decreases a.len(),
{
    if a.len() > 0 {
        count_of_at_most(a.drop_last(), b.drop_last(), t);
    }
}

/// Where a line is decided further, its camps are at most the cells that
/// were camps or unassigned; and if they are exactly as many, every
/// unassigned cell has become a camp.
pub proof fn camps_come_from_open_cells(a: Seq<Tile>, b: Seq<Tile>)
    requires
        a.len() == b.len(),
        forall|i: int| 0 <= i < a.len() && a[i] != Tile::Unassigned ==> b[i] == a[i],
    ensures
        count_of(b, Tile::Camp) <= count_of(a, Tile::Unassigned) + count_of(a, Tile::Camp),
        count_of(b, Tile::Camp) == count_of(a, Tile::Unassigned) + count_of(a, Tile::Camp)
            ==> forall|i: int| 0 <= i < a.len() && a[i] == Tile::Unassigned ==> b[i] == Tile::Camp,
    decreases a.len(),
{
    if a.len() > 0 {
        let af = a.drop_last();
        let bf = b.drop_last();
        camps_come_from_open_cells(af, bf);
        if count_of(b, Tile::Camp) == count_of(a, Tile::Unassigned) + count_of(a, Tile::Camp) {
            assert forall|i: int| 0 <= i < a.len() && a[i] == Tile::Unassigned implies b[i]
                == Tile::Camp by {
                if i < a.len() - 1 {
                    assert(af[i] == a[i] && bf[i] == b[i]);
                }
            }
        }
    }
}

/// A table that can still be decided within the rules holds no more
/// camps in any row or column than its quota.
pub proof fn open_table_is_within_quota(
    g: Seq<Seq<Tile>>,
    rows: Seq<usize>,
    columns: Seq<usize>,
    s: Seq<Seq<Tile>>,
)
    requires
        fits(g, rows.len(), columns.len()),
        admits(g, rows, columns, s),
    ensures
        within_quota(g, rows, columns),
{
    assert forall|r: int| 0 <= r < rows.len() implies count_of(#[trigger] g[r], Tile::Camp)
        <= rows[r] by {
        assert(g[r].len() == s[r].len());
        assert forall|i: int| 0 <= i < g[r].len() && g[r][i] == Tile::Camp implies s[r][i]
            == Tile::Camp by {
            assert(in_table(g, r, i));
            let t = s[r][i];
        }
        count_of_at_most(g[r], s[r], Tile::Camp);
    }
    assert forall|c: int| 0 <= c < columns.len() implies count_of(
        #[trigger] column_of(g, c),
        Tile::Camp,
    ) <= columns[c] by {
        let x = column_of(g, c);
        let y = column_of(s, c);
        assert forall|i: int| 0 <= i < x.len() && x[i] == Tile::Camp implies y[i]
            == Tile::Camp by {
            assert(g[i].len() == columns.len());
            assert(in_table(g, i, c));
        }
        count_of_at_most(x, y, Tile::Camp);
    }
}

/// Where every way to decide the table has a camp on an unassigned cell,
/// putting the camp there is possible and rules out none of them.
pub proof fn forced_camp_is_safe(g: Seq<Seq<Tile>>, s: Seq<Seq<Tile>>, row: int, column: int)
    requires
        narrows(g, s),
        solved(s),
        camps_apart(s),
        in_table(g, row, column),
        g[row][column] == Tile::Unassigned,
        s[row][column] == Tile::Camp,
    ensures
        !camp_near(g, row, column),
        narrows(with_camp(g, row, column), s),
{
    assert(g[row].len() == s[row].len());
    assert(camp_at(s, row, column));
    assert forall|r: int, c: int| camp_at(g, r, c) && touching(r, c, row, column) implies false by {
        assert(g[r].len() == s[r].len());
        assert(camp_at(s, r, c));
    }
    let h = with_camp(g, row, column);
    assert forall|r: int, c: int| in_table(h, r, c) implies if h[r][c] == Tile::Unassigned {
        s[r][c] != Tile::Tree
    } else {
        s[r][c] == h[r][c]
    } by {
        assert(in_table(g, r, c));
        assert(g[r].len() == s[r].len());
        let t = s[r][c];
        if !(r == row && c == column) && touching(r, c, row, column) && g[r][c]
            == Tile::Unassigned {
            assert(in_table(s, r, c));
            if s[r][c] == Tile::Camp {
                assert(camp_at(s, r, c));
            }
        }
    }
    assert forall|r: int| 0 <= r < h.len() implies (#[trigger] h[r]).len() == s[r].len() by {
        assert(g[r].len() == s[r].len());
    }
}

/// Every camp of the table has a tree of its own: `tree_of` names, for
/// each camp, a tree directly beside it, and no two camps are given the
/// same tree.
pub open spec fn camps_have_trees(
    s: Seq<Seq<Tile>>,
    tree_of: spec_fn(int, int) -> (int, int),
) -> bool {
    &&& forall|r: int, c: int| #[trigger]
        camp_at(s, r, c) ==> tree_at(s, tree_of(r, c).0, tree_of(r, c).1) && adjacent(
            r,
            c,
            tree_of(r, c).0,
            tree_of(r, c).1,
        )
    &&& forall|r1: int, c1: int, r2: int, c2: int|
        #[trigger] camp_at(s, r1, c1) && #[trigger] camp_at(s, r2, c2) && tree_of(r1, c1)
            == tree_of(r2, c2) ==> r1 == r2 && c1 == c2
}

/// Table `s` solves the puzzle that table `g` and the quotas pose: it
/// decides every cell of `g`, camps keep apart, every row and column
/// holds its quota, and every camp has a tree of its own beside it.
/// (That every tree has a camp as well is not asked here: what is proved
/// of solutions holds without it.)
pub open spec fn solves(
    g: Seq<Seq<Tile>>,
    rows: Seq<usize>,
    columns: Seq<usize>,
    s: Seq<Seq<Tile>>,
    tree_of: spec_fn(int, int) -> (int, int),
) -> bool {
    admits(g, rows, columns, s) && camps_have_trees(s, tree_of)
}

/// Every solution of the puzzle that table `a` poses is still a solution
/// of the one that table `b` poses: going from `a` to `b` has ruled out
/// none.
pub open spec fn keeps_every_solution(
    a: Seq<Seq<Tile>>,
    b: Seq<Seq<Tile>>,
    rows: Seq<usize>,
    columns: Seq<usize>,
) -> bool {
    forall|s: Seq<Seq<Tile>>, tree_of: spec_fn(int, int) -> (int, int)| #[trigger]
        solves(a, rows, columns, s, tree_of) ==> narrows(b, s)
}

/// A table without unassigned cells can only be decided as it is.
pub proof fn decided_is_final(g: Seq<Seq<Tile>>, s: Seq<Seq<Tile>>)
    requires
        solved(g),
        narrows(g, s),
    ensures
        s == g,
{
    assert forall|r: int| 0 <= r < g.len() implies g[r] =~= s[r] by {
        assert(g[r].len() == s[r].len());
        assert forall|c: int| 0 <= c < g[r].len() implies g[r][c] == s[r][c] by {
            assert(in_table(g, r, c));
        }
    }
    assert(g =~= s);
}

/// A table that is decided further has its trees where they were.
pub proof fn narrowing_keeps_trees(g: Seq<Seq<Tile>>, s: Seq<Seq<Tile>>)
    requires
        narrows(g, s),
    ensures
        forall|r: int, c: int| tree_at(s, r, c) == tree_at(g, r, c),
        forall|r: int, c: int| camp_at(g, r, c) ==> camp_at(s, r, c),
{
    assert forall|r: int, c: int| tree_at(s, r, c) == tree_at(g, r, c) by {
        if 0 <= r < g.len() {
            assert(g[r].len() == s[r].len());
            if 0 <= c < g[r].len() {
                assert(in_table(g, r, c));
            }
        }
    }
    assert forall|r: int, c: int| camp_at(g, r, c) implies camp_at(s, r, c) by {
        assert(g[r].len() == s[r].len());
    }
}

/// Where a line is decided further, it has at least the camps it had;
/// and if it has no more, no unassigned cell has become a camp.
pub proof fn camps_stay(a: Seq<Tile>, b: Seq<Tile>)
    requires
        a.len() == b.len(),
        forall|i: int| 0 <= i < a.len() && a[i] != Tile::Unassigned ==> b[i] == a[i],
    ensures
        count_of(a, Tile::Camp) <= count_of(b, Tile::Camp),
        count_of(a, Tile::Camp) == count_of(b, Tile::Camp) ==> forall|i: int|
            0 <= i < a.len() && a[i] == Tile::Unassigned ==> b[i] != Tile::Camp,
    decreases a.len(),
{
    if a.len() > 0 {
        let af = a.drop_last();
        let bf = b.drop_last();
        camps_stay(af, bf);
        if count_of(a, Tile::Camp) == count_of(b, Tile::Camp) {
            assert forall|i: int| 0 <= i < a.len() && a[i] == Tile::Unassigned implies b[i]
                != Tile::Camp by {
                if i < a.len() - 1 {
                    assert(af[i] == a[i] && bf[i] == b[i]);
                }
            }
        }
    }
}

} // verus!
