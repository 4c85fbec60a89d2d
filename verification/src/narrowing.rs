//! Deciding cells only ever narrows a table: an unassigned cell may become
//! grass or a camp, and a decided cell stays what it is.  The number of
//! unassigned cells measures how far a table is from being decided.

use vstd::prelude::*;
use crate::grid::{
    camp_at, camps_apart, column_of, count_of, in_table, same_shape, touching, tree_at,
    with_camp,
};
use crate::tile::Tile;

verus! {

/// Table `b` is table `a` with some unassigned cells turned into grass or
/// camps, and nothing else changed.
pub open spec fn narrows(a: Seq<Seq<Tile>>, b: Seq<Seq<Tile>>) -> bool {
    &&& same_shape(a, b)
    &&& forall|r: int, c: int|
        #![trigger a[r][c]]
        #![trigger b[r][c]]
        in_table(a, r, c) ==> if a[r][c] == Tile::Unassigned {
            b[r][c] != Tile::Tree
        } else {
            b[r][c] == a[r][c]
        }
}

/// The number of unassigned cells of a table.
pub open spec fn unassigned_in(g: Seq<Seq<Tile>>) -> nat
    decreases g.len(),
{
    if g.len() == 0 {
        0
    } else {
        unassigned_in(g.drop_last()) + count_of(g.last(), Tile::Unassigned)
    }
}


/// Narrowing twice is narrowing.
pub proof fn narrows_twice(a: Seq<Seq<Tile>>, b: Seq<Seq<Tile>>, c: Seq<Seq<Tile>>)
    requires
        narrows(a, b),
        narrows(b, c),
    ensures
        narrows(a, c),
{
    assert forall|r: int, k: int| in_table(a, r, k) implies if a[r][k] == Tile::Unassigned {
        c[r][k] != Tile::Tree
    } else {
        c[r][k] == a[r][k]
    } by {
        assert(a[r].len() == b[r].len());
        assert(in_table(b, r, k));
    }
    assert forall|r: int| 0 <= r < a.len() implies (#[trigger] a[r]).len() == c[r].len() by {
        assert(a[r].len() == b[r].len());
        assert(b[r].len() == c[r].len());
    }
}

/// Two sequences that hold `t` at the same places hold it equally often.
pub proof fn count_of_agrees(a: Seq<Tile>, b: Seq<Tile>, t: Tile)
    requires
        a.len() == b.len(),
        forall|i: int| 0 <= i < a.len() ==> (a[i] == t) == (b[i] == t),
    ensures
        count_of(a, t) == count_of(b, t),
    decreases a.len(),
{
    if a.len() > 0 {
        count_of_agrees(a.drop_last(), b.drop_last(), t);
    }
}

/// Two different tiles together occur at most as often as the sequence
/// is long.
pub proof fn count_of_two(s: Seq<Tile>, t: Tile, u: Tile)
    requires
        t != u,
    ensures
        count_of(s, t) + count_of(s, u) <= s.len(),
    decreases s.len(),
{
    if s.len() > 0 {
        count_of_two(s.drop_last(), t, u);
    }
}


/// Deciding cells of a row never adds unassigned cells, and removes at
/// least one if the row changes at all.
pub proof fn narrowed_row_counts(a: Seq<Tile>, b: Seq<Tile>)
    requires
        a.len() == b.len(),
        forall|i: int| 0 <= i < a.len() && a[i] != Tile::Unassigned ==> b[i] == a[i],
    ensures
        count_of(b, Tile::Unassigned) <= count_of(a, Tile::Unassigned),
        a != b ==> count_of(b, Tile::Unassigned) < count_of(a, Tile::Unassigned),
    decreases a.len(),
{
    if a.len() > 0 {
        narrowed_row_counts(a.drop_last(), b.drop_last());
        if a.drop_last() == b.drop_last() && a.last() == b.last() {
            assert(a =~= a.drop_last().push(a.last()));
            assert(b =~= b.drop_last().push(b.last()));
        }
    } else {
        assert(a =~= b);
    }
}

/// Narrowing a table never adds unassigned cells, and removes at least
/// one if the table changes at all.
pub proof fn narrowing_counts(a: Seq<Seq<Tile>>, b: Seq<Seq<Tile>>)
    requires
        narrows(a, b),
    ensures
        unassigned_in(b) <= unassigned_in(a),
        a != b ==> unassigned_in(b) < unassigned_in(a),
    decreases a.len(),
{
    if a.len() > 0 {
        let af = a.drop_last();
        let bf = b.drop_last();
        assert(narrows(af, bf)) by {
            assert forall|r: int| 0 <= r < af.len() implies (#[trigger] af[r]).len()
                == bf[r].len() by {
                assert(a[r].len() == b[r].len());
            }
            assert forall|r: int, c: int| in_table(af, r, c) implies if af[r][c]
                == Tile::Unassigned {
                bf[r][c] != Tile::Tree
            } else {
                bf[r][c] == af[r][c]
            } by {
                assert(in_table(a, r, c));
                let t = a[r][c];
            }
        }
        narrowing_counts(af, bf);
        let last = a.len() - 1;
        assert(a[last].len() == b[last].len());
        assert forall|i: int| 0 <= i < a[last].len() && a[last][i] != Tile::Unassigned implies b[last][i]
            == a[last][i] by {
            assert(in_table(a, last, i));
        }
        narrowed_row_counts(a.last(), b.last());
        if af == bf && a.last() == b.last() {
            assert(a =~= af.push(a.last()));
            assert(b =~= bf.push(b.last()));
        }
    } else {
        assert(a =~= b);
    }
}

/// Two tables that narrow each other are the same.
pub proof fn narrows_both_ways(a: Seq<Seq<Tile>>, b: Seq<Seq<Tile>>)
    requires
        narrows(a, b),
        narrows(b, a),
    ensures
        a == b,
{
    assert forall|r: int| 0 <= r < a.len() implies a[r] =~= b[r] by {
        assert(a[r].len() == b[r].len());
        assert forall|c: int| 0 <= c < a[r].len() implies a[r][c] == b[r][c] by {
            assert(in_table(a, r, c));
            assert(in_table(b, r, c));
        }
    }
    assert(a =~= b);
}

/// Once narrowing has changed a table, narrowing it further never brings
/// the first table back.
pub proof fn narrowing_stays_changed(a: Seq<Seq<Tile>>, b: Seq<Seq<Tile>>, c: Seq<Seq<Tile>>)
    requires
        narrows(a, b),
        narrows(b, c),
    ensures
        narrows(a, c),
        (a == c) == (a == b && b == c),
{
    narrows_twice(a, b, c);
    if a == c {
        narrows_both_ways(a, b);
    }
}

/// Putting a camp on an unassigned cell narrows the table, and changes
/// it.
pub proof fn with_camp_narrows(g: Seq<Seq<Tile>>, row: int, column: int)
    requires
        in_table(g, row, column),
        g[row][column] == Tile::Unassigned,
    ensures
        narrows(g, with_camp(g, row, column)),
        with_camp(g, row, column) != g,
{
    let h = with_camp(g, row, column);
    assert(h[row][column] == Tile::Camp);
}

/// Two tables of one shape hold camps at exactly the same places.
pub open spec fn same_camps(a: Seq<Seq<Tile>>, b: Seq<Seq<Tile>>) -> bool {
    &&& same_shape(a, b)
    &&& forall|r: int, c: int|
        in_table(a, r, c) ==> (#[trigger] b[r][c] == Tile::Camp) == (a[r][c] == Tile::Camp)
}

/// Two tables with the same camps have the same number of camps in
/// every row and in every column that all rows reach.
pub proof fn same_camps_same_counts(a: Seq<Seq<Tile>>, b: Seq<Seq<Tile>>)
    requires
        same_camps(a, b),
    ensures
        forall|r: int|
            0 <= r < a.len() ==> count_of(#[trigger] a[r], Tile::Camp) == count_of(
                b[r],
                Tile::Camp,
            ),
        forall|c: int|
            (forall|r: int| 0 <= r < a.len() ==> c < (#[trigger] a[r]).len()) && 0 <= c
                ==> count_of(#[trigger] column_of(a, c), Tile::Camp) == count_of(
                column_of(b, c),
                Tile::Camp,
            ),
{
    assert forall|r: int| 0 <= r < a.len() implies count_of(#[trigger] a[r], Tile::Camp)
        == count_of(b[r], Tile::Camp) by {
        assert(a[r].len() == b[r].len());
        assert forall|i: int| 0 <= i < a[r].len() implies (a[r][i] == Tile::Camp) == (b[r][i]
            == Tile::Camp) by {
            assert(in_table(a, r, i));
            let t = b[r][i];
        }
        count_of_agrees(a[r], b[r], Tile::Camp);
    }
    assert forall|c: int|
        (forall|r: int| 0 <= r < a.len() ==> c < (#[trigger] a[r]).len()) && 0 <= c implies count_of(
        #[trigger] column_of(a, c),
        Tile::Camp,
    ) == count_of(column_of(b, c), Tile::Camp) by {
        let x = column_of(a, c);
        let y = column_of(b, c);
        assert forall|i: int| 0 <= i < x.len() implies (x[i] == Tile::Camp) == (y[i]
            == Tile::Camp) by {
            assert(c < a[i].len());
            assert(in_table(a, i, c));
        }
        count_of_agrees(x, y, Tile::Camp);
    }
}

/// A table with the same camps as one whose camps keep apart keeps them
/// apart too.
pub proof fn same_camps_stay_apart(a: Seq<Seq<Tile>>, b: Seq<Seq<Tile>>)
    requires
        same_camps(a, b),
        camps_apart(a),
    ensures
        camps_apart(b),
{
    assert forall|r1: int, c1: int, r2: int, c2: int|
        #[trigger] camp_at(b, r1, c1) && #[trigger] camp_at(b, r2, c2) && touching(
            r1,
            c1,
            r2,
            c2,
        ) implies r1 == r2 && c1 == c2 by {
        assert(a[r1].len() == b[r1].len());
        assert(a[r2].len() == b[r2].len());
        assert(camp_at(a, r1, c1));
        assert(camp_at(a, r2, c2));
    }
}

/// A table of the shape of another holds a tree on a cell exactly if
/// the other does, provided the two agree there on whether the tile is a
/// tree.
pub proof fn trees_stay(before: Seq<Seq<Tile>>, now: Seq<Seq<Tile>>, row: int, column: int)
    requires
        same_shape(now, before),
        in_table(before, row, column) ==> (now[row][column] == Tile::Tree) == (before[row][column]
            == Tile::Tree),
    ensures
        tree_at(now, row, column) == tree_at(before, row, column),
{
    if 0 <= row < before.len() {
        assert(now[row].len() == before[row].len());
    }
}

} // verus!
