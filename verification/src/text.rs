//! The textual form of numbers and tables: one character per tile, rows
//! separated by a line break.

use vstd::prelude::*;
use crate::tile::{parse_round_trip, symbol_round_trip, tile_of_char, Tile};

verus! {

/// The character of a single decimal digit.
pub open spec fn digit_symbol(d: nat) -> char {
    if d == 0 {
        '0'
    } else if d == 1 {
        '1'
    } else if d == 2 {
        '2'
    } else if d == 3 {
        '3'
    } else if d == 4 {
        '4'
    } else if d == 5 {
        '5'
    } else if d == 6 {
        '6'
    } else if d == 7 {
        '7'
    } else if d == 8 {
        '8'
    } else {
        '9'
    }
}

/// A number written in decimal, without leading zeros.
pub open spec fn decimal(n: nat) -> Seq<char>
    decreases n,
{
    if n < 10 {
        seq![digit_symbol(n)]
    } else {
        decimal(n / 10).push(digit_symbol(n % 10))
    }
}

/// The tiles of one row written as characters.
pub open spec fn row_text(row: Seq<Tile>) -> Seq<char> {
    Seq::new(row.len(), |c: int| row[c].symbol_spec())
}

/// A table written as text: its rows in order, with a line break
/// between each two.
pub open spec fn grid_text(g: Seq<Seq<Tile>>) -> Seq<char>
    decreases g.len(),
{
    if g.len() == 0 {
        Seq::empty()
    } else if g.len() == 1 {
        row_text(g[0])
    } else {
        grid_text(g.drop_last()).push('\n') + row_text(g.last())
    }
}

/// A character that is neither a tile nor a line break.
pub open spec fn stray(c: char) -> bool {
    c != '\n' && tile_of_char(c) is None
}

/// No character of the text is stray.
pub open spec fn readable(s: Seq<char>) -> bool {
    forall|i: int| 0 <= i < s.len() ==> !stray(#[trigger] s[i])
}

/// `at` is the place of the first stray character of the text.
pub open spec fn first_stray(s: Seq<char>, at: int) -> bool {
    &&& 0 <= at < s.len()
    &&& stray(s[at])
    &&& readable(s.take(at))
}

/// The table that a text stands for: every line break starts a new row,
/// every other character adds its tile to the last row.  The empty text
/// is one empty row.
pub open spec fn table_of_text(s: Seq<char>) -> Seq<Seq<Tile>>
    decreases s.len(),
{
    if s.len() == 0 {
        seq![Seq::empty()]
    } else {
        let before = table_of_text(s.drop_last());
        if s.last() == '\n' {
            before.push(Seq::empty())
        } else {
            before.update(before.len() - 1, before.last().push(tile_of_char(s.last())->0))
        }
    }
}

/// The character of a digit below ten.
fn digit(d: usize) -> (c: char)
    requires
        d < 10,
    ensures
        c == digit_symbol(d as nat),
{
    if d == 0 {
        '0'
    } else if d == 1 {
        '1'
    } else if d == 2 {
        '2'
    } else if d == 3 {
        '3'
    } else if d == 4 {
        '4'
    } else if d == 5 {
        '5'
    } else if d == 6 {
        '6'
    } else if d == 7 {
        '7'
    } else if d == 8 {
        '8'
    } else {
        '9'
    }
}

/// Append the decimal form of `n` to a string.
pub fn push_decimal(s: &mut String, n: usize)
    ensures
        final(s)@ == old(s)@ + decimal(n as nat),
    decreases n,
{
    if n < 10 {
        s.push(digit(n));
        assert(s@ =~= old(s)@ + decimal(n as nat));
    } else {
        push_decimal(s, n / 10);
        s.push(digit(n % 10));
        assert(s@ =~= old(s)@ + decimal(n as nat));
    }
}

/// A text always stands for at least one row.
pub proof fn table_of_text_has_a_row(s: Seq<char>)
    ensures
        table_of_text(s).len() >= 1,
    decreases s.len(),
{
    if s.len() > 0 {
        table_of_text_has_a_row(s.drop_last());
    }
}

/// Writing a table with a further, empty row adds one line break.
proof fn grid_text_new_row(g: Seq<Seq<Tile>>)
    requires
        g.len() >= 1,
    ensures
        grid_text(g.push(Seq::empty())) == grid_text(g).push('\n'),
{
    let h = g.push(Seq::empty());
    assert(h.drop_last() =~= g);
    assert(row_text(h.last()) =~= Seq::<char>::empty());
    assert(grid_text(g).push('\n') + Seq::<char>::empty() =~= grid_text(g).push('\n'));
}

/// Writing a table whose last row got one more tile adds that tile's
/// character.
proof fn grid_text_longer_row(g: Seq<Seq<Tile>>, t: Tile)
    requires
        g.len() >= 1,
    ensures
        grid_text(g.update(g.len() - 1, g.last().push(t))) == grid_text(g).push(t.symbol_spec()),
{
    let h = g.update(g.len() - 1, g.last().push(t));
    assert(row_text(h.last()) =~= row_text(g.last()).push(t.symbol_spec()));
    if g.len() > 1 {
        assert(h.drop_last() =~= g.drop_last());
        assert(grid_text(h) =~= grid_text(g).push(t.symbol_spec()));
    }
}

/// Reading a text as a table and writing the table reproduces the text,
/// character for character.
pub proof fn text_round_trip(s: Seq<char>)
    requires
        readable(s),
    ensures
        grid_text(table_of_text(s)) == s,
    decreases s.len(),
{
    if s.len() == 0 {
        assert(row_text(Seq::<Tile>::empty()) =~= Seq::<char>::empty());
        assert(grid_text(table_of_text(s)) =~= s);
    } else {
        let front = s.drop_last();
        assert forall|i: int| 0 <= i < front.len() implies !stray(#[trigger] front[i]) by {
            assert(front[i] == s[i]);
        }
        text_round_trip(front);
        table_of_text_has_a_row(front);
        let before = table_of_text(front);
        assert(!stray(s[s.len() - 1]));
        if s.last() == '\n' {
            grid_text_new_row(before);
        } else {
            let t = tile_of_char(s.last())->0;
            grid_text_longer_row(before, t);
            parse_round_trip(s.last());
        }
        assert(front.push(s.last()) =~= s);
    }
}

/// Writing a table of at least one row and reading the text gives the
/// table back.
pub proof fn table_round_trip(g: Seq<Seq<Tile>>)
    requires
        g.len() >= 1,
    ensures
        readable(grid_text(g)),
        table_of_text(grid_text(g)) == g,
    decreases g.len(),
{
    if g.len() == 1 {
        table_of_row_text(seq![Seq::empty()], g[0]);
        assert(grid_text(seq![Seq::<Tile>::empty()]) =~= Seq::<char>::empty()) by {
            assert(row_text(Seq::<Tile>::empty()) =~= Seq::<char>::empty());
        }
        assert(Seq::<char>::empty() + row_text(g[0]) =~= row_text(g[0]));
        assert(seq![Seq::<Tile>::empty()].update(0, Seq::<Tile>::empty() + g[0]) =~= g);
    } else {
        let front = g.drop_last();
        table_round_trip(front);
        let head = grid_text(front).push('\n');
        assert(head.drop_last() =~= grid_text(front));
        assert(table_of_text(head) == front.push(Seq::empty()));
        assert forall|i: int| 0 <= i < head.len() implies !stray(#[trigger] head[i]) by {
            if i < head.len() - 1 {
                assert(head[i] == grid_text(front)[i]);
            }
        }
        assert(grid_text(front.push(Seq::empty())) == head) by {
            grid_text_new_row(front);
        }
        table_of_row_text(front.push(Seq::empty()), g.last());
        assert(front.push(Seq::empty()).update(front.len() as int, Seq::<Tile>::empty() + g.last())
            =~= g);
    }
}

/// Reading on after a readable text, a row's characters land in the last
/// row of the table.
proof fn table_of_row_text(g: Seq<Seq<Tile>>, row: Seq<Tile>)
    requires
        g.len() >= 1,
        readable(grid_text(g)),
        table_of_text(grid_text(g)) == g,
    ensures
        readable(grid_text(g) + row_text(row)),
        table_of_text(grid_text(g) + row_text(row)) == g.update(g.len() - 1, g.last() + row),
    decreases row.len(),
{
    let s = grid_text(g) + row_text(row);
    if row.len() == 0 {
        assert(s =~= grid_text(g));
        assert(g.update(g.len() - 1, g.last() + row) =~= g);
    } else {
        let shorter = row.drop_last();
        table_of_row_text(g, shorter);
        let front = grid_text(g) + row_text(shorter);
        assert(s.drop_last() =~= front);
        symbol_round_trip(row.last());
        assert(s.last() == row.last().symbol_spec());
        assert forall|i: int| 0 <= i < s.len() implies !stray(#[trigger] s[i]) by {
            if i < s.len() - 1 {
                assert(s[i] == front[i]);
            }
        }
        let before = g.update(g.len() - 1, g.last() + shorter);
        assert((g.last() + shorter).push(row.last()) =~= g.last() + row);
        assert(before.update(before.len() - 1, before.last().push(row.last())) =~= g.update(
            g.len() - 1,
            g.last() + row,
        ));
    }
}

} // verus!
