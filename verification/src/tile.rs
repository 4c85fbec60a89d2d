//! The four states a cell of the grid can be in, and their one-character
//! textual form.

use vstd::prelude::*;
use vstd::string::*;

verus! {

/// A single cell of the grid.
#[derive(Copy, Clone, PartialEq, Eq, Structural, Debug)]
pub enum Tile {
    /// Not yet decided: may still become grass or a camp.
    Unassigned,
    Grass,
    Camp,
    Tree,
}

/// The tile that a character stands for, if any.
pub open spec fn tile_of_char(c: char) -> Option<Tile> {
    if c == ' ' {
        Some(Tile::Unassigned)
    } else if c == '-' {
        Some(Tile::Grass)
    } else if c == 'C' {
        Some(Tile::Camp)
    } else if c == 'T' {
        Some(Tile::Tree)
    } else {
        None
    }
}

/// The text of the error reported for a character that is no tile.
pub open spec fn unknown_tile_text(c: char) -> Seq<char> {
    "Couldn't parse tile: '"@.push(c).push('\'')
}

/// `String::push` appends the given character to the end of the string
/// and leaves the rest of it as it was.
pub assume_specification[ String::push ](s: &mut String, c: char)
    ensures
        final(s)@ == old(s)@.push(c),
;

impl Tile {
    /// The character this tile is written as.
    pub open spec fn symbol_spec(self) -> char {
        match self {
            Tile::Unassigned => ' ',
            Tile::Grass => '-',
            Tile::Camp => 'C',
            Tile::Tree => 'T',
        }
    }

    /// Parse a character into a `Tile`: `' '` is `Unassigned`, `'-'` is
    /// `Grass`, `'C'` is `Camp` and `'T'` is `Tree`.  Any other character
    /// is an error that names it.
    pub fn parse(c: char) -> (res: Result<Tile, String>)
        ensures
            match res {
                Ok(t) => tile_of_char(c) == Some(t),
                Err(e) => tile_of_char(c) is None && e@ == unknown_tile_text(c),
            },
    {
        match c {
            ' ' => Ok(Tile::Unassigned),
            '-' => Ok(Tile::Grass),
            'C' => Ok(Tile::Camp),
            'T' => Ok(Tile::Tree),
            _ => {
                let mut e = String::from_str("Couldn't parse tile: '");
                e.push(c);
                e.push('\'');
                Err(e)
            },
        }
    }

    /// The character this tile is written as; the inverse of `parse`.
    #[verifier::when_used_as_spec(symbol_spec)]
    pub fn symbol(self) -> (c: char)
        ensures
            c == self.symbol_spec(),
    {
        match self {
            Tile::Unassigned => ' ',
            Tile::Grass => '-',
            Tile::Camp => 'C',
            Tile::Tree => 'T',
        }
    }
}

/// Writing a tile and reading it back gives the same tile.
pub proof fn symbol_round_trip(t: Tile)
    ensures
        tile_of_char(t.symbol_spec()) == Some(t),
{
}

/// Reading a character as a tile and writing the tile gives the character back.
pub proof fn parse_round_trip(c: char)
    requires
        tile_of_char(c) is Some,
    ensures
        tile_of_char(c)->0.symbol_spec() == c,
{
}

} // verus!
