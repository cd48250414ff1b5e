use vstd::prelude::*;

verus! {

/// The terrain class of one grid cell.
#[derive(Copy, Clone, Debug, PartialEq, Eq, Structural)]
pub enum Square {
    Empty,
    Wall,
    SpawnPoint,
    Destination,
}

/// The glyph that stands for a terrain class in a map description.
pub open spec fn glyph_of(s: Square) -> char {
    match s {
        Square::Empty => ' ',
        Square::Wall => '#',
        Square::SpawnPoint => '^',
        Square::Destination => '$',
    }
}

/// The terrain class a glyph stands for, if it stands for one.
pub open spec fn square_of_glyph(c: char) -> Option<Square> {
    if c == ' ' {
        Some(Square::Empty)
    } else if c == '#' {
        Some(Square::Wall)
    } else if c == '^' {
        Some(Square::SpawnPoint)
    } else if c == '$' {
        Some(Square::Destination)
    } else {
        None
    }
}

/// Whether an agent can move onto a cell of this class in a search.
pub open spec fn is_open(s: Square) -> bool {
    s == Square::Empty || s == Square::Destination
}

impl Square {
    pub fn to_char(&self) -> (r: char)
        ensures
            r == glyph_of(*self),
            square_of_glyph(r) == Some(*self),
    {
        match self {
            Square::Empty => ' ',
            Square::Wall => '#',
            Square::SpawnPoint => '^',
            Square::Destination => '$',
        }
    }

    /// Reads a glyph; `None` for a character that is no terrain class.
    pub fn fr_char(c: char) -> (r: Option<Square>)
        ensures
            r == square_of_glyph(c),
            r matches Some(s) ==> glyph_of(s) == c,
    {
        match c {
            ' ' => Some(Square::Empty),
            '#' => Some(Square::Wall),
            '^' => Some(Square::SpawnPoint),
            '$' => Some(Square::Destination),
            _ => None,
        }
    }

    pub fn is_traversable(&self) -> (r: bool)
        ensures
            r == is_open(*self),
    {
        match self {
            Square::Empty | Square::Destination => true,
            _ => false,
        }
    }
}

} // verus!
