use vstd::prelude::*;
use crate::text::string_from_chars;

verus! {

/// A unique category for board pieces.
pub type PieceType = char;

/// A direction that a piece could move.
#[derive(Copy, Clone, PartialEq, Eq, Structural, Ord, PartialOrd, Hash, Debug)]
pub enum Direction {
    North,
    South,
    East,
    West,
}

/// The name of a direction.
pub open spec fn direction_name(d: Direction) -> Seq<char> {
    match d {
        Direction::North => seq!['N', 'o', 'r', 't', 'h'],
        Direction::South => seq!['S', 'o', 'u', 't', 'h'],
        Direction::East => seq!['E', 'a', 's', 't'],
        Direction::West => seq!['W', 'e', 's', 't'],
    }
}

impl Direction {
    /// The name of the direction, as it is displayed.
    pub fn to_string(&self) -> (s: String)
        ensures
            s@ == direction_name(*self),
    {
        match self {
            Direction::North => {
                let s = "North".to_owned();
                proof {
                    reveal_strlit("North");
                }
                s
            },
            Direction::South => {
                let s = "South".to_owned();
                proof {
                    reveal_strlit("South");
                }
                s
            },
            Direction::East => {
                let s = "East".to_owned();
                proof {
                    reveal_strlit("East");
                }
                s
            },
            Direction::West => {
                let s = "West".to_owned();
                proof {
                    reveal_strlit("West");
                }
                s
            },
        }
    }
}

/// A set of directions.
#[derive(Copy, Clone, PartialEq, Eq, Structural, Ord, PartialOrd, Hash, Debug, Default)]
pub struct DirectionSet {
    north: bool,
    south: bool,
    east: bool,
    west: bool,
}

impl View for DirectionSet {
    type V = Set<Direction>;

    closed spec fn view(&self) -> Set<Direction> {
        Set::new(
            |d: Direction|
                match d {
                    Direction::North => self.north,
                    Direction::South => self.south,
                    Direction::East => self.east,
                    Direction::West => self.west,
                },
        )
    }
}

/// Every direction.
pub open spec fn every_direction() -> Set<Direction> {
    set![Direction::North, Direction::South, Direction::East, Direction::West]
}

impl DirectionSet {
    /// Creates an empty set of directions.
    pub fn new() -> (set: DirectionSet)
        ensures
            set@ == Set::<Direction>::empty(),
    {
        let set = DirectionSet { north: false, south: false, east: false, west: false };
        assert(set@ =~= Set::<Direction>::empty());
        set
    }

    /// Creates the set of all directions.
    pub fn all() -> (set: DirectionSet)
        ensures
            set@ == every_direction(),
    {
        let set = DirectionSet { north: true, south: true, east: true, west: true };
        assert forall|d: Direction| #[trigger] every_direction().contains(d) == set@.contains(d) by {
            match d {
                Direction::North => {},
                Direction::South => {},
                Direction::East => {},
                Direction::West => {},
            }
        }
        assert(set@ =~= every_direction());
        set
    }

    /// Adds a direction to the set. Returns whether it was not in the set before.
    pub fn insert(&mut self, direction: Direction) -> (added: bool)
        ensures
            final(self)@ == old(self)@.insert(direction),
            added == !old(self)@.contains(direction),
    {
        let added = !self.contains(direction);
        match direction {
            Direction::North => self.north = true,
            Direction::South => self.south = true,
            Direction::East => self.east = true,
            Direction::West => self.west = true,
        }
        assert(self@ =~= old(self)@.insert(direction));
        added
    }

    /// Checks whether the set holds a direction.
    pub fn contains(&self, direction: Direction) -> (b: bool)
        ensures
            b == self@.contains(direction),
    {
        match direction {
            Direction::North => self.north,
            Direction::South => self.south,
            Direction::East => self.east,
            Direction::West => self.west,
        }
    }
}

/// An individual, possibly-movable piece on a board that belongs to a category.
///
/// Empty pieces are always movable, while walls are never movable.
#[derive(Copy, Clone, PartialEq, Eq, Structural, Ord, PartialOrd, Hash, Debug)]
pub enum Piece {
    Regular(PieceType, DirectionSet),
    Empty,
    Wall,
}

/// Whether a piece can move in a direction.
pub open spec fn movable(p: Piece, d: Direction) -> bool {
    match p {
        Piece::Regular(_, directions) => directions@.contains(d),
        Piece::Empty => true,
        Piece::Wall => false,
    }
}

/// The character a piece is displayed as: its type for a regular piece, a space for an empty
/// one and `#` for a wall.
pub open spec fn piece_char(p: Piece) -> char {
    match p {
        Piece::Regular(piece_type, _) => piece_type,
        Piece::Empty => ' ',
        Piece::Wall => '#',
    }
}

impl Piece {
    /// Checks if a piece is movable in a given direction.
    pub fn is_movable(&self, direction: Direction) -> (b: bool)
        ensures
            b == movable(*self, direction),
    {
        match self {
            Piece::Regular(_, directions) => directions.contains(direction),
            Piece::Empty => true,
            Piece::Wall => false,
        }
    }

    /// The piece as it is displayed: a single character.
    pub fn to_string(&self) -> (s: String)
        ensures
            s@ == seq![piece_char(*self)],
    {
        let c = match self {
            Piece::Regular(piece_type, _) => *piece_type,
            Piece::Empty => ' ',
            Piece::Wall => '#',
        };
        let mut chars: Vec<char> = Vec::new();
        chars.push(c);
        string_from_chars(&chars)
    }
}

} // verus!
