use vstd::prelude::*;
use std::ops::{Add, Sub};
use vstd::std_specs::ops::{AddSpecImpl, SubSpecImpl};
use crate::text::{decimal, string_from_chars, push_decimal};

verus! {

/// The reason a column could not be created.
#[derive(Debug, PartialEq, Eq, Structural)]
pub enum ColError {
    OutOfBounds(usize),
}

/// Represents a column in a two-dimensional plane.
#[derive(Copy, Clone, Eq, PartialEq, Ord, PartialOrd, Hash, Debug, Default)]
pub struct Col<const W: usize> {
    /// The index of the column
    pub x: usize,
}

impl<const W: usize> Col<W> {
    /// Creates a new column. The column must lie inside the board.
    pub fn new(x: usize) -> (col: Col<W>)
        requires
            x < W,
        ensures
            col.x == x,
    {
        Col { x }
    }

    /// Attempts to create a new column, returning an error if the column is
    /// outside the board's bounds.
    pub fn try_new(x: usize) -> (res: Result<Col<W>, ColError>)
        ensures
            x < W ==> res == Ok::<Col<W>, ColError>(Col { x }),
            x >= W ==> res == Err::<Col<W>, ColError>(ColError::OutOfBounds(x)),
    {
        if x >= W {
            return Err(ColError::OutOfBounds(x));
        }
        Ok(Col { x })
    }
}


/// The reason a position could not be created.
#[derive(Debug, PartialEq, Eq, Structural)]
pub enum PosError {
    OutOfBounds(usize, usize),
    Overflow,
}

/// A position that represents a location in a two-dimensional plane.
#[derive(Copy, Clone, Eq, PartialEq, Ord, PartialOrd, Hash, Debug, Default)]
pub struct Pos<const W: usize, const H: usize> {
    /// The horizontal component of the position
    x: usize,
    /// The vertical component of the position
    y: usize,
}

impl<const W: usize, const H: usize> View for Pos<W, H> {
    type V = (int, int);

    closed spec fn view(&self) -> (int, int) {
        (self.x as int, self.y as int)
    }
}

impl<const W: usize, const H: usize> Pos<W, H> {
    /// Whether the position lies on a board of size `W` by `H`.
    pub open spec fn in_bounds(self) -> bool {
        0 <= self@.0 < W && 0 <= self@.1 < H
    }

    /// Creates a new position with a horizontal and vertical component.
    /// The position must lie inside the board.
    pub fn new(x: usize, y: usize) -> (pos: Pos<W, H>)
        requires
            x < W,
            y < H,
        ensures
            pos@ == (x as int, y as int),
            pos.in_bounds(),
    {
        Pos { x, y }
    }

    /// Attempts to create a new position with a horizontal and vertical component, returning
    /// an error if the position is outside the board's bounds.
    pub fn try_new(x: usize, y: usize) -> (res: Result<Pos<W, H>, PosError>)
        ensures
            place_view(res) == checked_place::<W, H>(x as int, y as int),
    {
        if x >= W {
            return Err(PosError::OutOfBounds(x, y));
        }
        if y >= H {
            return Err(PosError::OutOfBounds(x, y));
        }
        Ok(Pos { x, y })
    }

    /// Returns the horizontal component of the position.
    pub fn x(&self) -> (x: usize)
        ensures
            x == self@.0,
    {
        self.x
    }

    /// Returns the vertical component of the position.
    pub fn y(&self) -> (y: usize)
        ensures
            y == self@.1,
    {
        self.y
    }
}

/// What a position computation yields, with the position taken by its components.
pub open spec fn place_view<const W: usize, const H: usize>(
    r: Result<Pos<W, H>, PosError>,
) -> Result<(int, int), PosError> {
    match r {
        Ok(p) => Ok(p@),
        Err(e) => Err(e),
    }
}

/// The outcome of placing a position at the components `(x, y)` on a `W` by `H` board:
/// components that do not fit in a `usize` overflow, components outside the board are
/// out of bounds, and all others give a position.
pub open spec fn checked_place<const W: usize, const H: usize>(x: int, y: int) -> Result<
    (int, int),
    PosError,
> {
    if x > usize::MAX || y > usize::MAX || x < 0 || y < 0 {
        Err(PosError::Overflow)
    } else if x >= W || y >= H {
        Err(PosError::OutOfBounds(x as usize, y as usize))
    } else {
        Ok((x, y))
    }
}

impl<const W: usize, const H: usize> Pos<W, H> {
    /// The sum of two positions, component by component.
    pub closed spec fn spec_plus(self, rhs: Self) -> Result<Self, PosError> {
        let (x, y) = (self.x + rhs.x, self.y + rhs.y);
        if x > usize::MAX || y > usize::MAX {
            Err(PosError::Overflow)
        } else if x >= W || y >= H {
            Err(PosError::OutOfBounds(x as usize, y as usize))
        } else {
            Ok(Pos { x: x as usize, y: y as usize })
        }
    }

    /// The difference of two positions, component by component.
    pub closed spec fn spec_minus(self, rhs: Self) -> Result<Self, PosError> {
        let (x, y) = (self.x - rhs.x, self.y - rhs.y);
        if x < 0 || y < 0 {
            Err(PosError::Overflow)
        } else if x >= W || y >= H {
            Err(PosError::OutOfBounds(x as usize, y as usize))
        } else {
            Ok(Pos { x: x as usize, y: y as usize })
        }
    }

    /// The sum and difference agree with placing the summed or subtracted components.
    pub broadcast proof fn lemma_plus_minus(self, rhs: Self)
        ensures
            place_view(#[trigger] self.spec_plus(rhs)) == checked_place::<W, H>(
                self@.0 + rhs@.0,
                self@.1 + rhs@.1,
            ),
            place_view(#[trigger] self.spec_minus(rhs)) == checked_place::<W, H>(
                self@.0 - rhs@.0,
                self@.1 - rhs@.1,
            ),
    {
    }

    /// Formats the position as `(x, y)`.
    pub fn to_string(&self) -> (s: String)
        ensures
            s@ == seq!['('] + decimal(self@.0 as nat) + seq![',', ' '] + decimal(self@.1 as nat)
                + seq![')'],
    {
        let mut chars: Vec<char> = Vec::new();
        chars.push('(');
        push_decimal(&mut chars, self.x);
        chars.push(',');
        chars.push(' ');
        push_decimal(&mut chars, self.y);
        chars.push(')');
        string_from_chars(&chars)
    }
}

impl<const W: usize, const H: usize> Add for Pos<W, H> {
    type Output = Result<Pos<W, H>, PosError>;

    /// Adds two positions component by component. Fails with `Overflow` when a component
    /// does not fit in a `usize` and with `OutOfBounds` when the sum lies outside the board.
    fn add(self, rhs: Self) -> (res: Self::Output)
        ensures
            place_view(res) == checked_place::<W, H>(self@.0 + rhs@.0, self@.1 + rhs@.1),
    {
        let new_x = self.x.checked_add(rhs.x);
        if new_x.is_none() {
            return Err(PosError::Overflow);
        }
        let new_y = self.y.checked_add(rhs.y);
        if new_y.is_none() {
            return Err(PosError::Overflow);
        }
        Pos::try_new(new_x.unwrap(), new_y.unwrap())
    }
}

impl<const W: usize, const H: usize> AddSpecImpl for Pos<W, H> {
    open spec fn obeys_add_spec() -> bool {
        true
    }

    open spec fn add_req(self, rhs: Self) -> bool {
        true
    }

    open spec fn add_spec(self, rhs: Self) -> Result<Pos<W, H>, PosError> {
        self.spec_plus(rhs)
    }
}

impl<const W: usize, const H: usize> Sub for Pos<W, H> {
    type Output = Result<Pos<W, H>, PosError>;

    /// Subtracts two positions component by component. Fails with `Overflow` when a
    /// component would be negative and with `OutOfBounds` when the difference lies outside
    /// the board.
    fn sub(self, rhs: Self) -> (res: Self::Output)
        ensures
            place_view(res) == checked_place::<W, H>(self@.0 - rhs@.0, self@.1 - rhs@.1),
    {
        let new_x = self.x.checked_sub(rhs.x);
        if new_x.is_none() {
            return Err(PosError::Overflow);
        }
        let new_y = self.y.checked_sub(rhs.y);
        if new_y.is_none() {
            return Err(PosError::Overflow);
        }
        Pos::try_new(new_x.unwrap(), new_y.unwrap())
    }
}

impl<const W: usize, const H: usize> SubSpecImpl for Pos<W, H> {
    open spec fn obeys_sub_spec() -> bool {
        true
    }

    open spec fn sub_req(self, rhs: Self) -> bool {
        true
    }

    open spec fn sub_spec(self, rhs: Self) -> Result<Pos<W, H>, PosError> {
        self.spec_minus(rhs)
    }
}

/// Two positions are equal exactly when their components are equal.
pub broadcast proof fn lemma_pos_view_injective<const W: usize, const H: usize>(
    p: Pos<W, H>,
    q: Pos<W, H>,
)
    ensures
        #[trigger] p@ == #[trigger] q@ ==> p == q,
{
}

/// Every position has non-negative components that fit in a `usize`.
pub broadcast proof fn lemma_pos_view_bounds<const W: usize, const H: usize>(p: Pos<W, H>)
    ensures
        0 <= (#[trigger] p@).0 <= usize::MAX,
        0 <= p@.1 <= usize::MAX,
{
}

/// Subtracting a position from a sum that lies on the board gives back the position that was
/// added to: `(p + q) - q == p`.
pub proof fn lemma_add_then_sub<const W: usize, const H: usize>(p: Pos<W, H>, q: Pos<W, H>)
    ensures
        checked_place::<W, H>(p@.0 + q@.0, p@.1 + q@.1) matches Ok(s) ==> checked_place::<W, H>(
            s.0 - q@.0,
            s.1 - q@.1,
        ) == Ok::<(int, int), PosError>(p@),
{
}

/// Adding back a position to a difference that lies on the board gives back the position that
/// was subtracted from: `(p - q) + q == p`.
pub proof fn lemma_sub_then_add<const W: usize, const H: usize>(p: Pos<W, H>, q: Pos<W, H>)
    requires
        p.in_bounds(),
    ensures
        checked_place::<W, H>(p@.0 - q@.0, p@.1 - q@.1) matches Ok(d) ==> checked_place::<W, H>(
            d.0 + q@.0,
            d.1 + q@.1,
        ) == Ok::<(int, int), PosError>(p@),
{
}

} // verus!
