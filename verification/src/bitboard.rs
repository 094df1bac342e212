use vstd::prelude::*;
use bitvec::vec::BitVec;
use crate::position::Pos;
use crate::text::string_from_chars;

verus! {

/// A bit-vector of the `bitvec` crate, held in a private field; its bits are named by
/// `bit_values`, and only the wrappers below read or change them.
#[verifier::external_body]
#[derive(Eq, PartialEq, Hash, Debug)]
pub struct Bits {
    bits: BitVec,
}

/// The bits a bit-vector holds, in order.
pub uninterp spec fn bit_values(v: Bits) -> Seq<bool>;

/// `BitVec::repeat`: a bit-vector that holds `len` copies of `bit`. The crate refuses (panics
/// on) lengths above an eighth of the address space.
#[verifier::external_body]
fn repeat_bits(bit: bool, len: usize) -> (v: Bits)
    requires
        len <= usize::MAX / 8,
    ensures
        bit_values(v) == Seq::new(len as nat, |i: int| bit),
{
    Bits { bits: BitVec::repeat(bit, len) }
}

/// `BitVec::clone`: a bit-vector that holds the same bits.
#[verifier::external_body]
fn clone_bits(v: &Bits) -> (c: Bits)
    ensures
        bit_values(c) == bit_values(*v),
{
    Bits { bits: v.bits.clone() }
}

/// Indexing a bit-vector: the bit at `index`, which must lie within the bit-vector.
#[verifier::external_body]
fn bit_at(v: &Bits, index: usize) -> (b: bool)
    requires
        index < bit_values(*v).len(),
    ensures
        b == bit_values(*v)[index as int],
{
    v.bits[index]
}

/// `BitSlice::set`: writes `value` into the bit at `index`, which must lie within the
/// bit-vector, and leaves the other bits. It panics only on an index outside the bit-vector.
#[verifier::external_body]
fn set_bit(v: &mut Bits, index: usize, value: bool)
    requires
        index < bit_values(*old(v)).len(),
    ensures
        bit_values(*final(v)) == bit_values(*old(v)).update(index as int, value),
    no_unwind
{
    v.bits.set(index, value)
}

/// `BitSlice::swap`: exchanges the bits at `a` and `b`, which must lie within the
/// bit-vector, and leaves the other bits. It panics only on an index outside the bit-vector.
#[verifier::external_body]
fn swap_bits(v: &mut Bits, a: usize, b: usize)
    requires
        a < bit_values(*old(v)).len(),
        b < bit_values(*old(v)).len(),
    ensures
        bit_values(*final(v)) == bit_values(*old(v)).update(a as int, bit_values(*old(v))[b as int]).update(
            b as int,
            bit_values(*old(v))[a as int],
        ),
    no_unwind
{
    v.bits.swap(a, b)
}

/// The index of the bit of the position `(x, y)` on a bitboard of width `w`: the rows are
/// stored one after another, from the bottom up.
pub open spec fn bit_index(w: int, x: int, y: int) -> int {
    y * w + x
}

/// Distinct positions of a `w` by `h` bitboard have distinct bits, all within the first
/// `w * h`.
proof fn lemma_bit_index(w: int, h: int, x1: int, y1: int, x2: int, y2: int)
    requires
        0 <= x1 < w,
        0 <= y1 < h,
        0 <= x2 < w,
        0 <= y2 < h,
    ensures
        0 <= bit_index(w, x1, y1) < w * h,
        bit_index(w, x1, y1) == bit_index(w, x2, y2) ==> x1 == x2 && y1 == y2,
{
    assert(0 <= y1 * w + x1 < w * h) by (nonlinear_arith)
        requires
            0 <= x1 < w,
            0 <= y1 < h,
    ;
    assert(y1 * w + x1 == y2 * w + x2 ==> x1 == x2 && y1 == y2) by (nonlinear_arith)
        requires
            0 <= x1 < w,
            0 <= x2 < w,
            0 <= y1,
            0 <= y2,
    {
        if y1 * w + x1 == y2 * w + x2 {
            if y1 < y2 {
                assert(y1 * w + w <= y2 * w);
            } else if y2 < y1 {
                assert(y2 * w + w <= y1 * w);
            }
        }
    }
}

/// Efficiently maintains the state of a board with bits.
#[derive(Eq, PartialEq, Hash, Debug)]
pub struct BitBoard {
    board: Bits,
    width: u8,
    height: u8,
}

/// The characters of row `y` of a bitboard whose set positions are `cells`: `1` for a set
/// position and `0` for another, from left to right, and a line break.
pub open spec fn row_text(cells: Set<(int, int)>, w: int, y: int) -> Seq<char> {
    Seq::new(w as nat, |x: int| if cells.contains((x, y)) { '1' } else { '0' }).push('\n')
}

/// The rows of a bitboard of height `h` from the top down to row `y`.
pub open spec fn rows_text(cells: Set<(int, int)>, w: int, h: int, y: int) -> Seq<char>
    decreases h - y,
{
    if y >= h {
        Seq::empty()
    } else {
        rows_text(cells, w, h, y + 1) + row_text(cells, w, y)
    }
}

impl Clone for BitBoard {
    fn clone(&self) -> (res: Self)
        ensures
            res.spec_width() == self.spec_width(),
            res.spec_height() == self.spec_height(),
            res.set_cells() == self.set_cells(),
    {
        proof {
            use_type_invariant(self);
        }
        let res = BitBoard { board: clone_bits(&self.board), width: self.width, height: self.height };
        assert(res.set_cells() =~= self.set_cells());
        res
    }
}

impl BitBoard {
    #[verifier::type_invariant]
    spec fn inv(self) -> bool {
        bit_values(self.board).len() == self.width * self.height
    }

    /// The horizontal size of the bitboard.
    pub closed spec fn spec_width(self) -> int {
        self.width as int
    }

    /// The vertical size of the bitboard.
    pub closed spec fn spec_height(self) -> int {
        self.height as int
    }

    /// The positions that are set.
    pub closed spec fn set_cells(self) -> Set<(int, int)> {
        Set::new(
            |p: (int, int)|
                0 <= p.0 < self.width && 0 <= p.1 < self.height && bit_values(self.board)[bit_index(
                    self.width as int,
                    p.0,
                    p.1,
                )],
        )
    }

    /// Creates a new bitboard with a given size, with no position set.
    pub fn new(width: u8, height: u8) -> (board: BitBoard)
        ensures
            board.spec_width() == width,
            board.spec_height() == height,
            board.set_cells() == Set::<(int, int)>::empty(),
    {
        assert(width * height <= 255 * 255) by (nonlinear_arith)
            requires
                width <= 255,
                height <= 255,
        ;
        let len = (width as usize) * (height as usize);
        let board = BitBoard { board: repeat_bits(false, len), width, height };
        assert(board.set_cells() =~= Set::<(int, int)>::empty()) by {
            assert forall|p: (int, int)| !board.set_cells().contains(p) by {
                if 0 <= p.0 < width && 0 <= p.1 < height {
                    lemma_bit_index(width as int, height as int, p.0, p.1, p.0, p.1);
                }
            }
        }
        board
    }

    /// The horizontal size of the bitboard.
    pub fn width(&self) -> (w: u8)
        ensures
            w == self.spec_width(),
    {
        self.width
    }

    /// The vertical size of the bitboard.
    pub fn height(&self) -> (h: u8)
        ensures
            h == self.spec_height(),
    {
        self.height
    }

    /// Converts a coordinate into the position of the corresponding bit.
    fn bit_pos(&self, x: usize, y: usize) -> (i: usize)
        requires
            x < self.spec_width(),
            y < self.spec_height(),
        ensures
            i == bit_index(self.spec_width(), x as int, y as int),
            i < bit_values(self.board).len(),
    {
        proof {
            use_type_invariant(self);
            lemma_bit_index(self.width as int, self.height as int, x as int, y as int, x as int, y as int);
        }
        assert(y * self.width <= 255 * 255) by (nonlinear_arith)
            requires
                y < 255,
                self.width <= 255,
        ;
        y * (self.width as usize) + x
    }

    /// Whether the bit at `(x, y)` is set.
    fn is_set_at(&self, x: usize, y: usize) -> (b: bool)
        requires
            x < self.spec_width(),
            y < self.spec_height(),
        ensures
            b == self.set_cells().contains((x as int, y as int)),
    {
        let i = self.bit_pos(x, y);
        bit_at(&self.board, i)
    }

    /// Checks if a coordinate is set in this bitboard. The position must lie inside the
    /// bitboard.
    pub fn is_set<const W: usize, const H: usize>(&self, pos: Pos<W, H>) -> (b: bool)
        requires
            pos@.0 < self.spec_width(),
            pos@.1 < self.spec_height(),
        ensures
            b == self.set_cells().contains(pos@),
    {
        self.is_set_at(pos.x(), pos.y())
    }

    /// Writes `value` into the bit of `(x, y)`.
    fn write(&mut self, x: usize, y: usize, value: bool)
        requires
            x < old(self).spec_width(),
            y < old(self).spec_height(),
        ensures
            final(self).spec_width() == old(self).spec_width(),
            final(self).spec_height() == old(self).spec_height(),
            final(self).set_cells() == if value {
                old(self).set_cells().insert((x as int, y as int))
            } else {
                old(self).set_cells().remove((x as int, y as int))
            },
    {
        let i = self.bit_pos(x, y);
        let ghost before = *self;
        proof {
            use_type_invariant(&*self);
        }
        set_bit(&mut self.board, i, value);
        proof {
            let w = self.width as int;
            let h = self.height as int;
            let target = if value {
                before.set_cells().insert((x as int, y as int))
            } else {
                before.set_cells().remove((x as int, y as int))
            };
            assert forall|p: (int, int)| self.set_cells().contains(p) == target.contains(p) by {
                if 0 <= p.0 < w && 0 <= p.1 < h {
                    lemma_bit_index(w, h, p.0, p.1, x as int, y as int);
                }
            }
            assert(self.set_cells() =~= target);
        }
    }

    /// Sets a coordinate in this bitboard. The position must lie inside the bitboard.
    pub fn set<const W: usize, const H: usize>(&mut self, pos: Pos<W, H>)
        requires
            pos@.0 < old(self).spec_width(),
            pos@.1 < old(self).spec_height(),
        ensures
            final(self).spec_width() == old(self).spec_width(),
            final(self).spec_height() == old(self).spec_height(),
            final(self).set_cells() == old(self).set_cells().insert(pos@),
    {
        self.write(pos.x(), pos.y(), true)
    }

    /// Clears a coordinate in this bitboard. The position must lie inside the bitboard.
    pub fn unset<const W: usize, const H: usize>(&mut self, pos: Pos<W, H>)
        requires
            pos@.0 < old(self).spec_width(),
            pos@.1 < old(self).spec_height(),
        ensures
            final(self).spec_width() == old(self).spec_width(),
            final(self).spec_height() == old(self).spec_height(),
            final(self).set_cells() == old(self).set_cells().remove(pos@),
    {
        self.write(pos.x(), pos.y(), false)
    }

    /// Swaps two coordinates in this bitboard. Both positions must lie inside the bitboard.
    pub fn swap<const W: usize, const H: usize>(&mut self, first: Pos<W, H>, second: Pos<W, H>)
        requires
            first@.0 < old(self).spec_width(),
            first@.1 < old(self).spec_height(),
            second@.0 < old(self).spec_width(),
            second@.1 < old(self).spec_height(),
        ensures
            final(self).spec_width() == old(self).spec_width(),
            final(self).spec_height() == old(self).spec_height(),
            forall|p: (int, int)|
                #[trigger] final(self).set_cells().contains(p) == if p == first@ {
                    old(self).set_cells().contains(second@)
                } else if p == second@ {
                    old(self).set_cells().contains(first@)
                } else {
                    old(self).set_cells().contains(p)
                },
    {
        let first_bit_pos = self.bit_pos(first.x(), first.y());
        let second_bit_pos = self.bit_pos(second.x(), second.y());
        let ghost before = *self;
        proof {
            use_type_invariant(&*self);
        }
        swap_bits(&mut self.board, first_bit_pos, second_bit_pos);
        proof {
            let w = self.width as int;
            let h = self.height as int;
            assert forall|p: (int, int)|
                #[trigger] self.set_cells().contains(p) == if p == first@ {
                    before.set_cells().contains(second@)
                } else if p == second@ {
                    before.set_cells().contains(first@)
                } else {
                    before.set_cells().contains(p)
                } by {
                if 0 <= p.0 < w && 0 <= p.1 < h {
                    lemma_bit_index(w, h, p.0, p.1, first@.0, first@.1);
                    lemma_bit_index(w, h, p.0, p.1, second@.0, second@.1);
                }
            }
        }
    }

    /// The bitboard as it is displayed: one line per row from the top down, with `1` for a
    /// set position and `0` for another, each line ending in a line break.
    pub fn to_string(&self) -> (s: String)
        ensures
            s@ == rows_text(self.set_cells(), self.spec_width(), self.spec_height(), 0),
    {
        let ghost cells = self.set_cells();
        let ghost w = self.spec_width();
        let ghost h = self.spec_height();
        let width = self.width as usize;
        let mut chars: Vec<char> = Vec::new();
        let mut y: usize = self.height as usize;
        while y > 0
            invariant
                y <= h,
                width == w,
                w == self.spec_width(),
                h == self.spec_height(),
                cells == self.set_cells(),
                chars@ == rows_text(cells, w, h, y as int),
            decreases y,
        {
            y = y - 1;
            let mut x: usize = 0;
            while x < width
                invariant
                    x <= width,
                    y < h,
                    width == w,
                    w == self.spec_width(),
                    h == self.spec_height(),
                    cells == self.set_cells(),
                    chars@ == rows_text(cells, w, h, y + 1) + Seq::new(
                        x as nat,
                        |i: int| if cells.contains((i, y as int)) { '1' } else { '0' },
                    ),
                decreases width - x,
            {
                let c = if self.is_set_at(x, y) { '1' } else { '0' };
                chars.push(c);
                x = x + 1;
            }
            chars.push('\n');
            assert(chars@ =~= rows_text(cells, w, h, y as int));
        }
        string_from_chars(&chars)
    }
}

} // verus!
