use vstd::prelude::*;
use vstd::multiset::Multiset;
use std::ops::BitAnd;
use std::collections::VecDeque;
use vstd::std_specs::cmp::PartialEqSpec;
use vstd::std_specs::convert::FromSpec;
use vstd::std_specs::ops::BitAndSpec;
use crate::position::{Col, Pos};

mod gravity;

verus! {

broadcast use crate::position::lemma_pos_view_injective, crate::position::lemma_pos_view_bounds;

/// A piece with one or more match types. Two pieces should be equal when they match the same
/// match types.
pub trait Piece: Copy + From<Self::MatchType> + Default + BitAnd<Output = Self> + Eq {
    /// A type that all pieces in a pattern must have to create a match.
    type MatchType;

    /// A piece that matches no match types and is treated as empty.
    const AIR: Self;
}

/// The piece implementation computes `==`, `&` and `From` as the pure functions that their
/// specifications name (the `obeys_*` laws of vstd), and `&` accepts every pair of pieces.
pub open spec fn piece_laws<P: Piece>() -> bool {
    &&& P::obeys_eq_spec()
    &&& P::obeys_from_spec()
    &&& P::obeys_bitand_spec()
    &&& forall|a: P, b: P| #[trigger] a.bitand_req(b)
}

/// Whether a piece is air, that is, equal to [`Piece::AIR`].
pub open spec fn is_air<P: Piece>(p: P) -> bool {
    p.eq_spec(&P::AIR)
}

/// Whether a piece has a match type: the piece converted from the match type, combined
/// with the piece by `&`, is not air.
pub open spec fn has_match_type<P: Piece>(t: P::MatchType, p: P) -> bool {
    !is_air(P::from_spec(t).bitand_spec(p))
}

/// Defines errors possible from [`BoardState`] methods.
#[derive(Debug, PartialEq, Eq)]
pub enum BoardError<const W: usize, const H: usize> {
    NonAdjacent(Pos<W, H>, Pos<W, H>),
}

/// The contents of a board: `pieces[x][y]` is the piece at `(x, y)`,
/// `horizontal_barriers[x][y]` tells whether there is a barrier between `(x, y)` and
/// `(x, y + 1)`, and `vertical_barriers[y][x]` whether there is one between `(x, y)` and
/// `(x + 1, y)`.
pub struct BoardView<P> {
    pub pieces: Seq<Seq<P>>,
    pub horizontal_barriers: Seq<Seq<bool>>,
    pub vertical_barriers: Seq<Seq<bool>>,
}

/// Whether two positions are directly above one another.
pub open spec fn vertically_adjacent(a: (int, int), b: (int, int)) -> bool {
    a.0 == b.0 && (a.1 - b.1 == 1 || b.1 - a.1 == 1)
}

/// Whether two positions are directly beside one another.
pub open spec fn horizontally_adjacent(a: (int, int), b: (int, int)) -> bool {
    a.1 == b.1 && (a.0 - b.0 == 1 || b.0 - a.0 == 1)
}

pub open spec fn min(a: int, b: int) -> int {
    if a <= b { a } else { b }
}

/// The piece at a position of a grid of pieces.
pub open spec fn cell<P>(pieces: Seq<Seq<P>>, p: (int, int)) -> P {
    pieces[p.0][p.1]
}

/// A grid of pieces with the piece at one position replaced.
pub open spec fn set_cell<P>(pieces: Seq<Seq<P>>, p: (int, int), v: P) -> Seq<Seq<P>> {
    pieces.update(p.0, pieces[p.0].update(p.1, v))
}

/// A grid of pieces with the pieces at two positions exchanged.
pub open spec fn swap_cells<P>(pieces: Seq<Seq<P>>, a: (int, int), b: (int, int)) -> Seq<Seq<P>> {
    set_cell(set_cell(pieces, a, cell(pieces, b)), b, cell(pieces, a))
}

/// A grid of pieces after exchanging the pieces of each pair of positions, in order.
pub open spec fn replay<P>(pieces: Seq<Seq<P>>, moves: Seq<((int, int), (int, int))>) -> Seq<
    Seq<P>,
>
    decreases moves.len(),
{
    if moves.len() == 0 {
        pieces
    } else {
        let last = moves.last();
        swap_cells(replay(pieces, moves.drop_last()), last.0, last.1)
    }
}

/// A step of gravity on a board, between two spaces of its grid: a piece falls straight down its column into air, with no
/// barrier between where it was and where it lands, or a piece and the air directly beside it
/// in a row change places, with no barrier between them.
pub open spec fn gravity_step<P: Piece>(b: BoardView<P>, m: ((int, int), (int, int))) -> bool {
    let (p, q) = m;
    &&& b.in_grid(p)
    &&& b.in_grid(q)
    &&& {
        ||| {
            &&& p.0 == q.0
            &&& q.1 < p.1
            &&& !is_air(b.piece(p))
            &&& is_air(b.piece(q))
            &&& forall|j: int| q.1 <= j < p.1 ==> !#[trigger] b.horizontal_barriers[p.0][j]
        }
        ||| {
            &&& p.1 == q.1
            &&& (p.0 - q.0 == 1 || q.0 - p.0 == 1)
            &&& !b.barrier(p, q)
            &&& is_air(b.piece(p)) != is_air(b.piece(q))
        }
    }
}

/// No vertical barrier lies between columns `a` and `c`, in either order, of a row whose
/// vertical barriers are `vby`.
pub open spec fn row_connected(vby: Seq<bool>, a: int, c: int) -> bool {
    forall|j: int| (a <= j < c || c <= j < a) ==> !#[trigger] vby[j]
}

/// Every space of row `r` of a board `w` wide that no vertical barrier separates from column
/// `x` holds a piece.
pub open spec fn row_segment_full<P: Piece>(b: BoardView<P>, w: int, r: int, x: int) -> bool {
    forall|c: int|
        0 <= c < w && row_connected(b.vertical_barriers[r], x, c) ==> !is_air(#[trigger] b.piece((c, r)))
}

/// A space of a board `w` wide is at rest: it holds air, or it lies on the bottom row, or a
/// barrier lies directly below it, or every space of the row below that no vertical barrier
/// separates from it holds a piece. In particular no piece at rest hangs over air.
pub open spec fn at_rest<P: Piece>(b: BoardView<P>, w: int, p: (int, int)) -> bool {
    ||| is_air(b.piece(p))
    ||| p.1 == 0
    ||| b.horizontal_barriers[p.0][p.1 - 1]
    ||| row_segment_full(b, w, p.1 - 1, p.0)
}

/// The distance between two numbers.
pub open spec fn distance(a: int, b: int) -> int {
    if a >= b {
        a - b
    } else {
        b - a
    }
}

/// The swaps that carry the piece at `start` of row `y` to `end`, one neighbour at a time and
/// in order: `|end - start|` swaps of adjacent spaces.
pub open spec fn rotation_moves(y: int, start: int, end: int) -> Seq<((int, int), (int, int))> {
    if start <= end {
        Seq::new((end - start) as nat, |i: int| ((start + i, y), (start + i + 1, y)))
    } else {
        Seq::new((start - end) as nat, |i: int| ((start - i - 1, y), (start - i, y)))
    }
}

/// The positions of a `w` by `h` board from `(mx, my)` on, row by row from the bottom up and
/// from left to right within a row.
pub open spec fn main_seq(w: int, h: int, mx: int, my: int) -> Seq<(int, int)>
    decreases h - my,
{
    if my < 0 || my >= h || mx < 0 || mx > w {
        Seq::empty()
    } else {
        Seq::new((w - mx) as nat, |i: int| (mx + i, my)) + main_seq(w, h, 0, my + 1)
    }
}

/// The lowest height from `y` up to the next barrier above, or the top of a board of height
/// `h`, at which column `c` holds air.
pub open spec fn air_above<P: Piece>(c: Seq<P>, hb: Seq<bool>, h: int, y: int) -> Option<int>
    decreases h - y,
{
    if y < 0 || y >= h {
        None
    } else if is_air(c[y]) {
        Some(y)
    } else if barrier_above(hb, h, y) {
        None
    } else {
        air_above(c, hb, h, y + 1)
    }
}

/// The leftmost column of the segment of a row that holds column `x`: the row is cut by its
/// vertical barriers `vby`.
pub open spec fn row_start(vby: Seq<bool>, x: int) -> int
    decreases x,
{
    if x <= 0 {
        0
    } else if vby[x - 1] {
        x
    } else {
        row_start(vby, x - 1)
    }
}

/// The rightmost column of the segment of a row of a board `w` wide that holds column `x`.
pub open spec fn row_end(vby: Seq<bool>, w: int, x: int) -> int
    decreases w - x,
{
    if x >= w - 1 {
        x
    } else if vby[x] {
        x
    } else {
        row_end(vby, w, x + 1)
    }
}

/// Column `a` of row `y`, between columns `lo` and `hi`, is the air closest to column `x`;
/// of two at the same distance it is the one on the left.
pub open spec fn closest_air_at<P: Piece>(pieces: Seq<Seq<P>>, y: int, x: int, lo: int, hi: int, a: int) -> bool {
    &&& lo <= a <= hi
    &&& a != x
    &&& is_air(pieces[a][y])
    &&& forall|c: int| lo <= c <= hi && 0 < distance(c, x) < distance(a, x) ==> !is_air(#[trigger] pieces[c][y])
    &&& a > x ==> !(x - (a - x) >= lo && is_air(pieces[x - (a - x)][y]))
}

/// The air closest to column `x` in the segment of row `y` that holds it, the left one at equal
/// distance, or `None` when that segment holds no air. The row's vertical barriers are `vby`.
pub open spec fn closest_air<P: Piece>(pieces: Seq<Seq<P>>, vby: Seq<bool>, w: int, x: int, y: int) -> Option<int> {
    let lo = row_start(vby, x);
    let hi = row_end(vby, w, x);
    if exists|a: int| closest_air_at(pieces, y, x, lo, hi, a) {
        Some(choose|a: int| closest_air_at(pieces, y, x, lo, hi, a))
    } else {
        None
    }
}

/// Settling the piece at `pos` on a `w` by `h` board: the pieces afterwards, the position put
/// back in front of the queue, if any, and the swaps made. A piece falls to the lowest air of
/// its column segment when that lies below it. Then, unless it rests on the bottom of its
/// segment, the closest air of the row segment below it (the left one at equal distance) is
/// carried under it by rotating that row, the piece drops into it, and the space the air came
/// from is looked at again. Air is left as it is.
pub open spec fn settle<P: Piece>(b: BoardView<P>, w: int, h: int, pos: (int, int)) -> (
    Seq<Seq<P>>,
    Option<(int, int)>,
    Seq<((int, int), (int, int))>,
) {
    let x = pos.0;
    let y = pos.1;
    let hbx = b.horizontal_barriers[x];
    let lo = segment_start(hbx, h, y);
    if is_air(b.pieces[x][y]) {
        (b.pieces, None, Seq::empty())
    } else {
        let lowest = air_above(b.pieces[x], hbx, h, lo);
        let falls = lowest matches Some(a) && a < y;
        let ny = if falls { lowest->0 } else { y };
        let p1 = if falls { swap_cells(b.pieces, pos, (x, ny)) } else { b.pieces };
        let m1 = if falls { seq![(pos, (x, ny))] } else { Seq::empty() };
        if ny > lo {
            match closest_air(p1, b.vertical_barriers[ny - 1], w, x, ny - 1) {
                Some(ax) => {
                    let rot = rotation_moves(ny - 1, ax, x);
                    (
                        swap_cells(replay(p1, rot), (x, ny - 1), (x, ny)),
                        Some((ax, ny - 1)),
                        m1 + rot + seq![((x, ny), (x, ny - 1))],
                    )
                },
                None => (p1, None, m1),
            }
        } else {
            (p1, None, m1)
        }
    }
}

/// One step of gravity on a board: the first position of the queue is taken off and settled.
/// A state is the pieces, the queue of positions still to look at, and the swaps made so far.
pub open spec fn gravity_next<P: Piece>(
    b: BoardView<P>,
    w: int,
    h: int,
    s: (Seq<Seq<P>>, Seq<(int, int)>, Seq<((int, int), (int, int))>),
) -> (Seq<Seq<P>>, Seq<(int, int)>, Seq<((int, int), (int, int))>) {
    if s.1.len() == 0 {
        s
    } else {
        let r = settle(b.with_pieces(s.0), w, h, s.1[0]);
        let rest = s.1.drop_first();
        (
            r.0,
            match r.1 {
                Some(t) => seq![t] + rest,
                None => rest,
            },
            s.2 + r.2,
        )
    }
}

/// The state of gravity on a `w` by `h` board after `n` steps, starting from every position of
/// the board in the queue, row by row from the bottom up and from left to right in a row.
pub open spec fn gravity_run<P: Piece>(b: BoardView<P>, w: int, h: int, n: nat) -> (
    Seq<Seq<P>>,
    Seq<(int, int)>,
    Seq<((int, int), (int, int))>,
)
    decreases n,
{
    if n == 0 {
        (b.pieces, main_seq(w, h, 0, 0), Seq::empty())
    } else {
        gravity_next(b, w, h, gravity_run(b, w, h, (n - 1) as nat))
    }
}

/// Once its queue is empty, gravity is done: every later state is the same. So the pieces and
/// swaps of a run that empties its queue are fixed by the board alone.
pub proof fn lemma_gravity_run_done<P: Piece>(b: BoardView<P>, w: int, h: int, n: nat, m: nat)
    requires
        gravity_run(b, w, h, n).1.len() == 0,
        n <= m,
    ensures
        gravity_run(b, w, h, m) == gravity_run(b, w, h, n),
    decreases m - n,
{
    if n < m {
        lemma_gravity_run_done(b, w, h, n, (m - 1) as nat);
    }
}

/// A piece at rest with no barrier directly below it stands on a piece: it does not hang over
/// air.
pub proof fn lemma_at_rest_supported<P: Piece>(b: BoardView<P>, w: int, p: (int, int))
    requires
        0 <= p.0 < w,
        0 < p.1,
        at_rest(b, w, p),
        !is_air(b.piece(p)),
        !b.horizontal_barriers[p.0][p.1 - 1],
    ensures
        !is_air(b.piece((p.0, p.1 - 1))),
{
    assert(row_connected(b.vertical_barriers[p.1 - 1], p.0, p.0));
}

/// Every move of a list is a step of gravity on the board as the moves before it left it.
pub open spec fn gravity_steps<P: Piece>(b: BoardView<P>, moves: Seq<((int, int), (int, int))>) -> bool
    decreases moves.len(),
{
    moves.len() == 0 || (gravity_steps(b, moves.drop_last()) && gravity_step(
        b.with_pieces(replay(b.pieces, moves.drop_last())),
        moves.last(),
    ))
}

/// The pairs of positions of a list of moves.
pub open spec fn moves_view<const W: usize, const H: usize>(moves: Seq<(Pos<W, H>, Pos<W, H>)>) -> Seq<
    ((int, int), (int, int)),
> {
    moves.map_values(|m: (Pos<W, H>, Pos<W, H>)| (m.0@, m.1@))
}

/// Whether a piece dropped into column `x` of a board of height `h` would stop at height `y`
/// because the space below is filled or a barrier lies below it.
pub open spec fn blocked_below<P: Piece>(b: BoardView<P>, h: int, x: int, y: int) -> bool {
    !is_air(b.piece((x, y - 1))) || (y < h && b.horizontal_barriers[x][y - 1])
}

/// The pieces of a column that are not air, from the bottom up.
pub open spec fn pieces_of<P: Piece>(s: Seq<P>) -> Seq<P>
    decreases s.len(),
{
    if s.len() == 0 {
        Seq::empty()
    } else if is_air(s.last()) {
        pieces_of(s.drop_last())
    } else {
        pieces_of(s.drop_last()).push(s.last())
    }
}

/// Whether a barrier lies directly above height `y` of a column whose horizontal barriers
/// are `hb`, on a board of height `h`. The topmost row has nothing above it.
pub open spec fn barrier_above(hb: Seq<bool>, h: int, y: int) -> bool {
    y + 1 < h && hb[y]
}

/// The heights `a..=b` of a column form a segment: they are separated from the rest of the
/// column by barriers or the board's edges, and no barrier lies between them.
pub open spec fn column_segment(hb: Seq<bool>, h: int, a: int, b: int) -> bool {
    &&& 0 <= a <= b < h
    &&& (a == 0 || barrier_above(hb, h, a - 1))
    &&& (b == h - 1 || barrier_above(hb, h, b))
    &&& forall|j: int| a <= j < b ==> !#[trigger] barrier_above(hb, h, j)
}

/// In the heights `a..=b`, the column `after` holds the pieces of the column `before` that are
/// not air, in the same order and from the bottom up, and air above them.
pub open spec fn settled<P: Piece>(before: Seq<P>, after: Seq<P>, a: int, b: int) -> bool {
    let fallen = pieces_of(before.subrange(a, b + 1));
    &&& after.subrange(a, a + fallen.len()) == fallen
    &&& forall|i: int| a + fallen.len() <= i <= b ==> is_air(#[trigger] after[i])
}

/// A sequence with the values at two indices exchanged.
pub open spec fn swap_in<T>(s: Seq<T>, a: int, b: int) -> Seq<T> {
    s.update(a, s[b]).update(b, s[a])
}

/// A sequence after exchanging the values of each pair of indices, in order.
pub open spec fn replay_column<T>(s: Seq<T>, moves: Seq<(int, int)>) -> Seq<T>
    decreases moves.len(),
{
    if moves.len() == 0 {
        s
    } else {
        swap_in(replay_column(s, moves.drop_last()), moves.last().0, moves.last().1)
    }
}

/// A step of gravity in a column whose horizontal barriers are `hb`: the piece at height
/// `m.0` falls to the lower height `m.1`, which holds air, with no barrier between them.
pub open spec fn column_step<P: Piece>(col: Seq<P>, hb: Seq<bool>, m: (int, int)) -> bool {
    &&& m.1 < m.0
    &&& !is_air(col[m.0])
    &&& is_air(col[m.1])
    &&& forall|j: int| m.1 <= j < m.0 ==> !#[trigger] hb[j]
}

/// Every move of a list is a step of gravity in the column as the moves before it left it.
pub open spec fn column_steps<P: Piece>(col: Seq<P>, hb: Seq<bool>, moves: Seq<(int, int)>) -> bool
    decreases moves.len(),
{
    moves.len() == 0 || (column_steps(col, hb, moves.drop_last()) && column_step(
        replay_column(col, moves.drop_last()),
        hb,
        moves.last(),
    ))
}

/// The pairs of heights of a list of moves.
pub open spec fn pairs_view(moves: Seq<(usize, usize)>) -> Seq<(int, int)> {
    moves.map_values(|m: (usize, usize)| (m.0 as int, m.1 as int))
}

/// The lowest height of the segment of a column that holds height `y`: the column is cut by
/// its horizontal barriers `hb`, in a board of height `h`.
pub open spec fn segment_start(hb: Seq<bool>, h: int, y: int) -> int
    decreases y,
{
    if y <= 0 {
        0
    } else if barrier_above(hb, h, y - 1) {
        y
    } else {
        segment_start(hb, h, y - 1)
    }
}

/// The height at which the piece at height `y` of column `c` comes to rest under gravity:
/// above the pieces below it in its segment.
pub open spec fn landing<P: Piece>(c: Seq<P>, hb: Seq<bool>, h: int, y: int) -> int {
    let s = segment_start(hb, h, y);
    s + pieces_of(c.subrange(s, y)).len()
}

/// The moves of gravity in column `c`, taken over its heights below `n` from the bottom up:
/// one pair `(y, t)` for each piece at height `y` that comes to rest at a lower height `t`.
pub open spec fn column_moves<P: Piece>(c: Seq<P>, hb: Seq<bool>, h: int, n: int) -> Seq<(int, int)>
    decreases n,
{
    if n <= 0 {
        Seq::empty()
    } else {
        let prev = column_moves(c, hb, h, n - 1);
        let y = n - 1;
        if !is_air(c[y]) && landing(c, hb, h, y) < y {
            prev.push((y, landing(c, hb, h, y)))
        } else {
            prev
        }
    }
}

proof fn lemma_pieces_of_len<P: Piece>(s: Seq<P>)
    ensures
        pieces_of(s).len() <= s.len(),
    decreases s.len(),
{
    if s.len() > 0 {
        lemma_pieces_of_len(s.drop_last());
    }
}

proof fn lemma_pieces_of_push<P: Piece>(s: Seq<P>, v: P)
    ensures
        pieces_of(s.push(v)) == if is_air(v) {
            pieces_of(s)
        } else {
            pieces_of(s).push(v)
        },
{
    assert(s.push(v).drop_last() =~= s);
}

proof fn lemma_replay_column_push<T>(s: Seq<T>, moves: Seq<(usize, usize)>, m: (usize, usize))
    ensures
        pairs_view(moves.push(m)) == pairs_view(moves).push((m.0 as int, m.1 as int)),
        replay_column(s, pairs_view(moves.push(m))) == swap_in(
            replay_column(s, pairs_view(moves)),
            m.0 as int,
            m.1 as int,
        ),
{
    assert(pairs_view(moves.push(m)) =~= pairs_view(moves).push((m.0 as int, m.1 as int)));
    assert(pairs_view(moves.push(m)).drop_last() =~= pairs_view(moves));
}

proof fn lemma_settled_frame<P: Piece>(
    c0: Seq<P>,
    cur: Seq<P>,
    new: Seq<P>,
    a: int,
    b: int,
    s: int,
)
    requires
        settled(c0, cur, a, b),
        0 <= a <= b < s,
        b < c0.len(),
        cur.len() == new.len(),
        s <= cur.len(),
        forall|i: int| 0 <= i < s ==> new[i] == cur[i],
    ensures
        settled(c0, new, a, b),
{
    let fallen = pieces_of(c0.subrange(a, b + 1));
    lemma_pieces_of_len(c0.subrange(a, b + 1));
    assert(new.subrange(a, a + fallen.len()) =~= cur.subrange(a, a + fallen.len()));
    assert forall|i: int| a + fallen.len() <= i <= b implies is_air(#[trigger] new[i]) by {
        assert(new[i] == cur[i]);
    }
}

proof fn lemma_swap_same_column<P>(pieces: Seq<Seq<P>>, x: int, a: int, b: int)
    requires
        0 <= x < pieces.len(),
        0 <= a < pieces[x].len(),
        0 <= b < pieces[x].len(),
    ensures
        swap_cells(pieces, (x, a), (x, b)) == pieces.update(x, swap_in(pieces[x], a, b)),
{
    assert(swap_cells(pieces, (x, a), (x, b))[x] =~= swap_in(pieces[x], a, b));
    assert(swap_cells(pieces, (x, a), (x, b)) =~= pieces.update(x, swap_in(pieces[x], a, b)));
}

impl<P> BoardView<P> {
    /// Whether a position indexes a space of the grid of pieces.
    pub open spec fn in_grid(self, p: (int, int)) -> bool {
        0 <= p.0 < self.pieces.len() && 0 <= p.1 < self.pieces[p.0].len()
    }

    /// The grids have the dimensions of a `w` by `h` board.
    pub open spec fn shaped(self, w: int, h: int) -> bool {
        &&& self.pieces.len() == w
        &&& forall|x: int| 0 <= x < w ==> #[trigger] self.pieces[x].len() == h
        &&& self.horizontal_barriers.len() == w
        &&& forall|x: int| 0 <= x < w ==> #[trigger] self.horizontal_barriers[x].len() == h
        &&& self.vertical_barriers.len() == h
        &&& forall|y: int| 0 <= y < h ==> #[trigger] self.vertical_barriers[y].len() == w
    }

    /// The piece at a position.
    pub open spec fn piece(self, p: (int, int)) -> P {
        cell(self.pieces, p)
    }

    /// Whether there is a barrier between two positions. Only positions that are directly
    /// adjacent vertically or horizontally can have a barrier between them.
    pub open spec fn barrier(self, a: (int, int), b: (int, int)) -> bool {
        if vertically_adjacent(a, b) {
            self.horizontal_barriers[a.0][min(a.1, b.1)]
        } else if horizontally_adjacent(a, b) {
            self.vertical_barriers[a.1][min(a.0, b.0)]
        } else {
            false
        }
    }

    /// The board with other pieces and the same barriers.
    pub open spec fn with_pieces(self, pieces: Seq<Seq<P>>) -> BoardView<P> {
        BoardView {
            pieces,
            horizontal_barriers: self.horizontal_barriers,
            vertical_barriers: self.vertical_barriers,
        }
    }

    /// The same barriers.
    pub open spec fn same_barriers(self, other: BoardView<P>) -> bool {
        &&& self.horizontal_barriers == other.horizontal_barriers
        &&& self.vertical_barriers == other.vertical_barriers
    }
}

/// The grid of pieces of a `W` by `H` board.
pub open spec fn grid_shaped<P>(pieces: Seq<Seq<P>>, w: int, h: int) -> bool {
    &&& pieces.len() == w
    &&& forall|x: int| 0 <= x < w ==> #[trigger] pieces[x].len() == h
}

/// Whether a position lies on a `w` by `h` board.
pub open spec fn on_grid(p: (int, int), w: int, h: int) -> bool {
    0 <= p.0 < w && 0 <= p.1 < h
}

/// Two grids of the same dimensions with the same piece at every position are equal.
proof fn lemma_grid_ext<P>(g1: Seq<Seq<P>>, g2: Seq<Seq<P>>, w: int, h: int)
    requires
        grid_shaped(g1, w, h),
        grid_shaped(g2, w, h),
        forall|q: (int, int)| on_grid(q, w, h) ==> #[trigger] cell(g1, q) == cell(g2, q),
    ensures
        g1 == g2,
{
    assert forall|x: int| 0 <= x < w implies #[trigger] g1[x] == g2[x] by {
        assert forall|y: int| 0 <= y < h implies g1[x][y] == g2[x][y] by {
            assert(cell(g1, (x, y)) == cell(g2, (x, y)));
        }
        assert(g1[x] =~= g2[x]);
    }
    assert(g1 =~= g2);
}

/// Reading a position after its piece was replaced gives the new piece, every other position
/// keeps its piece, and the grid keeps its dimensions.
pub proof fn lemma_set_then_get<P>(pieces: Seq<Seq<P>>, w: int, h: int, p: (int, int), v: P)
    requires
        grid_shaped(pieces, w, h),
        on_grid(p, w, h),
    ensures
        grid_shaped(set_cell(pieces, p, v), w, h),
        forall|q: (int, int)|
            on_grid(q, w, h) ==> #[trigger] cell(set_cell(pieces, p, v), q) == if q == p {
                v
            } else {
                cell(pieces, q)
            },
{
    let s = set_cell(pieces, p, v);
    assert forall|x: int| 0 <= x < w implies #[trigger] s[x].len() == h by {
        assert(pieces[x].len() == h);
        assert(pieces[p.0].len() == h);
    }
    assert forall|q: (int, int)| on_grid(q, w, h) implies #[trigger] cell(s, q) == if q == p {
        v
    } else {
        cell(pieces, q)
    } by {
        assert(pieces[q.0].len() == h);
        assert(pieces[p.0].len() == h);
    }
}

/// After two positions are swapped, each of them holds the other's piece, every other
/// position keeps its piece, and the grid keeps its dimensions.
pub proof fn lemma_swap_then_get<P>(pieces: Seq<Seq<P>>, w: int, h: int, p: (int, int), q: (int, int))
    requires
        grid_shaped(pieces, w, h),
        on_grid(p, w, h),
        on_grid(q, w, h),
    ensures
        grid_shaped(swap_cells(pieces, p, q), w, h),
        forall|r: (int, int)|
            on_grid(r, w, h) ==> #[trigger] cell(swap_cells(pieces, p, q), r) == if r == q {
                cell(pieces, p)
            } else if r == p {
                cell(pieces, q)
            } else {
                cell(pieces, r)
            },
{
    let mid = set_cell(pieces, p, cell(pieces, q));
    lemma_set_then_get(pieces, w, h, p, cell(pieces, q));
    lemma_set_then_get(mid, w, h, q, cell(pieces, p));
}

/// Swapping two positions gives the same grid whichever of them is named first.
pub proof fn lemma_swap_order<P>(pieces: Seq<Seq<P>>, w: int, h: int, p: (int, int), q: (int, int))
    requires
        grid_shaped(pieces, w, h),
        on_grid(p, w, h),
        on_grid(q, w, h),
    ensures
        swap_cells(pieces, p, q) == swap_cells(pieces, q, p),
{
    lemma_swap_then_get(pieces, w, h, p, q);
    lemma_swap_then_get(pieces, w, h, q, p);
    lemma_grid_ext(swap_cells(pieces, p, q), swap_cells(pieces, q, p), w, h);
}

/// The pieces of a grid, each counted as often as it occurs.
pub open spec fn grid_pieces<P>(pieces: Seq<Seq<P>>) -> Multiset<P>
    decreases pieces.len(),
{
    if pieces.len() == 0 {
        Multiset::empty()
    } else {
        grid_pieces(pieces.drop_last()).add(pieces.last().to_multiset())
    }
}

proof fn lemma_set_cell_pieces<P>(pieces: Seq<Seq<P>>, a: (int, int), v: P)
    requires
        0 <= a.0 < pieces.len(),
        0 <= a.1 < pieces[a.0].len(),
    ensures
        grid_pieces(pieces).count(cell(pieces, a)) > 0,
        grid_pieces(set_cell(pieces, a, v)) == grid_pieces(pieces).insert(v).remove(cell(pieces, a)),
    decreases pieces.len(),
{
    broadcast use vstd::multiset::group_multiset_axioms, vstd::multiset::group_multiset_properties;
    broadcast use vstd::seq_lib::to_multiset_update, vstd::seq_lib::to_multiset_contains;

    let q = set_cell(pieces, a, v);
    let x = cell(pieces, a);
    let n = pieces.len() - 1;
    if a.0 == n {
        assert(q.drop_last() =~= pieces.drop_last());
        assert(q.last() == pieces.last().update(a.1, v));
        assert(pieces.last().contains(x));
        assert(pieces.last().to_multiset().count(x) > 0);
        assert(grid_pieces(q) =~= grid_pieces(pieces).insert(v).remove(x));
    } else {
        assert(q.drop_last() =~= set_cell(pieces.drop_last(), a, v));
        assert(q.last() == pieces.last());
        lemma_set_cell_pieces(pieces.drop_last(), a, v);
        assert(cell(pieces.drop_last(), a) == x);
        assert(grid_pieces(q) =~= grid_pieces(pieces).insert(v).remove(x));
    }
}

/// Exchanging the pieces of two spaces of a grid keeps its pieces.
pub proof fn lemma_swap_keeps_pieces<P>(pieces: Seq<Seq<P>>, a: (int, int), b: (int, int))
    requires
        0 <= a.0 < pieces.len(),
        0 <= a.1 < pieces[a.0].len(),
        0 <= b.0 < pieces.len(),
        0 <= b.1 < pieces[b.0].len(),
    ensures
        grid_pieces(swap_cells(pieces, a, b)) == grid_pieces(pieces),
{
    broadcast use vstd::multiset::group_multiset_axioms, vstd::multiset::group_multiset_properties;

    let pa = cell(pieces, a);
    let pb = cell(pieces, b);
    let q = set_cell(pieces, a, pb);
    lemma_set_cell_pieces(pieces, a, pb);
    assert(cell(q, b) == pb);
    lemma_set_cell_pieces(q, b, pa);
    assert(grid_pieces(swap_cells(pieces, a, b)) =~= grid_pieces(pieces));
}

/// Gravity keeps the pieces of a board: a list of gravity steps, replayed on the board, leaves
/// each piece value on it as often as before.
pub proof fn lemma_gravity_keeps_pieces<P: Piece>(b: BoardView<P>, moves: Seq<((int, int), (int, int))>)
    requires
        gravity_steps(b, moves),
    ensures
        grid_pieces(replay(b.pieces, moves)) == grid_pieces(b.pieces),
    decreases moves.len(),
{
    if moves.len() > 0 {
        lemma_gravity_keeps_pieces(b, moves.drop_last());
        let m = moves.last();
        lemma_swap_keeps_pieces(replay(b.pieces, moves.drop_last()), m.0, m.1);
    }
}

/// Swapping the same two positions twice gives back the grid.
pub proof fn lemma_swap_twice<P>(pieces: Seq<Seq<P>>, w: int, h: int, p: (int, int), q: (int, int))
    requires
        grid_shaped(pieces, w, h),
        on_grid(p, w, h),
        on_grid(q, w, h),
    ensures
        swap_cells(swap_cells(pieces, p, q), p, q) == pieces,
{
    let once = swap_cells(pieces, p, q);
    lemma_swap_then_get(pieces, w, h, p, q);
    lemma_swap_then_get(once, w, h, p, q);
    lemma_grid_ext(swap_cells(once, p, q), pieces, w, h);
}

/// Whether there is a barrier between two positions does not depend on their order.
pub proof fn lemma_barrier_symmetric<P>(b: BoardView<P>, p: (int, int), q: (int, int))
    ensures
        b.barrier(p, q) == b.barrier(q, p),
{
}

/// Contains zero or many pieces and represents the current state
/// of the game.
///
/// Positions with larger y values are higher on the board. Positions
/// with larger x values are further right on the board. Positions start
/// at (0, 0), so a position at (16, 16) would be outside a 16x16 board
/// horizontally and vertically.
///
/// The board's lack of default restrictions allows games to implement
/// their own unique or non-standard rules.
#[derive(Eq, PartialEq, Ord, PartialOrd, Hash, Debug)]
pub struct BoardState<P, const W: usize, const H: usize> {
    pieces: Vec<Vec<P>>,
    horizontal_barriers: Vec<Vec<bool>>,
    vertical_barriers: Vec<Vec<bool>>,
}

impl<P, const W: usize, const H: usize> View for BoardState<P, W, H> {
    type V = BoardView<P>;

    closed spec fn view(&self) -> BoardView<P> {
        BoardView {
            pieces: self.pieces@.map_values(|c: Vec<P>| c@),
            horizontal_barriers: self.horizontal_barriers@.map_values(|c: Vec<bool>| c@),
            vertical_barriers: self.vertical_barriers@.map_values(|r: Vec<bool>| r@),
        }
    }
}

/// A vector of `n` copies of a value.
fn filled<T: Copy>(v: T, n: usize) -> (r: Vec<T>)
    ensures
        r@ == Seq::new(n as nat, |i: int| v),
{
    let mut r: Vec<T> = Vec::new();
    let mut i: usize = 0;
    while i < n
        invariant
            i <= n,
            r@ == Seq::new(i as nat, |k: int| v),
        decreases n - i,
    {
        r.push(v);
        i = i + 1;
        assert(r@ =~= Seq::new(i as nat, |k: int| v));
    }
    r
}

/// A copy of a grid of values.
fn copy_grid<T: Copy>(grid: &Vec<Vec<T>>) -> (r: Vec<Vec<T>>)
    ensures
        r@.map_values(|c: Vec<T>| c@) == grid@.map_values(|c: Vec<T>| c@),
        r@.len() == grid@.len(),
        forall|k: int| 0 <= k < grid@.len() ==> #[trigger] r@[k]@ == grid@[k]@,
{
    let mut r: Vec<Vec<T>> = Vec::new();
    let mut i: usize = 0;
    while i < grid.len()
        invariant
            i <= grid.len(),
            r@.len() == i,
            forall|k: int| 0 <= k < i ==> #[trigger] r@[k]@ == grid@[k]@,
        decreases grid.len() - i,
    {
        let mut c: Vec<T> = Vec::new();
        let mut j: usize = 0;
        while j < grid[i].len()
            invariant
                i < grid.len(),
                j <= grid[i as int].len(),
                c@ == grid[i as int]@.subrange(0, j as int),
            decreases grid[i as int].len() - j,
        {
            c.push(grid[i][j]);
            j = j + 1;
            assert(c@ =~= grid[i as int]@.subrange(0, j as int));
        }
        assert(c@ =~= grid[i as int]@);
        r.push(c);
        i = i + 1;
    }
    assert(r@.map_values(|c: Vec<T>| c@) =~= grid@.map_values(|c: Vec<T>| c@));
    r
}

impl<P: Copy, const W: usize, const H: usize> Clone for BoardState<P, W, H> {
    /// Copies the board: the copy holds the same pieces and barriers.
    fn clone(&self) -> (res: Self)
        ensures
            res@ == self@,
    {
        proof {
            use_type_invariant(self);
        }
        BoardState {
            pieces: copy_grid(&self.pieces),
            horizontal_barriers: copy_grid(&self.horizontal_barriers),
            vertical_barriers: copy_grid(&self.vertical_barriers),
        }
    }
}

impl<P, const W: usize, const H: usize> BoardState<P, W, H> {
    /// The grids have the board's dimensions.
    #[verifier::type_invariant]
    pub closed spec fn inv(self) -> bool {
        &&& self.pieces@.len() == W
        &&& forall|x: int| 0 <= x < W ==> #[trigger] self.pieces@[x]@.len() == H
        &&& self.horizontal_barriers@.len() == W
        &&& forall|x: int| 0 <= x < W ==> #[trigger] self.horizontal_barriers@[x]@.len() == H
        &&& self.vertical_barriers@.len() == H
        &&& forall|y: int| 0 <= y < H ==> #[trigger] self.vertical_barriers@[y]@.len() == W
    }

    /// A board that keeps its invariant has the grids of a `W` by `H` board.
    pub proof fn lemma_shaped(self)
        requires
            self.inv(),
        ensures
            self@.shaped(W as int, H as int),
    {
        assert forall|x: int| 0 <= x < W implies #[trigger] self@.pieces[x].len() == H by {
            assert(self@.pieces[x] == self.pieces@[x]@);
        }
        assert forall|x: int| 0 <= x < W implies #[trigger] self@.horizontal_barriers[x].len()
            == H by {
            assert(self@.horizontal_barriers[x] == self.horizontal_barriers@[x]@);
        }
        assert forall|y: int| 0 <= y < H implies #[trigger] self@.vertical_barriers[y].len()
            == W by {
            assert(self@.vertical_barriers[y] == self.vertical_barriers@[y]@);
        }
    }
}

impl<P: Piece, const W: usize, const H: usize> BoardState<P, W, H> {
    /// Creates a new board filled with default pieces (according to the [Default] trait)
    /// and without barriers.
    pub fn new() -> (board: BoardState<P, W, H>)
        ensures
            board@.shaped(W as int, H as int),
            exists|d: P|
                call_ensures(P::default, (), d) && forall|x: int, y: int|
                    0 <= x < W && 0 <= y < H ==> #[trigger] board@.pieces[x][y] == d,
            forall|x: int, y: int|
                0 <= x < W && 0 <= y < H ==> !#[trigger] board@.horizontal_barriers[x][y],
            forall|x: int, y: int|
                0 <= x < W && 0 <= y < H ==> !#[trigger] board@.vertical_barriers[y][x],
    {
        let d = P::default();
        let mut pieces: Vec<Vec<P>> = Vec::new();
        let mut horizontal_barriers: Vec<Vec<bool>> = Vec::new();
        let mut i: usize = 0;
        while i < W
            invariant
                i <= W,
                pieces@.len() == i,
                horizontal_barriers@.len() == i,
                forall|k: int| 0 <= k < i ==> #[trigger] pieces@[k]@ == Seq::new(H as nat, |j: int| d),
                forall|k: int|
                    0 <= k < i ==> #[trigger] horizontal_barriers@[k]@ == Seq::new(
                        H as nat,
                        |j: int| false,
                    ),
            decreases W - i,
        {
            pieces.push(filled(d, H));
            horizontal_barriers.push(filled(false, H));
            i = i + 1;
        }
        let mut vertical_barriers: Vec<Vec<bool>> = Vec::new();
        let mut j: usize = 0;
        while j < H
            invariant
                j <= H,
                vertical_barriers@.len() == j,
                forall|k: int|
                    0 <= k < j ==> #[trigger] vertical_barriers@[k]@ == Seq::new(
                        W as nat,
                        |i: int| false,
                    ),
            decreases H - j,
        {
            vertical_barriers.push(filled(false, W));
            j = j + 1;
        }
        let board = BoardState { pieces, horizontal_barriers, vertical_barriers };
        assert(forall|x: int, y: int|
            0 <= x < W && 0 <= y < H ==> #[trigger] board@.pieces[x][y] == d);
        board
    }
}

/// Replaces the value at `grid[i][j]`.
fn set_in_grid<T>(grid: &mut Vec<Vec<T>>, i: usize, j: usize, v: T)
    requires
        i < old(grid)@.len(),
        j < old(grid)@[i as int]@.len(),
    ensures
        final(grid)@.len() == old(grid)@.len(),
        final(grid)@[i as int]@ == old(grid)@[i as int]@.update(j as int, v),
        forall|k: int| 0 <= k < old(grid)@.len() && k != i ==> final(grid)@[k] == old(grid)@[k],
        final(grid)@.map_values(|c: Vec<T>| c@) == old(grid)@.map_values(|c: Vec<T>| c@).update(
            i as int,
            old(grid)@[i as int]@.update(j as int, v),
        ),
    no_unwind
{
    grid[i][j] = v;
    assert(final(grid)@.map_values(|c: Vec<T>| c@) =~= old(grid)@.map_values(|c: Vec<T>| c@).update(
        i as int,
        old(grid)@[i as int]@.update(j as int, v),
    ));
}

/// The distance between two numbers.
fn abs_diff(a: usize, b: usize) -> (d: usize)
    ensures
        d == if a >= b { a - b } else { b - a },
{
    if a >= b { a - b } else { b - a }
}

/// The smaller of two numbers.
fn min_usize(a: usize, b: usize) -> (m: usize)
    ensures
        m == min(a as int, b as int),
{
    if a <= b { a } else { b }
}

impl<P: Piece, const W: usize, const H: usize> BoardState<P, W, H> {
    /// Gets the piece at a certain position.
    pub fn piece(&self, pos: Pos<W, H>) -> (p: P)
        requires
            pos.in_bounds(),
        ensures
            p == self@.piece(pos@),
    {
        proof {
            use_type_invariant(self);
            self.lemma_shaped();
        }
        self.pieces[pos.x()][pos.y()]
    }

    /// Replaces a piece at the given position and returns the previous piece.
    pub fn set_piece(&mut self, pos: Pos<W, H>, piece: P) -> (old_piece: P)
        requires
            pos.in_bounds(),
        ensures
            old_piece == old(self)@.piece(pos@),
            final(self)@.pieces == set_cell(old(self)@.pieces, pos@, piece),
            final(self)@.same_barriers(old(self)@),
            final(self)@.shaped(W as int, H as int),
    {
        proof {
            use_type_invariant(&*self);
            self.lemma_shaped();
        }
        let x = pos.x();
        let y = pos.y();
        let old_piece = self.pieces[x][y];
        set_in_grid(&mut self.pieces, x, y, piece);
        proof {
            assert(self@.pieces =~= set_cell(old(self)@.pieces, pos@, piece));
            use_type_invariant(&*self);
            self.lemma_shaped();
        }
        old_piece
    }

    /// Swap two pieces on the board. The order of two positions provided does not matter.
    pub fn swap(&mut self, first: Pos<W, H>, second: Pos<W, H>)
        requires
            first.in_bounds(),
            second.in_bounds(),
        ensures
            final(self)@.pieces == swap_cells(old(self)@.pieces, first@, second@),
            final(self)@.same_barriers(old(self)@),
            final(self)@.shaped(W as int, H as int),
    {
        let second_piece = self.piece(second);
        let old_first = self.set_piece(first, second_piece);
        self.set_piece(second, old_first);
    }

    /// Finds the y position of a space with air that represents the "surface" of the given
    /// column. The surface is the position where a piece would be if it was dropped into the
    /// column from the top of the board.
    ///
    /// If the entire column is filled with air and has no barriers, and the board has height
    /// greater than zero, the surface is the bottommost position in the column (y = 0).
    /// Otherwise, the surface is immediately above the topmost piece or barrier, whichever is
    /// higher. If there is no space above the topmost piece, there is no surface.
    pub fn surface(&self, col: Col<W>) -> (surface: Option<usize>)
        requires
            col.x < W,
            P::obeys_eq_spec(),
        ensures
            surface is None <==> (H == 0 || blocked_below(self@, H as int, col.x as int, H as int)),
            surface matches Some(s) ==> {
                &&& s < H
                &&& (s == 0 || blocked_below(self@, H as int, col.x as int, s as int))
                &&& forall|y: int|
                    s < y <= H ==> !#[trigger] blocked_below(self@, H as int, col.x as int, y)
            },
    {
        proof {
            use_type_invariant(self);
            self.lemma_shaped();
        }
        let x = col.x;
        let mut y: usize = H;
        while y >= 1
            invariant
                y <= H,
                x == col.x,
                x < W,
                P::obeys_eq_spec(),
                self@.shaped(W as int, H as int),
                forall|k: int| y < k <= H ==> !#[trigger] blocked_below(self@, H as int, x as int, k),
            decreases y,
        {
            proof {
                use_type_invariant(self);
                assert(self@.pieces[x as int] == self.pieces@[x as int]@);
            }
            let is_pos_below_filled = self.pieces[x][y - 1] != P::AIR;
            let has_barrier_below = match Pos::<W, H>::try_new(x, y) {
                Ok(p) => self.has_barrier_between(p, Pos::new(x, y - 1)),
                Err(_) => false,
            };
            assert(is_pos_below_filled || has_barrier_below <==> blocked_below(
                self@,
                H as int,
                x as int,
                y as int,
            ));
            if is_pos_below_filled || has_barrier_below {
                return if y == H {
                    None
                } else {
                    Some(y)
                };
            }
            y = y - 1;
        }
        if H == 0 {
            None
        } else {
            Some(0)
        }
    }

    /// Moves all pieces in the given column as if they were falling due to gravity. The bottom
    /// of the board, horizontal barriers, and other pieces will block the fall of pieces in the
    /// given column. This method returns (before, after) pairs of y-coordinates that describe
    /// how the pieces were moved: exchanging the pieces at each pair of heights, in order,
    /// turns the column before the call into the column after it.
    pub fn apply_gravity_to_column(&mut self, col: Col<W>) -> (moves: Vec<(usize, usize)>)
        requires
            col.x < W,
            P::obeys_eq_spec(),
        ensures
            final(self)@.same_barriers(old(self)@),
            final(self)@.shaped(W as int, H as int),
            forall|x: int|
                0 <= x < W && x != col.x ==> #[trigger] final(self)@.pieces[x] == old(
                    self,
                )@.pieces[x],
            final(self)@.pieces[col.x as int] == replay_column(
                old(self)@.pieces[col.x as int],
                pairs_view(moves@),
            ),
            pairs_view(moves@) == column_moves(
                old(self)@.pieces[col.x as int],
                old(self)@.horizontal_barriers[col.x as int],
                H as int,
                H as int,
            ),
            column_steps(
                old(self)@.pieces[col.x as int],
                old(self)@.horizontal_barriers[col.x as int],
                pairs_view(moves@),
            ),
            forall|a: int, b: int|
                column_segment(old(self)@.horizontal_barriers[col.x as int], H as int, a, b)
                    ==> #[trigger] settled(
                    old(self)@.pieces[col.x as int],
                    final(self)@.pieces[col.x as int],
                    a,
                    b,
                ),
    {
        proof {
            use_type_invariant(&*self);
            self.lemma_shaped();
        }
        let x = col.x;
        let ghost c0 = old(self)@.pieces[x as int];
        let ghost hb = old(self)@.horizontal_barriers[x as int];
        let mut air_ys: VecDeque<usize> = VecDeque::new();
        let mut moves: Vec<(usize, usize)> = Vec::new();
        assert(pairs_view(moves@) =~= Seq::<(int, int)>::empty());
        assert(pairs_view(moves@) =~= column_moves(c0, hb, H as int, 0));
        if H == 0 {
            return moves;
        }
        let ghost mut s: int = 0;
        let ghost mut k: int = 0;
        let mut y: usize = 0;
        while y < H
            invariant
                x == col.x,
                x < W,
                H >= 1,
                P::obeys_eq_spec(),
                self@.shaped(W as int, H as int),
                self@.same_barriers(old(self)@),
                c0 == old(self)@.pieces[x as int],
                hb == old(self)@.horizontal_barriers[x as int],
                c0.len() == H,
                hb.len() == H,
                forall|x2: int|
                    0 <= x2 < W && x2 != x ==> #[trigger] self@.pieces[x2] == old(self)@.pieces[x2],
                self@.pieces[x as int] == replay_column(c0, pairs_view(moves@)),
                column_steps(c0, hb, pairs_view(moves@)),
                pairs_view(moves@) == column_moves(c0, hb, H as int, y as int),
                s == segment_start(hb, H as int, y as int),
                0 <= s <= y <= H,
                0 <= k,
                s + k <= y,
                s < H,
                air_ys@ == Seq::new((y - s - k) as nat, |i: int| (s + k + i) as usize),
                forall|i: int| y <= i < H ==> #[trigger] self@.pieces[x as int][i] == c0[i],
                self@.pieces[x as int].subrange(s, s + k) == pieces_of(c0.subrange(s, y as int)),
                forall|i: int| s + k <= i < y ==> is_air(#[trigger] self@.pieces[x as int][i]),
                s == 0 || barrier_above(hb, H as int, s - 1),
                forall|j: int| s <= j < y ==> !#[trigger] barrier_above(hb, H as int, j),
                forall|a: int, b: int|
                    column_segment(hb, H as int, a, b) && b < s ==> #[trigger] settled(
                        c0,
                        self@.pieces[x as int],
                        a,
                        b,
                    ),
            decreases H - y,
        {
            proof {
                use_type_invariant(&*self);
            }
            let ghost before = self@.pieces[x as int];
            let ghost old_pieces = self@.pieces;
            let ghost old_moves = moves@;
            let pos = Pos::new(x, y);
            assert(self@.pieces[x as int] == self.pieces@[x as int]@);
            if self.pieces[x][y] == P::AIR {
                air_ys.push_back(y);
                proof {
                    assert(air_ys@ =~= Seq::new((y + 1 - s - k) as nat, |i: int| (s + k + i) as usize));
                    assert(c0.subrange(s, y + 1) =~= c0.subrange(s, y as int).push(c0[y as int]));
                    lemma_pieces_of_push(c0.subrange(s, y as int), c0[y as int]);
                    assert(is_air(c0[y as int]));
                    assert(pairs_view(moves@) == column_moves(c0, hb, H as int, y + 1));
                }
            } else if let Some(air_y) = air_ys.pop_front() {
                self.swap(pos, Pos::new(x, air_y));
                moves.push((y, air_y));
                air_ys.push_back(y);
                proof {
                    assert(air_y == s + k);
                    assert(!is_air(before[y as int]));
                    assert(is_air(before[air_y as int]));
                    assert forall|j: int| air_y <= j < y implies !#[trigger] hb[j] by {
                        assert(!barrier_above(hb, H as int, j));
                    }
                    assert(column_step(before, hb, (y as int, air_y as int)));
                    lemma_swap_same_column(old_pieces, x as int, y as int, air_y as int);
                    lemma_replay_column_push(c0, old_moves, (y, air_y));
                    assert(pairs_view(moves@).drop_last() =~= pairs_view(old_moves));
                    assert(c0.subrange(s, y + 1) =~= c0.subrange(s, y as int).push(c0[y as int]));
                    lemma_pieces_of_push(c0.subrange(s, y as int), c0[y as int]);
                    assert(self@.pieces[x as int].subrange(s, s + k + 1) =~= before.subrange(
                        s,
                        s + k,
                    ).push(c0[y as int]));
                    assert forall|a: int, b: int|
                        column_segment(hb, H as int, a, b) && b < s implies #[trigger] settled(
                        c0,
                        self@.pieces[x as int],
                        a,
                        b,
                    ) by {
                        lemma_settled_frame(c0, before, self@.pieces[x as int], a, b, s);
                    }
                    assert(before.subrange(s, s + k).len() == k);
                    assert(landing(c0, hb, H as int, y as int) == s + k);
                    assert(pairs_view(moves@) =~= pairs_view(old_moves).push((y as int, air_y as int)));
                    assert(pairs_view(moves@) == column_moves(c0, hb, H as int, y + 1));
                    k = k + 1;
                    assert(air_ys@ =~= Seq::new((y + 1 - s - k) as nat, |i: int| (s + k + i) as usize));
                }
            } else {
                proof {
                    assert(c0.subrange(s, y + 1) =~= c0.subrange(s, y as int).push(c0[y as int]));
                    lemma_pieces_of_push(c0.subrange(s, y as int), c0[y as int]);
                    assert(self@.pieces[x as int].subrange(s, s + k + 1) =~= self@.pieces[x as int].subrange(s, s + k).push(c0[y as int]));
                    assert(self@.pieces[x as int].subrange(s, s + k).len() == k);
                    assert(y - s - k == 0);
                    assert(landing(c0, hb, H as int, y as int) == s + k);
                    assert(pairs_view(moves@) == column_moves(c0, hb, H as int, y + 1));
                    k = k + 1;
                }
            }
            let has_barrier_above = if y + 1 < H {
                self.has_barrier_between(pos, Pos::new(x, y + 1))
            } else {
                false
            };
            assert(has_barrier_above == barrier_above(hb, H as int, y as int));
            if has_barrier_above {
                air_ys.clear();
                proof {
                    let cur = self@.pieces[x as int];
                    assert(column_segment(hb, H as int, s, y as int));
                    assert(settled(c0, cur, s, y as int));
                    assert forall|a: int, b: int|
                        column_segment(hb, H as int, a, b) && b < y + 1 implies #[trigger] settled(
                        c0,
                        cur,
                        a,
                        b,
                    ) by {
                        if b >= s {
                            if b < y {
                                assert(barrier_above(hb, H as int, b));
                            }
                            if a > s {
                                assert(barrier_above(hb, H as int, a - 1));
                            }
                            if a < s {
                                assert(barrier_above(hb, H as int, s - 1));
                            }
                        }
                    }
                    s = y + 1;
                    k = 0;
                    assert(s == segment_start(hb, H as int, y + 1));
                    assert(air_ys@ =~= Seq::new((y + 1 - s - k) as nat, |i: int| (s + k + i) as usize));
                    assert(cur.subrange(s, s + k) =~= pieces_of(c0.subrange(s, y + 1)));
                }
            }
            y = y + 1;
        }
        proof {
            let cur = self@.pieces[x as int];
            assert(settled(c0, cur, s, H - 1)) by {
                assert(c0.subrange(s, H as int) == c0.subrange(s, (H - 1) + 1));
            }
            assert forall|a: int, b: int|
                column_segment(hb, H as int, a, b) implies #[trigger] settled(c0, cur, a, b) by {
                if b >= s {
                    if b < H - 1 {
                        assert(barrier_above(hb, H as int, b));
                    }
                    if a > s {
                        assert(barrier_above(hb, H as int, a - 1));
                    }
                    if a < s {
                        assert(barrier_above(hb, H as int, s - 1));
                    }
                }
            }
        }
        moves
    }

    /// Checks whether there is a barrier between two positions.
    pub fn has_barrier_between(&self, first: Pos<W, H>, second: Pos<W, H>) -> (b: bool)
        requires
            first.in_bounds(),
            second.in_bounds(),
        ensures
            b == self@.barrier(first@, second@),
    {
        proof {
            use_type_invariant(self);
        }
        if Self::vertically_adjacent(first, second) {
            let x = first.x();
            let barrier_index = Self::horizontal_barrier_index(first, second);
            return self.horizontal_barriers[x][barrier_index];
        } else if Self::horizontally_adjacent(first, second) {
            let y = first.y();
            let barrier_index = Self::vertical_barrier_index(first, second);
            return self.vertical_barriers[y][barrier_index];
        }
        false
    }

    /// Sets whether there is a barrier between two positions. The positions must be directly
    /// adjacent in the vertical or the horizontal direction. There cannot be barriers between
    /// diagonally adjacent positions.
    pub fn set_barrier_between(&mut self, first: Pos<W, H>, second: Pos<W, H>, has_barrier: bool) -> (res:
        Result<(), BoardError<W, H>>)
        requires
            first.in_bounds(),
            second.in_bounds(),
        ensures
            final(self)@.pieces == old(self)@.pieces,
            vertically_adjacent(first@, second@) ==> {
                &&& res is Ok
                &&& final(self)@.horizontal_barriers == old(self)@.horizontal_barriers.update(
                    first@.0,
                    old(self)@.horizontal_barriers[first@.0].update(
                        min(first@.1, second@.1),
                        has_barrier,
                    ),
                )
                &&& final(self)@.vertical_barriers == old(self)@.vertical_barriers
            },
            horizontally_adjacent(first@, second@) ==> {
                &&& res is Ok
                &&& final(self)@.vertical_barriers == old(self)@.vertical_barriers.update(
                    first@.1,
                    old(self)@.vertical_barriers[first@.1].update(
                        min(first@.0, second@.0),
                        has_barrier,
                    ),
                )
                &&& final(self)@.horizontal_barriers == old(self)@.horizontal_barriers
            },
            !vertically_adjacent(first@, second@) && !horizontally_adjacent(first@, second@) ==> {
                &&& res == Err::<(), BoardError<W, H>>(BoardError::NonAdjacent(first, second))
                &&& final(self)@ == old(self)@
            },
            res is Ok ==> final(self)@.barrier(first@, second@) == has_barrier,
            forall|a: (int, int), c: (int, int)|
                on_grid(a, W as int, H as int) && on_grid(c, W as int, H as int) && !(a == first@ && c
                    == second@) && !(a == second@ && c == first@) ==> #[trigger] final(self)@.barrier(a, c)
                    == old(self)@.barrier(a, c),
    {
        proof {
            use_type_invariant(&*self);
        }
        if Self::vertically_adjacent(first, second) {
            let x = first.x();
            let barrier_index = Self::horizontal_barrier_index(first, second);
            set_in_grid(&mut self.horizontal_barriers, x, barrier_index, has_barrier);
            proof {
                assert(self@.horizontal_barriers =~= old(self)@.horizontal_barriers.update(
                    first@.0,
                    old(self)@.horizontal_barriers[first@.0].update(
                        min(first@.1, second@.1),
                        has_barrier,
                    ),
                ));
                assert(self@.pieces =~= old(self)@.pieces);
                assert(self@.vertical_barriers =~= old(self)@.vertical_barriers);
                old(self).lemma_shaped();
            }
            return Ok(());
        } else if Self::horizontally_adjacent(first, second) {
            let y = first.y();
            let barrier_index = Self::vertical_barrier_index(first, second);
            set_in_grid(&mut self.vertical_barriers, y, barrier_index, has_barrier);
            proof {
                assert(self@.vertical_barriers =~= old(self)@.vertical_barriers.update(
                    first@.1,
                    old(self)@.vertical_barriers[first@.1].update(
                        min(first@.0, second@.0),
                        has_barrier,
                    ),
                ));
                assert(self@.pieces =~= old(self)@.pieces);
                assert(self@.horizontal_barriers =~= old(self)@.horizontal_barriers);
                old(self).lemma_shaped();
            }
            return Ok(());
        }
        Err(BoardError::NonAdjacent(first, second))
    }

    /// Checks if two positions are horizontally adjacent.
    fn horizontally_adjacent(first: Pos<W, H>, second: Pos<W, H>) -> (b: bool)
        ensures
            b == horizontally_adjacent(first@, second@),
    {
        abs_diff(first.x(), second.x()) == 1 && abs_diff(first.y(), second.y()) == 0
    }

    /// Checks if two positions are vertically adjacent.
    fn vertically_adjacent(first: Pos<W, H>, second: Pos<W, H>) -> (b: bool)
        ensures
            b == vertically_adjacent(first@, second@),
    {
        abs_diff(first.x(), second.x()) == 0 && abs_diff(first.y(), second.y()) == 1
    }

    /// Retrieves the index of a horizontal barrier within the barriers of the same column.
    fn horizontal_barrier_index(first: Pos<W, H>, second: Pos<W, H>) -> (i: usize)
        ensures
            i == min(first@.1, second@.1),
    {
        min_usize(first.y(), second.y())
    }

    /// Retrieves the index of a vertical barrier within the barriers of the same row.
    fn vertical_barrier_index(first: Pos<W, H>, second: Pos<W, H>) -> (i: usize)
        ensures
            i == min(first@.0, second@.0),
    {
        min_usize(first.x(), second.x())
    }
}

impl<P: Piece, const W: usize, const H: usize> Default for BoardState<P, W, H> {
    /// A new board: see [`BoardState::new`].
    fn default() -> (board: Self)
        ensures
            board@.shaped(W as int, H as int),
            exists|d: P|
                call_ensures(P::default, (), d) && forall|x: int, y: int|
                    0 <= x < W && 0 <= y < H ==> #[trigger] board@.pieces[x][y] == d,
            forall|x: int, y: int|
                0 <= x < W && 0 <= y < H ==> !#[trigger] board@.horizontal_barriers[x][y],
            forall|x: int, y: int|
                0 <= x < W && 0 <= y < H ==> !#[trigger] board@.vertical_barriers[y][x],
    {
        Self::new()
    }
}

} // verus!
