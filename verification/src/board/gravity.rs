use vstd::prelude::*;
use std::collections::{BTreeSet, VecDeque};
use vstd::std_specs::cmp::PartialEqSpec;
use crate::position::Pos;
use super::{
    BoardState, BoardView, Piece, is_air, min, cell, set_cell, swap_cells, replay, moves_view,
    gravity_step, gravity_steps, at_rest, row_segment_full, row_connected, grid_pieces,
    lemma_gravity_keeps_pieces, distance, rotation_moves, main_seq, segment_start, barrier_above,
    air_above, row_start, row_end, closest_air_at, closest_air, settle, gravity_run,
};
use crate::matching::pos_views;

verus! {

broadcast use crate::position::lemma_pos_view_injective, crate::position::lemma_pos_view_bounds;

/// Counts which x positions in a row contain air, between begin_x and end_x (inclusive).
pub(super) struct RowAirInterval {
    pub(super) begin_x: usize,
    pub(super) end_x: usize,
    pub(super) air_count: usize,
}

/// Describes what y positions in a column contain air, between begin_y and end_y (inclusive).
pub(super) struct ColAirInterval {
    pub(super) begin_y: usize,
    pub(super) end_y: usize,
    pub(super) air_ys: BTreeSet<usize>,
}

/// The number of air pieces in row `y` between columns `a` and `b` (inclusive).
pub(super) open spec fn count_air<P: Piece>(pieces: Seq<Seq<P>>, y: int, a: int, b: int) -> nat
    decreases b - a + 1,
{
    if b < a {
        0
    } else {
        count_air(pieces, y, a, b - 1) + if is_air(pieces[b][y]) {
            1nat
        } else {
            0nat
        }
    }
}

/// The heights `a..=b` of column `x` that hold air.
pub(super) open spec fn air_heights<P: Piece>(pieces: Seq<Seq<P>>, x: int, a: int, b: int) -> Set<
    usize,
> {
    Set::new(|v: usize| a <= v <= b && is_air(pieces[x][v as int]))
}

/// The row intervals split `0..w` into consecutive non-empty ranges.
pub(super) open spec fn row_partition(ivs: Seq<RowAirInterval>, w: int) -> bool {
    if w == 0 {
        ivs.len() == 0
    } else {
        &&& ivs.len() > 0
        &&& ivs[0].begin_x == 0
        &&& ivs.last().end_x == w - 1
        &&& forall|i: int| 0 <= i < ivs.len() ==> #[trigger] ivs[i].begin_x <= ivs[i].end_x
        &&& forall|i: int|
            0 < i < ivs.len() ==> #[trigger] ivs[i].begin_x == ivs[i - 1].end_x + 1
    }
}

/// The column intervals split `0..h` into consecutive non-empty ranges.
pub(super) open spec fn col_partition(ivs: Seq<ColAirInterval>, h: int) -> bool {
    if h == 0 {
        ivs.len() == 0
    } else {
        &&& ivs.len() > 0
        &&& ivs[0].begin_y == 0
        &&& ivs.last().end_y == h - 1
        &&& forall|i: int| 0 <= i < ivs.len() ==> #[trigger] ivs[i].begin_y <= ivs[i].end_y
        &&& forall|i: int|
            0 < i < ivs.len() ==> #[trigger] ivs[i].begin_y == ivs[i - 1].end_y + 1
    }
}

/// Row `y`'s intervals count the air in their ranges.
pub(super) open spec fn row_counts<P: Piece>(pieces: Seq<Seq<P>>, ivs: Seq<RowAirInterval>, y: int) -> bool {
    forall|i: int|
        0 <= i < ivs.len() ==> #[trigger] ivs[i].air_count == count_air(
            pieces,
            y,
            ivs[i].begin_x as int,
            ivs[i].end_x as int,
        )
}

/// Column `x`'s intervals hold the heights of the air in their ranges.
pub(super) open spec fn col_sets<P: Piece>(pieces: Seq<Seq<P>>, ivs: Seq<ColAirInterval>, x: int) -> bool {
    forall|i: int|
        0 <= i < ivs.len() ==> #[trigger] ivs[i].air_ys@ == air_heights(
            pieces,
            x,
            ivs[i].begin_y as int,
            ivs[i].end_y as int,
        )
}

/// The air bookkeeping of every row is right for the pieces.
pub(super) open spec fn rows_ok<P: Piece>(pieces: Seq<Seq<P>>, rows: Seq<Vec<RowAirInterval>>, w: int, h: int) -> bool {
    &&& rows.len() == h
    &&& forall|y: int| 0 <= y < h ==> #[trigger] row_partition(rows[y]@, w)
    &&& forall|y: int| 0 <= y < h ==> #[trigger] row_counts(pieces, rows[y]@, y)
}

/// The air bookkeeping of every column is right for the pieces.
pub(super) open spec fn cols_ok<P: Piece>(pieces: Seq<Seq<P>>, cols: Seq<Vec<ColAirInterval>>, w: int, h: int) -> bool {
    &&& cols.len() == w
    &&& forall|x: int| 0 <= x < w ==> #[trigger] col_partition(cols[x]@, h)
    &&& forall|x: int| 0 <= x < w ==> #[trigger] col_sets(pieces, cols[x]@, x)
}

/// No barrier lies inside a row interval: none lies between columns `j` and `j + 1` for
/// `begin_x <= j < end_x` of the row whose vertical barriers are `vby`.
pub(super) open spec fn row_open(iv: RowAirInterval, vby: Seq<bool>) -> bool {
    forall|j: int| iv.begin_x <= j < iv.end_x ==> !#[trigger] vby[j]
}

/// No barrier lies inside a column interval: none lies between heights `j` and `j + 1` for
/// `begin_y <= j < end_y` of the column whose horizontal barriers are `hbx`.
pub(super) open spec fn col_open(iv: ColAirInterval, hbx: Seq<bool>) -> bool {
    forall|j: int| iv.begin_y <= j < iv.end_y ==> !#[trigger] hbx[j]
}

/// No barrier lies inside any row interval.
pub(super) open spec fn rows_open(rows: Seq<Vec<RowAirInterval>>, vb: Seq<Seq<bool>>, h: int) -> bool {
    forall|y: int, i: int| 0 <= y < h && 0 <= i < rows[y]@.len() ==> #[trigger] row_open(rows[y]@[i], vb[y])
}

/// No barrier lies inside any column interval.
pub(super) open spec fn cols_open(cols: Seq<Vec<ColAirInterval>>, hb: Seq<Seq<bool>>, w: int) -> bool {
    forall|x: int, i: int| 0 <= x < w && 0 <= i < cols[x]@.len() ==> #[trigger] col_open(cols[x]@[i], hb[x])
}

/// A row interval ends where the row does or at a barrier, and begins where the row does or
/// just after a barrier: it is a whole segment of the row.
pub(super) open spec fn row_bounded(iv: RowAirInterval, vby: Seq<bool>, w: int) -> bool {
    &&& (iv.begin_x == 0 || vby[iv.begin_x - 1])
    &&& (iv.end_x == w - 1 || vby[iv.end_x as int])
}

/// A column interval ends where the column does or at a barrier, and begins where the column
/// does or just above a barrier: it is a whole segment of the column.
pub(super) open spec fn col_bounded(iv: ColAirInterval, hbx: Seq<bool>, h: int) -> bool {
    &&& (iv.begin_y == 0 || hbx[iv.begin_y - 1])
    &&& (iv.end_y == h - 1 || hbx[iv.end_y as int])
}

/// Every row interval is a whole segment of its row.
#[verifier::opaque]
pub(super) open spec fn rows_bounded(rows: Seq<Vec<RowAirInterval>>, vb: Seq<Seq<bool>>, w: int, h: int) -> bool {
    forall|y: int, i: int| 0 <= y < h && 0 <= i < rows[y]@.len() ==> #[trigger] row_bounded(rows[y]@[i], vb[y], w)
}

/// Every column interval is a whole segment of its column.
#[verifier::opaque]
pub(super) open spec fn cols_bounded(cols: Seq<Vec<ColAirInterval>>, hb: Seq<Seq<bool>>, w: int, h: int) -> bool {
    forall|x: int, i: int| 0 <= x < w && 0 <= i < cols[x]@.len() ==> #[trigger] col_bounded(cols[x]@[i], hb[x], h)
}

/// Changing the air of one row interval keeps the intervals free of barriers.
proof fn lemma_rows_open_keep(
    rows1: Seq<Vec<RowAirInterval>>,
    rows2: Seq<Vec<RowAirInterval>>,
    vb: Seq<Seq<bool>>,
    h: int,
    y: int,
    ri: int,
)
    requires
        rows_open(rows1, vb, h),
        0 <= y < h,
        rows2.len() == rows1.len(),
        forall|r: int| 0 <= r < h && r != y ==> #[trigger] rows2[r]@ == rows1[r]@,
        0 <= ri < rows1[y]@.len(),
        rows2[y]@.len() == rows1[y]@.len(),
        forall|i: int| 0 <= i < rows1[y]@.len() && i != ri ==> #[trigger] rows2[y]@[i] == rows1[y]@[i],
        rows2[y]@[ri].begin_x == rows1[y]@[ri].begin_x,
        rows2[y]@[ri].end_x == rows1[y]@[ri].end_x,
    ensures
        rows_open(rows2, vb, h),
        forall|w: int| rows_bounded(rows1, vb, w, h) ==> rows_bounded(rows2, vb, w, h),
{
    assert forall|r: int, i: int| 0 <= r < h && 0 <= i < rows2[r]@.len() implies #[trigger] row_open(
        rows2[r]@[i],
        vb[r],
    ) by {
        assert(row_open(rows1[r]@[i], vb[r]));
    }
    assert forall|w: int| rows_bounded(rows1, vb, w, h) implies rows_bounded(rows2, vb, w, h) by {
        reveal(rows_bounded);
        assert forall|r: int, i: int| 0 <= r < h && 0 <= i < rows2[r]@.len() implies #[trigger] row_bounded(
            rows2[r]@[i],
            vb[r],
            w,
        ) by {
            assert(row_bounded(rows1[r]@[i], vb[r], w));
        }
    }
}

/// Changing the air of one column interval keeps the intervals free of barriers.
proof fn lemma_cols_open_keep(
    cols1: Seq<Vec<ColAirInterval>>,
    cols2: Seq<Vec<ColAirInterval>>,
    hb: Seq<Seq<bool>>,
    w: int,
    x: int,
    ci: int,
)
    requires
        cols_open(cols1, hb, w),
        0 <= x < w,
        cols2.len() == cols1.len(),
        forall|c: int| 0 <= c < w && c != x ==> #[trigger] cols2[c]@ == cols1[c]@,
        0 <= ci < cols1[x]@.len(),
        cols2[x]@.len() == cols1[x]@.len(),
        forall|i: int| 0 <= i < cols1[x]@.len() && i != ci ==> #[trigger] cols2[x]@[i] == cols1[x]@[i],
        cols2[x]@[ci].begin_y == cols1[x]@[ci].begin_y,
        cols2[x]@[ci].end_y == cols1[x]@[ci].end_y,
    ensures
        cols_open(cols2, hb, w),
        forall|h: int| cols_bounded(cols1, hb, w, h) ==> cols_bounded(cols2, hb, w, h),
{
    assert forall|c: int, i: int| 0 <= c < w && 0 <= i < cols2[c]@.len() implies #[trigger] col_open(
        cols2[c]@[i],
        hb[c],
    ) by {
        assert(col_open(cols1[c]@[i], hb[c]));
    }
    assert forall|h: int| cols_bounded(cols1, hb, w, h) implies cols_bounded(cols2, hb, w, h) by {
        reveal(cols_bounded);
        assert forall|c: int, i: int| 0 <= c < w && 0 <= i < cols2[c]@.len() implies #[trigger] col_bounded(
            cols2[c]@[i],
            hb[c],
            h,
        ) by {
            assert(col_bounded(cols1[c]@[i], hb[c], h));
        }
    }
}

/// The ranges `0..n` split into consecutive non-empty inclusive spans.
pub(super) open spec fn spans_partition(sp: Seq<(int, int)>, n: int) -> bool {
    if n == 0 {
        sp.len() == 0
    } else {
        &&& sp.len() > 0
        &&& sp[0].0 == 0
        &&& sp.last().1 == n - 1
        &&& forall|i: int| 0 <= i < sp.len() ==> #[trigger] sp[i].0 <= sp[i].1
        &&& forall|i: int| 0 < i < sp.len() ==> #[trigger] sp[i].0 == sp[i - 1].1 + 1
    }
}

pub(super) open spec fn row_spans(ivs: Seq<RowAirInterval>) -> Seq<(int, int)> {
    ivs.map_values(|iv: RowAirInterval| (iv.begin_x as int, iv.end_x as int))
}

pub(super) open spec fn col_spans(ivs: Seq<ColAirInterval>) -> Seq<(int, int)> {
    ivs.map_values(|iv: ColAirInterval| (iv.begin_y as int, iv.end_y as int))
}

pub(super) open spec fn in_span(sp: Seq<(int, int)>, i: int, v: int) -> bool {
    sp[i].0 <= v <= sp[i].1
}

pub(super) open spec fn covered_upto(sp: Seq<(int, int)>, j: int, v: int) -> bool {
    exists|i: int| 0 <= i <= j && #[trigger] in_span(sp, i, v)
}

proof fn lemma_spans_sorted(sp: Seq<(int, int)>, n: int, j: int)
    requires
        spans_partition(sp, n),
        0 <= j < sp.len(),
    ensures
        forall|i: int| 0 <= i < j ==> #[trigger] sp[i].1 < sp[j].0,
    decreases j,
{
    if j > 0 {
        lemma_spans_sorted(sp, n, j - 1);
        assert(sp[j].0 == sp[j - 1].1 + 1);
    }
}

proof fn lemma_spans_cover(sp: Seq<(int, int)>, n: int, j: int)
    requires
        spans_partition(sp, n),
        0 <= j < sp.len(),
    ensures
        forall|v: int| 0 <= v <= sp[j].1 ==> #[trigger] covered_upto(sp, j, v),
    decreases j,
{
    if j > 0 {
        lemma_spans_cover(sp, n, j - 1);
        assert(sp[j].0 == sp[j - 1].1 + 1);
        assert forall|v: int| 0 <= v <= sp[j].1 implies #[trigger] covered_upto(sp, j, v) by {
            if v <= sp[j - 1].1 {
                assert(covered_upto(sp, j - 1, v));
                let i = choose|i: int| 0 <= i <= j - 1 && #[trigger] in_span(sp, i, v);
                assert(in_span(sp, i, v));
            } else {
                assert(in_span(sp, j, v));
            }
        }
    } else {
        assert forall|v: int| 0 <= v <= sp[j].1 implies #[trigger] covered_upto(sp, j, v) by {
            assert(in_span(sp, 0, v));
        }
    }
}

/// Spans that partition `0..n` are sorted, lie inside `0..n` and cover it.
proof fn lemma_spans(sp: Seq<(int, int)>, n: int)
    requires
        spans_partition(sp, n),
        n >= 0,
    ensures
        forall|i: int, j: int| 0 <= i < j < sp.len() ==> #[trigger] sp[i].1 < #[trigger] sp[j].0,
        forall|i: int| 0 <= i < sp.len() ==> 0 <= #[trigger] sp[i].0 <= sp[i].1 < n,
        forall|v: int| 0 <= v < n ==> #[trigger] covered_upto(sp, sp.len() - 1, v),
{
    if n > 0 {
        assert forall|i: int, j: int| 0 <= i < j < sp.len() implies #[trigger] sp[i].1
            < #[trigger] sp[j].0 by {
            lemma_spans_sorted(sp, n, j);
        }
        assert forall|i: int| 0 <= i < sp.len() implies 0 <= #[trigger] sp[i].0 <= sp[i].1 < n by {
            if i > 0 {
                lemma_spans_sorted(sp, n, i);
                assert(sp[0].1 < sp[i].0);
            }
            if i < sp.len() - 1 {
                lemma_spans_sorted(sp, n, sp.len() - 1);
                assert(sp[i].1 < sp[sp.len() - 1].0);
            }
        }
        lemma_spans_cover(sp, n, sp.len() - 1);
    }
}

proof fn lemma_count_bounds<P: Piece>(pieces: Seq<Seq<P>>, y: int, a: int, b: int)
    ensures
        count_air(pieces, y, a, b) <= if b < a {
            0
        } else {
            b - a + 1
        },
        count_air(pieces, y, a, b) == 0 <==> forall|c: int| a <= c <= b ==> !is_air(
            #[trigger] pieces[c][y],
        ),
    decreases b - a + 1,
{
    if b >= a {
        lemma_count_bounds(pieces, y, a, b - 1);
    }
}

/// The larger of two numbers.
pub(super) open spec fn max(a: int, b: int) -> int {
    if a >= b {
        a
    } else {
        b
    }
}



/// Whether rotating row `y` from `start` to `end` slides a piece into air: `start` holds air
/// (unless the two are equal), every other space of the span holds a piece, and no vertical
/// barrier crosses the span.
pub(super) open spec fn slide_ready<P: Piece>(b: BoardView<P>, y: int, start: int, end: int) -> bool {
    &&& start != end ==> is_air(b.pieces[start][y])
    &&& forall|c: int| (start < c <= end || end <= c < start) ==> !is_air(#[trigger] b.pieces[c][y])
    &&& forall|j: int| (start <= j < end || end <= j < start) ==> !#[trigger] b.vertical_barriers[y][j]
}

/// The piece at `(c, r)` after rotating row `y` of a grid so that the piece at `start`
/// moves to `end` and the pieces in between move one space toward `start`.
pub(super) open spec fn rotated<P>(pieces: Seq<Seq<P>>, y: int, start: int, end: int, c: int, r: int) -> P {
    if r != y {
        pieces[c][r]
    } else if c == end {
        pieces[start][y]
    } else if start <= c < end {
        pieces[c + 1][y]
    } else if end < c <= start {
        pieces[c - 1][y]
    } else {
        pieces[c][r]
    }
}

proof fn lemma_moves_push<P, const W: usize, const H: usize>(
    pieces: Seq<Seq<P>>,
    moves: Seq<(Pos<W, H>, Pos<W, H>)>,
    m: (Pos<W, H>, Pos<W, H>),
)
    ensures
        moves_view(moves.push(m)) == moves_view(moves).push((m.0@, m.1@)),
        replay(pieces, moves_view(moves.push(m))) == swap_cells(
            replay(pieces, moves_view(moves)),
            m.0@,
            m.1@,
        ),
{
    assert(moves_view(moves.push(m)) =~= moves_view(moves).push((m.0@, m.1@)));
    assert(moves_view(moves.push(m)).drop_last() =~= moves_view(moves));
}


/// The positions waiting in the queue: perhaps one position put back in front, then the rest
/// of the first pass over the board from `(mx, my)` on.
pub(super) open spec fn queue_view(r: Option<(int, int)>, w: int, h: int, mx: int, my: int) -> Seq<(int, int)> {
    match r {
        Some(p) => seq![p] + main_seq(w, h, mx, my),
        None => main_seq(w, h, mx, my),
    }
}

/// Whether a position still waits in the queue.
pub(super) open spec fn pending(r: Option<(int, int)>, mx: int, my: int, q: (int, int)) -> bool {
    q.1 > my || (q.1 == my && q.0 >= mx) || r == Some(q)
}

/// No position out of the queue in the row above `rc` holds a piece that rests on the segment
/// of `rc`'s row that holds `rc`.
pub(super) open spec fn no_reliance<P: Piece>(
    b: BoardView<P>,
    w: int,
    h: int,
    r: Option<(int, int)>,
    mx: int,
    my: int,
    rc: (int, int),
) -> bool {
    forall|q: (int, int)|
        0 <= q.0 < w && q.1 == rc.1 + 1 && q.1 < h && !pending(r, mx, my, q) && !is_air(
            #[trigger] b.piece(q),
        ) && !b.horizontal_barriers[q.0][rc.1] ==> !row_connected(b.vertical_barriers[rc.1], q.0, rc.0)
}

proof fn lemma_main_seq_front(w: int, h: int, mx: int, my: int)
    requires
        0 <= mx < w,
        0 <= my < h,
    ensures
        main_seq(w, h, mx, my) == seq![(mx, my)] + main_seq(w, h, mx + 1, my),
{
    assert(Seq::new((w - mx) as nat, |i: int| (mx + i, my)) =~= seq![(mx, my)] + Seq::new(
        (w - (mx + 1)) as nat,
        |i: int| (mx + 1 + i, my),
    ));
    assert(main_seq(w, h, mx, my) =~= seq![(mx, my)] + main_seq(w, h, mx + 1, my));
}

proof fn lemma_main_seq_row_end(w: int, h: int, my: int)
    requires
        0 <= w,
        0 <= my < h,
    ensures
        main_seq(w, h, w, my) == main_seq(w, h, 0, my + 1),
{
    assert(Seq::new((w - w) as nat, |i: int| (w + i, my)) =~= Seq::<(int, int)>::empty());
    assert(main_seq(w, h, w, my) =~= main_seq(w, h, 0, my + 1));
}

proof fn lemma_main_seq_nonempty(w: int, h: int, mx: int, my: int)
    requires
        0 <= mx < w,
        0 <= my < h,
    ensures
        main_seq(w, h, mx, my).len() > 0,
{
    lemma_main_seq_front(w, h, mx, my);
}

/// A column connected to `x` in a row lies in the row interval that holds `x`, when that
/// interval is a whole segment of the row.
proof fn lemma_connected_in_interval(iv: RowAirInterval, vby: Seq<bool>, w: int, x: int, c: int)
    requires
        row_bounded(iv, vby, w),
        iv.begin_x <= x <= iv.end_x,
        0 <= c < w,
        row_connected(vby, x, c),
    ensures
        iv.begin_x <= c <= iv.end_x,
{
    if c > iv.end_x {
        assert(!vby[iv.end_x as int]);
    }
    if c < iv.begin_x {
        assert(!vby[iv.begin_x - 1]);
    }
}

/// Every position out of the queue is at rest, and nothing out of the queue rests on the
/// segment of a position put back in front of it.
#[verifier::opaque]
pub(super) open spec fn rest_inv<P: Piece>(
    b: BoardView<P>,
    w: int,
    h: int,
    r: Option<(int, int)>,
    mx: int,
    my: int,
) -> bool {
    &&& forall|q: (int, int)|
        0 <= q.0 < w && 0 <= q.1 < h && !pending(r, mx, my, q) ==> #[trigger] at_rest(b, w, q)
    &&& r matches Some(rp) ==> no_reliance(b, w, h, r, mx, my, rp)
}

/// Between two grids only `p`, and `t` if there is one, change between air and piece.
#[verifier::opaque]
pub(super) open spec fn air_changes<P: Piece>(
    g0: Seq<Seq<P>>,
    g1: Seq<Seq<P>>,
    w: int,
    h: int,
    p: (int, int),
    t: Option<(int, int)>,
) -> bool {
    forall|c: (int, int)|
        0 <= c.0 < w && 0 <= c.1 < h && c != p && t != Some(c) ==> is_air(#[trigger] g1[c.0][c.1])
            == is_air(g0[c.0][c.1])
}

proof fn lemma_air_changes_same<P: Piece>(g: Seq<Seq<P>>, w: int, h: int, p: (int, int))
    ensures
        air_changes(g, g, w, h, p, None),
{
    reveal(air_changes);
}

/// A piece falling down its column from `p` to the air at `q` changes only those two.
proof fn lemma_fall_changes<P: Piece>(g0: Seq<Seq<P>>, w: int, h: int, p: (int, int), q: (int, int))
    requires
        crate::board::grid_shaped(g0, w, h),
        0 <= p.0 < w && 0 <= p.1 < h,
        0 <= q.0 < w && 0 <= q.1 < h,
        p != q,
    ensures
        air_changes(g0, swap_cells(g0, p, q), w, h, p, Some(q)),
        swap_cells(g0, p, q)[q.0][q.1] == g0[p.0][p.1],
        swap_cells(g0, p, q)[p.0][p.1] == g0[q.0][q.1],
{
    reveal(air_changes);
    crate::board::lemma_swap_then_get(g0, w, h, p, q);
    assert(cell(swap_cells(g0, p, q), q) == g0[p.0][p.1]);
    assert(cell(swap_cells(g0, p, q), p) == g0[q.0][q.1]);
    assert forall|c: (int, int)|
        0 <= c.0 < w && 0 <= c.1 < h && c != p && Some(q) != Some(c) implies is_air(
        #[trigger] swap_cells(g0, p, q)[c.0][c.1],
    ) == is_air(g0[c.0][c.1]) by {
        assert(cell(swap_cells(g0, p, q), c) == cell(g0, c));
    }
}

/// After the fall, rotating the row below and dropping the piece from `f` into it changes,
/// since the start, only `p` (now air) and `t` (now filled).
proof fn lemma_rotate_changes<P: Piece>(
    g0: Seq<Seq<P>>,
    g1: Seq<Seq<P>>,
    ga: Seq<Seq<P>>,
    g3: Seq<Seq<P>>,
    w: int,
    h: int,
    p: (int, int),
    f: (int, int),
    t: (int, int),
)
    requires
        0 <= p.0 < w && 0 <= p.1 < h,
        0 <= f.0 < w && 0 <= f.1 < h,
        0 <= t.0 < w && 0 <= t.1 < h,
        t != p,
        t != f,
        f == p ==> air_changes(g0, g1, w, h, p, None),
        f != p ==> air_changes(g0, g1, w, h, p, Some(f)) && is_air(g0[f.0][f.1]) && is_air(g1[p.0][p.1]),
        same_air_but(g1, ga, f.0, f.1, w, h),
        same_air_but(ga, g3, t.0, t.1, w, h),
        is_air(ga[f.0][f.1]),
        is_air(ga[t.0][t.1]),
        !is_air(g3[t.0][t.1]),
    ensures
        air_changes(g0, g3, w, h, p, Some(t)),
        is_air(g3[p.0][p.1]),
        is_air(g0[t.0][t.1]),
{
    reveal(air_changes);
    assert(is_air(g1[t.0][t.1]));
    if f != p {
        assert(is_air(ga[p.0][p.1]));
    }
    assert forall|c: (int, int)|
        0 <= c.0 < w && 0 <= c.1 < h && c != p && Some(t) != Some(c) implies is_air(
        #[trigger] g3[c.0][c.1],
    ) == is_air(g0[c.0][c.1]) by {
        if c != f {
            assert(is_air(g3[c.0][c.1]) == is_air(ga[c.0][c.1]));
            assert(is_air(ga[c.0][c.1]) == is_air(g1[c.0][c.1]));
        } else {
            assert(is_air(g3[c.0][c.1]) == is_air(ga[c.0][c.1]));
        }
    }
}

/// When the row interval that holds `x` in row `y` has no air, every space of that row
/// connected to `x` holds a piece.
proof fn lemma_full_row<P: Piece>(b: BoardView<P>, rows: Seq<Vec<RowAirInterval>>, w: int, h: int, y: int, x: int)
    requires
        rows_bounded(rows, b.vertical_barriers, w, h),
        0 <= y < h,
        0 <= x < w,
        rows.len() == h,
        row_partition(rows[y]@, w),
        forall|i: int|
            0 <= i < rows[y]@.len() && #[trigger] rows[y]@[i].begin_x <= x <= rows[y]@[i].end_x ==> forall|
                c: int,
            | rows[y]@[i].begin_x <= c <= rows[y]@[i].end_x ==> !is_air(#[trigger] b.pieces[c][y]),
    ensures
        row_segment_full(b, w, y, x),
{
    reveal(rows_bounded);
    let sp = row_spans(rows[y]@);
    assert(spans_partition(sp, w));
    lemma_spans(sp, w);
    assert(covered_upto(sp, sp.len() - 1, x));
    let i = choose|i: int| 0 <= i <= sp.len() - 1 && #[trigger] in_span(sp, i, x);
    let iv = rows[y]@[i];
    assert(sp[i] == (iv.begin_x as int, iv.end_x as int));
    assert(row_bounded(iv, b.vertical_barriers[y], w));
    assert forall|c: int| 0 <= c < w && row_connected(b.vertical_barriers[y], x, c) implies !is_air(
        #[trigger] b.piece((c, y)),
    ) by {
        lemma_connected_in_interval(iv, b.vertical_barriers[y], w, x, c);
        assert(!is_air(b.pieces[c][y]));
    }
}

proof fn lemma_col_bounded_at(cols: Seq<Vec<ColAirInterval>>, hb: Seq<Seq<bool>>, w: int, h: int, x: int, i: int)
    requires
        cols_bounded(cols, hb, w, h),
        0 <= x < w,
        0 <= i < cols[x]@.len(),
    ensures
        col_bounded(cols[x]@[i], hb[x], h),
{
    reveal(cols_bounded);
}

proof fn lemma_row_bounded_at(rows: Seq<Vec<RowAirInterval>>, vb: Seq<Seq<bool>>, w: int, h: int, y: int, i: int)
    requires
        rows_bounded(rows, vb, w, h),
        0 <= y < h,
        0 <= i < rows[y]@.len(),
    ensures
        row_bounded(rows[y]@[i], vb[y], w),
{
    reveal(rows_bounded);
}

/// The column interval that holds `y` starts where the segment of `y` does.
proof fn lemma_segment_start(hbx: Seq<bool>, h: int, begin: int, y: int)
    requires
        0 <= begin <= y < h,
        begin == 0 || barrier_above(hbx, h, begin - 1),
        forall|j: int| begin <= j < y ==> !#[trigger] barrier_above(hbx, h, j),
    ensures
        segment_start(hbx, h, y) == begin,
    decreases y,
{
    if y > begin {
        lemma_segment_start(hbx, h, begin, y - 1);
    }
}

/// Going up from `a` within a column segment that ends at `end`, the first air is the lowest
/// air of the segment from `a` on.
proof fn lemma_air_above<P: Piece>(c: Seq<P>, hbx: Seq<bool>, h: int, a: int, end: int, m: int)
    requires
        0 <= a <= m <= end < h,
        forall|j: int| a <= j < end ==> !#[trigger] barrier_above(hbx, h, j),
        is_air(c[m]),
        forall|k: int| a <= k < m ==> !is_air(#[trigger] c[k]),
    ensures
        air_above(c, hbx, h, a) == Some(m),
    decreases m - a,
{
    if a < m {
        lemma_air_above(c, hbx, h, a + 1, end, m);
    }
}

/// A column segment from `a` to `end` without air gives no air going up from `a`.
proof fn lemma_air_above_none<P: Piece>(c: Seq<P>, hbx: Seq<bool>, h: int, a: int, end: int)
    requires
        0 <= a <= end < h,
        forall|j: int| a <= j < end ==> !#[trigger] barrier_above(hbx, h, j),
        end == h - 1 || barrier_above(hbx, h, end),
        forall|k: int| a <= k <= end ==> !is_air(#[trigger] c[k]),
    ensures
        air_above(c, hbx, h, a) is None,
    decreases end - a,
{
    if a < end {
        lemma_air_above_none(c, hbx, h, a + 1, end);
    } else if !barrier_above(hbx, h, end) {
        assert(air_above(c, hbx, h, end + 1) is None);
    }
}

/// The row interval that holds `x` starts where the segment of `x` does.
proof fn lemma_row_start(vby: Seq<bool>, begin: int, x: int)
    requires
        0 <= begin <= x,
        begin == 0 || vby[begin - 1],
        forall|j: int| begin <= j < x ==> !#[trigger] vby[j],
    ensures
        row_start(vby, x) == begin,
    decreases x,
{
    if x > begin {
        lemma_row_start(vby, begin, x - 1);
    }
}

/// The row interval that holds `x` ends where the segment of `x` does.
proof fn lemma_row_end(vby: Seq<bool>, w: int, end: int, x: int)
    requires
        0 <= x <= end < w,
        end == w - 1 || vby[end],
        forall|j: int| x <= j < end ==> !#[trigger] vby[j],
    ensures
        row_end(vby, w, x) == end,
    decreases end - x,
{
    if x < end {
        lemma_row_end(vby, w, end, x + 1);
    }
}

/// There is at most one closest air.
proof fn lemma_closest_unique<P: Piece>(pieces: Seq<Seq<P>>, y: int, x: int, lo: int, hi: int, a1: int, a2: int)
    requires
        closest_air_at(pieces, y, x, lo, hi, a1),
        closest_air_at(pieces, y, x, lo, hi, a2),
    ensures
        a1 == a2,
{
    if distance(a1, x) < distance(a2, x) {
        assert(!is_air(pieces[a1][y]));
    } else if distance(a2, x) < distance(a1, x) {
        assert(!is_air(pieces[a2][y]));
    } else if a1 != a2 {
        if a1 > x {
            assert(a2 == x - (a1 - x));
        } else {
            assert(a1 == x - (a2 - x));
        }
    }
}

/// The closest air, named by `closest_air`, is the one found.
proof fn lemma_closest_air<P: Piece>(pieces: Seq<Seq<P>>, vby: Seq<bool>, w: int, x: int, y: int, a: int)
    requires
        closest_air_at(pieces, y, x, row_start(vby, x), row_end(vby, w, x), a),
    ensures
        closest_air(pieces, vby, w, x, y) == Some(a),
{
    let lo = row_start(vby, x);
    let hi = row_end(vby, w, x);
    let c = choose|c: int| closest_air_at(pieces, y, x, lo, hi, c);
    lemma_closest_unique(pieces, y, x, lo, hi, a, c);
}

/// What the search of the row intervals finds is the closest air of the row segment.
proof fn lemma_closest_from_rows<P: Piece>(
    pieces: Seq<Seq<P>>,
    rows: Seq<Vec<RowAirInterval>>,
    vb: Seq<Seq<bool>>,
    w: int,
    h: int,
    x: int,
    y: int,
    r: Option<usize>,
)
    requires
        rows_ok(pieces, rows, w, h),
        rows_open(rows, vb, h),
        rows_bounded(rows, vb, w, h),
        0 <= x < w,
        0 <= y < h,
        forall|i: int|
            0 <= i < rows[y]@.len() && #[trigger] rows[y]@[i].begin_x <= x <= rows[y]@[i].end_x ==> {
                let iv = rows[y]@[i];
                &&& r matches Some(a) ==> {
                    &&& iv.begin_x <= a <= iv.end_x
                    &&& a != x
                    &&& is_air(pieces[a as int][y])
                    &&& forall|c: int|
                        iv.begin_x <= c <= iv.end_x && 0 < distance(c, x) < distance(a as int, x)
                            ==> !is_air(#[trigger] pieces[c][y])
                    &&& a > x ==> !(x - (a - x) >= iv.begin_x && is_air(pieces[x - (a - x)][y]))
                }
                &&& r is None ==> forall|c: int| iv.begin_x <= c <= iv.end_x ==> !is_air(#[trigger] pieces[c][y])
            },
    ensures
        closest_air(pieces, vb[y], w, x, y) == match r {
            Some(a) => Some(a as int),
            None => None::<int>,
        },
{
    let sp = row_spans(rows[y]@);
    assert(row_partition(rows[y]@, w));
    assert(spans_partition(sp, w));
    lemma_spans(sp, w);
    assert(covered_upto(sp, sp.len() - 1, x));
    let i = choose|i: int| 0 <= i <= sp.len() - 1 && #[trigger] in_span(sp, i, x);
    let iv = rows[y]@[i];
    assert(sp[i] == (iv.begin_x as int, iv.end_x as int));
    lemma_row_bounded_at(rows, vb, w, h, y, i);
    assert(row_open(iv, vb[y]));
    lemma_row_start(vb[y], iv.begin_x as int, x);
    lemma_row_end(vb[y], w, iv.end_x as int, x);
    let lo = row_start(vb[y], x);
    let hi = row_end(vb[y], w, x);
    match r {
        Some(a) => {
            assert(closest_air_at(pieces, y, x, lo, hi, a as int));
            lemma_closest_air(pieces, vb[y], w, x, y, a as int);
        },
        None => {
            assert forall|a: int| !closest_air_at(pieces, y, x, lo, hi, a) by {
                if lo <= a <= hi {
                    assert(!is_air(pieces[a][y]));
                }
            }
        },
    }
}

/// The lowest air of the column interval holding `y`, as `first_of` finds it, is the lowest air
/// of the column segment of `y`.
proof fn lemma_lowest_from_cols<P: Piece>(
    pieces: Seq<Seq<P>>,
    cols: Seq<Vec<ColAirInterval>>,
    hb: Seq<Seq<bool>>,
    w: int,
    h: int,
    x: int,
    y: int,
    ci: int,
    first: Option<usize>,
)
    requires
        cols_ok(pieces, cols, w, h),
        cols_open(cols, hb, w),
        cols_bounded(cols, hb, w, h),
        0 <= x < w,
        0 <= y < h,
        pieces.len() == w,
        pieces[x].len() == h,
        hb.len() == w,
        0 <= ci < cols[x]@.len(),
        cols[x]@[ci].begin_y <= y <= cols[x]@[ci].end_y,
        first matches Some(v) ==> cols[x]@[ci].air_ys@.contains(v) && forall|u: usize| #[trigger]
            cols[x]@[ci].air_ys@.contains(u) ==> v <= u,
        first is None ==> cols[x]@[ci].air_ys@ == Set::<usize>::empty(),
    ensures
        segment_start(hb[x], h, y) == cols[x]@[ci].begin_y,
        air_above(pieces[x], hb[x], h, cols[x]@[ci].begin_y as int) == match first {
            Some(v) => Some(v as int),
            None => None::<int>,
        },
{
    let iv = cols[x]@[ci];
    let begin = iv.begin_y as int;
    let end = iv.end_y as int;
    lemma_col_bounded_at(cols, hb, w, h, x, ci);
    assert(col_open(iv, hb[x]));
    assert(col_partition(cols[x]@, h));
    assert(col_sets(pieces, cols[x]@, x));
    assert(iv.air_ys@ == air_heights(pieces, x, begin, end));
    assert(end < h) by {
        let sp = col_spans(cols[x]@);
        assert(spans_partition(sp, h));
        lemma_spans(sp, h);
        assert(sp.len() == cols[x]@.len());
        assert(sp[ci] == (begin, end));
        assert(0 <= sp[ci].0 <= sp[ci].1 < h);
    }
    assert forall|j: int| begin <= j < end implies !#[trigger] barrier_above(hb[x], h, j) by {
        assert(!hb[x][j]);
    }
    lemma_segment_start(hb[x], h, begin, y);
    match first {
        Some(v) => {
            assert(iv.air_ys@.contains(v));
            assert forall|k: int| begin <= k < v implies !is_air(#[trigger] pieces[x][k]) by {
                if is_air(pieces[x][k]) {
                    assert(iv.air_ys@.contains(k as usize));
                }
            }
            lemma_air_above(pieces[x], hb[x], h, begin, end, v as int);
        },
        None => {
            assert forall|k: int| begin <= k <= end implies !is_air(#[trigger] pieces[x][k]) by {
                if is_air(pieces[x][k]) {
                    assert(iv.air_ys@.contains(k as usize));
                }
            }
            lemma_air_above_none(pieces[x], hb[x], h, begin, end);
        },
    }
}

/// Taking `p` out of the queue: either it was the position put back in front, or the first
/// pass moves on by one position.
proof fn lemma_pop(
    rb: Option<(int, int)>,
    mxb: int,
    myb: int,
    p: (int, int),
    mx: int,
    my: int,
    r2: Option<(int, int)>,
    w: int,
    h: int,
)
    requires
        (rb == Some(p) && mx == mxb && my == myb && p.1 < myb) || (rb is None && p == (mxb, myb) && 0 <= mxb < w && 0
            <= myb < h && ((mxb + 1 < w && mx == mxb + 1 && my == myb) || (mxb + 1 >= w && mx == 0 && my
            == myb + 1))),
    ensures
        forall|q: (int, int)|
            0 <= q.0 < w && 0 <= q.1 < h ==> (pending(r2, mx, my, q) <==> ((pending(rb, mxb, myb, q) && q
                != p) || r2 == Some(q))),
        rb == Some(p) || (forall|q: (int, int)| 0 <= q.0 < w && p.1 < q.1 < h ==> pending(r2, mx, my, q)),
{
}

/// One step of the queue keeps every position out of the queue at rest. The step takes `p`
/// out of the queue; only `p`, which may turn to air, and `t`, which may be filled, change
/// between air and piece; `t` lies below `p`, and when it is put back in the queue nothing
/// above it rested on its segment.
proof fn lemma_rest_step<P: Piece>(
    b0: BoardView<P>,
    b1: BoardView<P>,
    w: int,
    h: int,
    p: (int, int),
    t: Option<(int, int)>,
    r: Option<(int, int)>,
    mx: int,
    my: int,
    r2: Option<(int, int)>,
    mx2: int,
    my2: int,
)
    requires
        b0.shaped(w, h),
        b1.shaped(w, h),
        b1.same_barriers(b0),
        0 <= p.0 < w,
        0 <= p.1 < h,
        rest_inv(b0, w, h, r, mx, my),
        (r == Some(p) && mx2 == mx && my2 == my && p.1 < my) || (r is None && p == (mx, my) && 0 <= mx < w
            && 0 <= my < h && ((mx + 1 < w && mx2 == mx + 1 && my2 == my) || (mx + 1 >= w && mx2 == 0 && my2
            == my + 1))),
        air_changes(b0.pieces, b1.pieces, w, h, p, t),
        at_rest(b1, w, p),
        t matches Some(tc) ==> {
            &&& 0 <= tc.0 < w
            &&& 0 <= tc.1 < p.1
            &&& is_air(b0.piece(tc))
            &&& !is_air(b1.piece(tc))
            &&& (r2 == Some(tc) || at_rest(b1, w, tc))
        },
        r2 matches Some(rc) ==> t == Some(rc) && is_air(b1.piece(p)),
    ensures
        rest_inv(b1, w, h, r2, mx2, my2),
{
    lemma_pop(r, mx, my, p, mx2, my2, r2, w, h);
    reveal(rest_inv);
    reveal(air_changes);
    assert forall|c: (int, int)|
        0 <= c.0 < w && 0 <= c.1 < h && c != p && t != Some(c) implies is_air(#[trigger] b1.piece(c))
            == is_air(b0.piece(c)) by {
        assert(is_air(b1.pieces[c.0][c.1]) == is_air(b0.pieces[c.0][c.1]));
    }
    assert forall|q: (int, int)|
        0 <= q.0 < w && 0 <= q.1 < h && !pending(r2, mx2, my2, q) implies #[trigger] at_rest(b1, w, q) by {
        if q != p && t != Some(q) {
            assert(!pending(r, mx, my, q));
            assert(at_rest(b0, w, q));
            if !is_air(b1.piece(q)) && q.1 != 0 && !b1.horizontal_barriers[q.0][q.1 - 1] {
                assert(row_segment_full(b0, w, q.1 - 1, q.0));
                assert forall|c: int|
                    0 <= c < w && row_connected(b1.vertical_barriers[q.1 - 1], q.0, c) implies !is_air(
                    #[trigger] b1.piece((c, q.1 - 1)),
                ) by {
                    assert(!is_air(b0.piece((c, q.1 - 1))));
                    if (c, q.1 - 1) == p {
                        if r == Some(p) {
                            assert(no_reliance(b0, w, h, r, mx, my, p));
                            assert(!is_air(b0.piece(q)));
                        } else {
                            assert(pending(r2, mx2, my2, q));
                        }
                    }
                }
            }
        }
    }
    if let Some(rc) = r2 {
        assert forall|q: (int, int)|
            0 <= q.0 < w && q.1 == rc.1 + 1 && q.1 < h && !pending(r2, mx2, my2, q) && !is_air(
                #[trigger] b1.piece(q),
            ) && !b1.horizontal_barriers[q.0][rc.1] implies !row_connected(b1.vertical_barriers[rc.1], q.0, rc.0) by {
            assert(q != p);
            assert(q != rc);
            assert(!pending(r, mx, my, q));
            assert(at_rest(b0, w, q));
            assert(!is_air(b0.piece(q)));
            if row_connected(b1.vertical_barriers[rc.1], q.0, rc.0) {
                assert(row_segment_full(b0, w, q.1 - 1, q.0));
                assert(!is_air(b0.piece((rc.0, rc.1))));
            }
        }
    }
}

/// A gravity step after a list of gravity steps extends it.
proof fn lemma_steps_push<P: Piece, const W: usize, const H: usize>(
    b: BoardView<P>,
    moves: Seq<(Pos<W, H>, Pos<W, H>)>,
    m: (Pos<W, H>, Pos<W, H>),
)
    requires
        gravity_steps(b, moves_view(moves)),
        gravity_step(b.with_pieces(replay(b.pieces, moves_view(moves))), (m.0@, m.1@)),
    ensures
        gravity_steps(b, moves_view(moves.push(m))),
{
    lemma_moves_push(b.pieces, moves, m);
    assert(moves_view(moves.push(m)).drop_last() =~= moves_view(moves));
}

/// Gravity steps taken from where other gravity steps left a board extend them.
proof fn lemma_steps_append<P: Piece>(
    b: BoardView<P>,
    m1: Seq<((int, int), (int, int))>,
    m2: Seq<((int, int), (int, int))>,
)
    requires
        gravity_steps(b, m1),
        gravity_steps(b.with_pieces(replay(b.pieces, m1)), m2),
    ensures
        gravity_steps(b, m1 + m2),
    decreases m2.len(),
{
    if m2.len() == 0 {
        assert(m1 + m2 =~= m1);
    } else {
        lemma_steps_append(b, m1, m2.drop_last());
        assert((m1 + m2).drop_last() =~= m1 + m2.drop_last());
        assert((m1 + m2).last() == m2.last());
        lemma_replay_append(b.pieces, m1, m2.drop_last());
    }
}

/// What a piece at height `y` adds to a board's potential: its height, or nothing for air.
pub(super) open spec fn weight<P: Piece>(p: P, y: int) -> int {
    if is_air(p) {
        0
    } else {
        y
    }
}

/// The sum of the heights of the pieces of a column that are not air.
pub(super) open spec fn col_potential<P: Piece>(c: Seq<P>) -> int
    decreases c.len(),
{
    if c.len() == 0 {
        0
    } else {
        col_potential(c.drop_last()) + weight(c.last(), c.len() - 1)
    }
}

/// The sum of the heights of the pieces of a board that are not air. Falling lowers it.
pub(super) open spec fn potential<P: Piece>(p: Seq<Seq<P>>) -> int
    decreases p.len(),
{
    if p.len() == 0 {
        0
    } else {
        potential(p.drop_last()) + col_potential(p.last())
    }
}

proof fn lemma_col_potential_nonneg<P: Piece>(c: Seq<P>)
    ensures
        col_potential(c) >= 0,
    decreases c.len(),
{
    if c.len() > 0 {
        lemma_col_potential_nonneg(c.drop_last());
    }
}

proof fn lemma_potential_nonneg<P: Piece>(p: Seq<Seq<P>>)
    ensures
        potential(p) >= 0,
    decreases p.len(),
{
    if p.len() > 0 {
        lemma_potential_nonneg(p.drop_last());
        lemma_col_potential_nonneg(p.last());
    }
}

proof fn lemma_col_potential_update<P: Piece>(c: Seq<P>, i: int, v: P)
    requires
        0 <= i < c.len(),
    ensures
        col_potential(c.update(i, v)) + weight(c[i], i) == col_potential(c) + weight(v, i),
    decreases c.len(),
{
    if i < c.len() - 1 {
        lemma_col_potential_update(c.drop_last(), i, v);
        assert(c.update(i, v).drop_last() =~= c.drop_last().update(i, v));
    } else {
        assert(c.update(i, v).drop_last() =~= c.drop_last());
    }
}

proof fn lemma_potential_update<P: Piece>(p: Seq<Seq<P>>, x: int, c: Seq<P>)
    requires
        0 <= x < p.len(),
    ensures
        potential(p.update(x, c)) + col_potential(p[x]) == potential(p) + col_potential(c),
    decreases p.len(),
{
    if x < p.len() - 1 {
        lemma_potential_update(p.drop_last(), x, c);
        assert(p.update(x, c).drop_last() =~= p.drop_last().update(x, c));
    } else {
        assert(p.update(x, c).drop_last() =~= p.drop_last());
    }
}

proof fn lemma_set_cell_potential<P: Piece>(p: Seq<Seq<P>>, a: (int, int), v: P)
    requires
        0 <= a.0 < p.len(),
        0 <= a.1 < p[a.0].len(),
    ensures
        potential(set_cell(p, a, v)) + weight(p[a.0][a.1], a.1) == potential(p) + weight(v, a.1),
{
    lemma_col_potential_update(p[a.0], a.1, v);
    lemma_potential_update(p, a.0, p[a.0].update(a.1, v));
}

/// Exchanging two pieces changes the potential by what their heights say.
proof fn lemma_swap_potential<P: Piece>(p: Seq<Seq<P>>, a: (int, int), b: (int, int))
    requires
        0 <= a.0 < p.len(),
        0 <= a.1 < p[a.0].len(),
        0 <= b.0 < p.len(),
        0 <= b.1 < p[b.0].len(),
    ensures
        potential(swap_cells(p, a, b)) + weight(cell(p, a), a.1) + weight(cell(p, b), b.1) == potential(p)
            + weight(cell(p, b), a.1) + weight(cell(p, a), b.1),
{
    let q = set_cell(p, a, cell(p, b));
    lemma_set_cell_potential(p, a, cell(p, b));
    lemma_set_cell_potential(q, b, cell(p, a));
    if a != b {
        assert(cell(q, b) == cell(p, b));
    }
}

/// Exchanging the pieces of two positions does not depend on their order.
proof fn lemma_swap_symmetric<P>(p: Seq<Seq<P>>, a: (int, int), b: (int, int))
    requires
        0 <= a.0 < p.len(),
        0 <= a.1 < p[a.0].len(),
        0 <= b.0 < p.len(),
        0 <= b.1 < p[b.0].len(),
    ensures
        swap_cells(p, a, b) == swap_cells(p, b, a),
{
    if a == b {
    } else if a.0 == b.0 {
        assert(swap_cells(p, a, b)[a.0] =~= swap_cells(p, b, a)[a.0]);
        assert(swap_cells(p, a, b) =~= swap_cells(p, b, a));
    } else {
        assert(swap_cells(p, a, b) =~= swap_cells(p, b, a));
    }
}

/// Replaying two lists of moves one after the other is replaying their concatenation.
proof fn lemma_replay_append<P>(
    p: Seq<Seq<P>>,
    m1: Seq<((int, int), (int, int))>,
    m2: Seq<((int, int), (int, int))>,
)
    ensures
        replay(p, m1 + m2) == replay(replay(p, m1), m2),
    decreases m2.len(),
{
    if m2.len() == 0 {
        assert(m1 + m2 =~= m1);
    } else {
        lemma_replay_append(p, m1, m2.drop_last());
        assert((m1 + m2).drop_last() =~= m1 + m2.drop_last());
    }
}

/// The pieces of two grids are air at the same positions, but perhaps at `(x, y)`.
pub(super) open spec fn same_air_but<P: Piece>(p1: Seq<Seq<P>>, p2: Seq<Seq<P>>, x: int, y: int, w: int, h: int) -> bool {
    forall|c: int, r: int|
        0 <= c < w && 0 <= r < h && (c != x || r != y) ==> is_air(#[trigger] p2[c][r]) == is_air(
            p1[c][r],
        )
}

proof fn lemma_count_flip<P: Piece>(p1: Seq<Seq<P>>, p2: Seq<Seq<P>>, x: int, y: int, r: int, a: int, b: int, w: int, h: int)
    requires
        same_air_but(p1, p2, x, y, w, h),
        0 <= r < h,
        0 <= a,
        b < w,
    ensures
        count_air(p2, r, a, b) == count_air(p1, r, a, b) + if r == y && a <= x <= b {
            (if is_air(p2[x][y]) {
                1int
            } else {
                0int
            }) - (if is_air(p1[x][y]) {
                1int
            } else {
                0int
            })
        } else {
            0int
        },
    decreases b - a + 1,
{
    if b >= a {
        lemma_count_flip(p1, p2, x, y, r, a, b - 1, w, h);
    }
}

/// Flipping the air of one position and adjusting the count of the row interval that holds
/// it keeps the row bookkeeping right.
proof fn lemma_rows_flip<P: Piece>(
    p1: Seq<Seq<P>>,
    p2: Seq<Seq<P>>,
    rows1: Seq<Vec<RowAirInterval>>,
    rows2: Seq<Vec<RowAirInterval>>,
    x: int,
    y: int,
    ri: int,
    w: int,
    h: int,
)
    requires
        rows_ok(p1, rows1, w, h),
        same_air_but(p1, p2, x, y, w, h),
        0 <= x < w,
        0 <= y < h,
        rows2.len() == rows1.len(),
        forall|r: int| 0 <= r < h && r != y ==> #[trigger] rows2[r]@ == rows1[r]@,
        0 <= ri < rows1[y]@.len(),
        rows2[y]@.len() == rows1[y]@.len(),
        forall|i: int| 0 <= i < rows1[y]@.len() && i != ri ==> #[trigger] rows2[y]@[i] == rows1[y]@[i],
        rows1[y]@[ri].begin_x <= x <= rows1[y]@[ri].end_x,
        rows2[y]@[ri].begin_x == rows1[y]@[ri].begin_x,
        rows2[y]@[ri].end_x == rows1[y]@[ri].end_x,
        rows2[y]@[ri].air_count == rows1[y]@[ri].air_count + (if is_air(p2[x][y]) {
            1int
        } else {
            0int
        }) - (if is_air(p1[x][y]) {
            1int
        } else {
            0int
        }),
    ensures
        rows_ok(p2, rows2, w, h),
{
    assert(row_partition(rows1[y]@, w));
    assert(spans_partition(row_spans(rows1[y]@), w));
    lemma_spans(row_spans(rows1[y]@), w);
    assert forall|r: int| 0 <= r < h implies #[trigger] row_partition(rows2[r]@, w) by {
        assert(row_partition(rows1[r]@, w));
        if r == y {
            assert(rows2[y]@ =~= rows1[y]@.update(ri, rows2[y]@[ri]));
        }
    }
    assert forall|r: int| 0 <= r < h implies #[trigger] row_counts(p2, rows2[r]@, r) by {
        assert(row_counts(p1, rows1[r]@, r));
        assert forall|i: int| 0 <= i < rows2[r]@.len() implies #[trigger] rows2[r]@[i].air_count
            == count_air(p2, r, rows2[r]@[i].begin_x as int, rows2[r]@[i].end_x as int) by {
            let iv = rows1[r]@[i];
            assert(row_spans(rows1[y]@)[ri] == (
                rows1[y]@[ri].begin_x as int,
                rows1[y]@[ri].end_x as int,
            ));
            if r == y {
                assert(row_spans(rows1[y]@)[i] == (iv.begin_x as int, iv.end_x as int));
                if i < ri {
                    assert(row_spans(rows1[y]@)[i].1 < row_spans(rows1[y]@)[ri].0);
                } else if i > ri {
                    assert(row_spans(rows1[y]@)[ri].1 < row_spans(rows1[y]@)[i].0);
                }
            }
            assert(row_partition(rows1[r]@, w));
            assert(spans_partition(row_spans(rows1[r]@), w));
            lemma_spans(row_spans(rows1[r]@), w);
            assert(row_spans(rows1[r]@)[i] == (iv.begin_x as int, iv.end_x as int));
            assert(0 <= row_spans(rows1[r]@)[i].0 <= row_spans(rows1[r]@)[i].1 < w);
            lemma_count_flip(p1, p2, x, y, r, iv.begin_x as int, iv.end_x as int, w, h);
        }
    }
}

/// Flipping the air of one position and adding or removing its height in the column interval
/// that holds it keeps the column bookkeeping right.
proof fn lemma_cols_flip<P: Piece>(
    p1: Seq<Seq<P>>,
    p2: Seq<Seq<P>>,
    cols1: Seq<Vec<ColAirInterval>>,
    cols2: Seq<Vec<ColAirInterval>>,
    x: int,
    y: int,
    ci: int,
    w: int,
    h: int,
)
    requires
        cols_ok(p1, cols1, w, h),
        same_air_but(p1, p2, x, y, w, h),
        0 <= x < w,
        0 <= y < h,
        p1.len() == w,
        p2.len() == w,
        cols2.len() == cols1.len(),
        forall|c: int| 0 <= c < w && c != x ==> #[trigger] cols2[c]@ == cols1[c]@,
        0 <= ci < cols1[x]@.len(),
        cols2[x]@.len() == cols1[x]@.len(),
        forall|i: int| 0 <= i < cols1[x]@.len() && i != ci ==> #[trigger] cols2[x]@[i] == cols1[x]@[i],
        cols1[x]@[ci].begin_y <= y <= cols1[x]@[ci].end_y,
        cols2[x]@[ci].begin_y == cols1[x]@[ci].begin_y,
        cols2[x]@[ci].end_y == cols1[x]@[ci].end_y,
        cols2[x]@[ci].air_ys@ == if is_air(p2[x][y]) {
            cols1[x]@[ci].air_ys@.insert(y as usize)
        } else {
            cols1[x]@[ci].air_ys@.remove(y as usize)
        },
    ensures
        cols_ok(p2, cols2, w, h),
{
    assert(col_partition(cols1[x]@, h));
    assert(spans_partition(col_spans(cols1[x]@), h));
    lemma_spans(col_spans(cols1[x]@), h);
    assert forall|c: int| 0 <= c < w implies #[trigger] col_partition(cols2[c]@, h) by {
        assert(col_partition(cols1[c]@, h));
        if c == x {
            assert(cols2[x]@ =~= cols1[x]@.update(ci, cols2[x]@[ci]));
        }
    }
    assert forall|c: int| 0 <= c < w implies #[trigger] col_sets(p2, cols2[c]@, c) by {
        assert(col_sets(p1, cols1[c]@, c));
        assert forall|i: int| 0 <= i < cols2[c]@.len() implies #[trigger] cols2[c]@[i].air_ys@
            == air_heights(p2, c, cols2[c]@[i].begin_y as int, cols2[c]@[i].end_y as int) by {
            let iv = cols1[c]@[i];
            assert(col_spans(cols1[x]@)[ci] == (
                cols1[x]@[ci].begin_y as int,
                cols1[x]@[ci].end_y as int,
            ));
            if c == x {
                assert(col_spans(cols1[x]@)[i] == (iv.begin_y as int, iv.end_y as int));
                if i < ci {
                    assert(col_spans(cols1[x]@)[i].1 < col_spans(cols1[x]@)[ci].0);
                } else if i > ci {
                    assert(col_spans(cols1[x]@)[ci].1 < col_spans(cols1[x]@)[i].0);
                }
                assert(0 <= col_spans(cols1[x]@)[i].0 <= col_spans(cols1[x]@)[i].1 < h);
            } else {
                assert(col_spans(cols1[c]@)[i] == (iv.begin_y as int, iv.end_y as int));
                assert(col_partition(cols1[c]@, h));
                assert(spans_partition(col_spans(cols1[c]@), h));
                lemma_spans(col_spans(cols1[c]@), h);
                assert(0 <= col_spans(cols1[c]@)[i].0 <= col_spans(cols1[c]@)[i].1 < h);
            }
            let a = iv.begin_y as int;
            let b = iv.end_y as int;
            assert(0 <= a && b < h);
            assert(cols1[c]@[i].air_ys@ == air_heights(p1, c, a, b));
            assert forall|v: usize| #[trigger] cols2[c]@[i].air_ys@.contains(v) == air_heights(
                p2,
                c,
                a,
                b,
            ).contains(v) by {
                if a <= v <= b {
                    if c != x || v != y {
                        assert(is_air(p2[c][v as int]) == is_air(p1[c][v as int]));
                    }
                }
            }
            assert(cols2[c]@[i].air_ys@ =~= air_heights(p2, c, a, b));
        }
    }
}

/// After the row below a falling piece is rotated to bring air under it and the piece falls
/// into that air, the air of the board changed at the piece's old place, which now holds
/// air, and at the place the air came from, which is now filled.
proof fn lemma_shift_air<P: Piece>(
    g1: Seq<Seq<P>>,
    g2: Seq<Seq<P>>,
    g3: Seq<Seq<P>>,
    x: int,
    air_x: int,
    y_below: int,
    w: int,
    h: int,
)
    requires
        g1.len() == w,
        forall|c: int| 0 <= c < w ==> #[trigger] g1[c].len() == h,
        g2.len() == w,
        forall|c: int| 0 <= c < w ==> #[trigger] g2[c].len() == h,
        0 <= x < w,
        0 <= air_x < w,
        air_x != x,
        0 <= y_below,
        y_below + 1 < h,
        is_air(g1[air_x][y_below]),
        !is_air(g1[x][y_below]),
        !is_air(g1[x][y_below + 1]),
        forall|c: int|
            0 < distance(c, x) < distance(air_x, x) && min(air_x, x) <= c <= max(air_x, x) ==> !is_air(
                #[trigger] g1[c][y_below],
            ),
        forall|c: int, r: int|
            0 <= c < w && 0 <= r < h ==> #[trigger] g2[c][r] == rotated(g1, y_below, air_x, x, c, r),
        g3 == swap_cells(g2, (x, y_below), (x, y_below + 1)),
    ensures
        same_air_but(g1, set_cell(g1, (x, y_below + 1), g1[air_x][y_below]), x, y_below + 1, w, h),
        same_air_but(set_cell(g1, (x, y_below + 1), g1[air_x][y_below]), g3, air_x, y_below, w, h),
        is_air(set_cell(g1, (x, y_below + 1), g1[air_x][y_below])[x][y_below + 1]),
        !is_air(g3[air_x][y_below]),
        is_air(set_cell(g1, (x, y_below + 1), g1[air_x][y_below])[air_x][y_below]),
{
    let ga = set_cell(g1, (x, y_below + 1), g1[air_x][y_below]);
    assert forall|c: int, r: int|
        0 <= c < w && 0 <= r < h && (c != air_x || r != y_below) implies is_air(#[trigger] g3[c][r])
        == is_air(ga[c][r]) by {
        if c == x && r == y_below {
            assert(g3[c][r] == g2[x][y_below + 1]);
        } else if c == x && r == y_below + 1 {
            assert(g3[c][r] == g2[x][y_below]);
        } else {
            assert(g3[c][r] == g2[c][r]);
            if r == y_below && min(air_x, x) < c < max(air_x, x) {
                if air_x < x {
                    assert(!is_air(g1[c + 1][y_below])) by {
                        if c + 1 < x {
                            assert(0 < distance(c + 1, x) < distance(air_x, x));
                        }
                    }
                } else {
                    assert(!is_air(g1[c - 1][y_below])) by {
                        if c - 1 > x {
                            assert(0 < distance(c - 1, x) < distance(air_x, x));
                        }
                    }
                }
                assert(0 < distance(c, x) < distance(air_x, x));
            }
        }
    }
    assert(g3[air_x][y_below] == g2[air_x][y_below]);
    if air_x < x {
        if air_x + 1 < x {
            assert(0 < distance(air_x + 1, x) < distance(air_x, x));
        }
        assert(!is_air(g1[air_x + 1][y_below]));
    } else {
        if air_x - 1 > x {
            assert(0 < distance(air_x - 1, x) < distance(air_x, x));
        }
        assert(!is_air(g1[air_x - 1][y_below]));
    }
}

/// `usize` is totally ordered, as std's sets rely on.
spec fn usize_ordered() -> bool {
    vstd::laws_cmp::obeys_cmp::<usize>()
}

proof fn lemma_usize_ordered()
    ensures
        usize_ordered(),
{
    broadcast use vstd::laws_cmp::group_laws_cmp;
}

/// The smallest element of a set, if it has one (std's `BTreeSet::first`).
#[verifier::external_body]
fn first_of(set: &BTreeSet<usize>) -> (first: Option<usize>)
    ensures
        first matches Some(v) ==> set@.contains(v) && forall|u: usize| #[trigger]
            set@.contains(u) ==> v <= u,
        first is None ==> set@ == Set::<usize>::empty(),
{
    match set.first() {
        Some(v) => Some(*v),
        None => None,
    }
}

impl<P: Piece, const W: usize, const H: usize> BoardState<P, W, H> {
    /// Makes all the pieces on the board fall as if there was gravity. Returns a vector of
    /// swaps that were made to move the pieces, which is useful for producing an animation of
    /// the pieces falling. For example, if the resultant vector contains ((2, 3), (2, 4)),
    /// then (2, 3) and (2, 4) were swapped. The swaps are in the order in which they were
    /// applied to the board: replaying them on the board before the call gives the board
    /// after it. Afterwards every piece is at rest, and the board holds the same pieces.
    ///
    /// Every position of the board is looked at once, row by row from the bottom up and from
    /// left to right in a row; a piece is settled as `settle` describes, and a space that gets
    /// filled from the side is looked at again at once. The pieces and the swaps are those of
    /// `gravity_run` when its queue has run empty.
    #[verifier::rlimit(100)]
    #[verifier::spinoff_prover]
    pub fn apply_gravity_to_board(&mut self) -> (moves: Vec<(Pos<W, H>, Pos<W, H>)>)
        requires
            P::obeys_eq_spec(),
        ensures
            final(self)@.shaped(W as int, H as int),
            final(self)@.same_barriers(old(self)@),
            final(self)@.pieces == replay(old(self)@.pieces, moves_view(moves@)),
            gravity_steps(old(self)@, moves_view(moves@)),
            forall|q: (int, int)|
                0 <= q.0 < W && 0 <= q.1 < H ==> #[trigger] at_rest(final(self)@, W as int, q),
            grid_pieces(final(self)@.pieces) == grid_pieces(old(self)@.pieces),
            exists|k: nat|
                {
                    &&& (#[trigger] gravity_run(old(self)@, W as int, H as int, k)).1.len() == 0
                    &&& final(self)@.pieces == gravity_run(old(self)@, W as int, H as int, k).0
                    &&& moves_view(moves@) == gravity_run(old(self)@, W as int, H as int, k).2
                },
    {
        proof {
            use_type_invariant(&*self);
            self.lemma_shaped();
            lemma_usize_ordered();
        }
        let mut moves: Vec<(Pos<W, H>, Pos<W, H>)> = Vec::new();
        let mut air_by_row = self.scan_row_air();
        let mut air_by_col = self.scan_col_air();

        // Initially, fill the queue with every position on the board
        let mut pos_to_update: VecDeque<Pos<W, H>> = VecDeque::new();
        let mut y0: usize = 0;
        while y0 < H
            invariant
                y0 <= H,
                forall|i: int| 0 <= i < pos_to_update@.len() ==> #[trigger] pos_to_update@[i].in_bounds(),
                pos_views(pos_to_update@) + main_seq(W as int, H as int, 0, y0 as int) == main_seq(
                    W as int,
                    H as int,
                    0,
                    0,
                ),
                W == 0 ==> pos_to_update@.len() == 0,
            decreases H - y0,
        {
            let mut x0: usize = 0;
            while x0 < W
                invariant
                    x0 <= W,
                    y0 < H,
                    forall|i: int| 0 <= i < pos_to_update@.len() ==> #[trigger] pos_to_update@[i].in_bounds(),
                    pos_views(pos_to_update@) + main_seq(W as int, H as int, x0 as int, y0 as int)
                        == main_seq(W as int, H as int, 0, 0),
                    W == 0 ==> pos_to_update@.len() == 0,
                decreases W - x0,
            {
                let ghost before = pos_to_update@;
                proof {
                    lemma_main_seq_front(W as int, H as int, x0 as int, y0 as int);
                }
                pos_to_update.push_back(Pos::new(x0, y0));
                proof {
                    assert(pos_views(pos_to_update@) =~= pos_views(before).push((x0 as int, y0 as int)));
                    assert(pos_views(before) + main_seq(W as int, H as int, x0 as int, y0 as int) =~= pos_views(
                        pos_to_update@,
                    ) + main_seq(W as int, H as int, x0 + 1, y0 as int));
                }
                x0 = x0 + 1;
            }
            proof {
                lemma_main_seq_row_end(W as int, H as int, y0 as int);
            }
            y0 = y0 + 1;
        }
        let ghost mut mx: int = 0;
        let ghost mut my: int = if W == 0 { H as int } else { 0 };
        let ghost mut r: Option<(int, int)> = None;
        let ghost mut n: nat = 0;
        proof {
            assert(moves_view(moves@) =~= Seq::empty());
            lemma_potential_nonneg(self@.pieces);
            assert(main_seq(W as int, H as int, 0, H as int) =~= Seq::<(int, int)>::empty());
            assert(pos_views(pos_to_update@) =~= pos_views(pos_to_update@) + main_seq(W as int, H as int, 0, H as int));
            assert(main_seq(W as int, H as int, mx, my) =~= Seq::<(int, int)>::empty() || W > 0);
            assert(pos_views(pos_to_update@) =~= queue_view(r, W as int, H as int, mx, my));
            reveal(rest_inv);
        }
        loop
            invariant
                P::obeys_eq_spec(),
                usize_ordered(),
                self@.shaped(W as int, H as int),
                self@.same_barriers(old(self)@),
                self@.pieces == replay(old(self)@.pieces, moves_view(moves@)),
                gravity_steps(old(self)@, moves_view(moves@)),
                rows_ok(self@.pieces, air_by_row@, W as int, H as int),
                rows_open(air_by_row@, old(self)@.vertical_barriers, H as int),
                cols_open(air_by_col@, old(self)@.horizontal_barriers, W as int),
                cols_ok(self@.pieces, air_by_col@, W as int, H as int),
                forall|i: int| 0 <= i < pos_to_update@.len() ==> #[trigger] pos_to_update@[i].in_bounds(),
                potential(self@.pieces) >= 0,
                rows_bounded(air_by_row@, old(self)@.vertical_barriers, W as int, H as int),
                cols_bounded(air_by_col@, old(self)@.horizontal_barriers, W as int, H as int),
                    0 <= my <= H,
                0 <= mx,
                my < H ==> mx < W,
                my == H ==> mx == 0,
                pos_views(pos_to_update@) == queue_view(r, W as int, H as int, mx, my),
                r matches Some(rp) ==> 0 <= rp.0 < W && 0 <= rp.1 < my,
                rest_inv(self@, W as int, H as int, r, mx, my),
                gravity_run(old(self)@, W as int, H as int, n) == (
                    self@.pieces,
                    pos_views(pos_to_update@),
                    moves_view(moves@),
                ),
            ensures
                gravity_run(old(self)@, W as int, H as int, n) == (
                    self@.pieces,
                    Seq::<(int, int)>::empty(),
                    moves_view(moves@),
                ),
                self@.shaped(W as int, H as int),
                self@.same_barriers(old(self)@),
                self@.pieces == replay(old(self)@.pieces, moves_view(moves@)),
                gravity_steps(old(self)@, moves_view(moves@)),
                forall|q: (int, int)| 0 <= q.0 < W && 0 <= q.1 < H ==> #[trigger] at_rest(self@, W as int, q),
            decreases potential(self@.pieces), pos_to_update@.len(),
        {
            let ghost queue = pos_to_update@;
            let pos = match pos_to_update.pop_front() {
                Some(p) => p,
                None => {
                    proof {
                        if my < H {
                            lemma_main_seq_nonempty(W as int, H as int, mx, my);
                        }
                        assert(pos_views(pos_to_update@) =~= Seq::<(int, int)>::empty());
                        assert(queue_view(r, W as int, H as int, mx, my).len() == 0);
                        assert(r is None);
                        reveal(rest_inv);
                        assert forall|q: (int, int)| 0 <= q.0 < W && 0 <= q.1 < H implies #[trigger] at_rest(
                            self@,
                            W as int,
                            q,
                        ) by {
                            assert(!pending(r, mx, my, q));
                        }
                    }
                    break;
                },
            };
            let ghost bv0 = self@;
            let ghost mv0 = moves_view(moves@);
            let ghost rest0 = pos_views(pos_to_update@);
            let ghost rb = r;
            let ghost mxb = mx;
            let ghost myb = my;
            let ghost mut t: Option<(int, int)> = None;
            proof {
                use_type_invariant(&*self);
                assert(queue[0].in_bounds());
                assert forall|i: int| 0 <= i < pos_to_update@.len() implies #[trigger] pos_to_update@[i].in_bounds() by {
                    assert(pos_to_update@[i] == queue[i + 1]);
                }
                assert(pos_views(pos_to_update@) =~= pos_views(queue).drop_first());
                assert(pos_views(queue)[0] == pos@);
                if r is Some {
                    r = None;
                    assert(pos_views(pos_to_update@) =~= queue_view(r, W as int, H as int, mx, my));
                } else {
                    if my >= H {
                        assert(main_seq(W as int, H as int, mx, my) =~= Seq::<(int, int)>::empty());
                    }
                    lemma_main_seq_front(W as int, H as int, mx, my);
                    assert(pos@ == (mx, my));
                    if mx + 1 < W {
                        mx = mx + 1;
                    } else {
                        lemma_main_seq_row_end(W as int, H as int, my);
                        mx = 0;
                        my = my + 1;
                    }
                    assert(pos_views(pos_to_update@) =~= queue_view(r, W as int, H as int, mx, my));
                }
            }
            let x = pos.x();
            let y = pos.y();
            assert(self@.pieces[x as int] == self.pieces@[x as int]@);
            if self.pieces[x][y] != P::AIR {
                proof {
                    assert(!is_air(self@.pieces[pos@.0][pos@.1]));
                    assert(self@.same_barriers(old(self)@));
                    assert(rows_bounded(air_by_row@, old(self)@.vertical_barriers, W as int, H as int));
                }
                let outcome = self.settle_piece(
                    pos,
                    &mut air_by_row,
                    &mut air_by_col,
                    &mut moves,
                    &mut pos_to_update,
                    Ghost(old(self)@),
                );
                proof {
                    t = outcome@.0;
                    if outcome@.1 {
                        r = t;
                        assert(pos_views(pos_to_update@) =~= queue_view(r, W as int, H as int, mx, my));
                    }
                }
            } else {
                proof {
                    lemma_air_changes_same(self@.pieces, W as int, H as int, pos@);
                }
            }
            proof {
                lemma_rest_step(bv0, self@, W as int, H as int, pos@, t, rb, mxb, myb, r, mx, my);
                assert(bv0 == old(self)@.with_pieces(bv0.pieces));
                assert(pos_views(queue)[0] == pos@);
                assert(pos_views(queue).drop_first() == rest0);
                let st = settle(bv0, W as int, H as int, pos@);
                if st.1 is Some {
                    assert(pos_views(pos_to_update@) == seq![st.1->0] + rest0);
                } else {
                    assert(pos_views(pos_to_update@) == rest0);
                }
                assert(moves_view(moves@) == mv0 + st.2);
                assert(self@.pieces == st.0);
                n = n + 1;
            }
        }
        proof {
            lemma_gravity_keeps_pieces(old(self)@, moves_view(moves@));
            assert(gravity_run(old(self)@, W as int, H as int, n).1.len() == 0);
        }
        moves
    }

    /// Lets the piece at `pos` fall: down its column into the lowest air of its segment, then,
    /// when the row segment below it holds air, into that air after the row below is rotated
    /// to bring the air under it. Returns the position below `pos` that was filled, if any,
    /// and whether that position was put back in front of the queue.
    #[verifier::rlimit(100)]
    #[verifier::spinoff_prover]
    fn settle_piece(
        &mut self,
        pos: Pos<W, H>,
        air_by_row: &mut Vec<Vec<RowAirInterval>>,
        air_by_col: &mut Vec<Vec<ColAirInterval>>,
        moves: &mut Vec<(Pos<W, H>, Pos<W, H>)>,
        pos_to_update: &mut VecDeque<Pos<W, H>>,
        Ghost(orig): Ghost<BoardView<P>>,
    ) -> (outcome: Ghost<(Option<(int, int)>, bool)>)
        requires
            pos.in_bounds(),
            P::obeys_eq_spec(),
            usize_ordered(),
            old(self)@.shaped(W as int, H as int),
            old(self)@.same_barriers(orig),
            old(self)@.pieces == replay(orig.pieces, moves_view(old(moves)@)),
            gravity_steps(orig, moves_view(old(moves)@)),
            rows_ok(old(self)@.pieces, old(air_by_row)@, W as int, H as int),
            rows_open(old(air_by_row)@, orig.vertical_barriers, H as int),
            cols_open(old(air_by_col)@, orig.horizontal_barriers, W as int),
            cols_ok(old(self)@.pieces, old(air_by_col)@, W as int, H as int),
            rows_bounded(old(air_by_row)@, orig.vertical_barriers, W as int, H as int),
            cols_bounded(old(air_by_col)@, orig.horizontal_barriers, W as int, H as int),
            forall|i: int| 0 <= i < old(pos_to_update)@.len() ==> #[trigger] old(pos_to_update)@[i].in_bounds(),
            potential(old(self)@.pieces) >= 0,
            !is_air(old(self)@.pieces[pos@.0][pos@.1]),
        ensures
            final(self)@.shaped(W as int, H as int),
            final(self)@.same_barriers(orig),
            final(self)@.pieces == replay(orig.pieces, moves_view(final(moves)@)),
            gravity_steps(orig, moves_view(final(moves)@)),
            rows_ok(final(self)@.pieces, final(air_by_row)@, W as int, H as int),
            rows_open(final(air_by_row)@, orig.vertical_barriers, H as int),
            cols_open(final(air_by_col)@, orig.horizontal_barriers, W as int),
            cols_ok(final(self)@.pieces, final(air_by_col)@, W as int, H as int),
            rows_bounded(final(air_by_row)@, orig.vertical_barriers, W as int, H as int),
            cols_bounded(final(air_by_col)@, orig.horizontal_barriers, W as int, H as int),
            forall|i: int| 0 <= i < final(pos_to_update)@.len() ==> #[trigger] final(pos_to_update)@[i].in_bounds(),
            0 <= potential(final(self)@.pieces) <= potential(old(self)@.pieces),
            outcome@.1 ==> potential(final(self)@.pieces) < potential(old(self)@.pieces),
            outcome@.1 ==> outcome@.0 is Some && pos_views(final(pos_to_update)@) == seq![outcome@.0->0]
                + pos_views(old(pos_to_update)@),
            !outcome@.1 ==> final(pos_to_update)@ == old(pos_to_update)@,
            air_changes(old(self)@.pieces, final(self)@.pieces, W as int, H as int, pos@, outcome@.0),
            at_rest(final(self)@, W as int, pos@),
            outcome@.0 matches Some(tc) ==> {
                &&& 0 <= tc.0 < W
                &&& 0 <= tc.1 < pos@.1
                &&& is_air(old(self)@.piece(tc))
                &&& !is_air(final(self)@.piece(tc))
                &&& (outcome@.1 || at_rest(final(self)@, W as int, tc))
            },
            outcome@.1 ==> is_air(final(self)@.piece(pos@)),
            ({
                let st = settle(old(self)@, W as int, H as int, pos@);
                &&& final(self)@.pieces == st.0
                &&& moves_view(final(moves)@) == moves_view(old(moves)@) + st.2
                &&& outcome@.1 == st.1 is Some
                &&& outcome@.1 ==> outcome@.0 == st.1
            }),
    {
        let x = pos.x();
        let y = pos.y();
        let ghost mut t: Option<(int, int)> = None;
        let ghost mut pushed: bool = false;
        proof {
            use_type_invariant(&*self);
        }
        let ghost g0 = self@.pieces;
        let ghost b0 = self@;
        let ghost m0 = moves_view(moves@);
        proof {
            assert(col_partition(air_by_col@[x as int]@, H as int));
        }
        let ci = Self::col_air_interval(air_by_col, x, y).unwrap();
        let first = first_of(&air_by_col[x][ci].air_ys);
        let is_air_below = match first {
            Some(air_y) => air_y < y,
            None => false,
        };
        proof {
            assert(col_sets(g0, air_by_col@[x as int]@, x as int));
        }
        let ghost begin_y = air_by_col@[x as int]@[ci as int].begin_y;
        let ghost end_y = air_by_col@[x as int]@[ci as int].end_y;
        let ghost air_set = air_by_col@[x as int]@[ci as int].air_ys@;
        assert(air_set == air_heights(g0, x as int, begin_y as int, end_y as int));
        proof {
            lemma_lowest_from_cols(g0, air_by_col@, orig.horizontal_barriers, W as int, H as int, x as int, y as int, ci as int, first);
        }
        let new_y = if is_air_below {
            let air_y = first_of(&air_by_col[x][ci].air_ys).unwrap();
            let air_pos = Pos::new(x, air_y);
            proof {
                assert(air_set.contains(air_y));
                lemma_swap_potential(g0, pos@, air_pos@);
                assert(col_open(air_by_col@[x as int]@[ci as int], orig.horizontal_barriers[x as int]));
                assert(gravity_step(orig.with_pieces(g0), (pos@, air_pos@)));
                lemma_steps_push(orig, moves@, (pos, air_pos));
            }
            proof {
                lemma_fall_changes(g0, W as int, H as int, pos@, air_pos@);
            }
            self.swap(pos, air_pos);
            let ghost before_moves = moves@;
            moves.push((pos, air_pos));
            proof {
                lemma_moves_push(orig.pieces, before_moves, (pos, air_pos));
            }
            // Update bookkeeping about where air is on the board: first `(x, y)` turns
            // to air, then `(x, air_y)` is filled.
            let ghost gm = set_cell(g0, pos@, cell(g0, air_pos@));
            let ghost g1 = self@.pieces;
            let ghost cols0 = air_by_col@;
            let ghost rows0 = air_by_row@;
            assert(g1 == set_cell(gm, air_pos@, cell(g0, pos@)));
            air_by_col[x][ci].air_ys.insert(y);
            proof {
                lemma_cols_flip(
                    g0,
                    gm,
                    cols0,
                    air_by_col@,
                    x as int,
                    y as int,
                    ci as int,
                    W as int,
                    H as int,
                );
                lemma_cols_open_keep(cols0, air_by_col@, orig.horizontal_barriers, W as int, x as int, ci as int);
                assert(row_partition(rows0[y as int]@, W as int));
            }
            let ri = Self::row_air_interval(air_by_row, x, y).unwrap();
            proof {
                let iv = rows0[y as int]@[ri as int];
                assert(row_counts(g0, rows0[y as int]@, y as int));
                assert(spans_partition(row_spans(rows0[y as int]@), W as int));
                lemma_spans(row_spans(rows0[y as int]@), W as int);
                assert(row_spans(rows0[y as int]@)[ri as int] == (iv.begin_x as int, iv.end_x as int));
                assert(ri < rows0[y as int]@.len());
                assert(row_spans(rows0[y as int]@).len() == rows0[y as int]@.len());
                assert(0 <= row_spans(rows0[y as int]@)[ri as int].0);
                assert(row_spans(rows0[y as int]@)[ri as int].1 < W);
                lemma_count_flip(g0, gm, x as int, y as int, y as int, iv.begin_x as int, iv.end_x as int, W as int, H as int);
                lemma_count_bounds(gm, y as int, iv.begin_x as int, iv.end_x as int);
            }
            air_by_row[y][ri].air_count = air_by_row[y][ri].air_count + 1;
            proof {
                lemma_rows_flip(
                    g0,
                    gm,
                    rows0,
                    air_by_row@,
                    x as int,
                    y as int,
                    ri as int,
                    W as int,
                    H as int,
                );
                lemma_rows_open_keep(rows0, air_by_row@, orig.vertical_barriers, H as int, y as int, ri as int);
            }
            let ghost cols1 = air_by_col@;
            let ghost rows1 = air_by_row@;
            air_by_col[x][ci].air_ys.remove(&air_y);
            proof {
                lemma_cols_flip(
                    gm,
                    g1,
                    cols1,
                    air_by_col@,
                    x as int,
                    air_y as int,
                    ci as int,
                    W as int,
                    H as int,
                );
                lemma_cols_open_keep(cols1, air_by_col@, orig.horizontal_barriers, W as int, x as int, ci as int);
                assert(row_partition(rows1[air_y as int]@, W as int));
            }
            let ri2 = Self::row_air_interval(air_by_row, x, air_y).unwrap();
            proof {
                let iv = rows1[air_y as int]@[ri2 as int];
                assert(row_counts(gm, rows1[air_y as int]@, air_y as int));
                assert(spans_partition(row_spans(rows1[air_y as int]@), W as int));
                lemma_spans(row_spans(rows1[air_y as int]@), W as int);
                assert(row_spans(rows1[air_y as int]@)[ri2 as int] == (iv.begin_x as int, iv.end_x as int));
                assert(ri2 < rows1[air_y as int]@.len());
                assert(0 <= row_spans(rows1[air_y as int]@)[ri2 as int].0);
                assert(row_spans(rows1[air_y as int]@)[ri2 as int].1 < W);
                lemma_count_flip(gm, g1, x as int, air_y as int, air_y as int, iv.begin_x as int, iv.end_x as int, W as int, H as int);
            }
            air_by_row[air_y][ri2].air_count = air_by_row[air_y][ri2].air_count - 1;
            proof {
                lemma_rows_flip(
                    gm,
                    g1,
                    rows1,
                    air_by_row@,
                    x as int,
                    air_y as int,
                    ri2 as int,
                    W as int,
                    H as int,
                );
                lemma_rows_open_keep(rows1, air_by_row@, orig.vertical_barriers, H as int, air_y as int, ri2 as int);
            }
            air_y
        } else {
            y
        };
        let ghost g1 = self@.pieces;
        proof {
            assert(new_y == y ==> g1 == g0);
            assert(new_y < y ==> air_changes(g0, g1, W as int, H as int, pos@, Some((x as int, new_y as int)))
                && is_air(g1[x as int][y as int]) && is_air(g0[x as int][new_y as int]) && !is_air(
                g1[x as int][new_y as int],
            ));
            if new_y == y {
                lemma_air_changes_same(g0, W as int, H as int, pos@);
            }
            lemma_col_bounded_at(air_by_col@, orig.horizontal_barriers, W as int, H as int, x as int, ci as int);
            assert(cols_ok(g1, air_by_col@, W as int, H as int));
            assert(rows_ok(g1, air_by_row@, W as int, H as int));
            lemma_potential_nonneg(g1);
            assert(air_by_col@[x as int]@[ci as int].begin_y == begin_y);
        }

        // Don't shift pieces down if there is a barrier or the piece is now at the
        // bottom of the board
        if new_y > air_by_col[x][ci].begin_y {
            let y_below = new_y - 1;
            proof {
                assert(begin_y <= y_below < y <= end_y);
                if is_air(g1[x as int][y_below as int]) {
                    assert(g1[x as int][y_below as int] == g0[x as int][y_below as int]);
                    assert(air_set.contains(y_below));
                }
            }
            let closest = self.closest_air_in_row(x, y_below, air_by_row);
            proof {
                lemma_closest_from_rows(self@.pieces, air_by_row@, orig.vertical_barriers, W as int, H as int, x as int, y_below as int, closest);
            }
            if let Some(air_x) = closest {
                proof {
                    assert(row_partition(air_by_row@[y_below as int]@, W as int));
                    assert(spans_partition(row_spans(air_by_row@[y_below as int]@), W as int));
                    lemma_spans(row_spans(air_by_row@[y_below as int]@), W as int);
                    assert(covered_upto(
                        row_spans(air_by_row@[y_below as int]@),
                        row_spans(air_by_row@[y_below as int]@).len() - 1,
                        x as int,
                    ));
                    let i = choose|i: int|
                        0 <= i <= row_spans(air_by_row@[y_below as int]@).len() - 1
                            && #[trigger] in_span(
                            row_spans(air_by_row@[y_below as int]@),
                            i,
                            x as int,
                        );
                    assert(in_span(row_spans(air_by_row@[y_below as int]@), i, x as int));
                    let iv = air_by_row@[y_below as int]@[i];
                    assert(row_spans(air_by_row@[y_below as int]@)[i] == (
                        iv.begin_x as int,
                        iv.end_x as int,
                    ));
                    assert(iv.begin_x <= x <= iv.end_x);
                    assert(iv.begin_x <= air_x <= iv.end_x);
                    assert(forall|c: int|
                        iv.begin_x <= c <= iv.end_x && 0 < distance(c, x as int) < distance(
                            air_x as int,
                            x as int,
                        ) ==> !is_air(#[trigger] g1[c][y_below as int]));
                    assert(row_open(iv, orig.vertical_barriers[y_below as int]));
                    assert(forall|j: int|
                        (air_x <= j < x || x <= j < air_x) ==> !#[trigger] orig.vertical_barriers[y_below as int][j]);
                }

                // Shift pieces in the row below so that air is directly below the
                // piece that just fell
                let ghost before_moves = moves@;
                let mut rotation = self.rotate_row(y_below, air_x, x);
                let ghost g2 = self@.pieces;
                let ghost rot_moves = rotation@;
                proof {
                    use_type_invariant(&*self);
                    self.lemma_shaped();
                }
                moves.append(&mut rotation);
                proof {
                    assert(moves_view(moves@) =~= moves_view(before_moves) + moves_view(rot_moves));
                    lemma_replay_append(orig.pieces, moves_view(before_moves), moves_view(rot_moves));
                    lemma_steps_append(orig, moves_view(before_moves), moves_view(rot_moves));
                }

                // Move the piece that just fell into the empty space below.
                let air_pos = Pos::new(x, y_below);
                let cur_pos = Pos::new(x, new_y);
                proof {
                    lemma_swap_potential(g2, air_pos@, cur_pos@);
                    lemma_swap_symmetric(g2, air_pos@, cur_pos@);
                    assert(g2[x as int][y_below as int] == rotated(g1, y_below as int, air_x as int, x as int, x as int, y_below as int));
                    assert(g2[x as int][new_y as int] == rotated(g1, y_below as int, air_x as int, x as int, x as int, new_y as int));
                    assert(col_open(air_by_col@[x as int]@[ci as int], orig.horizontal_barriers[x as int]));
                    assert(gravity_step(orig.with_pieces(g2), (cur_pos@, air_pos@)));
                    lemma_steps_push(orig, moves@, (cur_pos, air_pos));
                }
                self.swap(air_pos, cur_pos);
                let ghost before_moves2 = moves@;
                moves.push((cur_pos, air_pos));
                proof {
                    lemma_moves_push(orig.pieces, before_moves2, (cur_pos, air_pos));
                }

                // The filled position may need to be updated. For example, it might
                // have been pushed over the edge of a barrier and need to fall further.
                // It should be updated first since it must be below all other
                // positions in the queue, and this method works under the assumption
                // that lower rows will be fully processed before upper rows.
                let ghost queue_before_push = pos_to_update@;
                pos_to_update.push_front(Pos::new(air_x, y_below));
                proof {
                    assert(pos_views(pos_to_update@) =~= seq![(air_x as int, y_below as int)] + pos_views(
                        queue_before_push,
                    ));
                }

                // Update bookkeeping about where air is on the board: first
                // `(x, new_y)` turns to air, then `(air_x, y_below)` is filled.
                let ghost g3 = self@.pieces;
                let ghost ga = set_cell(g1, (x as int, new_y as int), g1[air_x as int][y_below as int]);
                proof {
                    lemma_potential_nonneg(g3);
                    lemma_shift_air(g1, g2, g3, x as int, air_x as int, y_below as int, W as int, H as int);
                    lemma_rotate_changes(
                        g0,
                        g1,
                        ga,
                        g3,
                        W as int,
                        H as int,
                        pos@,
                        (x as int, new_y as int),
                        (air_x as int, y_below as int),
                    );
                    t = Some((air_x as int, y_below as int));
                    pushed = true;
                }
                let ghost cols2 = air_by_col@;
                let ghost rows2 = air_by_row@;
                air_by_col[x][ci].air_ys.insert(new_y);
                proof {
                    lemma_cols_flip(
                        g1,
                        ga,
                        cols2,
                        air_by_col@,
                        x as int,
                        new_y as int,
                        ci as int,
                        W as int,
                        H as int,
                    );
                    lemma_cols_open_keep(cols2, air_by_col@, orig.horizontal_barriers, W as int, x as int, ci as int);
                    assert(row_partition(rows2[new_y as int]@, W as int));
                }
                let ri = Self::row_air_interval(air_by_row, x, new_y).unwrap();
                proof {
                    let iv = rows2[new_y as int]@[ri as int];
                    assert(row_counts(g1, rows2[new_y as int]@, new_y as int));
                    assert(spans_partition(row_spans(rows2[new_y as int]@), W as int));
                    lemma_spans(row_spans(rows2[new_y as int]@), W as int);
                    assert(row_spans(rows2[new_y as int]@)[ri as int] == (iv.begin_x as int, iv.end_x as int));
                    assert(ri < rows2[new_y as int]@.len());
                    assert(0 <= row_spans(rows2[new_y as int]@)[ri as int].0);
                    assert(row_spans(rows2[new_y as int]@)[ri as int].1 < W);
                    lemma_count_flip(g1, ga, x as int, new_y as int, new_y as int, iv.begin_x as int, iv.end_x as int, W as int, H as int);
                    lemma_count_bounds(ga, new_y as int, iv.begin_x as int, iv.end_x as int);
                }
                air_by_row[new_y][ri].air_count = air_by_row[new_y][ri].air_count + 1;
                proof {
                    lemma_rows_flip(
                        g1,
                        ga,
                        rows2,
                        air_by_row@,
                        x as int,
                        new_y as int,
                        ri as int,
                        W as int,
                        H as int,
                    );
                    lemma_rows_open_keep(rows2, air_by_row@, orig.vertical_barriers, H as int, new_y as int, ri as int);
                    assert(col_partition(air_by_col@[air_x as int]@, H as int));
                }
                let ghost cols3 = air_by_col@;
                let ghost rows3 = air_by_row@;
                let cj = Self::col_air_interval(air_by_col, air_x, y_below).unwrap();
                air_by_col[air_x][cj].air_ys.remove(&y_below);
                proof {
                    lemma_cols_flip(
                        ga,
                        g3,
                        cols3,
                        air_by_col@,
                        air_x as int,
                        y_below as int,
                        cj as int,
                        W as int,
                        H as int,
                    );
                    lemma_cols_open_keep(cols3, air_by_col@, orig.horizontal_barriers, W as int, air_x as int, cj as int);
                    assert(row_partition(rows3[y_below as int]@, W as int));
                }
                let rj = Self::row_air_interval(air_by_row, air_x, y_below).unwrap();
                proof {
                    let iv = rows3[y_below as int]@[rj as int];
                    assert(row_counts(ga, rows3[y_below as int]@, y_below as int));
                    assert(spans_partition(row_spans(rows3[y_below as int]@), W as int));
                    lemma_spans(row_spans(rows3[y_below as int]@), W as int);
                    assert(row_spans(rows3[y_below as int]@)[rj as int] == (iv.begin_x as int, iv.end_x as int));
                    assert(rj < rows3[y_below as int]@.len());
                    assert(0 <= row_spans(rows3[y_below as int]@)[rj as int].0);
                    assert(row_spans(rows3[y_below as int]@)[rj as int].1 < W);
                    lemma_count_flip(ga, g3, air_x as int, y_below as int, y_below as int, iv.begin_x as int, iv.end_x as int, W as int, H as int);
                }
                air_by_row[y_below][rj].air_count = air_by_row[y_below][rj].air_count - 1;
                proof {
                    lemma_rows_flip(
                        ga,
                        g3,
                        rows3,
                        air_by_row@,
                        air_x as int,
                        y_below as int,
                        rj as int,
                        W as int,
                        H as int,
                    );
                    lemma_rows_open_keep(rows3, air_by_row@, orig.vertical_barriers, H as int, y_below as int, rj as int);
                }
            } else {
                proof {
                    lemma_full_row(self@, air_by_row@, W as int, H as int, y_below as int, x as int);
                    assert(at_rest(self@, W as int, (x as int, new_y as int)));
                    if new_y < y {
                        t = Some((x as int, new_y as int));
                    }
                }
            }
        } else {
            proof {
                assert(at_rest(self@, W as int, (x as int, new_y as int)));
                if new_y < y {
                    t = Some((x as int, new_y as int));
                }
            }
        }

        Ghost((t, pushed))
    }

    /// Gets the row air interval that contains the given point, if any: the index of the
    /// interval of row `y` whose range holds `x`.
    pub(super) fn row_air_interval(intervals: &Vec<Vec<RowAirInterval>>, x: usize, y: usize) -> (r:
        Option<usize>)
        requires
            y < intervals@.len(),
            row_partition(intervals@[y as int]@, W as int),
        ensures
            r matches Some(i) ==> i < intervals@[y as int]@.len() && intervals@[y as int]@[i as int].begin_x <= x
                <= intervals@[y as int]@[i as int].end_x,
            r is None ==> x >= W,
    {
        let row = &intervals[y];
        let ghost sp = row_spans(row@);
        proof {
            assert(spans_partition(sp, W as int));
            lemma_spans(sp, W as int);
        }
        let mut lo: usize = 0;
        let mut hi: usize = row.len();
        while lo < hi
            invariant
                row@ == intervals@[y as int]@,
                sp == row_spans(row@),
                lo <= hi <= row@.len(),
                forall|i: int, j: int| 0 <= i < j < sp.len() ==> #[trigger] sp[i].1 < #[trigger] sp[j].0,
                forall|i: int| 0 <= i < sp.len() ==> 0 <= #[trigger] sp[i].0 <= sp[i].1 < W,
                forall|i: int| 0 <= i < lo ==> #[trigger] sp[i].1 < x,
                forall|i: int| hi <= i < sp.len() ==> #[trigger] sp[i].0 > x,
            decreases hi - lo,
        {
            let mid = lo + (hi - lo) / 2;
            assert(sp[mid as int] == (row@[mid as int].begin_x as int, row@[mid as int].end_x as int));
            if row[mid].begin_x > x {
                proof {
                    assert(sp[mid as int].0 > x);
                    assert forall|i: int| mid <= i < sp.len() implies #[trigger] sp[i].0 > x by {
                        if i > mid {
                            assert(sp[mid as int].1 < sp[i].0);
                        }
                    }
                }
                hi = mid;
            } else if row[mid].end_x < x {
                proof {
                    assert forall|i: int| 0 <= i <= mid implies #[trigger] sp[i].1 < x by {
                        if i < mid {
                            assert(sp[i].1 < sp[mid as int].0);
                        }
                    }
                }
                lo = mid + 1;
            } else {
                return Some(mid);
            }
        }
        proof {
            if x < W {
                assert(covered_upto(sp, sp.len() - 1, x as int));
                let i = choose|i: int| 0 <= i <= sp.len() - 1 && #[trigger] in_span(sp, i, x as int);
                assert(in_span(sp, i, x as int));
            }
        }
        None
    }

    /// Gets the column air interval that contains the given point, if any: the index of the
    /// interval of column `x` whose range holds `y`.
    pub(super) fn col_air_interval(intervals: &Vec<Vec<ColAirInterval>>, x: usize, y: usize) -> (r:
        Option<usize>)
        requires
            x < intervals@.len(),
            col_partition(intervals@[x as int]@, H as int),
        ensures
            r matches Some(i) ==> i < intervals@[x as int]@.len() && intervals@[x as int]@[i as int].begin_y <= y
                <= intervals@[x as int]@[i as int].end_y,
            r is None ==> y >= H,
    {
        let col = &intervals[x];
        let ghost sp = col_spans(col@);
        proof {
            assert(spans_partition(sp, H as int));
            lemma_spans(sp, H as int);
        }
        let mut lo: usize = 0;
        let mut hi: usize = col.len();
        while lo < hi
            invariant
                col@ == intervals@[x as int]@,
                sp == col_spans(col@),
                lo <= hi <= col@.len(),
                forall|i: int, j: int| 0 <= i < j < sp.len() ==> #[trigger] sp[i].1 < #[trigger] sp[j].0,
                forall|i: int| 0 <= i < sp.len() ==> 0 <= #[trigger] sp[i].0 <= sp[i].1 < H,
                forall|i: int| 0 <= i < lo ==> #[trigger] sp[i].1 < y,
                forall|i: int| hi <= i < sp.len() ==> #[trigger] sp[i].0 > y,
            decreases hi - lo,
        {
            let mid = lo + (hi - lo) / 2;
            assert(sp[mid as int] == (col@[mid as int].begin_y as int, col@[mid as int].end_y as int));
            if col[mid].begin_y > y {
                proof {
                    assert(sp[mid as int].0 > y);
                    assert forall|i: int| mid <= i < sp.len() implies #[trigger] sp[i].0 > y by {
                        if i > mid {
                            assert(sp[mid as int].1 < sp[i].0);
                        }
                    }
                }
                hi = mid;
            } else if col[mid].end_y < y {
                proof {
                    assert forall|i: int| 0 <= i <= mid implies #[trigger] sp[i].1 < y by {
                        if i < mid {
                            assert(sp[i].1 < sp[mid as int].0);
                        }
                    }
                }
                lo = mid + 1;
            } else {
                return Some(mid);
            }
        }
        proof {
            if y < H {
                assert(covered_upto(sp, sp.len() - 1, y as int));
                let i = choose|i: int| 0 <= i <= sp.len() - 1 && #[trigger] in_span(sp, i, y as int);
                assert(in_span(sp, i, y as int));
            }
        }
        None
    }

    /// Finds the closest empty space to the given column in the given row, in either direction,
    /// within the row interval that holds the column; at equal distance the space to the left
    /// is preferred. Returns `None` when that interval holds no air.
    #[verifier::spinoff_prover]
    pub(super) fn closest_air_in_row(&self, x: usize, y: usize, air_by_row: &Vec<Vec<RowAirInterval>>) -> (r:
        Option<usize>)
        requires
            x < W,
            y < H,
            P::obeys_eq_spec(),
            rows_ok(self@.pieces, air_by_row@, W as int, H as int),
            !is_air(self@.pieces[x as int][y as int]),
        ensures
            forall|i: int|
                0 <= i < air_by_row@[y as int]@.len() && #[trigger] air_by_row@[y as int]@[i].begin_x <= x
                    <= air_by_row@[y as int]@[i].end_x ==> {
                    let iv = air_by_row@[y as int]@[i];
                    &&& r matches Some(a) ==> {
                        &&& iv.begin_x <= a <= iv.end_x
                        &&& a != x
                        &&& is_air(self@.pieces[a as int][y as int])
                        &&& forall|c: int|
                            iv.begin_x <= c <= iv.end_x && 0 < distance(c, x as int) < distance(
                                a as int,
                                x as int,
                            ) ==> !is_air(#[trigger] self@.pieces[c][y as int])
                        &&& a > x ==> !(x - (a - x) >= iv.begin_x && is_air(
                            self@.pieces[x - (a - x)][y as int],
                        ))
                    }
                    &&& r is None ==> forall|c: int|
                        iv.begin_x <= c <= iv.end_x ==> !is_air(#[trigger] self@.pieces[c][y as int])
                },
    {
        proof {
            use_type_invariant(self);
            self.lemma_shaped();
        }
        let interval_index = match Self::row_air_interval(air_by_row, x, y) {
            Some(i) => i,
            None => {
                return None;
            },
        };
        let interval = &air_by_row[y][interval_index];
        let ghost row = air_by_row@[y as int]@;
        proof {
            assert(row_partition(row, W as int));
            assert(spans_partition(row_spans(row), W as int));
            lemma_spans(row_spans(row), W as int);
            assert forall|i: int|
                0 <= i < row.len() && #[trigger] row[i].begin_x <= x <= row[i].end_x implies i
                == interval_index by {
                let sp = row_spans(row);
                assert(sp[i] == (row[i].begin_x as int, row[i].end_x as int));
                assert(sp[interval_index as int] == (
                    row[interval_index as int].begin_x as int,
                    row[interval_index as int].end_x as int,
                ));
                if i < interval_index {
                    assert(sp[i].1 < sp[interval_index as int].0);
                } else if i > interval_index {
                    assert(sp[interval_index as int].1 < sp[i].0);
                }
            }
            assert(row_counts(self@.pieces, row, y as int));
            lemma_count_bounds(self@.pieces, y as int, interval.begin_x as int, interval.end_x as int);
            assert(row_spans(row)[interval_index as int] == (
                row[interval_index as int].begin_x as int,
                row[interval_index as int].end_x as int,
            ));
            assert(interval_index < row_spans(row).len());
            assert(row_spans(row)[interval_index as int].0 <= row_spans(row)[interval_index as int].1 < W);
        }
        if interval.air_count == 0 {
            return None;
        }
        let mut diff: usize = 1;
        while diff < W
            invariant
                1 <= diff <= W,
                x < W,
                y < H,
                P::obeys_eq_spec(),
                self@.shaped(W as int, H as int),
                interval.begin_x <= x <= interval.end_x < W,
                row == air_by_row@[y as int]@,
                interval_index < row.len(),
                *interval == row[interval_index as int],
                forall|i: int|
                    0 <= i < row.len() && #[trigger] row[i].begin_x <= x <= row[i].end_x ==> i
                        == interval_index,
                forall|c: int|
                    interval.begin_x <= c <= interval.end_x && 0 < distance(c, x as int) < diff
                        ==> !is_air(#[trigger] self@.pieces[c][y as int]),
            decreases W - diff,
        {
            proof {
                use_type_invariant(self);
                if diff <= x {
                    assert(self@.pieces[x - diff] == self.pieces@[x - diff]@);
                }
                if x + diff < W {
                    assert(self@.pieces[x + diff] == self.pieces@[x + diff]@);
                }
            }
            if diff <= x - interval.begin_x && self.pieces[x - diff][y] == P::AIR {
                return Some(x - diff);
            }
            if diff <= interval.end_x - x && self.pieces[x + diff][y] == P::AIR {
                return Some(x + diff);
            }
            diff = diff + 1;
        }
        proof {
            // The interval's count says it holds air, which lies at some distance below the
            // board's width from `x`: the search has found it before getting here.
            let c = choose|c: int|
                interval.begin_x <= c <= interval.end_x && is_air(#[trigger] self@.pieces[c][y as int]);
            assert(0 < distance(c, x as int) < diff);
        }
        None
    }

    /// Rotates the given row by one so that the piece in `start_x` moves into the space in
    /// `end_x`, and the pieces in between move one space toward `start_x`. Returns the swaps
    /// made to perform the rotation: one for each pair of neighbouring spaces from `start_x` to
    /// `end_x`, in that order.
    pub(super) fn rotate_row(&mut self, y: usize, start_x: usize, end_x: usize) -> (moves: Vec<
        (Pos<W, H>, Pos<W, H>),
    >)
        requires
            y < H,
            start_x < W,
            end_x < W,
        ensures
            final(self)@.same_barriers(old(self)@),
            final(self)@.pieces == replay(old(self)@.pieces, moves_view(moves@)),
            moves_view(moves@) == rotation_moves(y as int, start_x as int, end_x as int),
            slide_ready(old(self)@, y as int, start_x as int, end_x as int) ==> gravity_steps(
                old(self)@,
                moves_view(moves@),
            ),
            potential(final(self)@.pieces) == potential(old(self)@.pieces),
            forall|c: int, r: int|
                0 <= c < W && 0 <= r < H ==> #[trigger] final(self)@.pieces[c][r] == rotated(
                    old(self)@.pieces,
                    y as int,
                    start_x as int,
                    end_x as int,
                    c,
                    r,
                ),
    {
        proof {
            use_type_invariant(&*self);
            self.lemma_shaped();
        }
        let ghost orig = self@.pieces;
        let mut moves: Vec<(Pos<W, H>, Pos<W, H>)> = Vec::new();
        assert(moves_view(moves@) =~= Seq::<((int, int), (int, int))>::empty());
        assert(moves_view(moves@) =~= rotation_moves(y as int, start_x as int, start_x as int));
        if start_x <= end_x {
            let mut x = start_x;
            while x < end_x
                invariant
                    start_x <= x <= end_x < W,
                    y < H,
                    self@.shaped(W as int, H as int),
                    self@.same_barriers(old(self)@),
                    orig == old(self)@.pieces,
                    self@.pieces == replay(orig, moves_view(moves@)),
                    moves_view(moves@) == rotation_moves(y as int, start_x as int, x as int),
                    slide_ready(old(self)@, y as int, start_x as int, end_x as int) ==> gravity_steps(
                        old(self)@,
                        moves_view(moves@),
                    ),
                    potential(self@.pieces) == potential(orig),
                    forall|c: int, r: int|
                        0 <= c < W && 0 <= r < H ==> #[trigger] self@.pieces[c][r] == rotated(
                            orig,
                            y as int,
                            start_x as int,
                            x as int,
                            c,
                            r,
                        ),
                decreases end_x - x,
            {
                let left_pos = Pos::new(x, y);
                let right_pos = Pos::new(x + 1, y);
                let ghost before = self@.pieces;
                let ghost before_moves = moves@;
                proof {
                    lemma_swap_potential(self@.pieces, left_pos@, right_pos@);
                    assert(before[x as int][y as int] == rotated(orig, y as int, start_x as int, x as int, x as int, y as int));
                    assert(before[x + 1][y as int] == rotated(orig, y as int, start_x as int, x as int, x + 1, y as int));
                    if slide_ready(old(self)@, y as int, start_x as int, end_x as int) {
                        assert(!old(self)@.barrier(left_pos@, right_pos@));
                        assert(gravity_step(old(self)@.with_pieces(before), (left_pos@, right_pos@)));
                        lemma_steps_push(old(self)@, before_moves, (left_pos, right_pos));
                    }
                }
                self.swap(left_pos, right_pos);
                moves.push((left_pos, right_pos));
                proof {
                    use_type_invariant(&*self);
                    self.lemma_shaped();
                    lemma_moves_push(orig, before_moves, (left_pos, right_pos));
                    assert(moves_view(moves@) =~= rotation_moves(y as int, start_x as int, x + 1));
                }
                x = x + 1;
            }
        } else {
            let mut x = start_x;
            while x > end_x
                invariant
                    end_x <= x <= start_x < W,
                    y < H,
                    self@.shaped(W as int, H as int),
                    self@.same_barriers(old(self)@),
                    orig == old(self)@.pieces,
                    self@.pieces == replay(orig, moves_view(moves@)),
                    moves_view(moves@) == rotation_moves(y as int, start_x as int, x as int),
                    slide_ready(old(self)@, y as int, start_x as int, end_x as int) ==> gravity_steps(
                        old(self)@,
                        moves_view(moves@),
                    ),
                    potential(self@.pieces) == potential(orig),
                    forall|c: int, r: int|
                        0 <= c < W && 0 <= r < H ==> #[trigger] self@.pieces[c][r] == rotated(
                            orig,
                            y as int,
                            start_x as int,
                            x as int,
                            c,
                            r,
                        ),
                decreases x - end_x,
            {
                let left_pos = Pos::new(x - 1, y);
                let right_pos = Pos::new(x, y);
                let ghost before = self@.pieces;
                let ghost before_moves = moves@;
                proof {
                    lemma_swap_potential(self@.pieces, left_pos@, right_pos@);
                    assert(before[x as int][y as int] == rotated(orig, y as int, start_x as int, x as int, x as int, y as int));
                    assert(before[x - 1][y as int] == rotated(orig, y as int, start_x as int, x as int, x - 1, y as int));
                    if slide_ready(old(self)@, y as int, start_x as int, end_x as int) {
                        assert(!old(self)@.barrier(left_pos@, right_pos@));
                        assert(gravity_step(old(self)@.with_pieces(before), (left_pos@, right_pos@)));
                        lemma_steps_push(old(self)@, before_moves, (left_pos, right_pos));
                    }
                }
                self.swap(left_pos, right_pos);
                moves.push((left_pos, right_pos));
                proof {
                    use_type_invariant(&*self);
                    self.lemma_shaped();
                    lemma_moves_push(orig, before_moves, (left_pos, right_pos));
                    assert(moves_view(moves@) =~= rotation_moves(y as int, start_x as int, x - 1));
                }
                x = x - 1;
            }
        }
        moves
    }

    /// Scans the whole board to find air intervals for each row.
    pub(super) fn scan_row_air(&self) -> (intervals: Vec<Vec<RowAirInterval>>)
        requires
            P::obeys_eq_spec(),
        ensures
            rows_ok(self@.pieces, intervals@, W as int, H as int),
            rows_open(intervals@, self@.vertical_barriers, H as int),
            rows_bounded(intervals@, self@.vertical_barriers, W as int, H as int),
    {
        proof {
            use_type_invariant(self);
            self.lemma_shaped();
        }
        let mut intervals: Vec<Vec<RowAirInterval>> = Vec::new();
        let mut y: usize = 0;
        while y < H
            invariant
                y <= H,
                    P::obeys_eq_spec(),
                self@.shaped(W as int, H as int),
                intervals@.len() == y,
                forall|k: int| 0 <= k < y ==> #[trigger] row_partition(intervals@[k]@, W as int),
                forall|k: int| 0 <= k < y ==> #[trigger] row_counts(self@.pieces, intervals@[k]@, k),
                forall|k: int, i: int| 0 <= k < y && 0 <= i < intervals@[k]@.len() ==> #[trigger] row_open(
                    intervals@[k]@[i],
                    self@.vertical_barriers[k],
                ),
                forall|k: int, i: int| 0 <= k < y && 0 <= i < intervals@[k]@.len() ==> #[trigger] row_bounded(
                    intervals@[k]@[i],
                    self@.vertical_barriers[k],
                    W as int,
                ),
            decreases H - y,
        {
            let mut row_intervals: Vec<RowAirInterval> = Vec::new();
            let mut begin_x: usize = 0;
            let mut air_count: usize = 0;
            let mut x: usize = 0;
            while x < W
                invariant
                    y < H,
                    x <= W,
                    begin_x <= x,
                    x == W ==> begin_x == x,
                    P::obeys_eq_spec(),
                    self@.shaped(W as int, H as int),
                    air_count == count_air(self@.pieces, y as int, begin_x as int, x - 1),
                    air_count <= x - begin_x,
                    begin_x == 0 ==> row_intervals@.len() == 0,
                    begin_x > 0 ==> {
                        &&& row_intervals@.len() > 0
                        &&& row_intervals@[0].begin_x == 0
                        &&& row_intervals@.last().end_x == begin_x - 1
                    },
                    forall|i: int|
                        0 <= i < row_intervals@.len() ==> #[trigger] row_intervals@[i].begin_x
                            <= row_intervals@[i].end_x,
                    forall|i: int|
                        0 < i < row_intervals@.len() ==> #[trigger] row_intervals@[i].begin_x
                            == row_intervals@[i - 1].end_x + 1,
                    row_counts(self@.pieces, row_intervals@, y as int),
                    forall|i: int| 0 <= i < row_intervals@.len() ==> #[trigger] row_open(
                        row_intervals@[i],
                        self@.vertical_barriers[y as int],
                    ),
                    forall|j: int| begin_x <= j < x ==> !#[trigger] self@.vertical_barriers[y as int][j],
                    forall|i: int| 0 <= i < row_intervals@.len() ==> #[trigger] row_bounded(
                        row_intervals@[i],
                        self@.vertical_barriers[y as int],
                        W as int,
                    ),
                    begin_x == 0 || begin_x == W || self@.vertical_barriers[y as int][begin_x - 1],
                decreases W - x,
            {
                proof {
                    use_type_invariant(self);
                    assert(self@.pieces[x as int] == self.pieces@[x as int]@);
                }
                if self.pieces[x][y] == P::AIR {
                    air_count = air_count + 1;
                }
                let pos = Pos::new(x, y);
                let barrier_right = if x + 1 < W {
                    self.has_barrier_between(pos, Pos::new(x + 1, y))
                } else {
                    false
                };
                proof {
                    if x + 1 < W {
                        assert(barrier_right == self@.vertical_barriers[y as int][x as int]);
                    }
                }
                if barrier_right || x == W - 1 {
                    let interval = RowAirInterval { begin_x, end_x: x, air_count };
                    assert(row_open(interval, self@.vertical_barriers[y as int]));
                    assert(row_bounded(interval, self@.vertical_barriers[y as int], W as int));
                    row_intervals.push(interval);
                    begin_x = x + 1;
                    air_count = 0;
                }
                x = x + 1;
            }
            intervals.push(row_intervals);
            y = y + 1;
            proof {
                assert(intervals@[y - 1]@ == row_intervals@);
            }
        }
        proof {
            reveal(rows_bounded);
        }
        intervals
    }

    /// Scans the whole board to find air intervals for each column.
    pub(super) fn scan_col_air(&self) -> (intervals: Vec<Vec<ColAirInterval>>)
        requires
            P::obeys_eq_spec(),
        ensures
            cols_ok(self@.pieces, intervals@, W as int, H as int),
            cols_open(intervals@, self@.horizontal_barriers, W as int),
            cols_bounded(intervals@, self@.horizontal_barriers, W as int, H as int),
    {
        proof {
            use_type_invariant(self);
            self.lemma_shaped();
            lemma_usize_ordered();
        }
        let mut intervals: Vec<Vec<ColAirInterval>> = Vec::new();
        let mut x: usize = 0;
        while x < W
            invariant
                x <= W,
                    P::obeys_eq_spec(),
                usize_ordered(),
                self@.shaped(W as int, H as int),
                intervals@.len() == x,
                forall|k: int| 0 <= k < x ==> #[trigger] col_partition(intervals@[k]@, H as int),
                forall|k: int| 0 <= k < x ==> #[trigger] col_sets(self@.pieces, intervals@[k]@, k),
                forall|k: int, i: int| 0 <= k < x && 0 <= i < intervals@[k]@.len() ==> #[trigger] col_open(
                    intervals@[k]@[i],
                    self@.horizontal_barriers[k],
                ),
                forall|k: int, i: int| 0 <= k < x && 0 <= i < intervals@[k]@.len() ==> #[trigger] col_bounded(
                    intervals@[k]@[i],
                    self@.horizontal_barriers[k],
                    H as int,
                ),
            decreases W - x,
        {
            let mut col_intervals: Vec<ColAirInterval> = Vec::new();
            let mut begin_y: usize = 0;
            let mut air_ys: BTreeSet<usize> = BTreeSet::new();
            let mut y: usize = 0;
            while y < H
                invariant
                    x < W,
                    y <= H,
                    begin_y <= y,
                    y == H ==> begin_y == y,
                    P::obeys_eq_spec(),
                    usize_ordered(),
                    self@.shaped(W as int, H as int),
                    air_ys@ == air_heights(self@.pieces, x as int, begin_y as int, y - 1),
                    begin_y == 0 ==> col_intervals@.len() == 0,
                    begin_y > 0 ==> {
                        &&& col_intervals@.len() > 0
                        &&& col_intervals@[0].begin_y == 0
                        &&& col_intervals@.last().end_y == begin_y - 1
                    },
                    forall|i: int|
                        0 <= i < col_intervals@.len() ==> #[trigger] col_intervals@[i].begin_y
                            <= col_intervals@[i].end_y,
                    forall|i: int|
                        0 < i < col_intervals@.len() ==> #[trigger] col_intervals@[i].begin_y
                            == col_intervals@[i - 1].end_y + 1,
                    col_sets(self@.pieces, col_intervals@, x as int),
                    forall|i: int| 0 <= i < col_intervals@.len() ==> #[trigger] col_open(
                        col_intervals@[i],
                        self@.horizontal_barriers[x as int],
                    ),
                    forall|j: int| begin_y <= j < y ==> !#[trigger] self@.horizontal_barriers[x as int][j],
                    forall|i: int| 0 <= i < col_intervals@.len() ==> #[trigger] col_bounded(
                        col_intervals@[i],
                        self@.horizontal_barriers[x as int],
                        H as int,
                    ),
                    begin_y == 0 || begin_y == H || self@.horizontal_barriers[x as int][begin_y - 1],
                decreases H - y,
            {
                proof {
                    use_type_invariant(self);
                    assert(self@.pieces[x as int] == self.pieces@[x as int]@);
                }
                if self.pieces[x][y] == P::AIR {
                    air_ys.insert(y);
                }
                proof {
                    assert(air_ys@ =~= air_heights(self@.pieces, x as int, begin_y as int, y as int));
                }
                let pos = Pos::new(x, y);
                let barrier_above = if y + 1 < H {
                    self.has_barrier_between(pos, Pos::new(x, y + 1))
                } else {
                    false
                };
                proof {
                    if y + 1 < H {
                        assert(barrier_above == self@.horizontal_barriers[x as int][y as int]);
                    }
                }
                if barrier_above || y == H - 1 {
                    let interval = ColAirInterval { begin_y, end_y: y, air_ys: air_ys.clone() };
                    assert(col_open(interval, self@.horizontal_barriers[x as int]));
                    assert(col_bounded(interval, self@.horizontal_barriers[x as int], H as int));
                    col_intervals.push(interval);
                    begin_y = y + 1;
                    air_ys.clear();
                    proof {
                        assert(air_ys@ =~= air_heights(self@.pieces, x as int, begin_y as int, y as int));
                    }
                }
                y = y + 1;
            }
            intervals.push(col_intervals);
            x = x + 1;
            proof {
                assert(intervals@[x - 1]@ == col_intervals@);
            }
        }
        proof {
            reveal(cols_bounded);
        }
        intervals
    }
}

} // verus!
