use vstd::prelude::*;
use crate::board::{BoardView, Piece, has_match_type, piece_laws, swap_cells, vertically_adjacent, horizontally_adjacent};
use crate::matching::{MatchMove, MatchPattern, pos_views};
use crate::position::{Pos, place_view, checked_place};
use super::{
    MatchBoard, in_board, on_board, placed, origin_for, unchecked, all_unchecked, cells_have_type,
};

verus! {

broadcast use crate::position::lemma_pos_view_injective, crate::position::lemma_pos_view_bounds;

/// The positions directly next to `p` on a `W` by `H` board: left, right, below and above,
/// in that order.
pub open spec fn neighbors<const W: usize, const H: usize>(p: (int, int)) -> Seq<(int, int)> {
    let left = if p.0 >= 1 { seq![(p.0 - 1, p.1)] } else { Seq::empty() };
    let right = if p.0 + 1 < W { seq![(p.0 + 1, p.1)] } else { Seq::empty() };
    let below = if p.1 >= 1 { seq![(p.0, p.1 - 1)] } else { Seq::empty() };
    let above = if p.1 + 1 < H { seq![(p.0, p.1 + 1)] } else { Seq::empty() };
    left + right + below + above
}

/// The first `k` positions, keeping those whose piece has the match type when `want` holds,
/// and those whose piece does not when it does not.
pub open spec fn cells_where<P: Piece>(
    b: BoardView<P>,
    t: P::MatchType,
    cells: Seq<(int, int)>,
    k: int,
    want: bool,
) -> Seq<(int, int)>
    decreases k,
{
    if k <= 0 {
        Seq::empty()
    } else {
        let prev = cells_where(b, t, cells, k - 1, want);
        if has_match_type(t, b.piece(cells[k - 1])) == want {
            prev.push(cells[k - 1])
        } else {
            prev
        }
    }
}

/// Whether the piece at `c` could be swapped into `missing` to complete a match whose other
/// pieces are at `matched`: it is not one of them, no barrier separates it from `missing`,
/// and it has the match type.
pub open spec fn completes<P: Piece>(
    b: BoardView<P>,
    t: P::MatchType,
    matched: Seq<(int, int)>,
    missing: (int, int),
    c: (int, int),
) -> bool {
    !matched.contains(c) && !b.barrier(c, missing) && has_match_type(t, b.piece(c))
}

/// The first of the candidates from index `i` on that completes the match.
pub open spec fn first_completing<P: Piece>(
    b: BoardView<P>,
    t: P::MatchType,
    matched: Seq<(int, int)>,
    missing: (int, int),
    candidates: Seq<(int, int)>,
    i: int,
) -> Option<(int, int)>
    decreases candidates.len() - i,
{
    if i >= candidates.len() {
        None
    } else if completes(b, t, matched, missing, candidates[i]) {
        Some(candidates[i])
    } else {
        first_completing(b, t, matched, missing, candidates, i + 1)
    }
}

/// A close match by the position whose piece is missing, the position of the piece that
/// completes it, and the positions whose pieces already match.
pub type CloseView = ((int, int), (int, int), Seq<(int, int)>);

/// The close match of a pattern placed with its origin at `o`: all its positions lie on the
/// board, the pieces of all but one of them have the match type, and a piece next to the
/// remaining one completes it.
pub open spec fn close_variant<P: Piece, const W: usize, const H: usize>(
    b: BoardView<P>,
    t: P::MatchType,
    ps: Seq<(int, int)>,
    o: (int, int),
) -> Option<CloseView> {
    match placed::<W, H>(ps, o) {
        Some(cells) => {
            let matched = cells_where(b, t, cells, cells.len() as int, true);
            let unmatched = cells_where(b, t, cells, cells.len() as int, false);
            if unmatched.len() != 1 {
                None
            } else {
                match first_completing(b, t, matched, unmatched[0], neighbors::<W, H>(unmatched[0]), 0) {
                    Some(c) => Some((unmatched[0], c, matched)),
                    None => None,
                }
            }
        },
        None => None,
    }
}

/// The first close match of a pattern through `pos`, trying the pattern's positions from
/// index `k` on as the one placed at `pos`.
pub open spec fn first_close<P: Piece, const W: usize, const H: usize>(
    b: BoardView<P>,
    t: P::MatchType,
    ps: Seq<(int, int)>,
    pos: (int, int),
    k: int,
) -> Option<CloseView>
    decreases ps.len() - k,
{
    if k < 0 || k >= ps.len() {
        None
    } else {
        let here = match origin_for::<W, H>(pos, ps[k]) {
            Some(o) => close_variant::<P, W, H>(b, t, ps, o),
            None => None,
        };
        match here {
            Some(c) => Some(c),
            None => first_close::<P, W, H>(b, t, ps, pos, k + 1),
        }
    }
}

/// A match move by its pattern, the missing position, the completing position and the
/// positions whose pieces already match.
pub type MoveView<'a, M, const W: usize, const H: usize> = (
    &'a MatchPattern<M, W, H>,
    (int, int),
    (int, int),
    Seq<(int, int)>,
);

/// A match move by its pattern, the missing position, the completing position and the
/// positions whose pieces already match.
pub open spec fn move_view<'a, M, const W: usize, const H: usize>(m: MatchMove<'a, M, W, H>) -> MoveView<'a, M, W, H> {
    (m.spec_pattern(), m.spec_missing_pos()@, m.spec_completing_pos()@, m.board_positions())
}

/// The views of a list of match moves.
pub open spec fn move_views<'a, M, const W: usize, const H: usize>(ms: Seq<MatchMove<'a, M, W, H>>) -> Seq<MoveView<'a, M, W, H>> {
    ms.map_values(|m: MatchMove<'a, M, W, H>| move_view(m))
}

/// The first close match through `pos` among the patterns from index `i` on.
pub open spec fn first_close_pattern<'a, P: Piece, const W: usize, const H: usize>(
    b: BoardView<P>,
    patterns: Seq<&'a MatchPattern<P::MatchType, W, H>>,
    pos: (int, int),
    i: int,
) -> Option<MoveView<'a, P::MatchType, W, H>>
    decreases patterns.len() - i,
{
    if i < 0 || i >= patterns.len() {
        None
    } else {
        match first_close::<P, W, H>(
            b,
            patterns[i].spec_match_type(),
            patterns[i].positions(),
            pos,
            0,
        ) {
            Some(c) => Some((patterns[i], c.0, c.1, c.2)),
            None => first_close_pattern::<P, W, H>(b, patterns, pos, i + 1),
        }
    }
}

/// The move a scan of the board finds at `(x, y)`: the first close match through it, when
/// neither its positions nor its missing position have been checked before.
pub open spec fn found_move<'a, P: Piece, const W: usize, const H: usize>(
    b: BoardView<P>,
    patterns: Seq<&'a MatchPattern<P::MatchType, W, H>>,
    x: int,
    y: int,
) -> Seq<MoveView<'a, P::MatchType, W, H>> {
    match first_close_pattern::<P, W, H>(b, patterns, (x, y), 0) {
        Some(m) => if all_unchecked(m.3, x, y) && unchecked(m.1, x, y) {
            seq![m]
        } else {
            Seq::empty()
        },
        None => Seq::empty(),
    }
}

/// The moves found by scanning column `x` from the bottom up to height `y`.
pub open spec fn move_scan_column<'a, P: Piece, const W: usize, const H: usize>(
    b: BoardView<P>,
    patterns: Seq<&'a MatchPattern<P::MatchType, W, H>>,
    x: int,
    y: int,
) -> Seq<MoveView<'a, P::MatchType, W, H>>
    decreases y,
{
    if y <= 0 {
        Seq::empty()
    } else {
        move_scan_column::<P, W, H>(b, patterns, x, y - 1) + found_move::<P, W, H>(b, patterns, x, y - 1)
    }
}

/// The moves found by scanning the first `x` columns of the board, column by column.
pub open spec fn move_scan_board<'a, P: Piece, const W: usize, const H: usize>(
    b: BoardView<P>,
    patterns: Seq<&'a MatchPattern<P::MatchType, W, H>>,
    x: int,
) -> Seq<MoveView<'a, P::MatchType, W, H>>
    decreases x,
{
    if x <= 0 {
        Seq::empty()
    } else {
        move_scan_board::<P, W, H>(b, patterns, x - 1) + move_scan_column::<P, W, H>(b, patterns, x - 1, H as int)
    }
}

/// What holds of a close match of a pattern with match type `t`: its positions lie on the
/// board, the pieces at the matched positions have the match type and the piece at the
/// missing one has not, and the completing position lies next to the missing one, is not one
/// of the matched positions, holds a piece of the match type and is not separated from the
/// missing position by a barrier.
pub open spec fn close_holds<P: Piece, const W: usize, const H: usize>(
    b: BoardView<P>,
    t: P::MatchType,
    cv: CloseView,
) -> bool {
    let (missing, completing, matched) = cv;
    &&& on_board::<W, H>(matched)
    &&& in_board::<W, H>(missing)
    &&& neighbors::<W, H>(missing).contains(completing)
    &&& !b.barrier(completing, missing)
    &&& !matched.contains(completing)
    &&& cells_have_type(b, t, matched)
    &&& !has_match_type(t, b.piece(missing))
    &&& has_match_type(t, b.piece(completing))
}

/// Swapping the pieces at a move's missing and completing positions puts pieces of the
/// pattern's match type at all the positions of the match: those that already matched and
/// the missing one.
pub open spec fn completed_by_swap<'a, P: Piece, const W: usize, const H: usize>(
    b: BoardView<P>,
    m: MoveView<'a, P::MatchType, W, H>,
) -> bool {
    let after = BoardView {
        pieces: swap_cells(b.pieces, m.1, m.2),
        horizontal_barriers: b.horizontal_barriers,
        vertical_barriers: b.vertical_barriers,
    };
    cells_have_type(after, m.0.spec_match_type(), m.3.push(m.1))
}

/// A move is a close match of its pattern that the swap it names completes.
pub open spec fn move_holds<'a, P: Piece, const W: usize, const H: usize>(
    b: BoardView<P>,
    m: MoveView<'a, P::MatchType, W, H>,
) -> bool {
    close_holds::<P, W, H>(b, m.0.spec_match_type(), (m.1, m.2, m.3)) && completed_by_swap::<P, W, H>(b, m)
}

/// The positions next to a position on the board lie on the board, differ from it and are
/// directly beside or above or below it.
proof fn lemma_neighbors<const W: usize, const H: usize>(p: (int, int))
    requires
        in_board::<W, H>(p),
    ensures
        forall|c: (int, int)|
            #[trigger] neighbors::<W, H>(p).contains(c) ==> in_board::<W, H>(c) && c != p && (
            vertically_adjacent(c, p) || horizontally_adjacent(c, p)),
{
    let ns = neighbors::<W, H>(p);
    assert forall|i: int| 0 <= i < ns.len() implies in_board::<W, H>(#[trigger] ns[i]) && ns[i] != p && (
    vertically_adjacent(ns[i], p) || horizontally_adjacent(ns[i], p)) by {
        let left = if p.0 >= 1 { seq![(p.0 - 1, p.1)] } else { Seq::<(int, int)>::empty() };
        let right = if p.0 + 1 < W { seq![(p.0 + 1, p.1)] } else { Seq::<(int, int)>::empty() };
        let below = if p.1 >= 1 { seq![(p.0, p.1 - 1)] } else { Seq::<(int, int)>::empty() };
        let above = if p.1 + 1 < H { seq![(p.0, p.1 + 1)] } else { Seq::<(int, int)>::empty() };
        assert(ns == left + right + below + above);
        if i < left.len() {
            assert(ns[i] == left[i]);
        } else if i < left.len() + right.len() {
            assert(ns[i] == right[i - left.len()]);
        } else if i < left.len() + right.len() + below.len() {
            assert(ns[i] == below[i - left.len() - right.len()]);
        } else {
            assert(ns[i] == above[i - left.len() - right.len() - below.len()]);
        }
    }
}

/// The positions kept by `cells_where` come from the first `k` positions, and their pieces
/// have the match type exactly when `want` holds.
proof fn lemma_cells_where<P: Piece>(b: BoardView<P>, t: P::MatchType, cells: Seq<(int, int)>, k: int, want: bool)
    requires
        0 <= k <= cells.len(),
    ensures
        forall|i: int|
            0 <= i < cells_where(b, t, cells, k, want).len() ==> {
                &&& has_match_type(t, b.piece(#[trigger] cells_where(b, t, cells, k, want)[i])) == want
                &&& exists|j: int| 0 <= j < k && cells_where(b, t, cells, k, want)[i] == cells[j]
            },
    decreases k,
{
    if k > 0 {
        lemma_cells_where(b, t, cells, k - 1, want);
        let prev = cells_where(b, t, cells, k - 1, want);
        let cur = cells_where(b, t, cells, k, want);
        assert forall|i: int| 0 <= i < cur.len() implies {
            &&& has_match_type(t, b.piece(#[trigger] cur[i])) == want
            &&& exists|j: int| 0 <= j < k && cur[i] == cells[j]
        } by {
            if i < prev.len() {
                assert(cur[i] == prev[i]);
                let j = choose|j: int| 0 <= j < k - 1 && prev[i] == cells[j];
                assert(cur[i] == cells[j]);
            } else {
                assert(cur[i] == cells[k - 1]);
            }
        }
    }
}

/// The position chosen by `first_completing` completes the match and is one of the candidates.
proof fn lemma_first_completing<P: Piece>(
    b: BoardView<P>,
    t: P::MatchType,
    matched: Seq<(int, int)>,
    missing: (int, int),
    candidates: Seq<(int, int)>,
    i: int,
)
    requires
        0 <= i,
    ensures
        first_completing(b, t, matched, missing, candidates, i) matches Some(c) ==> completes(
            b,
            t,
            matched,
            missing,
            c,
        ) && candidates.contains(c),
    decreases candidates.len() - i,
{
    if i < candidates.len() {
        lemma_first_completing(b, t, matched, missing, candidates, i + 1);
    }
}

/// A close variant holds.
proof fn lemma_close_variant<P: Piece, const W: usize, const H: usize>(
    b: BoardView<P>,
    t: P::MatchType,
    ps: Seq<(int, int)>,
    o: (int, int),
)
    ensures
        close_variant::<P, W, H>(b, t, ps, o) matches Some(cv) ==> close_holds::<P, W, H>(b, t, cv),
{
    if let Some(cells) = placed::<W, H>(ps, o) {
        let matched = cells_where(b, t, cells, cells.len() as int, true);
        let unmatched = cells_where(b, t, cells, cells.len() as int, false);
        lemma_cells_where(b, t, cells, cells.len() as int, true);
        lemma_cells_where(b, t, cells, cells.len() as int, false);
        if unmatched.len() == 1 {
            let missing = unmatched[0];
            lemma_first_completing(b, t, matched, missing, neighbors::<W, H>(missing), 0);
            if let Some(c) = first_completing(b, t, matched, missing, neighbors::<W, H>(missing), 0) {
                assert(on_board::<W, H>(cells));
                assert forall|i: int| 0 <= i < matched.len() implies in_board::<W, H>(#[trigger] matched[i]) by {
                    let j = choose|j: int| 0 <= j < cells.len() && matched[i] == cells[j];
                }
                let j = choose|j: int| 0 <= j < cells.len() && unmatched[0] == cells[j];
                assert(in_board::<W, H>(missing));
            }
        }
    }
}

/// The first close match of a pattern holds.
proof fn lemma_first_close<P: Piece, const W: usize, const H: usize>(
    b: BoardView<P>,
    t: P::MatchType,
    ps: Seq<(int, int)>,
    pos: (int, int),
    k: int,
)
    ensures
        first_close::<P, W, H>(b, t, ps, pos, k) matches Some(cv) ==> close_holds::<P, W, H>(b, t, cv),
    decreases ps.len() - k,
{
    if 0 <= k < ps.len() {
        if let Some(o) = origin_for::<W, H>(pos, ps[k]) {
            lemma_close_variant::<P, W, H>(b, t, ps, o);
        }
        lemma_first_close::<P, W, H>(b, t, ps, pos, k + 1);
    }
}

/// A close match holds on a board of the right dimensions, and the swap it names completes it.
proof fn lemma_close_completes<'a, P: Piece, const W: usize, const H: usize>(
    b: BoardView<P>,
    m: MoveView<'a, P::MatchType, W, H>,
)
    requires
        b.shaped(W as int, H as int),
        close_holds::<P, W, H>(b, m.0.spec_match_type(), (m.1, m.2, m.3)),
    ensures
        completed_by_swap::<P, W, H>(b, m),
{
    let t = m.0.spec_match_type();
    let (missing, completing, matched) = (m.1, m.2, m.3);
    lemma_neighbors::<W, H>(missing);
    assert(in_board::<W, H>(completing));
    crate::board::lemma_swap_then_get(b.pieces, W as int, H as int, missing, completing);
    let after = BoardView {
        pieces: swap_cells(b.pieces, missing, completing),
        horizontal_barriers: b.horizontal_barriers,
        vertical_barriers: b.vertical_barriers,
    };
    let all = matched.push(missing);
    assert forall|i: int| 0 <= i < all.len() implies has_match_type(t, after.piece(#[trigger] all[i])) by {
        if i < matched.len() {
            assert(all[i] == matched[i]);
            assert(in_board::<W, H>(matched[i]));
            assert(has_match_type(t, b.piece(matched[i])));
            assert(matched[i] != missing);
            assert(matched.contains(matched[i]));
            assert(matched[i] != completing);
        } else {
            assert(all[i] == missing);
        }
    }
}

/// The first close match among the patterns holds, and the swap it names completes it.
proof fn lemma_first_close_pattern<'a, P: Piece, const W: usize, const H: usize>(
    b: BoardView<P>,
    patterns: Seq<&'a MatchPattern<P::MatchType, W, H>>,
    pos: (int, int),
    i: int,
)
    requires
        b.shaped(W as int, H as int),
    ensures
        first_close_pattern::<P, W, H>(b, patterns, pos, i) matches Some(m) ==> move_holds::<P, W, H>(b, m),
    decreases patterns.len() - i,
{
    if 0 <= i < patterns.len() {
        lemma_first_close::<P, W, H>(b, patterns[i].spec_match_type(), patterns[i].positions(), pos, 0);
        if let Some(m) = first_close_pattern::<P, W, H>(b, patterns, pos, i) {
            if first_close::<P, W, H>(b, patterns[i].spec_match_type(), patterns[i].positions(), pos, 0) is Some {
                lemma_close_completes::<P, W, H>(b, m);
            } else {
                lemma_first_close_pattern::<P, W, H>(b, patterns, pos, i + 1);
            }
        }
    }
}

/// Every position of the board directly left of, right of, below or above `p` is one of its
/// neighbours.
pub proof fn lemma_neighbors_complete<const W: usize, const H: usize>(p: (int, int), c: (int, int))
    requires
        in_board::<W, H>(p),
        in_board::<W, H>(c),
        vertically_adjacent(c, p) || horizontally_adjacent(c, p),
    ensures
        neighbors::<W, H>(p).contains(c),
{
    let left = if p.0 >= 1 { seq![(p.0 - 1, p.1)] } else { Seq::<(int, int)>::empty() };
    let right = if p.0 + 1 < W { seq![(p.0 + 1, p.1)] } else { Seq::<(int, int)>::empty() };
    let below = if p.1 >= 1 { seq![(p.0, p.1 - 1)] } else { Seq::<(int, int)>::empty() };
    let above = if p.1 + 1 < H { seq![(p.0, p.1 + 1)] } else { Seq::<(int, int)>::empty() };
    let ns = neighbors::<W, H>(p);
    assert(ns == left + right + below + above);
    if c == (p.0 - 1, p.1) {
        assert(ns[0] == c);
    } else if c == (p.0 + 1, p.1) {
        assert(ns[left.len() as int] == c);
    } else if c == (p.0, p.1 - 1) {
        assert(ns[(left.len() + right.len()) as int] == c);
    } else {
        assert(ns[(left.len() + right.len() + below.len()) as int] == c);
    }
}

proof fn lemma_first_completing_some<P: Piece>(
    b: BoardView<P>,
    t: P::MatchType,
    matched: Seq<(int, int)>,
    missing: (int, int),
    candidates: Seq<(int, int)>,
    i: int,
    j: int,
)
    requires
        0 <= i <= j < candidates.len(),
        completes(b, t, matched, missing, candidates[j]),
    ensures
        first_completing(b, t, matched, missing, candidates, i) is Some,
    decreases j - i,
{
    if i < j {
        lemma_first_completing_some(b, t, matched, missing, candidates, i + 1, j);
    }
}

proof fn lemma_one_unmatched<P: Piece>(b: BoardView<P>, t: P::MatchType, cells: Seq<(int, int)>, mi: int, k: int)
    requires
        0 <= mi < cells.len(),
        0 <= k <= cells.len(),
        !has_match_type(t, b.piece(cells[mi])),
        forall|l: int| 0 <= l < cells.len() && l != mi ==> has_match_type(t, b.piece(#[trigger] cells[l])),
    ensures
        cells_where(b, t, cells, k, false) == if k > mi {
            seq![cells[mi]]
        } else {
            Seq::<(int, int)>::empty()
        },
    decreases k,
{
    if k > 0 {
        lemma_one_unmatched(b, t, cells, mi, k - 1);
        if k - 1 == mi {
            assert(cells_where(b, t, cells, k, false) =~= seq![cells[mi]]);
        }
    }
}

/// Completeness of close matches: when a pattern placed on the board lacks a piece of its match
/// type at exactly one of its positions, and a piece of that type lies directly next to that
/// position, outside the pattern and with no barrier between, a close match is found there.
pub proof fn lemma_close_variant_complete<P: Piece, const W: usize, const H: usize>(
    b: BoardView<P>,
    t: P::MatchType,
    ps: Seq<(int, int)>,
    o: (int, int),
    mi: int,
    c: (int, int),
)
    requires
        placed::<W, H>(ps, o) is Some,
        0 <= mi < ps.len(),
        !has_match_type(t, b.piece(placed::<W, H>(ps, o)->0[mi])),
        forall|l: int|
            0 <= l < ps.len() && l != mi ==> has_match_type(t, b.piece(#[trigger] placed::<W, H>(ps, o)->0[l])),
        in_board::<W, H>(c),
        vertically_adjacent(c, placed::<W, H>(ps, o)->0[mi]) || horizontally_adjacent(c, placed::<W, H>(ps, o)->0[mi]),
        !placed::<W, H>(ps, o)->0.contains(c),
        !b.barrier(c, placed::<W, H>(ps, o)->0[mi]),
        has_match_type(t, b.piece(c)),
    ensures
        close_variant::<P, W, H>(b, t, ps, o) matches Some(cv) && cv.0 == placed::<W, H>(ps, o)->0[mi],
{
    let cells = placed::<W, H>(ps, o)->0;
    assert(cells.len() == ps.len());
    let matched = cells_where(b, t, cells, cells.len() as int, true);
    lemma_one_unmatched(b, t, cells, mi, cells.len() as int);
    let unmatched = cells_where(b, t, cells, cells.len() as int, false);
    assert(unmatched == seq![cells[mi]]);
    let m = cells[mi];
    assert(in_board::<W, H>(cells[mi]));
    lemma_cells_where(b, t, cells, cells.len() as int, true);
    if matched.contains(c) {
        let i = choose|i: int| 0 <= i < matched.len() && matched[i] == c;
        let j = choose|j: int| 0 <= j < cells.len() && matched[i] == cells[j];
        assert(cells.contains(c));
    }
    assert(completes(b, t, matched, m, c));
    lemma_neighbors_complete::<W, H>(m, c);
    let ns = neighbors::<W, H>(m);
    let j = choose|j: int| 0 <= j < ns.len() && ns[j] == c;
    lemma_first_completing_some(b, t, matched, m, ns, 0, j);
}

/// Completeness of the search for a close match: when a pattern placed with its origin on the
/// board holds `pos` at its position `kk`, lacks a piece of its match type at exactly one of its
/// positions, and a piece of that type lies directly next to that position, outside the pattern
/// and with no barrier between, the search through `pos` finds a close match.
pub proof fn lemma_first_close_complete<P: Piece, const W: usize, const H: usize>(
    b: BoardView<P>,
    t: P::MatchType,
    ps: Seq<(int, int)>,
    pos: (int, int),
    o: (int, int),
    kk: int,
    mi: int,
    c: (int, int),
)
    requires
        in_board::<W, H>(o),
        placed::<W, H>(ps, o) is Some,
        0 <= kk < ps.len(),
        placed::<W, H>(ps, o)->0[kk] == pos,
        0 <= mi < ps.len(),
        !has_match_type(t, b.piece(placed::<W, H>(ps, o)->0[mi])),
        forall|l: int|
            0 <= l < ps.len() && l != mi ==> has_match_type(t, b.piece(#[trigger] placed::<W, H>(ps, o)->0[l])),
        in_board::<W, H>(c),
        vertically_adjacent(c, placed::<W, H>(ps, o)->0[mi]) || horizontally_adjacent(c, placed::<W, H>(ps, o)->0[mi]),
        !placed::<W, H>(ps, o)->0.contains(c),
        !b.barrier(c, placed::<W, H>(ps, o)->0[mi]),
        has_match_type(t, b.piece(c)),
    ensures
        first_close::<P, W, H>(b, t, ps, pos, 0) is Some,
{
    lemma_close_variant_complete::<P, W, H>(b, t, ps, o, mi, c);
    assert(placed::<W, H>(ps, o)->0[kk] == (ps[kk].0 + o.0, ps[kk].1 + o.1));
    assert(origin_for::<W, H>(pos, ps[kk]) == Some(o));
    lemma_first_close_reaches::<P, W, H>(b, t, ps, pos, kk, 0);
}

proof fn lemma_first_close_reaches<P: Piece, const W: usize, const H: usize>(
    b: BoardView<P>,
    t: P::MatchType,
    ps: Seq<(int, int)>,
    pos: (int, int),
    kk: int,
    k: int,
)
    requires
        0 <= k <= kk < ps.len(),
        origin_for::<W, H>(pos, ps[kk]) matches Some(o) && close_variant::<P, W, H>(b, t, ps, o) is Some,
    ensures
        first_close::<P, W, H>(b, t, ps, pos, k) is Some,
    decreases kk - k,
{
    if k < kk {
        lemma_first_close_reaches::<P, W, H>(b, t, ps, pos, kk, k + 1);
    }
}

/// Pattern priority for moves: when a pattern has a close match through `pos`, the move found
/// at `pos` comes from a pattern no later in the list, before which no pattern has one.
pub proof fn lemma_move_priority<'a, P: Piece, const W: usize, const H: usize>(
    b: BoardView<P>,
    patterns: Seq<&'a MatchPattern<P::MatchType, W, H>>,
    pos: (int, int),
    i: int,
)
    requires
        0 <= i < patterns.len(),
        first_close::<P, W, H>(b, patterns[i].spec_match_type(), patterns[i].positions(), pos, 0) is Some,
    ensures
        first_close_pattern::<P, W, H>(b, patterns, pos, 0) matches Some(m) && exists|j: int|
            #![trigger patterns[j]]
            0 <= j <= i && m.0 == patterns[j] && forall|l: int|
                0 <= l < j ==> first_close::<P, W, H>(
                    b,
                    (#[trigger] patterns[l]).spec_match_type(),
                    patterns[l].positions(),
                    pos,
                    0,
                ) is None,
{
    lemma_move_priority_from::<P, W, H>(b, patterns, pos, 0, i);
}

proof fn lemma_move_priority_from<'a, P: Piece, const W: usize, const H: usize>(
    b: BoardView<P>,
    patterns: Seq<&'a MatchPattern<P::MatchType, W, H>>,
    pos: (int, int),
    s: int,
    i: int,
)
    requires
        0 <= s <= i < patterns.len(),
        first_close::<P, W, H>(b, patterns[i].spec_match_type(), patterns[i].positions(), pos, 0) is Some,
    ensures
        first_close_pattern::<P, W, H>(b, patterns, pos, s) matches Some(m) && exists|j: int|
            #![trigger patterns[j]]
            s <= j <= i && m.0 == patterns[j] && forall|l: int|
                s <= l < j ==> first_close::<P, W, H>(
                    b,
                    (#[trigger] patterns[l]).spec_match_type(),
                    patterns[l].positions(),
                    pos,
                    0,
                ) is None,
    decreases i - s,
{
    if first_close::<P, W, H>(b, patterns[s].spec_match_type(), patterns[s].positions(), pos, 0) is Some {
        assert(patterns[s] == patterns[s]);
    } else {
        lemma_move_priority_from::<P, W, H>(b, patterns, pos, s + 1, i);
        let m = first_close_pattern::<P, W, H>(b, patterns, pos, s + 1)->0;
        let j = choose|j: int|
            #![trigger patterns[j]]
            s + 1 <= j <= i && m.0 == patterns[j] && forall|l: int|
                s + 1 <= l < j ==> first_close::<P, W, H>(
                    b,
                    (#[trigger] patterns[l]).spec_match_type(),
                    patterns[l].positions(),
                    pos,
                    0,
                ) is None;
        assert(patterns[j] == patterns[j]);
    }
}

impl<'a, M: Copy, P: Piece<MatchType = M>, const W: usize, const H: usize> MatchBoard<'a, M, P, W, H> {
    /// Returns all positions directly adjacent to the given position: left, right, below and
    /// above, as far as they lie on the board.
    fn adjacent_pos(pos: Pos<W, H>) -> (adjacent: Vec<Pos<W, H>>)
        requires
            pos.in_bounds(),
        ensures
            pos_views(adjacent@) == neighbors::<W, H>(pos@),
            forall|i: int| 0 <= i < adjacent@.len() ==> #[trigger] adjacent@[i].in_bounds(),
            forall|c: (int, int)|
                in_board::<W, H>(c) && (vertically_adjacent(c, pos@) || horizontally_adjacent(c, pos@))
                    ==> #[trigger] pos_views(adjacent@).contains(c),
    {
        let x = pos.x();
        let y = pos.y();
        let mut adjacent: Vec<Pos<W, H>> = Vec::new();
        if x >= 1 {
            adjacent.push(Pos::new(x - 1, y));
        }
        if x + 1 < W {
            adjacent.push(Pos::new(x + 1, y));
        }
        if y >= 1 {
            adjacent.push(Pos::new(x, y - 1));
        }
        if y + 1 < H {
            adjacent.push(Pos::new(x, y + 1));
        }
        assert(pos_views(adjacent@) =~= neighbors::<W, H>(pos@));
        proof {
            assert forall|c: (int, int)|
                in_board::<W, H>(c) && (vertically_adjacent(c, pos@) || horizontally_adjacent(c, pos@))
                    implies #[trigger] pos_views(adjacent@).contains(c) by {
                lemma_neighbors_complete::<W, H>(pos@, c);
            }
        }
        adjacent
    }


    /// Checks for a close match of a single variant of a pattern and returns the
    /// corresponding move if found.
    fn check_close_variant(&self, pattern: &'a MatchPattern<M, W, H>, new_origin: Pos<W, H>) -> (r: Option<
        MatchMove<'a, M, W, H>,
    >)
        requires
            piece_laws::<P>(),
        ensures
            match r {
                Some(m) => m.spec_pattern() == pattern && close_variant::<P, W, H>(
                    self.board_view(),
                    pattern.spec_match_type(),
                    pattern.positions(),
                    new_origin@,
                ) == Some((m.spec_missing_pos()@, m.spec_completing_pos()@, m.board_positions())),
                None => close_variant::<P, W, H>(
                    self.board_view(),
                    pattern.spec_match_type(),
                    pattern.positions(),
                    new_origin@,
                ) is None,
            },
    {
        let grid_pos = match Self::change_origin(pattern.spaces(), new_origin) {
            Some(g) => g,
            None => {
                return None;
            },
        };
        let ghost b = self.board_view();
        let ghost cells = pos_views(grid_pos@);
        let match_type = pattern.match_type();
        let mut matched: Vec<Pos<W, H>> = Vec::new();
        let mut unmatched: Vec<Pos<W, H>> = Vec::new();
        let mut i: usize = 0;
        while i < grid_pos.len()
            invariant
                i <= grid_pos@.len(),
                piece_laws::<P>(),
                b == self.board_view(),
                cells == pos_views(grid_pos@),
                match_type == pattern.spec_match_type(),
                forall|k: int| 0 <= k < grid_pos@.len() ==> #[trigger] grid_pos@[k].in_bounds(),
                forall|k: int| 0 <= k < matched@.len() ==> #[trigger] matched@[k].in_bounds(),
                forall|k: int| 0 <= k < unmatched@.len() ==> #[trigger] unmatched@[k].in_bounds(),
                pos_views(matched@) == cells_where(b, match_type, cells, i as int, true),
                pos_views(unmatched@) == cells_where(b, match_type, cells, i as int, false),
            decreases grid_pos@.len() - i,
        {
            let pos = grid_pos[i];
            assert(cells[i as int] == pos@);
            let piece = self.board.piece(pos);
            if Self::piece_matches(match_type, piece) {
                let ghost before = matched@;
                matched.push(pos);
                assert(pos_views(matched@) =~= pos_views(before).push(pos@));
            } else {
                let ghost before = unmatched@;
                unmatched.push(pos);
                assert(pos_views(unmatched@) =~= pos_views(before).push(pos@));
            }
            i = i + 1;
        }
        if unmatched.len() != 1 {
            return None;
        }
        let missing_pos = unmatched[0];
        assert(pos_views(unmatched@)[0] == missing_pos@);
        let ghost mc = pos_views(matched@);
        let adjacent = Self::adjacent_pos(missing_pos);
        let ghost ns = neighbors::<W, H>(missing_pos@);
        let ghost outcome = close_variant::<P, W, H>(b, match_type, pattern.positions(), new_origin@);
        assert(outcome == match first_completing(b, match_type, mc, missing_pos@, ns, 0) {
            Some(c) => Some((missing_pos@, c, mc)),
            None => None,
        });
        let mut j: usize = 0;
        while j < adjacent.len()
            invariant
                j <= adjacent@.len(),
                piece_laws::<P>(),
                b == self.board_view(),
                match_type == pattern.spec_match_type(),
                missing_pos.in_bounds(),
                pos_views(adjacent@) == ns,
                mc == pos_views(matched@),
                outcome == close_variant::<P, W, H>(b, match_type, pattern.positions(), new_origin@),
                outcome == match first_completing(b, match_type, mc, missing_pos@, ns, 0) {
                    Some(c) => Some((missing_pos@, c, mc)),
                    None => None,
                },
                forall|k: int| 0 <= k < adjacent@.len() ==> #[trigger] adjacent@[k].in_bounds(),
                first_completing(b, match_type, mc, missing_pos@, ns, 0) == first_completing(
                    b,
                    match_type,
                    mc,
                    missing_pos@,
                    ns,
                    j as int,
                ),
            decreases adjacent@.len() - j,
        {
            let completing_pos = adjacent[j];
            assert(ns[j as int] == completing_pos@);
            if !crate::matching::contains_position(&matched, completing_pos)
                && !self.board.has_barrier_between(completing_pos, missing_pos)
                && Self::piece_matches(match_type, self.board.piece(completing_pos)) {
                assert(completes(b, match_type, mc, missing_pos@, ns[j as int]));
                assert(first_completing(b, match_type, mc, missing_pos@, ns, j as int) == Some(completing_pos@));
                return Some(MatchMove::new(pattern, missing_pos, completing_pos, matched));
            }
            j = j + 1;
        }
        None
    }
    /// Checks for a close match on a pattern that includes a specific position on the board,
    /// trying each position of the pattern in turn as the one placed at `pos`. Returns the
    /// first close match found.
    fn check_close_pattern(&self, pattern: &'a MatchPattern<M, W, H>, pos: Pos<W, H>) -> (r: Option<
        MatchMove<'a, M, W, H>,
    >)
        requires
            piece_laws::<P>(),
        ensures
            match r {
                Some(m) => m.spec_pattern() == pattern && first_close::<P, W, H>(
                    self.board_view(),
                    pattern.spec_match_type(),
                    pattern.positions(),
                    pos@,
                    0,
                ) == Some((m.spec_missing_pos()@, m.spec_completing_pos()@, m.board_positions())),
                None => first_close::<P, W, H>(
                    self.board_view(),
                    pattern.spec_match_type(),
                    pattern.positions(),
                    pos@,
                    0,
                ) is None,
            },
    {
        let spaces = pattern.spaces();
        let ghost ps = pattern.positions();
        let ghost t = pattern.spec_match_type();
        let ghost b = self.board_view();
        let mut k: usize = 0;
        while k < spaces.len()
            invariant
                k <= spaces@.len(),
                piece_laws::<P>(),
                b == self.board_view(),
                ps == pattern.positions(),
                t == pattern.spec_match_type(),
                pos_views(spaces@) == ps,
                first_close::<P, W, H>(b, t, ps, pos@, 0) == first_close::<P, W, H>(b, t, ps, pos@, k as int),
            decreases spaces@.len() - k,
        {
            let original = spaces[k];
            assert(ps[k as int] == original@);
            let difference = pos - original;
            assert(place_view(difference) == checked_place::<W, H>(pos@.0 - original@.0, pos@.1 - original@.1));
            let close = match difference {
                Ok(origin) => self.check_close_variant(pattern, origin),
                Err(_) => None,
            };
            if close.is_some() {
                return close;
            }
            k = k + 1;
        }
        None
    }

    /// Gets all available moves on the board that create a match, where one piece needs to
    /// change to create a match. The board is scanned column by column and, within a column,
    /// from the bottom up; at each position the first pattern with a close match through it
    /// gives the move, which is kept unless one of its positions was scanned before.
    pub fn match_moves(&self) -> (moves: Vec<MatchMove<'a, M, W, H>>)
        requires
            piece_laws::<P>(),
        ensures
            move_views(moves@) == move_scan_board::<P, W, H>(self.board_view(), self.pattern_list(), W as int),
            forall|i: int| 0 <= i < moves@.len() ==> move_holds::<P, W, H>(self.board_view(), move_view(#[trigger] moves@[i])),
    {
        let ghost b = self.board_view();
        proof {
            use_type_invariant(&self.board);
            self.board.lemma_shaped();
        }
        let ghost patterns = self.pattern_list();
        let mut match_moves: Vec<MatchMove<'a, M, W, H>> = Vec::new();
        let mut x: usize = 0;
        while x < W
            invariant
                x <= W,
                piece_laws::<P>(),
                b == self.board_view(),
                patterns == self.pattern_list(),
                move_views(match_moves@) == move_scan_board::<P, W, H>(b, patterns, x as int),
                b.shaped(W as int, H as int),
                forall|i: int| 0 <= i < match_moves@.len() ==> move_holds::<P, W, H>(b, move_view(#[trigger] match_moves@[i])),
            decreases W - x,
        {
            let mut y: usize = 0;
            while y < H
                invariant
                    x < W,
                    y <= H,
                    piece_laws::<P>(),
                    b == self.board_view(),
                    patterns == self.pattern_list(),
                    move_views(match_moves@) == move_scan_board::<P, W, H>(b, patterns, x as int)
                        + move_scan_column::<P, W, H>(b, patterns, x as int, y as int),
                    b.shaped(W as int, H as int),
                    forall|i: int| 0 <= i < match_moves@.len() ==> move_holds::<P, W, H>(b, move_view(#[trigger] match_moves@[i])),
                decreases H - y,
            {
                let pos = Pos::new(x, y);
                let mut possible: Option<MatchMove<'a, M, W, H>> = None;
                let mut i: usize = 0;
                while possible.is_none() && i < self.patterns.len()
                    invariant
                        i <= patterns.len(),
                        piece_laws::<P>(),
                        b == self.board_view(),
                        patterns == self.pattern_list(),
                        pos@ == (x as int, y as int),
                        possible is None ==> first_close_pattern::<P, W, H>(b, patterns, pos@, 0)
                            == first_close_pattern::<P, W, H>(b, patterns, pos@, i as int),
                        possible matches Some(m) ==> first_close_pattern::<P, W, H>(b, patterns, pos@, 0)
                            == Some(move_view(m)),
                    decreases patterns.len() - i,
                {
                    possible = self.check_close_pattern(self.patterns[i], pos);
                    i = i + 1;
                }
                let ghost before = move_views(match_moves@);
                if let Some(match_move) = possible {
                    let is_new_match = Self::all_pos_unchecked(match_move.board_pos(), x, y)
                        && Self::is_pos_unchecked(&match_move.missing_pos(), x, y);
                    if is_new_match {
                        proof {
                            lemma_first_close_pattern::<P, W, H>(b, patterns, pos@, 0);
                        }
                        match_moves.push(match_move);
                        proof {
                            assert(move_views(match_moves@) =~= before.push(move_view(match_move)));
                        }
                    }
                }
                proof {
                    assert(move_views(match_moves@) =~= move_scan_board::<P, W, H>(b, patterns, x as int)
                        + move_scan_column::<P, W, H>(b, patterns, x as int, y + 1));
                }
                y = y + 1;
            }
            proof {
                assert(move_views(match_moves@) =~= move_scan_board::<P, W, H>(b, patterns, x + 1));
            }
            x = x + 1;
        }
        match_moves
    }
}

} // verus!
