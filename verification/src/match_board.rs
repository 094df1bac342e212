use vstd::prelude::*;
use crate::board::{BoardState, BoardView, Piece, has_match_type, piece_laws};
use crate::matching::{Match, MatchMove, MatchPattern, pos_views, copy_positions, strictly_sorted, pos_lt};
use crate::position::{Pos, place_view, checked_place};

pub mod moves;

verus! {

broadcast use crate::position::lemma_pos_view_injective, crate::position::lemma_pos_view_bounds;

/// Whether a position lies on a `W` by `H` board.
pub open spec fn in_board<const W: usize, const H: usize>(p: (int, int)) -> bool {
    0 <= p.0 < W && 0 <= p.1 < H
}

/// All the positions lie on a `W` by `H` board.
pub open spec fn on_board<const W: usize, const H: usize>(cells: Seq<(int, int)>) -> bool {
    forall|i: int| 0 <= i < cells.len() ==> in_board::<W, H>(#[trigger] cells[i])
}

/// Positions moved by an offset.
pub open spec fn translate(ps: Seq<(int, int)>, o: (int, int)) -> Seq<(int, int)> {
    ps.map_values(|p: (int, int)| (p.0 + o.0, p.1 + o.1))
}

/// The positions of a pattern placed with its origin at `o`, or `None` when one of them would
/// fall outside the board.
pub open spec fn placed<const W: usize, const H: usize>(ps: Seq<(int, int)>, o: (int, int)) -> Option<
    Seq<(int, int)>,
> {
    if forall|i: int| 0 <= i < ps.len() ==> in_board::<W, H>(#[trigger] translate(ps, o)[i]) {
        Some(translate(ps, o))
    } else {
        None
    }
}

/// All pieces at the given positions have the match type.
pub open spec fn cells_have_type<P: Piece>(b: BoardView<P>, t: P::MatchType, cells: Seq<(int, int)>) -> bool {
    forall|i: int| 0 <= i < cells.len() ==> has_match_type(t, b.piece(#[trigger] cells[i]))
}

/// The positions of a pattern placed with its origin at `o`, when they all lie on the board
/// and hold pieces of the match type.
pub open spec fn variant<P: Piece, const W: usize, const H: usize>(
    b: BoardView<P>,
    t: P::MatchType,
    ps: Seq<(int, int)>,
    o: (int, int),
) -> Option<Seq<(int, int)>> {
    match placed::<W, H>(ps, o) {
        Some(cells) => if cells_have_type(b, t, cells) {
            Some(cells)
        } else {
            None
        },
        None => None,
    }
}

/// The origin that puts the pattern position `original` at `pos`, when it lies on the board.
pub open spec fn origin_for<const W: usize, const H: usize>(pos: (int, int), original: (int, int)) -> Option<
    (int, int),
> {
    match checked_place::<W, H>(pos.0 - original.0, pos.1 - original.1) {
        Ok(o) => Some(o),
        Err(_) => None,
    }
}

/// The variant of a pattern that puts its position `original` at `pos`, if it matches.
pub open spec fn variant_through<P: Piece, const W: usize, const H: usize>(
    b: BoardView<P>,
    t: P::MatchType,
    ps: Seq<(int, int)>,
    pos: (int, int),
    original: (int, int),
) -> Option<Seq<(int, int)>> {
    match origin_for::<W, H>(pos, original) {
        Some(o) => variant::<P, W, H>(b, t, ps, o),
        None => None,
    }
}

/// The matching variants of a pattern through `pos`, one for each of the first `k` positions
/// of the pattern that gives one, in the pattern's order.
pub open spec fn variants_through<P: Piece, const W: usize, const H: usize>(
    b: BoardView<P>,
    t: P::MatchType,
    ps: Seq<(int, int)>,
    pos: (int, int),
    k: int,
) -> Seq<Seq<(int, int)>>
    decreases k,
{
    if k <= 0 {
        Seq::empty()
    } else {
        let prev = variants_through::<P, W, H>(b, t, ps, pos, k - 1);
        match variant_through::<P, W, H>(b, t, ps, pos, ps[k - 1]) {
            Some(cells) => prev.push(cells),
            None => prev,
        }
    }
}

/// All matching variants of a pattern that include `pos`.
pub open spec fn pattern_matches<P: Piece, const W: usize, const H: usize>(
    b: BoardView<P>,
    pattern: MatchPattern<P::MatchType, W, H>,
    pos: (int, int),
) -> Seq<Seq<(int, int)>> {
    variants_through::<P, W, H>(
        b,
        pattern.spec_match_type(),
        pattern.positions(),
        pos,
        pattern.positions().len() as int,
    )
}

/// Whether a position would not yet have been checked by a scan of the board that goes
/// column by column and, within a column, from the bottom up, and is now at
/// `(start_x, start_y)`.
pub open spec fn unchecked(p: (int, int), start_x: int, start_y: int) -> bool {
    p.0 > start_x || (p.0 == start_x && p.1 >= start_y)
}

/// All the positions are unchecked from `(start_x, start_y)`.
pub open spec fn all_unchecked(cells: Seq<(int, int)>, start_x: int, start_y: int) -> bool {
    forall|i: int| 0 <= i < cells.len() ==> unchecked(#[trigger] cells[i], start_x, start_y)
}

/// The first `k` variants, keeping those whose positions are all unchecked.
pub open spec fn unchecked_variants(vs: Seq<Seq<(int, int)>>, start_x: int, start_y: int, k: int) -> Seq<
    Seq<(int, int)>,
>
    decreases k,
{
    if k <= 0 {
        Seq::empty()
    } else {
        let prev = unchecked_variants(vs, start_x, start_y, k - 1);
        if all_unchecked(vs[k - 1], start_x, start_y) {
            prev.push(vs[k - 1])
        } else {
            prev
        }
    }
}

/// The index of the first of the patterns from index `i` on that has a matching variant
/// through `pos`, or the number of patterns if none has.
pub open spec fn first_matching_pattern<'a, P: Piece, const W: usize, const H: usize>(
    b: BoardView<P>,
    patterns: Seq<&'a MatchPattern<P::MatchType, W, H>>,
    pos: (int, int),
    i: int,
) -> int
    decreases patterns.len() - i,
{
    if i >= patterns.len() {
        patterns.len() as int
    } else if pattern_matches::<P, W, H>(b, *patterns[i], pos).len() > 0 {
        i
    } else {
        first_matching_pattern::<P, W, H>(b, patterns, pos, i + 1)
    }
}

/// A match by its pattern, the position that was changed, and its positions on the board.
pub type MatchView<'a, M, const W: usize, const H: usize> = (&'a MatchPattern<M, W, H>, (int, int), Seq<(int, int)>);

/// A match by its pattern, the position that was changed, and its positions on the board.
pub open spec fn match_view<'a, M, const W: usize, const H: usize>(m: Match<'a, M, W, H>) -> MatchView<'a, M, W, H> {
    (m.spec_pattern(), m.spec_changed_pos()@, m.board_positions())
}

/// The views of a list of matches.
pub open spec fn match_views<'a, M, const W: usize, const H: usize>(ms: Seq<Match<'a, M, W, H>>) -> Seq<MatchView<'a, M, W, H>> {
    ms.map_values(|m: Match<'a, M, W, H>| match_view(m))
}

/// The new matches found after `pos` changed, when the scan that found them is at
/// `(start_x, start_y)`: the variants through `pos` of the first pattern that has any, keeping
/// those whose positions are all unchecked.
pub open spec fn found_matches<'a, P: Piece, const W: usize, const H: usize>(
    b: BoardView<P>,
    patterns: Seq<&'a MatchPattern<P::MatchType, W, H>>,
    pos: (int, int),
    start_x: int,
    start_y: int,
) -> Seq<MatchView<'a, P::MatchType, W, H>> {
    let i = first_matching_pattern::<P, W, H>(b, patterns, pos, 0);
    if i >= patterns.len() {
        Seq::empty()
    } else {
        let vs = pattern_matches::<P, W, H>(b, *patterns[i], pos);
        unchecked_variants(vs, start_x, start_y, vs.len() as int).map_values(
            |cells: Seq<(int, int)>| (patterns[i], pos, cells),
        )
    }
}

/// The first `k` matches, keeping those that do not hold `pos`.
pub open spec fn unaffected<'a, M, const W: usize, const H: usize>(
    ms: Seq<MatchView<'a, M, W, H>>,
    pos: (int, int),
    k: int,
) -> Seq<MatchView<'a, M, W, H>>
    decreases k,
{
    if k <= 0 {
        Seq::empty()
    } else {
        let prev = unaffected(ms, pos, k - 1);
        if ms[k - 1].2.contains(pos) {
            prev
        } else {
            prev.push(ms[k - 1])
        }
    }
}

/// The matches without those that hold `pos`, in the same order.
pub open spec fn without_pos<'a, M, const W: usize, const H: usize>(
    ms: Seq<MatchView<'a, M, W, H>>,
    pos: (int, int),
) -> Seq<MatchView<'a, M, W, H>> {
    unaffected(ms, pos, ms.len() as int)
}

/// The matches found by scanning column `x` from the bottom up to height `y`, as the board is
/// first scanned.
pub open spec fn scan_column<'a, P: Piece, const W: usize, const H: usize>(
    b: BoardView<P>,
    patterns: Seq<&'a MatchPattern<P::MatchType, W, H>>,
    x: int,
    y: int,
) -> Seq<MatchView<'a, P::MatchType, W, H>>
    decreases y,
{
    if y <= 0 {
        Seq::empty()
    } else {
        scan_column::<P, W, H>(b, patterns, x, y - 1) + found_matches::<P, W, H>(
            b,
            patterns,
            (x, y - 1),
            x,
            y - 1,
        )
    }
}

/// The matches found by scanning the first `x` columns of the board, column by column.
pub open spec fn scan_board<'a, P: Piece, const W: usize, const H: usize>(
    b: BoardView<P>,
    patterns: Seq<&'a MatchPattern<P::MatchType, W, H>>,
    x: int,
) -> Seq<MatchView<'a, P::MatchType, W, H>>
    decreases x,
{
    if x <= 0 {
        Seq::empty()
    } else {
        scan_board::<P, W, H>(b, patterns, x - 1) + scan_column::<P, W, H>(b, patterns, x - 1, H as int)
    }
}

/// A match lies on the board, on pieces of its pattern's match type.
pub open spec fn match_holds<'a, P: Piece, const W: usize, const H: usize>(
    b: BoardView<P>,
    m: MatchView<'a, P::MatchType, W, H>,
) -> bool {
    on_board::<W, H>(m.2) && cells_have_type(b, m.0.spec_match_type(), m.2)
}

/// Every match lies on the board, on pieces of its pattern's match type.
pub open spec fn matches_hold<'a, P: Piece, const W: usize, const H: usize>(
    b: BoardView<P>,
    ms: Seq<MatchView<'a, P::MatchType, W, H>>,
) -> bool {
    forall|i: int| 0 <= i < ms.len() ==> match_holds::<P, W, H>(b, #[trigger] ms[i])
}

proof fn lemma_variants_hold<P: Piece, const W: usize, const H: usize>(
    b: BoardView<P>,
    t: P::MatchType,
    ps: Seq<(int, int)>,
    pos: (int, int),
    k: int,
)
    requires
        k <= ps.len(),
    ensures
        forall|i: int|
            0 <= i < variants_through::<P, W, H>(b, t, ps, pos, k).len() ==> {
                &&& on_board::<W, H>(#[trigger] variants_through::<P, W, H>(b, t, ps, pos, k)[i])
                &&& cells_have_type(b, t, variants_through::<P, W, H>(b, t, ps, pos, k)[i])
                &&& variants_through::<P, W, H>(b, t, ps, pos, k)[i].contains(pos)
                &&& exists|o: (int, int)|
                    #[trigger] placed::<W, H>(ps, o) == Some(variants_through::<P, W, H>(b, t, ps, pos, k)[i])
            },
    decreases k,
{
    if k > 0 {
        lemma_variants_hold::<P, W, H>(b, t, ps, pos, k - 1);
        let prev = variants_through::<P, W, H>(b, t, ps, pos, k - 1);
        let cur = variants_through::<P, W, H>(b, t, ps, pos, k);
        assert forall|i: int| 0 <= i < cur.len() implies {
            &&& on_board::<W, H>(#[trigger] cur[i])
            &&& cells_have_type(b, t, cur[i])
            &&& cur[i].contains(pos)
            &&& exists|o: (int, int)| #[trigger] placed::<W, H>(ps, o) == Some(cur[i])
        } by {
            if i < prev.len() {
                assert(cur[i] == prev[i]);
            } else {
                let o = origin_for::<W, H>(pos, ps[k - 1]);
                assert(o is Some);
                assert(placed::<W, H>(ps, o->0) is Some);
                assert(cur[i] == translate(ps, o->0));
                assert(cur[i][k - 1] == pos);
                assert(placed::<W, H>(ps, o->0) == Some(cur[i]));
            }
        }
    }
}

proof fn lemma_unchecked_subset(vs: Seq<Seq<(int, int)>>, sx: int, sy: int, k: int)
    requires
        0 <= k <= vs.len(),
    ensures
        forall|i: int|
            0 <= i < unchecked_variants(vs, sx, sy, k).len() ==> exists|j: int|
                0 <= j < k && #[trigger] unchecked_variants(vs, sx, sy, k)[i] == vs[j],
    decreases k,
{
    if k > 0 {
        lemma_unchecked_subset(vs, sx, sy, k - 1);
        assert forall|i: int|
            0 <= i < unchecked_variants(vs, sx, sy, k).len() implies exists|j: int|
                0 <= j < k && #[trigger] unchecked_variants(vs, sx, sy, k)[i] == vs[j] by {
            if i < unchecked_variants(vs, sx, sy, k - 1).len() {
                assert(unchecked_variants(vs, sx, sy, k)[i] == unchecked_variants(vs, sx, sy, k - 1)[i]);
            } else {
                assert(unchecked_variants(vs, sx, sy, k)[i] == vs[k - 1]);
            }
        }
    }
}

/// Newly found matches lie on pieces of their pattern's match type.
proof fn lemma_found_hold<'a, P: Piece, const W: usize, const H: usize>(
    b: BoardView<P>,
    patterns: Seq<&'a MatchPattern<P::MatchType, W, H>>,
    pos: (int, int),
    sx: int,
    sy: int,
)
    ensures
        matches_hold::<P, W, H>(b, found_matches::<P, W, H>(b, patterns, pos, sx, sy)),
{
    let i = first_matching_pattern::<P, W, H>(b, patterns, pos, 0);
    if i < patterns.len() {
        lemma_first_matching_bounds::<P, W, H>(b, patterns, pos, 0);
        let pattern = *patterns[i];
        let vs = pattern_matches::<P, W, H>(b, pattern, pos);
        lemma_variants_hold::<P, W, H>(
            b,
            pattern.spec_match_type(),
            pattern.positions(),
            pos,
            pattern.positions().len() as int,
        );
        lemma_unchecked_subset(vs, sx, sy, vs.len() as int);
        let fm = found_matches::<P, W, H>(b, patterns, pos, sx, sy);
        assert forall|k: int| 0 <= k < fm.len() implies match_holds::<P, W, H>(b, #[trigger] fm[k]) by {
            let u = unchecked_variants(vs, sx, sy, vs.len() as int);
            assert(fm[k] == (patterns[i], pos, u[k]));
            let j = choose|j: int| 0 <= j < vs.len() && #[trigger] u[k] == vs[j];
            assert(on_board::<W, H>(vs[j]));
        }
    }
}

/// A match is placed from one of `patterns`: its pattern is one of them, its positions are
/// those of the pattern placed at one origin on the board, and they include the position whose
/// change found the match.
pub open spec fn placed_from<'a, M, const W: usize, const H: usize>(
    patterns: Seq<&'a MatchPattern<M, W, H>>,
    m: MatchView<'a, M, W, H>,
) -> bool {
    &&& patterns.contains(m.0)
    &&& m.2.contains(m.1)
    &&& exists|o: (int, int)| #[trigger] placed::<W, H>(m.0.positions(), o) == Some(m.2)
}

/// A match of a board: it is placed from one of `patterns`, and its positions hold pieces of
/// the pattern's match type.
pub open spec fn placement_of<'a, P: Piece, const W: usize, const H: usize>(
    b: BoardView<P>,
    patterns: Seq<&'a MatchPattern<P::MatchType, W, H>>,
    m: MatchView<'a, P::MatchType, W, H>,
) -> bool {
    &&& placed_from(patterns, m)
    &&& cells_have_type(b, m.0.spec_match_type(), m.2)
}

/// Every match of a list is placed from one of `patterns`.
pub open spec fn all_placed_from<'a, M, const W: usize, const H: usize>(
    patterns: Seq<&'a MatchPattern<M, W, H>>,
    ms: Seq<MatchView<'a, M, W, H>>,
) -> bool {
    forall|k: int| 0 <= k < ms.len() ==> placed_from(patterns, #[trigger] ms[k])
}

/// Each match found through a changed position is a placement of one of the patterns that
/// holds that position.
pub proof fn lemma_found_placements<'a, P: Piece, const W: usize, const H: usize>(
    b: BoardView<P>,
    patterns: Seq<&'a MatchPattern<P::MatchType, W, H>>,
    pos: (int, int),
    sx: int,
    sy: int,
)
    ensures
        forall|k: int|
            0 <= k < found_matches::<P, W, H>(b, patterns, pos, sx, sy).len() ==> {
                &&& (#[trigger] found_matches::<P, W, H>(b, patterns, pos, sx, sy)[k]).1 == pos
                &&& placement_of::<P, W, H>(b, patterns, found_matches::<P, W, H>(b, patterns, pos, sx, sy)[k])
            },
{
    let i = first_matching_pattern::<P, W, H>(b, patterns, pos, 0);
    if i < patterns.len() {
        lemma_first_matching_bounds::<P, W, H>(b, patterns, pos, 0);
        let pattern = *patterns[i];
        let vs = pattern_matches::<P, W, H>(b, pattern, pos);
        lemma_variants_hold::<P, W, H>(
            b,
            pattern.spec_match_type(),
            pattern.positions(),
            pos,
            pattern.positions().len() as int,
        );
        lemma_unchecked_subset(vs, sx, sy, vs.len() as int);
        let fm = found_matches::<P, W, H>(b, patterns, pos, sx, sy);
        assert forall|k: int| 0 <= k < fm.len() implies {
            &&& (#[trigger] fm[k]).1 == pos
            &&& placement_of::<P, W, H>(b, patterns, fm[k])
        } by {
            let u = unchecked_variants(vs, sx, sy, vs.len() as int);
            assert(fm[k] == (patterns[i], pos, u[k]));
            let j = choose|j: int| 0 <= j < vs.len() && #[trigger] u[k] == vs[j];
            assert(vs[j].contains(pos));
            assert(patterns.contains(patterns[i]));
            let o = choose|o: (int, int)| #[trigger] placed::<W, H>(pattern.positions(), o) == Some(vs[j]);
            assert(placed::<W, H>(fm[k].0.positions(), o) == Some(fm[k].2));
        }
    }
}

/// Each match that a scan of the first `x` columns of a board finds is a placement of one of
/// the patterns that holds the position where it was found.
pub proof fn lemma_scan_placements<'a, P: Piece, const W: usize, const H: usize>(
    b: BoardView<P>,
    patterns: Seq<&'a MatchPattern<P::MatchType, W, H>>,
    x: int,
)
    ensures
        forall|k: int|
            0 <= k < scan_board::<P, W, H>(b, patterns, x).len() ==> placement_of::<P, W, H>(
                b,
                patterns,
                #[trigger] scan_board::<P, W, H>(b, patterns, x)[k],
            ),
    decreases x,
{
    if x > 0 {
        lemma_scan_placements::<P, W, H>(b, patterns, x - 1);
        lemma_scan_column_placements::<P, W, H>(b, patterns, x - 1, H as int);
        let a = scan_board::<P, W, H>(b, patterns, x - 1);
        let c = scan_column::<P, W, H>(b, patterns, x - 1, H as int);
        assert forall|k: int| 0 <= k < (a + c).len() implies placement_of::<P, W, H>(
            b,
            patterns,
            #[trigger] (a + c)[k],
        ) by {
            if k < a.len() {
                assert((a + c)[k] == a[k]);
            } else {
                assert((a + c)[k] == c[k - a.len()]);
            }
        }
    }
}

proof fn lemma_scan_column_placements<'a, P: Piece, const W: usize, const H: usize>(
    b: BoardView<P>,
    patterns: Seq<&'a MatchPattern<P::MatchType, W, H>>,
    x: int,
    y: int,
)
    ensures
        forall|k: int|
            0 <= k < scan_column::<P, W, H>(b, patterns, x, y).len() ==> placement_of::<P, W, H>(
                b,
                patterns,
                #[trigger] scan_column::<P, W, H>(b, patterns, x, y)[k],
            ),
    decreases y,
{
    if y > 0 {
        lemma_scan_column_placements::<P, W, H>(b, patterns, x, y - 1);
        lemma_found_placements::<P, W, H>(b, patterns, (x, y - 1), x, y - 1);
        let a = scan_column::<P, W, H>(b, patterns, x, y - 1);
        let c = found_matches::<P, W, H>(b, patterns, (x, y - 1), x, y - 1);
        assert forall|k: int| 0 <= k < (a + c).len() implies placement_of::<P, W, H>(
            b,
            patterns,
            #[trigger] (a + c)[k],
        ) by {
            if k < a.len() {
                assert((a + c)[k] == a[k]);
            } else {
                assert((a + c)[k] == c[k - a.len()]);
            }
        }
    }
}

/// Two lists hold the same positions.
pub open spec fn same_positions(a: Seq<(int, int)>, c: Seq<(int, int)>) -> bool {
    forall|p: (int, int)| a.contains(p) <==> c.contains(p)
}

/// No two matches of a list cover the same positions.
pub open spec fn distinct_matches<'a, M, const W: usize, const H: usize>(ms: Seq<MatchView<'a, M, W, H>>) -> bool {
    forall|i: int, j: int| 0 <= i < j < ms.len() ==> !same_positions((#[trigger] ms[i]).2, (#[trigger] ms[j]).2)
}

/// The positions of every pattern are strictly ordered, as `MatchPattern` keeps them.
pub open spec fn patterns_sorted<'a, M, const W: usize, const H: usize>(patterns: Seq<&'a MatchPattern<M, W, H>>) -> bool {
    forall|i: int| 0 <= i < patterns.len() ==> strictly_sorted((#[trigger] patterns[i]).positions())
}

proof fn lemma_translate_same(s: Seq<(int, int)>, o1: (int, int), o2: (int, int))
    requires
        strictly_sorted(s),
        s.len() > 0,
        same_positions(translate(s, o1), translate(s, o2)),
    ensures
        o1 == o2,
{
    let t1 = translate(s, o1);
    let t2 = translate(s, o2);
    assert(t1[0] == (s[0].0 + o1.0, s[0].1 + o1.1));
    assert(t2[0] == (s[0].0 + o2.0, s[0].1 + o2.1));
    assert(t1.contains(t1[0]));
    assert(t2.contains(t1[0]));
    let m = choose|m: int| 0 <= m < t2.len() && t2[m] == t1[0];
    assert(t2[m] == (s[m].0 + o2.0, s[m].1 + o2.1));
    assert(t2.contains(t2[0]));
    assert(t1.contains(t2[0]));
    let n = choose|n: int| 0 <= n < t1.len() && t1[n] == t2[0];
    assert(t1[n] == (s[n].0 + o1.0, s[n].1 + o1.1));
    assert(m == 0 || pos_lt(s[0], s[m]));
    assert(n == 0 || pos_lt(s[0], s[n]));
}

proof fn lemma_variants_distinct<P: Piece, const W: usize, const H: usize>(
    b: BoardView<P>,
    t: P::MatchType,
    ps: Seq<(int, int)>,
    pos: (int, int),
    k: int,
)
    requires
        strictly_sorted(ps),
        0 <= k <= ps.len(),
    ensures
        forall|i: int|
            0 <= i < variants_through::<P, W, H>(b, t, ps, pos, k).len() ==> exists|j: int|
                0 <= j < k && #[trigger] variants_through::<P, W, H>(b, t, ps, pos, k)[i] == translate(
                    ps,
                    (pos.0 - ps[j].0, pos.1 - ps[j].1),
                ),
        forall|i1: int, i2: int|
            0 <= i1 < i2 < variants_through::<P, W, H>(b, t, ps, pos, k).len() ==> !same_positions(
                #[trigger] variants_through::<P, W, H>(b, t, ps, pos, k)[i1],
                #[trigger] variants_through::<P, W, H>(b, t, ps, pos, k)[i2],
            ),
    decreases k,
{
    if k > 0 {
        lemma_variants_distinct::<P, W, H>(b, t, ps, pos, k - 1);
        let prev = variants_through::<P, W, H>(b, t, ps, pos, k - 1);
        let cur = variants_through::<P, W, H>(b, t, ps, pos, k);
        let o = (pos.0 - ps[k - 1].0, pos.1 - ps[k - 1].1);
        if cur.len() > prev.len() {
            assert(cur == prev.push(translate(ps, o)));
        } else {
            assert(cur == prev);
        }
        assert forall|i: int| 0 <= i < cur.len() implies exists|j: int|
            0 <= j < k && #[trigger] cur[i] == translate(ps, (pos.0 - ps[j].0, pos.1 - ps[j].1)) by {
            if i < prev.len() {
                assert(cur[i] == prev[i]);
                let j = choose|j: int| 0 <= j < k - 1 && prev[i] == translate(ps, (pos.0 - ps[j].0, pos.1 - ps[j].1));
                assert(cur[i] == translate(ps, (pos.0 - ps[j].0, pos.1 - ps[j].1)));
            } else {
                assert(cur[i] == translate(ps, (pos.0 - ps[k - 1].0, pos.1 - ps[k - 1].1)));
            }
        }
        assert forall|i1: int, i2: int| 0 <= i1 < i2 < cur.len() implies !same_positions(
            #[trigger] cur[i1],
            #[trigger] cur[i2],
        ) by {
            if i2 < prev.len() {
                assert(cur[i1] == prev[i1] && cur[i2] == prev[i2]);
            } else {
                assert(cur[i1] == prev[i1]);
                let j = choose|j: int| 0 <= j < k - 1 && prev[i1] == translate(ps, (pos.0 - ps[j].0, pos.1 - ps[j].1));
                assert(pos_lt(ps[j], ps[k - 1]));
                if same_positions(cur[i1], cur[i2]) {
                    lemma_translate_same(ps, (pos.0 - ps[j].0, pos.1 - ps[j].1), o);
                }
            }
        }
    }
}

proof fn lemma_unchecked_distinct(vs: Seq<Seq<(int, int)>>, sx: int, sy: int, k: int)
    requires
        0 <= k <= vs.len(),
        forall|i1: int, i2: int| 0 <= i1 < i2 < vs.len() ==> !same_positions(#[trigger] vs[i1], #[trigger] vs[i2]),
    ensures
        forall|i: int|
            0 <= i < unchecked_variants(vs, sx, sy, k).len() ==> all_unchecked(
                #[trigger] unchecked_variants(vs, sx, sy, k)[i],
                sx,
                sy,
            ),
        forall|i1: int, i2: int|
            0 <= i1 < i2 < unchecked_variants(vs, sx, sy, k).len() ==> !same_positions(
                #[trigger] unchecked_variants(vs, sx, sy, k)[i1],
                #[trigger] unchecked_variants(vs, sx, sy, k)[i2],
            ),
    decreases k,
{
    if k > 0 {
        lemma_unchecked_distinct(vs, sx, sy, k - 1);
        lemma_unchecked_subset(vs, sx, sy, k - 1);
        let prev = unchecked_variants(vs, sx, sy, k - 1);
        let cur = unchecked_variants(vs, sx, sy, k);
        assert forall|i: int| 0 <= i < cur.len() implies all_unchecked(#[trigger] cur[i], sx, sy) by {
            if i < prev.len() {
                assert(cur[i] == prev[i]);
            }
        }
        assert forall|i1: int, i2: int| 0 <= i1 < i2 < cur.len() implies !same_positions(
            #[trigger] cur[i1],
            #[trigger] cur[i2],
        ) by {
            if i2 < prev.len() {
                assert(cur[i1] == prev[i1] && cur[i2] == prev[i2]);
            } else {
                assert(cur[i1] == prev[i1]);
                assert(cur[i2] == vs[k - 1]);
                let j = choose|j: int| 0 <= j < k - 1 && #[trigger] prev[i1] == vs[j];
                assert(!same_positions(vs[j], vs[k - 1]));
            }
        }
    }
}

/// The matches found through one changed position cover pairwise different positions, and
/// each lies on positions that the scan has not yet passed.
proof fn lemma_found_distinct<'a, P: Piece, const W: usize, const H: usize>(
    b: BoardView<P>,
    patterns: Seq<&'a MatchPattern<P::MatchType, W, H>>,
    pos: (int, int),
    sx: int,
    sy: int,
)
    requires
        patterns_sorted(patterns),
    ensures
        distinct_matches(found_matches::<P, W, H>(b, patterns, pos, sx, sy)),
        forall|k: int|
            0 <= k < found_matches::<P, W, H>(b, patterns, pos, sx, sy).len() ==> all_unchecked(
                (#[trigger] found_matches::<P, W, H>(b, patterns, pos, sx, sy)[k]).2,
                sx,
                sy,
            ),
{
    let i = first_matching_pattern::<P, W, H>(b, patterns, pos, 0);
    if i < patterns.len() {
        lemma_first_matching_bounds::<P, W, H>(b, patterns, pos, 0);
        let pattern = *patterns[i];
        let ps = pattern.positions();
        assert(strictly_sorted(ps));
        let vs = pattern_matches::<P, W, H>(b, pattern, pos);
        lemma_variants_distinct::<P, W, H>(b, pattern.spec_match_type(), ps, pos, ps.len() as int);
        lemma_unchecked_distinct(vs, sx, sy, vs.len() as int);
        let u = unchecked_variants(vs, sx, sy, vs.len() as int);
        let fm = found_matches::<P, W, H>(b, patterns, pos, sx, sy);
        assert forall|k: int| 0 <= k < fm.len() implies all_unchecked((#[trigger] fm[k]).2, sx, sy) by {
            assert(fm[k] == (patterns[i], pos, u[k]));
        }
        assert forall|k1: int, k2: int| 0 <= k1 < k2 < fm.len() implies !same_positions(
            (#[trigger] fm[k1]).2,
            (#[trigger] fm[k2]).2,
        ) by {
            assert(fm[k1].2 == u[k1]);
            assert(fm[k2].2 == u[k2]);
        }
    }
}

proof fn lemma_scan_column_distinct<'a, P: Piece, const W: usize, const H: usize>(
    b: BoardView<P>,
    patterns: Seq<&'a MatchPattern<P::MatchType, W, H>>,
    x: int,
    y: int,
)
    requires
        patterns_sorted(patterns),
    ensures
        distinct_matches(scan_column::<P, W, H>(b, patterns, x, y)),
        forall|k: int|
            0 <= k < scan_column::<P, W, H>(b, patterns, x, y).len() ==> {
                let m = #[trigger] scan_column::<P, W, H>(b, patterns, x, y)[k];
                &&& m.1.0 == x
                &&& m.1.1 < y
                &&& all_unchecked(m.2, x, m.1.1)
                &&& m.2.contains(m.1)
            },
    decreases y,
{
    if y > 0 {
        lemma_scan_column_distinct::<P, W, H>(b, patterns, x, y - 1);
        lemma_found_distinct::<P, W, H>(b, patterns, (x, y - 1), x, y - 1);
        lemma_found_placements::<P, W, H>(b, patterns, (x, y - 1), x, y - 1);
        let a = scan_column::<P, W, H>(b, patterns, x, y - 1);
        let c = found_matches::<P, W, H>(b, patterns, (x, y - 1), x, y - 1);
        let ac = a + c;
        assert forall|k: int| 0 <= k < ac.len() implies {
            let m = #[trigger] ac[k];
            &&& m.1.0 == x
            &&& m.1.1 < y
            &&& all_unchecked(m.2, x, m.1.1)
            &&& m.2.contains(m.1)
        } by {
            if k < a.len() {
                assert(ac[k] == a[k]);
            } else {
                assert(ac[k] == c[k - a.len()]);
            }
        }
        assert forall|i: int, j: int| 0 <= i < j < ac.len() implies !same_positions(
            (#[trigger] ac[i]).2,
            (#[trigger] ac[j]).2,
        ) by {
            if j < a.len() {
                assert(ac[i] == a[i] && ac[j] == a[j]);
            } else if i >= a.len() {
                assert(ac[i] == c[i - a.len()] && ac[j] == c[j - a.len()]);
            } else {
                assert(ac[i] == a[i] && ac[j] == c[j - a.len()]);
                let p = a[i].1;
                let q = c[j - a.len()].2;
                assert(a[i].2.contains(p));
                if q.contains(p) {
                    let n = choose|n: int| 0 <= n < q.len() && #[trigger] q[n] == p;
                    assert(unchecked(q[n], x, y - 1));
                }
            }
        }
    }
}

/// No two matches that a scan of the first `x` columns of a board finds cover the same
/// positions, for patterns whose positions are strictly ordered, as `MatchPattern` keeps them.
pub proof fn lemma_scan_distinct<'a, P: Piece, const W: usize, const H: usize>(
    b: BoardView<P>,
    patterns: Seq<&'a MatchPattern<P::MatchType, W, H>>,
    x: int,
)
    requires
        patterns_sorted(patterns),
    ensures
        distinct_matches(scan_board::<P, W, H>(b, patterns, x)),
        forall|k: int|
            0 <= k < scan_board::<P, W, H>(b, patterns, x).len() ==> {
                let m = #[trigger] scan_board::<P, W, H>(b, patterns, x)[k];
                &&& m.1.0 < x
                &&& all_unchecked(m.2, m.1.0, m.1.1)
                &&& m.2.contains(m.1)
            },
    decreases x,
{
    if x > 0 {
        lemma_scan_distinct::<P, W, H>(b, patterns, x - 1);
        lemma_scan_column_distinct::<P, W, H>(b, patterns, x - 1, H as int);
        let a = scan_board::<P, W, H>(b, patterns, x - 1);
        let c = scan_column::<P, W, H>(b, patterns, x - 1, H as int);
        let ac = a + c;
        assert forall|k: int| 0 <= k < ac.len() implies {
            let m = #[trigger] ac[k];
            &&& m.1.0 < x
            &&& all_unchecked(m.2, m.1.0, m.1.1)
            &&& m.2.contains(m.1)
        } by {
            if k < a.len() {
                assert(ac[k] == a[k]);
            } else {
                assert(ac[k] == c[k - a.len()]);
            }
        }
        assert forall|i: int, j: int| 0 <= i < j < ac.len() implies !same_positions(
            (#[trigger] ac[i]).2,
            (#[trigger] ac[j]).2,
        ) by {
            if j < a.len() {
                assert(ac[i] == a[i] && ac[j] == a[j]);
            } else if i >= a.len() {
                assert(ac[i] == c[i - a.len()] && ac[j] == c[j - a.len()]);
            } else {
                assert(ac[i] == a[i] && ac[j] == c[j - a.len()]);
                let p = a[i].1;
                let q = c[j - a.len()];
                assert(a[i].2.contains(p));
                if q.2.contains(p) {
                    let n = choose|n: int| 0 <= n < q.2.len() && #[trigger] q.2[n] == p;
                    assert(unchecked(q.2[n], x - 1, q.1.1));
                }
            }
        }
    }
}

proof fn lemma_first_matching_bounds<'a, P: Piece, const W: usize, const H: usize>(
    b: BoardView<P>,
    patterns: Seq<&'a MatchPattern<P::MatchType, W, H>>,
    pos: (int, int),
    i: int,
)
    requires
        0 <= i <= patterns.len(),
    ensures
        i <= first_matching_pattern::<P, W, H>(b, patterns, pos, i) <= patterns.len(),
    decreases patterns.len() - i,
{
    if i < patterns.len() {
        lemma_first_matching_bounds::<P, W, H>(b, patterns, pos, i + 1);
    }
}

/// Pieces of two boards are the same on a `W` by `H` board, except perhaps at `p` and `q`.
pub open spec fn same_pieces_but<P, const W: usize, const H: usize>(
    b1: BoardView<P>,
    b2: BoardView<P>,
    p: (int, int),
    q: (int, int),
) -> bool {
    forall|c: (int, int)| in_board::<W, H>(c) && c != p && c != q ==> #[trigger] b2.piece(c) == b1.piece(c)
}

/// Matches that lie away from the positions where a board changed still hold on it: those
/// that hold neither `p` nor `q`, or, where `p` is `q`, those that do not hold `p`.
proof fn lemma_hold_after_change<'a, P: Piece, const W: usize, const H: usize>(
    b1: BoardView<P>,
    b2: BoardView<P>,
    ms: Seq<MatchView<'a, P::MatchType, W, H>>,
    p: (int, int),
    q: (int, int),
)
    requires
        matches_hold::<P, W, H>(b1, ms),
        same_pieces_but::<P, W, H>(b1, b2, p, q),
    ensures
        forall|i: int|
            0 <= i < ms.len() && !(#[trigger] ms[i]).2.contains(p) && !ms[i].2.contains(q)
                ==> match_holds::<P, W, H>(b2, ms[i]),
{
    assert forall|i: int|
        0 <= i < ms.len() && !(#[trigger] ms[i]).2.contains(p) && !ms[i].2.contains(q)
            implies match_holds::<P, W, H>(b2, ms[i]) by {
        assert(match_holds::<P, W, H>(b1, ms[i]));
        assert forall|j: int| 0 <= j < ms[i].2.len() implies has_match_type(
            ms[i].0.spec_match_type(),
            b2.piece(#[trigger] ms[i].2[j]),
        ) by {
            assert(ms[i].2.contains(ms[i].2[j]));
            assert(in_board::<W, H>(ms[i].2[j]));
        }
    }
}

proof fn lemma_unaffected<'a, M, const W: usize, const H: usize>(
    ms: Seq<MatchView<'a, M, W, H>>,
    pos: (int, int),
    k: int,
)
    requires
        0 <= k <= ms.len(),
    ensures
        forall|i: int|
            0 <= i < unaffected(ms, pos, k).len() ==> exists|j: int|
                0 <= j < k && #[trigger] unaffected(ms, pos, k)[i] == ms[j] && !ms[j].2.contains(pos),
    decreases k,
{
    if k > 0 {
        lemma_unaffected(ms, pos, k - 1);
        assert forall|i: int|
            0 <= i < unaffected(ms, pos, k).len() implies exists|j: int|
                0 <= j < k && #[trigger] unaffected(ms, pos, k)[i] == ms[j] && !ms[j].2.contains(pos) by {
            if i < unaffected(ms, pos, k - 1).len() {
                assert(unaffected(ms, pos, k)[i] == unaffected(ms, pos, k - 1)[i]);
            } else {
                assert(unaffected(ms, pos, k)[i] == ms[k - 1]);
            }
        }
    }
}

proof fn lemma_unaffected_distinct<'a, M, const W: usize, const H: usize>(
    ms: Seq<MatchView<'a, M, W, H>>,
    pos: (int, int),
    k: int,
)
    requires
        0 <= k <= ms.len(),
        distinct_matches(ms),
    ensures
        distinct_matches(unaffected(ms, pos, k)),
    decreases k,
{
    if k > 0 {
        lemma_unaffected_distinct(ms, pos, k - 1);
        lemma_unaffected(ms, pos, k - 1);
        let prev = unaffected(ms, pos, k - 1);
        let cur = unaffected(ms, pos, k);
        assert forall|i1: int, i2: int| 0 <= i1 < i2 < cur.len() implies !same_positions(
            (#[trigger] cur[i1]).2,
            (#[trigger] cur[i2]).2,
        ) by {
            if i2 < prev.len() {
                assert(cur[i1] == prev[i1] && cur[i2] == prev[i2]);
            } else {
                assert(cur[i1] == prev[i1]);
                assert(cur[i2] == ms[k - 1]);
                let j = choose|j: int| 0 <= j < k - 1 && #[trigger] prev[i1] == ms[j] && !ms[j].2.contains(pos);
                assert(!same_positions(ms[j].2, ms[k - 1].2));
            }
        }
    }
}

/// Dropping the matches that hold a changed position and adding those found through it keeps
/// the matches covering pairwise different positions, for patterns whose positions are
/// strictly ordered, as `MatchPattern` keeps them. Setting a piece does this once, a swap
/// twice.
pub proof fn lemma_refresh_distinct<'a, P: Piece, const W: usize, const H: usize>(
    ms: Seq<MatchView<'a, P::MatchType, W, H>>,
    b: BoardView<P>,
    patterns: Seq<&'a MatchPattern<P::MatchType, W, H>>,
    pos: (int, int),
)
    requires
        distinct_matches(ms),
        patterns_sorted(patterns),
    ensures
        distinct_matches(without_pos(ms, pos) + found_matches::<P, W, H>(b, patterns, pos, 0, 0)),
{
    lemma_unaffected_distinct(ms, pos, ms.len() as int);
    lemma_unaffected(ms, pos, ms.len() as int);
    lemma_found_distinct::<P, W, H>(b, patterns, pos, 0, 0);
    lemma_found_placements::<P, W, H>(b, patterns, pos, 0, 0);
    let a = without_pos(ms, pos);
    let c = found_matches::<P, W, H>(b, patterns, pos, 0, 0);
    let ac = a + c;
    assert forall|i: int, j: int| 0 <= i < j < ac.len() implies !same_positions(
        (#[trigger] ac[i]).2,
        (#[trigger] ac[j]).2,
    ) by {
        if j < a.len() {
            assert(ac[i] == a[i] && ac[j] == a[j]);
        } else if i >= a.len() {
            assert(ac[i] == c[i - a.len()] && ac[j] == c[j - a.len()]);
        } else {
            assert(ac[i] == a[i] && ac[j] == c[j - a.len()]);
            let k = choose|k: int| 0 <= k < ms.len() && #[trigger] a[i] == ms[k] && !ms[k].2.contains(pos);
            assert(c[j - a.len()].2.contains(pos));
        }
    }
}

/// Dropping the matches that hold a changed position and adding those found through it keeps
/// every match placed from one of the patterns.
proof fn lemma_refresh_placed<'a, P: Piece, const W: usize, const H: usize>(
    ms: Seq<MatchView<'a, P::MatchType, W, H>>,
    b: BoardView<P>,
    patterns: Seq<&'a MatchPattern<P::MatchType, W, H>>,
    pos: (int, int),
)
    requires
        all_placed_from(patterns, ms),
    ensures
        all_placed_from(patterns, without_pos(ms, pos) + found_matches::<P, W, H>(b, patterns, pos, 0, 0)),
{
    lemma_unaffected(ms, pos, ms.len() as int);
    lemma_found_placements::<P, W, H>(b, patterns, pos, 0, 0);
    let a = without_pos(ms, pos);
    let c = found_matches::<P, W, H>(b, patterns, pos, 0, 0);
    let ac = a + c;
    assert forall|k: int| 0 <= k < ac.len() implies placed_from(patterns, #[trigger] ac[k]) by {
        if k < a.len() {
            assert(ac[k] == a[k]);
            let j = choose|j: int| 0 <= j < ms.len() && #[trigger] a[k] == ms[j] && !ms[j].2.contains(pos);
            assert(placed_from(patterns, ms[j]));
        } else {
            assert(ac[k] == c[k - a.len()]);
            assert(placement_of::<P, W, H>(b, patterns, c[k - a.len()]));
        }
    }
}

proof fn lemma_first_matching_skip<'a, P: Piece, const W: usize, const H: usize>(
    b: BoardView<P>,
    patterns: Seq<&'a MatchPattern<P::MatchType, W, H>>,
    pos: (int, int),
    j: int,
    i: int,
)
    requires
        0 <= j <= i <= patterns.len(),
        forall|k: int| j <= k < i ==> pattern_matches::<P, W, H>(b, *#[trigger] patterns[k], pos).len() == 0,
    ensures
        first_matching_pattern::<P, W, H>(b, patterns, pos, j) == first_matching_pattern::<P, W, H>(
            b,
            patterns,
            pos,
            i,
        ),
    decreases i - j,
{
    if j < i {
        lemma_first_matching_skip::<P, W, H>(b, patterns, pos, j + 1, i);
    }
}

/// A pattern has a matching placement through `pos`: placed with its origin on the board, all
/// its positions lie on the board and hold pieces of its match type, and one of them is `pos`.
pub open spec fn matches_through<P: Piece, const W: usize, const H: usize>(
    b: BoardView<P>,
    pattern: MatchPattern<P::MatchType, W, H>,
    pos: (int, int),
) -> bool {
    exists|o: (int, int)|
        {
            &&& in_board::<W, H>(o)
            &&& #[trigger] placed::<W, H>(pattern.positions(), o) matches Some(cells)
            &&& cells_have_type(b, pattern.spec_match_type(), cells)
            &&& cells.contains(pos)
        }
}

proof fn lemma_variants_complete<P: Piece, const W: usize, const H: usize>(
    b: BoardView<P>,
    t: P::MatchType,
    ps: Seq<(int, int)>,
    pos: (int, int),
    o: (int, int),
    kk: int,
    k: int,
)
    requires
        in_board::<W, H>(o),
        placed::<W, H>(ps, o) is Some,
        cells_have_type(b, t, placed::<W, H>(ps, o)->0),
        0 <= kk < k <= ps.len(),
        (ps[kk].0 + o.0, ps[kk].1 + o.1) == pos,
    ensures
        variants_through::<P, W, H>(b, t, ps, pos, k).contains(placed::<W, H>(ps, o)->0),
    decreases k,
{
    let cells = placed::<W, H>(ps, o)->0;
    let prev = variants_through::<P, W, H>(b, t, ps, pos, k - 1);
    let cur = variants_through::<P, W, H>(b, t, ps, pos, k);
    if k - 1 == kk {
        assert(origin_for::<W, H>(pos, ps[kk]) == Some(o));
        assert(variant::<P, W, H>(b, t, ps, o) == Some(cells));
        assert(cur == prev.push(cells));
        assert(cur[prev.len() as int] == cells);
    } else {
        lemma_variants_complete::<P, W, H>(b, t, ps, pos, o, kk, k - 1);
        let j = choose|j: int| 0 <= j < prev.len() && prev[j] == cells;
        assert(cur[j] == prev[j]);
    }
}

/// A pattern with a matching placement through `pos` has a matching variant through it.
proof fn lemma_pattern_matches_nonempty<P: Piece, const W: usize, const H: usize>(
    b: BoardView<P>,
    pattern: MatchPattern<P::MatchType, W, H>,
    pos: (int, int),
)
    requires
        matches_through::<P, W, H>(b, pattern, pos),
    ensures
        pattern_matches::<P, W, H>(b, pattern, pos).len() > 0,
{
    let ps = pattern.positions();
    let o = choose|o: (int, int)|
        {
            &&& in_board::<W, H>(o)
            &&& #[trigger] placed::<W, H>(ps, o) matches Some(cells)
            &&& cells_have_type(b, pattern.spec_match_type(), cells)
            &&& cells.contains(pos)
        };
    let cells = placed::<W, H>(ps, o)->0;
    assert(cells == translate(ps, o));
    let kk = choose|kk: int| 0 <= kk < cells.len() && cells[kk] == pos;
    assert(cells[kk] == (ps[kk].0 + o.0, ps[kk].1 + o.1));
    lemma_variants_complete::<P, W, H>(b, pattern.spec_match_type(), ps, pos, o, kk, ps.len() as int);
}

proof fn lemma_first_matching_le<'a, P: Piece, const W: usize, const H: usize>(
    b: BoardView<P>,
    patterns: Seq<&'a MatchPattern<P::MatchType, W, H>>,
    pos: (int, int),
    s: int,
    i: int,
)
    requires
        0 <= s <= i < patterns.len(),
        pattern_matches::<P, W, H>(b, *patterns[i], pos).len() > 0,
    ensures
        first_matching_pattern::<P, W, H>(b, patterns, pos, s) <= i,
        pattern_matches::<P, W, H>(b, *patterns[first_matching_pattern::<P, W, H>(b, patterns, pos, s)], pos).len() > 0,
    decreases i - s,
{
    if s < i && pattern_matches::<P, W, H>(b, *patterns[s], pos).len() == 0 {
        lemma_first_matching_le::<P, W, H>(b, patterns, pos, s + 1, i);
    }
}

/// Pattern priority: the matches found through a changed position all come from one pattern,
/// and that pattern stands no later in the list than any pattern with a matching placement
/// through the position.
pub proof fn lemma_match_priority<'a, P: Piece, const W: usize, const H: usize>(
    b: BoardView<P>,
    patterns: Seq<&'a MatchPattern<P::MatchType, W, H>>,
    pos: (int, int),
    sx: int,
    sy: int,
    i: int,
)
    requires
        0 <= i < patterns.len(),
        matches_through::<P, W, H>(b, *patterns[i], pos),
    ensures
        exists|j: int|
            #![trigger patterns[j]]
            0 <= j <= i && forall|k: int|
                0 <= k < found_matches::<P, W, H>(b, patterns, pos, sx, sy).len() ==> (
                #[trigger] found_matches::<P, W, H>(b, patterns, pos, sx, sy)[k]).0 == patterns[j],
{
    lemma_pattern_matches_nonempty::<P, W, H>(b, *patterns[i], pos);
    lemma_first_matching_le::<P, W, H>(b, patterns, pos, 0, i);
    lemma_first_matching_bounds::<P, W, H>(b, patterns, pos, 0);
    let j = first_matching_pattern::<P, W, H>(b, patterns, pos, 0);
    let fm = found_matches::<P, W, H>(b, patterns, pos, sx, sy);
    let vs = pattern_matches::<P, W, H>(b, *patterns[j], pos);
    let u = unchecked_variants(vs, sx, sy, vs.len() as int);
    assert forall|k: int| 0 <= k < fm.len() implies (#[trigger] fm[k]).0 == patterns[j] by {
        assert(fm[k] == (patterns[j], pos, u[k]));
    }
}

proof fn lemma_unchecked_all(vs: Seq<Seq<(int, int)>>, sx: int, sy: int, k: int)
    requires
        0 <= k <= vs.len(),
        forall|i: int| 0 <= i < k ==> all_unchecked(#[trigger] vs[i], sx, sy),
    ensures
        unchecked_variants(vs, sx, sy, k).len() == k,
    decreases k,
{
    if k > 0 {
        lemma_unchecked_all(vs, sx, sy, k - 1);
    }
}

/// A changed position through which some pattern has a matching placement gives at least one
/// match, when nothing on the board has been looked at before.
pub proof fn lemma_match_found<'a, P: Piece, const W: usize, const H: usize>(
    b: BoardView<P>,
    patterns: Seq<&'a MatchPattern<P::MatchType, W, H>>,
    pos: (int, int),
    i: int,
)
    requires
        0 <= i < patterns.len(),
        matches_through::<P, W, H>(b, *patterns[i], pos),
    ensures
        found_matches::<P, W, H>(b, patterns, pos, 0, 0).len() > 0,
{
    lemma_pattern_matches_nonempty::<P, W, H>(b, *patterns[i], pos);
    lemma_first_matching_le::<P, W, H>(b, patterns, pos, 0, i);
    let j = first_matching_pattern::<P, W, H>(b, patterns, pos, 0);
    let pattern = *patterns[j];
    let vs = pattern_matches::<P, W, H>(b, pattern, pos);
    lemma_variants_hold::<P, W, H>(
        b,
        pattern.spec_match_type(),
        pattern.positions(),
        pos,
        pattern.positions().len() as int,
    );
    assert forall|k: int| 0 <= k < vs.len() implies all_unchecked(#[trigger] vs[k], 0, 0) by {
        assert(on_board::<W, H>(vs[k]));
        assert forall|m: int| 0 <= m < vs[k].len() implies unchecked(#[trigger] vs[k][m], 0, 0) by {
            assert(in_board::<W, H>(vs[k][m]));
        }
    }
    lemma_unchecked_all(vs, 0, 0, vs.len() as int);
}

/// Keeps track of the current board state and computes matches.
///
/// The board detects matches based on user-provided match patterns.
/// It does not have any match patterns by default. Patterns with
/// higher rank are preferred over those with lower rank.
///
/// The whole board is not scanned to check for matches. When a
/// piece is changed, either because it is set/overwritten or it
/// is swapped, it is marked as having changed. Then the changed
/// pieces are selectively checked for matches. Users should update
/// the board based on the positions provided in the match.
#[derive(Eq, PartialEq, Debug)]
pub struct MatchBoard<'a, M, P, const W: usize, const H: usize> {
    board: BoardState<P, W, H>,
    patterns: Vec<&'a MatchPattern<M, W, H>>,
    matches: Vec<Match<'a, M, W, H>>,
    match_moves: Vec<MatchMove<'a, M, W, H>>,
}

impl<'a, M: Copy, P: Piece<MatchType = M>, const W: usize, const H: usize> MatchBoard<'a, M, P, W, H> {
    /// The pieces and barriers of the board.
    pub closed spec fn board_view(self) -> BoardView<P> {
        self.board@
    }

    /// The patterns, in the order in which they are checked.
    pub closed spec fn pattern_list(self) -> Seq<&'a MatchPattern<M, W, H>> {
        self.patterns@
    }

    /// The matches found so far.
    pub closed spec fn match_list(self) -> Seq<MatchView<'a, M, W, H>> {
        match_views(self.matches@)
    }

    /// The board's matches lie on the board, on pieces of their patterns' match types; each is
    /// placed from one of the patterns; and no two of them cover the same positions.
    pub closed spec fn wf(self) -> bool {
        &&& matches_hold::<P, W, H>(self.board@, self.match_list())
        &&& distinct_matches(self.match_list())
        &&& all_placed_from(self.pattern_list(), self.match_list())
        &&& patterns_sorted(self.pattern_list())
    }

    /// Creates a new match board and scans the board for matches, column by column and,
    /// within a column, from the bottom up.
    ///
    /// * `board` - initial board state of the game (or the previous state if the game is
    ///   being resumed after a game shutdown)
    /// * `patterns` - match patterns to use to check for matches. Patterns will be checked in
    ///   the order provided. For example, if one pattern matches a column of five pieces and
    ///   another matches a column of three pieces, the column of five pattern should probably
    ///   be first.
    pub fn new(board: BoardState<P, W, H>, patterns: Vec<&'a MatchPattern<M, W, H>>) -> (match_board:
        MatchBoard<'a, M, P, W, H>)
        requires
            piece_laws::<P>(),
        ensures
            match_board.wf(),
            match_board.board_view() == board@,
            match_board.board_view().shaped(W as int, H as int),
            match_board.pattern_list() == patterns@,
            match_board.match_list() == scan_board::<P, W, H>(board@, patterns@, W as int),
            forall|k: int|
                0 <= k < match_board.match_list().len() ==> placement_of::<P, W, H>(
                    board@,
                    patterns@,
                    #[trigger] match_board.match_list()[k],
                ),
    {
        let ghost b0 = board@;
        let ghost pats0 = patterns@;
        proof {
            use_type_invariant(&board);
            board.lemma_shaped();
        }
        let mut i: usize = 0;
        while i < patterns.len()
            invariant
                i <= patterns@.len(),
                forall|j: int| 0 <= j < i ==> strictly_sorted((#[trigger] patterns@[j]).positions()),
            decreases patterns@.len() - i,
        {
            patterns[i].spaces();
            i = i + 1;
        }
        let mut match_board = MatchBoard {
            board,
            patterns,
            matches: Vec::new(),
            match_moves: Vec::new(),
        };
        proof {
            assert(match_board.match_list() =~= Seq::empty());
        }
        match_board.add_initial_matches();
        proof {
            lemma_scan_placements::<P, W, H>(b0, pats0, W as int);
        }
        match_board
    }

    /// Ends the current game by returning the final board state.
    pub fn end_game(self) -> (board: BoardState<P, W, H>)
        ensures
            board@ == self.board_view(),
    {
        self.board
    }

    /// Gets the type of a piece at a certain position.
    pub fn piece(&self, pos: Pos<W, H>) -> (piece: P)
        requires
            pos.in_bounds(),
        ensures
            piece == self.board_view().piece(pos@),
    {
        self.board.piece(pos)
    }

    /// Replaces a piece at the given position and returns the previous piece. The matches
    /// that held the position are dropped and the matches through it are looked for again.
    pub fn set_piece(&mut self, pos: Pos<W, H>, piece: P) -> (old_piece: P)
        requires
            piece_laws::<P>(),
            old(self).wf(),
            pos.in_bounds(),
        ensures
            final(self).wf(),
            final(self).board_view().shaped(W as int, H as int),
            old_piece == old(self).board_view().piece(pos@),
            final(self).board_view().pieces == crate::board::set_cell(old(self).board_view().pieces, pos@, piece),
            final(self).board_view().same_barriers(old(self).board_view()),
            final(self).pattern_list() == old(self).pattern_list(),
            final(self).match_list() == without_pos(old(self).match_list(), pos@) + found_matches::<P, W, H>(
                final(self).board_view(),
                old(self).pattern_list(),
                pos@,
                0,
                0,
            ),
    {
        let ghost b1 = self.board@;
        let ghost ms0 = self.match_list();
        proof {
            use_type_invariant(&self.board);
            self.board.lemma_shaped();
        }
        let old_piece = self.board.set_piece(pos, piece);
        proof {
            crate::board::lemma_set_then_get(b1.pieces, W as int, H as int, pos@, piece);
            lemma_hold_after_change::<P, W, H>(b1, self.board@, self.match_list(), pos@, pos@);
        }
        self.recompute_matches(pos, Ghost(pos@));
        proof {
            lemma_refresh_distinct::<P, W, H>(ms0, self.board@, self.pattern_list(), pos@);
            lemma_refresh_placed::<P, W, H>(ms0, self.board@, self.pattern_list(), pos@);
        }
        old_piece
    }

    /// Swap two pieces on the board. The order of two positions provided does not matter.
    /// The matches that held either position are dropped and the matches through them are
    /// looked for again, first through `first`, then through `second`. Swapping a position
    /// with itself changes nothing.
    pub fn swap(&mut self, first: Pos<W, H>, second: Pos<W, H>)
        requires
            piece_laws::<P>(),
            old(self).wf(),
            first.in_bounds(),
            second.in_bounds(),
        ensures
            final(self).wf(),
            final(self).board_view().shaped(W as int, H as int),
            first@ == second@ ==> final(self).board_view() == old(self).board_view()
                && final(self).match_list() == old(self).match_list(),
            first@ != second@ ==> {
                &&& final(self).board_view().pieces == crate::board::swap_cells(
                    old(self).board_view().pieces,
                    first@,
                    second@,
                )
                &&& final(self).board_view().same_barriers(old(self).board_view())
                &&& final(self).match_list() == without_pos(
                    without_pos(old(self).match_list(), first@) + found_matches::<P, W, H>(
                        final(self).board_view(),
                        old(self).pattern_list(),
                        first@,
                        0,
                        0,
                    ),
                    second@,
                ) + found_matches::<P, W, H>(
                    final(self).board_view(),
                    old(self).pattern_list(),
                    second@,
                    0,
                    0,
                )
            },
            final(self).pattern_list() == old(self).pattern_list(),
    {
        proof {
            use_type_invariant(&self.board);
            self.board.lemma_shaped();
        }
        if first.x() == second.x() && first.y() == second.y() {
            return;
        }
        let ghost b1 = self.board@;
        let ghost ms0 = self.match_list();
        proof {
            use_type_invariant(&self.board);
            self.board.lemma_shaped();
        }
        self.board.swap(first, second);
        proof {
            crate::board::lemma_swap_then_get(b1.pieces, W as int, H as int, first@, second@);
            lemma_hold_after_change::<P, W, H>(b1, self.board@, self.match_list(), first@, second@);
        }
        self.recompute_matches(first, Ghost(second@));
        let ghost ms1 = self.match_list();
        proof {
            lemma_refresh_distinct::<P, W, H>(ms0, self.board@, self.pattern_list(), first@);
            lemma_refresh_placed::<P, W, H>(ms0, self.board@, self.pattern_list(), first@);
        }
        self.recompute_matches(second, Ghost(second@));
        proof {
            lemma_refresh_distinct::<P, W, H>(ms1, self.board@, self.pattern_list(), second@);
            lemma_refresh_placed::<P, W, H>(ms1, self.board@, self.pattern_list(), second@);
        }
    }

    /// Gets all matches on the board. Matches are always based on the current board state:
    /// each lies on the board, on pieces of its pattern's match type; each is one placement of
    /// one of the patterns and holds the position whose change found it; and no two cover the
    /// same positions.
    pub fn matches(&self) -> (matches: &[Match<'a, M, W, H>])
        requires
            self.wf(),
        ensures
            match_views(matches@) == self.match_list(),
            forall|i: int|
                0 <= i < matches@.len() ==> match_holds::<P, W, H>(
                    self.board_view(),
                    match_view(#[trigger] matches@[i]),
                ),
            all_placed_from(self.pattern_list(), self.match_list()),
            distinct_matches(self.match_list()),
    {
        let r = self.matches.as_slice();
        proof {
            assert forall|i: int|
                0 <= i < r@.len() implies match_holds::<P, W, H>(
                    self.board_view(),
                    match_view(#[trigger] r@[i]),
                ) by {
                assert(match_views(self.matches@)[i] == match_view(r@[i]));
            }
        }
        r
    }

    /// Scans the initial state of the board for matches.
    fn add_initial_matches(&mut self)
        requires
            piece_laws::<P>(),
            old(self).match_list() == Seq::<MatchView<'a, M, W, H>>::empty(),
            patterns_sorted(old(self).pattern_list()),
        ensures
            final(self).wf(),
            final(self).board_view() == old(self).board_view(),
            final(self).pattern_list() == old(self).pattern_list(),
            final(self).match_list() == scan_board::<P, W, H>(old(self).board_view(), old(self).pattern_list(), W as int),
    {
        let ghost b = self.board@;
        let ghost patterns = self.patterns@;
        let mut x: usize = 0;
        while x < W
            invariant
                x <= W,
                piece_laws::<P>(),
                self.board@ == b,
                self.patterns@ == patterns,
                self.match_list() == scan_board::<P, W, H>(b, patterns, x as int),
                matches_hold::<P, W, H>(b, self.match_list()),
            decreases W - x,
        {
            let mut y: usize = 0;
            while y < H
                invariant
                    x < W,
                    y <= H,
                    piece_laws::<P>(),
                    self.board@ == b,
                    self.patterns@ == patterns,
                        self.match_list() == scan_board::<P, W, H>(b, patterns, x as int) + scan_column::<P, W, H>(b, patterns, x as int, y as int),
                    matches_hold::<P, W, H>(b, self.match_list()),
                decreases H - y,
            {
                let ghost before = self.match_list();
                self.add_matches_after(x, y, Pos::new(x, y));
                proof {
                    lemma_found_hold::<P, W, H>(b, patterns, (x as int, y as int), x as int, y as int);
                    assert(self.match_list() =~= scan_board::<P, W, H>(b, patterns, x as int) + scan_column::<P, W, H>(b, patterns, x as int, y + 1));
                }
                y = y + 1;
            }
            proof {
                assert(self.match_list() =~= scan_board::<P, W, H>(b, patterns, x + 1));
            }
            x = x + 1;
        }
        proof {
            lemma_scan_distinct::<P, W, H>(b, patterns, W as int);
            lemma_scan_placements::<P, W, H>(b, patterns, W as int);
            assert forall|k: int| 0 <= k < self.match_list().len() implies placed_from(
                patterns,
                #[trigger] self.match_list()[k],
            ) by {
                assert(placement_of::<P, W, H>(b, patterns, self.match_list()[k]));
            }
        }
    }

    /// Recomputes the current set of matches when a position on the board is changed: the
    /// matches that hold the position are dropped, and the matches through it are added.
    /// Matches that hold `other`, a second position that changed, need not lie on matching
    /// pieces before or after, unless `other` is the position itself.
    fn recompute_matches(&mut self, changed_pos: Pos<W, H>, Ghost(other): Ghost<(int, int)>)
        requires
            piece_laws::<P>(),
            forall|i: int|
                0 <= i < old(self).match_list().len() && !(#[trigger] old(self).match_list()[i]).2.contains(
                    changed_pos@,
                ) && !old(self).match_list()[i].2.contains(other) ==> match_holds::<P, W, H>(
                    old(self).board@,
                    old(self).match_list()[i],
                ),
        ensures
            final(self).board_view() == old(self).board_view(),
            final(self).pattern_list() == old(self).pattern_list(),
            forall|i: int|
                0 <= i < final(self).match_list().len() && (other == changed_pos@
                    || !(#[trigger] final(self).match_list()[i]).2.contains(other)) ==> match_holds::<
                    P,
                    W,
                    H,
                >(final(self).board@, final(self).match_list()[i]),
            final(self).match_list() == without_pos(old(self).match_list(), changed_pos@) + found_matches::<P, W, H>(
                old(self).board_view(),
                old(self).pattern_list(),
                changed_pos@,
                0,
                0,
            ),
    {
        let ghost ms = self.match_list();
        let mut kept: Vec<Match<'a, M, W, H>> = Vec::new();
        let mut i: usize = 0;
        while i < self.matches.len()
            invariant
                i <= self.matches@.len(),
                ms == match_views(self.matches@),
                match_views(kept@) == unaffected(ms, changed_pos@, i as int),
            decreases self.matches@.len() - i,
        {
            let prev_match = &self.matches[i];
            assert(ms[i as int] == match_view(self.matches@[i as int]));
            if !prev_match.contains(changed_pos) {
                let copy = Match::new(prev_match.pattern(), prev_match.changed_pos(), copy_positions(prev_match.board_pos()));
                let ghost before = kept@;
                kept.push(copy);
                proof {
                    assert(match_views(kept@) =~= match_views(before).push(match_view(copy)));
                }
            }
            i = i + 1;
        }
        self.matches = kept;
        let ghost u = without_pos(ms, changed_pos@);
        proof {
            lemma_unaffected(ms, changed_pos@, ms.len() as int);
        }
        self.add_matches_after(0, 0, changed_pos);
        proof {
            let f = found_matches::<P, W, H>(self.board@, self.patterns@, changed_pos@, 0, 0);
            lemma_found_hold::<P, W, H>(self.board@, self.patterns@, changed_pos@, 0, 0);
            let l = self.match_list();
            assert(l == u + f);
            assert forall|k: int|
                0 <= k < l.len() && (other == changed_pos@ || !(#[trigger] l[k]).2.contains(other))
                    implies match_holds::<P, W, H>(self.board@, l[k]) by {
                if k < u.len() {
                    assert(l[k] == u[k]);
                    let j = choose|j: int|
                        0 <= j < ms.len() && #[trigger] u[k] == ms[j] && !ms[j].2.contains(changed_pos@);
                    assert(ms[j] == u[k]);
                } else {
                    assert(l[k] == f[k - u.len()]);
                }
            }
        }
    }

    /// Checks if the given piece has the given match type.
    fn piece_matches(match_type: M, piece: P) -> (b: bool)
        requires
            piece_laws::<P>(),
        ensures
            b == has_match_type(match_type, piece),
    {
        let type_piece: P = match_type.into();
        (type_piece & piece) != P::AIR
    }

    /// Changes the origin of a set of points: each point moved by `origin`, or `None` when one
    /// of them would fall outside the board.
    fn change_origin(positions: &Vec<Pos<W, H>>, origin: Pos<W, H>) -> (r: Option<Vec<Pos<W, H>>>)
        ensures
            match r {
                Some(v) => placed::<W, H>(pos_views(positions@), origin@) == Some(pos_views(v@)),
                None => placed::<W, H>(pos_views(positions@), origin@) is None,
            },
            r matches Some(v) ==> forall|i: int| 0 <= i < v@.len() ==> #[trigger] v@[i].in_bounds(),
    {
        let ghost ps = pos_views(positions@);
        let mut new_positions: Vec<Pos<W, H>> = Vec::new();
        let mut i: usize = 0;
        while i < positions.len()
            invariant
                i <= positions@.len(),
                ps == pos_views(positions@),
                pos_views(new_positions@) == translate(ps, origin@).subrange(0, i as int),
                forall|k: int| 0 <= k < i ==> in_board::<W, H>(#[trigger] translate(ps, origin@)[k]),
                forall|k: int| 0 <= k < new_positions@.len() ==> #[trigger] new_positions@[k].in_bounds(),
            decreases positions@.len() - i,
        {
            let pos = positions[i];
            assert(translate(ps, origin@)[i as int] == (pos@.0 + origin@.0, pos@.1 + origin@.1));
            let sum = pos + origin;
            assert(place_view(sum) == checked_place::<W, H>(pos@.0 + origin@.0, pos@.1 + origin@.1));
            if let Ok(new_pos) = sum {
                assert(new_pos@ == (pos@.0 + origin@.0, pos@.1 + origin@.1));
                let ghost before = new_positions@;
                new_positions.push(new_pos);
                proof {
                    assert(pos_views(new_positions@) =~= pos_views(before).push(new_pos@));
                    assert(translate(ps, origin@).subrange(0, i + 1) =~= translate(ps, origin@).subrange(0, i as int).push(translate(ps, origin@)[i as int]));
                    assert(pos_views(new_positions@) =~= translate(ps, origin@).subrange(0, i + 1));
                }
            } else {
                return None;
            }
            i = i + 1;
        }
        assert(translate(ps, origin@).subrange(0, i as int) =~= translate(ps, origin@));
        Some(new_positions)
    }

    /// Checks for a single variant of a pattern and returns the corresponding positions on the
    /// board if found.
    fn check_variant(&self, pattern: &MatchPattern<M, W, H>, new_origin: Pos<W, H>) -> (r: Option<
        Vec<Pos<W, H>>,
    >)
        requires
            piece_laws::<P>(),
        ensures
            match r {
                Some(v) => variant::<P, W, H>(
                    self.board_view(),
                    pattern.spec_match_type(),
                    pattern.positions(),
                    new_origin@,
                ) == Some(pos_views(v@)),
                None => variant::<P, W, H>(
                    self.board_view(),
                    pattern.spec_match_type(),
                    pattern.positions(),
                    new_origin@,
                ) is None,
            },
    {
        let grid_pos = match Self::change_origin(pattern.spaces(), new_origin) {
            Some(g) => g,
            None => {
                return None;
            },
        };
        let ghost cells = pos_views(grid_pos@);
        let match_type = pattern.match_type();
        let mut all_match = true;
        let mut i: usize = 0;
        while i < grid_pos.len()
            invariant
                i <= grid_pos@.len(),
                piece_laws::<P>(),
                cells == pos_views(grid_pos@),
                match_type == pattern.spec_match_type(),
                forall|k: int| 0 <= k < grid_pos@.len() ==> #[trigger] grid_pos@[k].in_bounds(),
                all_match == forall|k: int|
                    0 <= k < i ==> has_match_type(match_type, self.board_view().piece(#[trigger] cells[k])),
            decreases grid_pos@.len() - i,
        {
            let pos = grid_pos[i];
            assert(cells[i as int] == pos@);
            let piece = self.board.piece(pos);
            if !Self::piece_matches(match_type, piece) {
                all_match = false;
            }
            i = i + 1;
        }
        if all_match {
            Some(grid_pos)
        } else {
            None
        }
    }

    /// Checks for a pattern that includes a specific position on the board. Looks for all
    /// variants of a pattern (all possible patterns that include the required position).
    /// Returns the matches on the board that correspond to that pattern.
    fn check_pattern(&self, pattern: &'a MatchPattern<M, W, H>, pos: Pos<W, H>) -> (r: Vec<Match<'a, M, W, H>>)
        requires
            piece_laws::<P>(),
        ensures
            r@.len() == pattern_matches::<P, W, H>(self.board_view(), *pattern, pos@).len(),
            forall|i: int|
                0 <= i < r@.len() ==> #[trigger] match_view(r@[i]) == (
                    pattern,
                    pos@,
                    pattern_matches::<P, W, H>(self.board_view(), *pattern, pos@)[i],
                ),
    {
        let spaces = pattern.spaces();
        let ghost ps = pattern.positions();
        let ghost t = pattern.spec_match_type();
        let mut found: Vec<Match<'a, M, W, H>> = Vec::new();
        let mut k: usize = 0;
        while k < spaces.len()
            invariant
                k <= spaces@.len(),
                piece_laws::<P>(),
                ps == pattern.positions(),
                t == pattern.spec_match_type(),
                pos_views(spaces@) == ps,
                found@.len() == variants_through::<P, W, H>(self.board_view(), t, ps, pos@, k as int).len(),
                forall|i: int|
                    0 <= i < found@.len() ==> #[trigger] match_view(found@[i]) == (
                        pattern,
                        pos@,
                        variants_through::<P, W, H>(self.board_view(), t, ps, pos@, k as int)[i],
                    ),
            decreases spaces@.len() - k,
        {
            let original = spaces[k];
            assert(ps[k as int] == original@);
            let difference = pos - original;
            assert(place_view(difference) == checked_place::<W, H>(pos@.0 - original@.0, pos@.1 - original@.1));
            let variant = match difference {
                Ok(origin) => self.check_variant(pattern, origin),
                Err(_) => None,
            };
            if let Some(positions) = variant {
                found.push(Match::new(pattern, pos, positions));
            }
            k = k + 1;
        }
        found
    }

    /// Returns true if the given position would not have been checked, assuming all
    /// positions on the board were iterated over starting with the first column.
    fn is_pos_unchecked(pos: &Pos<W, H>, start_x: usize, start_y: usize) -> (b: bool)
        ensures
            b == unchecked(pos@, start_x as int, start_y as int),
    {
        pos.x() > start_x || (pos.x() == start_x && pos.y() >= start_y)
    }

    /// Whether all the positions are unchecked.
    fn all_pos_unchecked(positions: &Vec<Pos<W, H>>, start_x: usize, start_y: usize) -> (b: bool)
        ensures
            b == all_unchecked(pos_views(positions@), start_x as int, start_y as int),
    {
        let mut i: usize = 0;
        while i < positions.len()
            invariant
                i <= positions@.len(),
                forall|k: int| 0 <= k < i ==> unchecked(#[trigger] pos_views(positions@)[k], start_x as int, start_y as int),
            decreases positions@.len() - i,
        {
            assert(pos_views(positions@)[i as int] == positions@[i as int]@);
            if !Self::is_pos_unchecked(&positions[i], start_x, start_y) {
                return false;
            }
            i = i + 1;
        }
        true
    }

    /// Adds matches for the given changed position that have not already been found, assuming
    /// positions before `(start_x, start_y)` have already been checked.
    fn add_matches_after(&mut self, start_x: usize, start_y: usize, changed_pos: Pos<W, H>)
        requires
            piece_laws::<P>(),
        ensures
            final(self).board_view() == old(self).board_view(),
            final(self).pattern_list() == old(self).pattern_list(),
            final(self).match_list() == old(self).match_list() + found_matches::<P, W, H>(
                old(self).board_view(),
                old(self).pattern_list(),
                changed_pos@,
                start_x as int,
                start_y as int,
            ),
    {
        let ghost b = self.board_view();
        let ghost patterns = self.pattern_list();
        let mut chosen: Option<Vec<Match<'a, M, W, H>>> = None;
        let mut i: usize = 0;
        while chosen.is_none() && i < self.patterns.len()
            invariant
                piece_laws::<P>(),
                b == self.board_view(),
                patterns == self.pattern_list(),
                i <= patterns.len(),
                chosen is None ==> forall|j: int| 0 <= j < i ==> pattern_matches::<P, W, H>(b, *#[trigger] patterns[j], changed_pos@).len() == 0,
                chosen matches Some(v) ==> {
                    &&& 1 <= i
                    &&& forall|j: int| 0 <= j < i - 1 ==> pattern_matches::<P, W, H>(b, *#[trigger] patterns[j], changed_pos@).len() == 0
                    &&& pattern_matches::<P, W, H>(b, *patterns[i - 1], changed_pos@).len() > 0
                    &&& v@.len() == pattern_matches::<P, W, H>(b, *patterns[i - 1], changed_pos@).len()
                    &&& forall|k: int| 0 <= k < v@.len() ==> #[trigger] match_view(v@[k]) == (
                        patterns[i - 1],
                        changed_pos@,
                        pattern_matches::<P, W, H>(b, *patterns[i - 1], changed_pos@)[k],
                    )
                },
            decreases patterns.len() - i,
        {
            let new_matches = self.check_pattern(self.patterns[i], changed_pos);
            if new_matches.len() > 0 {
                chosen = Some(new_matches);
            }
            i = i + 1;
        }
        let ghost first = first_matching_pattern::<P, W, H>(b, patterns, changed_pos@, 0);
        let ghost old_list = self.match_list();
        if let Some(new_matches) = chosen {
            proof {
                lemma_first_matching_skip::<P, W, H>(b, patterns, changed_pos@, 0, i - 1);
            }
            let ghost vs = pattern_matches::<P, W, H>(b, *patterns[i - 1], changed_pos@);
            let mut k: usize = 0;
            while k < new_matches.len()
                invariant
                    k <= new_matches@.len(),
                    b == self.board_view(),
                    patterns == self.pattern_list(),
                    new_matches@.len() == vs.len(),
                    1 <= i <= patterns.len(),
                    forall|k: int| 0 <= k < new_matches@.len() ==> #[trigger] match_view(new_matches@[k]) == (
                        patterns[i - 1],
                        changed_pos@,
                        vs[k],
                    ),
                    self.match_list() == old_list + unchecked_variants(vs, start_x as int, start_y as int, k as int).map_values(
                        |cells: Seq<(int, int)>| (patterns[i - 1], changed_pos@, cells),
                    ),
                decreases new_matches@.len() - k,
            {
                let new_match = &new_matches[k];
                assert(match_view(new_matches@[k as int]) == (patterns[i - 1], changed_pos@, vs[k as int]));
                if Self::all_pos_unchecked(new_match.board_pos(), start_x, start_y) {
                    let copy = Match::new(new_match.pattern(), new_match.changed_pos(), copy_positions(new_match.board_pos()));
                    let ghost before = self.matches@;
                    self.matches.push(copy);
                    proof {
                        assert(match_views(self.matches@) =~= match_views(before).push(match_view(copy)));
                    }
                }
                proof {
                    let f = |cells: Seq<(int, int)>| (patterns[i - 1], changed_pos@, cells);
                    assert(unchecked_variants(vs, start_x as int, start_y as int, k + 1).map_values(f) =~= if all_unchecked(vs[k as int], start_x as int, start_y as int) {
                        unchecked_variants(vs, start_x as int, start_y as int, k as int).map_values(f).push(f(vs[k as int]))
                    } else {
                        unchecked_variants(vs, start_x as int, start_y as int, k as int).map_values(f)
                    });
                }
                k = k + 1;
            }
        } else {
            proof {
                lemma_first_matching_skip::<P, W, H>(b, patterns, changed_pos@, 0, i as int);
                assert(self.match_list() =~= old_list + Seq::empty());
            }
        }
    }
}

impl<'a, M: Copy, P: Piece<MatchType = M>, const W: usize, const H: usize> Clone for MatchBoard<'a, M, P, W, H> {
    /// Copies the board: the copy has the same pieces, barriers, patterns and matches.
    fn clone(&self) -> (res: Self)
        ensures
            res.board_view() == self.board_view(),
            res.pattern_list() == self.pattern_list(),
            res.match_list() == self.match_list(),
    {
        let mut patterns: Vec<&'a MatchPattern<M, W, H>> = Vec::new();
        let mut i: usize = 0;
        while i < self.patterns.len()
            invariant
                i <= self.patterns@.len(),
                patterns@ == self.patterns@.subrange(0, i as int),
            decreases self.patterns@.len() - i,
        {
            patterns.push(self.patterns[i]);
            i = i + 1;
            assert(patterns@ =~= self.patterns@.subrange(0, i as int));
        }
        assert(patterns@ =~= self.patterns@);
        let mut matches: Vec<Match<'a, M, W, H>> = Vec::new();
        let mut k: usize = 0;
        while k < self.matches.len()
            invariant
                k <= self.matches@.len(),
                match_views(matches@) == match_views(self.matches@).subrange(0, k as int),
            decreases self.matches@.len() - k,
        {
            let m = &self.matches[k];
            let copy = Match::new(m.pattern(), m.changed_pos(), copy_positions(m.board_pos()));
            let ghost before = matches@;
            matches.push(copy);
            proof {
                assert(match_views(matches@) =~= match_views(before).push(match_view(copy)));
                assert(match_views(self.matches@)[k as int] == match_view(self.matches@[k as int]));
            }
            k = k + 1;
            assert(match_views(matches@) =~= match_views(self.matches@).subrange(0, k as int));
        }
        assert(match_views(matches@) =~= match_views(self.matches@));
        MatchBoard { board: self.board.clone(), patterns, matches, match_moves: Vec::new() }
    }
}

} // verus!
