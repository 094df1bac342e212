use vstd::prelude::*;
use crate::position::Pos;
use vstd::std_specs::iter::IteratorSpec;
use std::slice::Iter;

verus! {

broadcast use crate::position::lemma_pos_view_injective, crate::position::lemma_pos_view_bounds;

/// Whether position `a` comes strictly before position `b`, ordering by column and then by row.
pub open spec fn pos_lt(a: (int, int), b: (int, int)) -> bool {
    a.0 < b.0 || (a.0 == b.0 && a.1 < b.1)
}

/// The positions of a list, taken by their components.
pub open spec fn pos_views<const W: usize, const H: usize>(s: Seq<Pos<W, H>>) -> Seq<(int, int)> {
    s.map_values(|p: Pos<W, H>| p@)
}

/// A list of positions is strictly ordered, so no position occurs twice.
pub open spec fn strictly_sorted(s: Seq<(int, int)>) -> bool {
    forall|i: int, j: int| 0 <= i < j < s.len() ==> pos_lt(#[trigger] s[i], #[trigger] s[j])
}

/// The smallest value of a sequence, or zero for an empty one.
pub open spec fn min_or_zero(s: Seq<int>) -> int
    decreases s.len(),
{
    if s.len() == 0 {
        0
    } else if s.len() == 1 {
        s[0]
    } else {
        let m = min_or_zero(s.drop_last());
        if s.last() < m {
            s.last()
        } else {
            m
        }
    }
}

/// The smallest horizontal component of a list of positions, or zero for an empty list.
pub open spec fn smallest_x<const W: usize, const H: usize>(s: Seq<Pos<W, H>>) -> int {
    min_or_zero(s.map_values(|p: Pos<W, H>| p@.0))
}

/// The smallest vertical component of a list of positions, or zero for an empty list.
pub open spec fn smallest_y<const W: usize, const H: usize>(s: Seq<Pos<W, H>>) -> int {
    min_or_zero(s.map_values(|p: Pos<W, H>| p@.1))
}

/// A pattern of piece positions that represents a valid match on a board.
#[derive(Eq, PartialEq, Debug)]
pub struct MatchPattern<M, const W: usize, const H: usize> {
    match_type: M,
    spaces: Vec<Pos<W, H>>,
}

impl<M, const W: usize, const H: usize> MatchPattern<M, W, H> {
    #[verifier::type_invariant]
    closed spec fn inv(self) -> bool {
        strictly_sorted(pos_views(self.spaces@))
    }

    /// The match type of the pattern.
    pub closed spec fn spec_match_type(self) -> M {
        self.match_type
    }

    /// The relative positions of the pattern, each once, ordered by column and then by row.
    pub closed spec fn positions(self) -> Seq<(int, int)> {
        pos_views(self.spaces@)
    }
}

proof fn lemma_min_or_zero(s: Seq<int>)
    ensures
        forall|j: int| 0 <= j < s.len() ==> min_or_zero(s) <= #[trigger] s[j],
        s.len() > 0 ==> exists|j: int| 0 <= j < s.len() && min_or_zero(s) == #[trigger] s[j],
    decreases s.len(),
{
    if s.len() > 1 {
        lemma_min_or_zero(s.drop_last());
        assert forall|j: int| 0 <= j < s.len() implies min_or_zero(s) <= #[trigger] s[j] by {
            if j < s.len() - 1 {
                assert(s[j] == s.drop_last()[j]);
            }
        }
        if s.last() >= min_or_zero(s.drop_last()) {
            let j = choose|j: int| 0 <= j < s.drop_last().len() && min_or_zero(s.drop_last()) == #[trigger] s.drop_last()[j];
            assert(s[j] == s.drop_last()[j]);
        } else {
            assert(min_or_zero(s) == s[s.len() - 1]);
        }
    } else if s.len() == 1 {
        assert(min_or_zero(s) == s[0]);
    }
}

/// Inserts a position into a strictly sorted list of positions, unless it is already there.
fn insert_sorted<const W: usize, const H: usize>(v: &mut Vec<Pos<W, H>>, p: Pos<W, H>)
    requires
        strictly_sorted(pos_views(old(v)@)),
    ensures
        strictly_sorted(pos_views(final(v)@)),
        forall|q: (int, int)|
            #[trigger] pos_views(final(v)@).contains(q) <==> pos_views(old(v)@).contains(q) || q == p@,
{
    let ghost sv = pos_views(v@);
    let mut k: usize = 0;
    while k < v.len() && (v[k].x() < p.x() || (v[k].x() == p.x() && v[k].y() < p.y()))
        invariant
            k <= v@.len(),
            sv == pos_views(v@),
            v@ == old(v)@,
            strictly_sorted(sv),
            forall|i: int| 0 <= i < k ==> pos_lt(#[trigger] sv[i], p@),
        decreases v@.len() - k,
    {
        k = k + 1;
    }
    if k < v.len() && v[k].x() == p.x() && v[k].y() == p.y() {
        proof {
            assert(sv[k as int] == p@);
            assert forall|q: (int, int)| #[trigger] pos_views(v@).contains(q) <==> pos_views(old(v)@).contains(q) || q == p@ by {
                if q == p@ {
                    assert(sv[k as int] == q);
                }
            }
        }
        return;
    }
    v.insert(k, p);
    proof {
        let nv = pos_views(v@);
        assert(nv =~= sv.insert(k as int, p@));
        assert forall|i: int, j: int| 0 <= i < j < nv.len() implies pos_lt(#[trigger] nv[i], #[trigger] nv[j]) by {
            if k < sv.len() {
                assert(!pos_lt(sv[k as int], p@));
            }
            if j < k {
                assert(nv[i] == sv[i] && nv[j] == sv[j]);
            } else if j == k {
                assert(nv[j] == p@);
                assert(nv[i] == sv[i]);
            } else if i == k {
                assert(nv[i] == p@);
                assert(nv[j] == sv[j - 1]);
                if j - 1 > k {
                    assert(pos_lt(sv[k as int], sv[j - 1]));
                }
            } else if i < k {
                assert(nv[i] == sv[i] && nv[j] == sv[j - 1]);
            } else {
                assert(nv[i] == sv[i - 1] && nv[j] == sv[j - 1]);
            }
        }
        assert forall|q: (int, int)| #[trigger] nv.contains(q) <==> sv.contains(q) || q == p@ by {
            if nv.contains(q) {
                let i = choose|i: int| 0 <= i < nv.len() && nv[i] == q;
                if i < k {
                    assert(sv[i] == q);
                } else if i > k {
                    assert(sv[i - 1] == q);
                }
            }
            if sv.contains(q) {
                let i = choose|i: int| 0 <= i < sv.len() && sv[i] == q;
                if i < k {
                    assert(nv[i] == q);
                } else {
                    assert(nv[i + 1] == q);
                }
            }
            if q == p@ {
                assert(nv[k as int] == q);
            }
        }
    }
}

impl<M: Copy, const W: usize, const H: usize> MatchPattern<M, W, H> {
    /// Creates a new pattern.
    ///
    /// * `match_type` - match type all pieces must have for this pattern to apply
    /// * `spaces` - unique positions that represents a pattern. The values of the
    ///   positions do not matter: only their relative positions matter. The pattern keeps
    ///   them moved so that the smallest horizontal and vertical components are zero.
    pub fn new(match_type: M, spaces: &[Pos<W, H>]) -> (pattern: MatchPattern<M, W, H>)
        requires
            forall|i: int| 0 <= i < spaces@.len() ==> #[trigger] spaces@[i].in_bounds(),
        ensures
            pattern.spec_match_type() == match_type,
            strictly_sorted(pattern.positions()),
            forall|q: (int, int)|
                #[trigger] pattern.positions().contains(q) <==> exists|i: int|
                    0 <= i < spaces@.len() && q == (
                        spaces@[i]@.0 - smallest_x(spaces@),
                        spaces@[i]@.1 - smallest_y(spaces@),
                    ),
    {
        let ghost xs = spaces@.map_values(|p: Pos<W, H>| p@.0);
        let ghost ys = spaces@.map_values(|p: Pos<W, H>| p@.1);
        let mut min_x: usize = 0;
        let mut min_y: usize = 0;
        let mut i: usize = 0;
        while i < spaces.len()
            invariant
                i <= spaces@.len(),
                xs == spaces@.map_values(|p: Pos<W, H>| p@.0),
                ys == spaces@.map_values(|p: Pos<W, H>| p@.1),
                min_x == min_or_zero(xs.subrange(0, i as int)),
                min_y == min_or_zero(ys.subrange(0, i as int)),
            decreases spaces@.len() - i,
        {
            let x = spaces[i].x();
            let y = spaces[i].y();
            proof {
                assert(xs.subrange(0, i + 1).drop_last() =~= xs.subrange(0, i as int));
                assert(ys.subrange(0, i + 1).drop_last() =~= ys.subrange(0, i as int));
            }
            if i == 0 || x < min_x {
                min_x = x;
            }
            if i == 0 || y < min_y {
                min_y = y;
            }
            i = i + 1;
        }
        proof {
            assert(xs.subrange(0, spaces@.len() as int) =~= xs);
            assert(ys.subrange(0, spaces@.len() as int) =~= ys);
            lemma_min_or_zero(xs);
            lemma_min_or_zero(ys);
        }
        let mut spaces_around_origin: Vec<Pos<W, H>> = Vec::new();
        let mut j: usize = 0;
        while j < spaces.len()
            invariant
                j <= spaces@.len(),
                forall|i: int| 0 <= i < spaces@.len() ==> #[trigger] spaces@[i].in_bounds(),
                xs == spaces@.map_values(|p: Pos<W, H>| p@.0),
                ys == spaces@.map_values(|p: Pos<W, H>| p@.1),
                min_x == smallest_x(spaces@),
                min_y == smallest_y(spaces@),
                forall|k: int| 0 <= k < xs.len() ==> min_x <= #[trigger] xs[k],
                forall|k: int| 0 <= k < ys.len() ==> min_y <= #[trigger] ys[k],
                strictly_sorted(pos_views(spaces_around_origin@)),
                forall|q: (int, int)|
                    #[trigger] pos_views(spaces_around_origin@).contains(q) <==> exists|i: int|
                        0 <= i < j && q == (
                            spaces@[i]@.0 - smallest_x(spaces@),
                            spaces@[i]@.1 - smallest_y(spaces@),
                        ),
            decreases spaces@.len() - j,
        {
            let space = spaces[j];
            proof {
                assert(spaces@[j as int].in_bounds());
                assert(xs[j as int] == space@.0);
                assert(ys[j as int] == space@.1);
            }
            let p = Pos::new(space.x() - min_x, space.y() - min_y);
            let ghost before = spaces_around_origin@;
            insert_sorted(&mut spaces_around_origin, p);
            proof {
                assert forall|q: (int, int)|
                    #[trigger] pos_views(spaces_around_origin@).contains(q) <==> exists|i: int|
                        0 <= i < j + 1 && q == (
                            spaces@[i]@.0 - smallest_x(spaces@),
                            spaces@[i]@.1 - smallest_y(spaces@),
                        ) by {
                    if pos_views(before).contains(q) {
                        let i = choose|i: int|
                            0 <= i < j && q == (
                                spaces@[i]@.0 - smallest_x(spaces@),
                                spaces@[i]@.1 - smallest_y(spaces@),
                            );
                        assert(0 <= i < j + 1);
                    }
                    if exists|i: int|
                        0 <= i < j + 1 && q == (
                            spaces@[i]@.0 - smallest_x(spaces@),
                            spaces@[i]@.1 - smallest_y(spaces@),
                        ) {
                        let i = choose|i: int|
                            0 <= i < j + 1 && q == (
                                spaces@[i]@.0 - smallest_x(spaces@),
                                spaces@[i]@.1 - smallest_y(spaces@),
                            );
                        if i < j {
                            assert(pos_views(before).contains(q));
                        } else {
                            assert(q == p@);
                        }
                    }
                }
            }
            j = j + 1;
        }
        MatchPattern { match_type, spaces: spaces_around_origin }
    }

    /// Gets the type of pieces in this pattern.
    pub fn match_type(&self) -> (t: M)
        ensures
            t == self.spec_match_type(),
    {
        self.match_type
    }

    /// The relative positions of the pattern, ordered by column and then by row.
    pub(crate) fn spaces(&self) -> (r: &Vec<Pos<W, H>>)
        ensures
            pos_views(r@) == self.positions(),
            strictly_sorted(self.positions()),
    {
        proof {
            use_type_invariant(self);
        }
        &self.spaces
    }

    /// Returns an iterator of all of the relative positions in this pattern, ordered by column
    /// and then by row.
    pub fn iter(&self) -> (it: Iter<'_, Pos<W, H>>)
        ensures
            IteratorSpec::remaining(&it).map_values(|p: &Pos<W, H>| p@) == self.positions(),
    {
        self.spaces.iter()
    }
}

/// A copy of a list of positions.
pub(crate) fn copy_positions<const W: usize, const H: usize>(v: &Vec<Pos<W, H>>) -> (r: Vec<Pos<W, H>>)
    ensures
        r@ == v@,
{
    let mut r: Vec<Pos<W, H>> = Vec::new();
    let mut i: usize = 0;
    while i < v.len()
        invariant
            i <= v@.len(),
            r@ == v@.subrange(0, i as int),
        decreases v@.len() - i,
    {
        r.push(v[i]);
        i = i + 1;
        assert(r@ =~= v@.subrange(0, i as int));
    }
    assert(r@ =~= v@);
    r
}

impl<M: Clone, const W: usize, const H: usize> Clone for MatchPattern<M, W, H> {
    /// Copies the pattern: the copy has the same positions and a clone of the match type.
    fn clone(&self) -> (res: Self)
        ensures
            res.positions() == self.positions(),
            cloned(self.spec_match_type(), res.spec_match_type()),
    {
        proof {
            use_type_invariant(self);
        }
        MatchPattern { match_type: self.match_type.clone(), spaces: copy_positions(&self.spaces) }
    }
}

impl<M: Default, const W: usize, const H: usize> Default for MatchPattern<M, W, H> {
    /// A pattern of the default match type without positions.
    fn default() -> (res: Self)
        ensures
            res.positions() == Seq::<(int, int)>::empty(),
    {
        let res = MatchPattern { match_type: M::default(), spaces: Vec::new() };
        assert(res.positions() =~= Seq::<(int, int)>::empty());
        res
    }
}

/// A match found in a board.
#[derive(Clone, Eq, PartialEq, Debug)]
pub struct Match<'a, M, const W: usize, const H: usize> {
    pattern: &'a MatchPattern<M, W, H>,
    changed_pos: Pos<W, H>,
    board_pos: Vec<Pos<W, H>>,
}

impl<'a, M, const W: usize, const H: usize> Match<'a, M, W, H> {
    /// The pattern of the match.
    pub closed spec fn spec_pattern(self) -> &'a MatchPattern<M, W, H> {
        self.pattern
    }

    /// The position whose change found the match.
    pub closed spec fn spec_changed_pos(self) -> Pos<W, H> {
        self.changed_pos
    }

    /// The positions on the board where the pattern lies.
    pub closed spec fn board_positions(self) -> Seq<(int, int)> {
        pos_views(self.board_pos@)
    }

    /// Creates a new match.
    ///
    /// * `pattern` - the pattern of the found match
    /// * `changed_pos` - the position that was changed and triggered the match
    /// * `board_pos` - actual positions on the board
    pub fn new(pattern: &'a MatchPattern<M, W, H>, changed_pos: Pos<W, H>, board_pos: Vec<Pos<W, H>>) -> (m:
        Match<'a, M, W, H>)
        ensures
            m.spec_pattern() == pattern,
            m.spec_changed_pos() == changed_pos,
            m.board_positions() == pos_views(board_pos@),
    {
        Match { pattern, changed_pos, board_pos }
    }

    /// Gets the pattern associated with this match.
    pub fn pattern(&self) -> (p: &'a MatchPattern<M, W, H>)
        ensures
            p == self.spec_pattern(),
    {
        self.pattern
    }

    /// Gets the changed position that triggered this match.
    pub fn changed_pos(&self) -> (p: Pos<W, H>)
        ensures
            p == self.spec_changed_pos(),
    {
        self.changed_pos
    }

    /// Checks if the given position on the board is part of the match.
    pub fn contains(&self, pos: Pos<W, H>) -> (b: bool)
        ensures
            b == self.board_positions().contains(pos@),
    {
        contains_position(&self.board_pos, pos)
    }

    /// The positions on the board where the pattern lies.
    pub(crate) fn board_pos(&self) -> (r: &Vec<Pos<W, H>>)
        ensures
            pos_views(r@) == self.board_positions(),
    {
        &self.board_pos
    }

    /// Returns an iterator of all of the board positions where this pattern is located.
    pub fn iter(&self) -> (it: Iter<'_, Pos<W, H>>)
        ensures
            IteratorSpec::remaining(&it).map_values(|p: &Pos<W, H>| p@) == self.board_positions(),
    {
        self.board_pos.iter()
    }
}

/// A group of pieces where one needs to change to make a match.
#[derive(Clone, Eq, PartialEq, Debug)]
pub struct MatchMove<'a, M, const W: usize, const H: usize> {
    pattern: &'a MatchPattern<M, W, H>,
    missing_pos: Pos<W, H>,
    completing_pos: Pos<W, H>,
    board_pos: Vec<Pos<W, H>>,
}

impl<'a, M, const W: usize, const H: usize> MatchMove<'a, M, W, H> {
    /// The pattern of the move.
    pub closed spec fn spec_pattern(self) -> &'a MatchPattern<M, W, H> {
        self.pattern
    }

    /// The position that needs to change to make a match.
    pub closed spec fn spec_missing_pos(self) -> Pos<W, H> {
        self.missing_pos
    }

    /// The position of a piece that could be swapped with the missing position.
    pub closed spec fn spec_completing_pos(self) -> Pos<W, H> {
        self.completing_pos
    }

    /// The positions on the board that already hold a piece of the match.
    pub closed spec fn board_positions(self) -> Seq<(int, int)> {
        pos_views(self.board_pos@)
    }

    /// Creates a new match move, pieces that can be swapped to produce a match.
    ///
    /// * `pattern` - the pattern of the found match
    /// * `missing_pos` - the position that needs to be changed to make a match
    /// * `completing_pos` - the position of a piece that could be swapped with the
    ///   `missing_pos` to create a match
    /// * `board_pos` - actual positions on the board
    pub fn new(
        pattern: &'a MatchPattern<M, W, H>,
        missing_pos: Pos<W, H>,
        completing_pos: Pos<W, H>,
        board_pos: Vec<Pos<W, H>>,
    ) -> (m: MatchMove<'a, M, W, H>)
        ensures
            m.spec_pattern() == pattern,
            m.spec_missing_pos() == missing_pos,
            m.spec_completing_pos() == completing_pos,
            m.board_positions() == pos_views(board_pos@),
    {
        MatchMove { pattern, missing_pos, completing_pos, board_pos }
    }

    /// Gets the pattern associated with this move.
    pub fn pattern(&self) -> (p: &'a MatchPattern<M, W, H>)
        ensures
            p == self.spec_pattern(),
    {
        self.pattern
    }

    /// Gets the position that needs to be changed to make a match.
    pub fn missing_pos(&self) -> (p: Pos<W, H>)
        ensures
            p == self.spec_missing_pos(),
    {
        self.missing_pos
    }

    /// Gets a piece directly adjacent to the missing position that can be moved to create a
    /// match.
    pub fn completing_pos(&self) -> (p: Pos<W, H>)
        ensures
            p == self.spec_completing_pos(),
    {
        self.completing_pos
    }

    /// Checks if the given position on the board already contains a piece that would be part
    /// of the match.
    pub fn contains(&self, pos: Pos<W, H>) -> (b: bool)
        ensures
            b == self.board_positions().contains(pos@),
    {
        contains_position(&self.board_pos, pos)
    }

    /// The positions on the board that already hold a piece of the match.
    pub(crate) fn board_pos(&self) -> (r: &Vec<Pos<W, H>>)
        ensures
            pos_views(r@) == self.board_positions(),
    {
        &self.board_pos
    }

    /// Returns an iterator of all of the board positions where this pattern is located.
    /// Does not include the position that is missing.
    pub fn iter(&self) -> (it: Iter<'_, Pos<W, H>>)
        ensures
            IteratorSpec::remaining(&it).map_values(|p: &Pos<W, H>| p@) == self.board_positions(),
    {
        self.board_pos.iter()
    }
}

/// Whether a list of positions holds a position.
pub(crate) fn contains_position<const W: usize, const H: usize>(v: &Vec<Pos<W, H>>, pos: Pos<W, H>) -> (b: bool)
    ensures
        b == pos_views(v@).contains(pos@),
{
    let mut i: usize = 0;
    while i < v.len()
        invariant
            i <= v@.len(),
            forall|k: int| 0 <= k < i ==> #[trigger] v@[k]@ != pos@,
        decreases v@.len() - i,
    {
        if v[i].x() == pos.x() && v[i].y() == pos.y() {
            proof {
                assert(pos_views(v@)[i as int] == pos@);
            }
            return true;
        }
        i = i + 1;
    }
    proof {
        if pos_views(v@).contains(pos@) {
            let k = choose|k: int| 0 <= k < pos_views(v@).len() && pos_views(v@)[k] == pos@;
            assert(v@[k]@ == pos@);
        }
    }
    false
}

} // verus!
