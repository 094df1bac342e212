use std::ops::BitAnd;

use swap_and_match::bitboard::BitBoard;
use swap_and_match::piece::{Direction, DirectionSet, Piece as BoardPiece};
use swap_and_match::{BoardError, BoardState, MatchBoard, MatchPattern, Piece, Pos, PosError};

#[derive(Copy, Clone, Eq, PartialEq, Ord, PartialOrd, Hash, Debug)]
enum Kind {
    Red,
    Blue,
}

#[derive(Copy, Clone, Eq, PartialEq, Ord, PartialOrd, Hash, Debug)]
enum Gem {
    Nothing,
    Red,
    Blue,
    Both,
}

impl Default for Gem {
    fn default() -> Self {
        Gem::Nothing
    }
}

impl Gem {
    fn bits(self) -> u8 {
        match self {
            Gem::Nothing => 0,
            Gem::Red => 1,
            Gem::Blue => 2,
            Gem::Both => 3,
        }
    }
}

impl From<Kind> for Gem {
    fn from(kind: Kind) -> Self {
        match kind {
            Kind::Red => Gem::Red,
            Kind::Blue => Gem::Blue,
        }
    }
}

impl BitAnd for Gem {
    type Output = Self;

    fn bitand(self, rhs: Self) -> Self {
        match self.bits() & rhs.bits() {
            0 => Gem::Nothing,
            1 => Gem::Red,
            2 => Gem::Blue,
            _ => Gem::Both,
        }
    }
}

impl Piece for Gem {
    type MatchType = Kind;
    const AIR: Self = Gem::Nothing;
}

fn same_pieces<const W: usize, const H: usize>(a: &BoardState<Gem, W, H>, b: &BoardState<Gem, W, H>) -> bool {
    for x in 0..W {
        for y in 0..H {
            if a.piece(Pos::new(x, y)) != b.piece(Pos::new(x, y)) {
                return false;
            }
        }
    }
    true
}

#[test]
fn add_then_sub_gives_back_position() {
    let p: Pos<10, 10> = Pos::new(3, 4);
    let q: Pos<10, 10> = Pos::new(5, 2);
    let sum = (p + q).unwrap();
    assert_eq!(Ok(p), sum - q);
}

#[test]
fn sub_then_add_gives_back_position() {
    let p: Pos<10, 10> = Pos::new(7, 6);
    let q: Pos<10, 10> = Pos::new(5, 2);
    let diff = (p - q).unwrap();
    assert_eq!(Ok(p), diff + q);
}

#[test]
fn add_out_of_bounds_reports_components() {
    let p: Pos<10, 4> = Pos::new(9, 3);
    let q: Pos<10, 4> = Pos::new(0, 0);
    assert_eq!(Ok(p), p - q);
    let r: Pos<10, 4> = Pos::new(9, 3);
    assert_eq!(Err(PosError::OutOfBounds(18, 6)), r + p);
}

#[test]
fn position_to_string_of_large_components() {
    let pos: Pos<1000, 20> = Pos::new(907, 10);
    assert_eq!("(907, 10)", pos.to_string());
}

#[test]
fn swap_twice_gives_back_board() {
    let mut board: BoardState<Gem, 4, 3> = BoardState::new();
    board.set_piece(Pos::new(0, 0), Gem::Red);
    board.set_piece(Pos::new(3, 2), Gem::Blue);
    let start = board.clone();
    board.swap(Pos::new(0, 0), Pos::new(3, 2));
    assert!(!same_pieces(&start, &board));
    board.swap(Pos::new(0, 0), Pos::new(3, 2));
    assert!(same_pieces(&start, &board));
}

#[test]
fn swap_order_does_not_matter() {
    let mut first: BoardState<Gem, 4, 3> = BoardState::new();
    first.set_piece(Pos::new(1, 1), Gem::Red);
    first.set_piece(Pos::new(2, 0), Gem::Blue);
    let mut second = first.clone();
    first.swap(Pos::new(1, 1), Pos::new(2, 0));
    second.swap(Pos::new(2, 0), Pos::new(1, 1));
    assert!(same_pieces(&first, &second));
}

#[test]
fn set_then_get_leaves_other_positions() {
    let mut board: BoardState<Gem, 3, 3> = BoardState::new();
    assert_eq!(Gem::Nothing, board.set_piece(Pos::new(1, 2), Gem::Both));
    for x in 0..3 {
        for y in 0..3 {
            let expected = if (x, y) == (1, 2) { Gem::Both } else { Gem::Nothing };
            assert_eq!(expected, board.piece(Pos::new(x, y)));
        }
    }
}

#[test]
fn barrier_is_seen_from_both_sides() {
    let mut board: BoardState<Gem, 4, 4> = BoardState::new();
    board.set_barrier_between(Pos::new(2, 1), Pos::new(2, 2), true).unwrap();
    board.set_barrier_between(Pos::new(1, 3), Pos::new(0, 3), true).unwrap();
    assert!(board.has_barrier_between(Pos::new(2, 2), Pos::new(2, 1)));
    assert!(board.has_barrier_between(Pos::new(0, 3), Pos::new(1, 3)));
    assert!(!board.has_barrier_between(Pos::new(2, 0), Pos::new(2, 1)));
    assert!(!board.has_barrier_between(Pos::new(1, 3), Pos::new(2, 3)));
}

#[test]
fn barrier_between_distant_positions_is_refused() {
    let mut board: BoardState<Gem, 4, 4> = BoardState::new();
    assert_eq!(
        Err(BoardError::NonAdjacent(Pos::new(0, 0), Pos::new(2, 0))),
        board.set_barrier_between(Pos::new(0, 0), Pos::new(2, 0), true)
    );
    assert!(!board.has_barrier_between(Pos::new(0, 0), Pos::new(1, 0)));
}

#[test]
fn surface_above_top_piece() {
    let mut board: BoardState<Gem, 2, 5> = BoardState::new();
    board.set_piece(Pos::new(1, 0), Gem::Red);
    board.set_piece(Pos::new(1, 2), Gem::Blue);
    assert_eq!(Some(3), board.surface(swap_and_match::Col::new(1)));
    assert_eq!(Some(0), board.surface(swap_and_match::Col::new(0)));
}

#[test]
fn column_gravity_moves_replay_to_result() {
    let mut board: BoardState<Gem, 2, 6> = BoardState::new();
    board.set_piece(Pos::new(0, 1), Gem::Red);
    board.set_piece(Pos::new(0, 4), Gem::Blue);
    board.set_piece(Pos::new(0, 5), Gem::Red);
    let mut start = board.clone();
    let moves = board.apply_gravity_to_column(swap_and_match::Col::new(0));
    assert_eq!(vec![(1, 0), (4, 1), (5, 2)], moves);
    for (a, b) in moves {
        start.swap(Pos::new(0, a), Pos::new(0, b));
    }
    assert!(same_pieces(&start, &board));
    assert_eq!(Gem::Red, board.piece(Pos::new(0, 0)));
    assert_eq!(Gem::Blue, board.piece(Pos::new(0, 1)));
    assert_eq!(Gem::Red, board.piece(Pos::new(0, 2)));
    assert_eq!(Gem::Nothing, board.piece(Pos::new(0, 3)));
}

#[test]
fn board_gravity_keeps_every_piece() {
    let mut board: BoardState<Gem, 3, 4> = BoardState::new();
    board.set_piece(Pos::new(0, 3), Gem::Red);
    board.set_piece(Pos::new(1, 2), Gem::Blue);
    board.set_piece(Pos::new(2, 3), Gem::Both);
    let moves = board.apply_gravity_to_board();
    assert!(!moves.is_empty());
    let mut counts = [0; 4];
    for x in 0..3 {
        for y in 0..4 {
            counts[usize::from(board.piece(Pos::new(x, y)).bits())] += 1;
        }
    }
    assert_eq!([9, 1, 1, 1], counts);
    assert_eq!(Gem::Red, board.piece(Pos::new(0, 0)));
    assert_eq!(Gem::Blue, board.piece(Pos::new(1, 0)));
    assert_eq!(Gem::Both, board.piece(Pos::new(2, 0)));
}

#[test]
fn pattern_positions_are_sorted_and_moved_to_origin() {
    let spaces: Vec<Pos<8, 8>> = vec![Pos::new(5, 3), Pos::new(3, 4), Pos::new(3, 3), Pos::new(5, 3)];
    let pattern = MatchPattern::new(Kind::Red, &spaces[..]);
    let positions: Vec<(usize, usize)> = pattern.iter().map(|p| (p.x(), p.y())).collect();
    assert_eq!(vec![(0, 0), (0, 1), (2, 0)], positions);
    assert_eq!(Kind::Red, pattern.match_type());
}

#[test]
fn every_match_lies_on_matching_pieces() {
    let spaces: Vec<Pos<5, 5>> = vec![Pos::new(0, 0), Pos::new(1, 0), Pos::new(2, 0)];
    let pattern = MatchPattern::new(Kind::Red, &spaces[..]);
    let mut board: BoardState<Gem, 5, 5> = BoardState::new();
    board.set_piece(Pos::new(0, 2), Gem::Red);
    board.set_piece(Pos::new(1, 2), Gem::Both);
    let mut match_board = MatchBoard::new(board, vec![&pattern]);
    assert!(match_board.matches().is_empty());
    match_board.set_piece(Pos::new(2, 2), Gem::Red);
    let matches = match_board.matches();
    assert_eq!(1, matches.len());
    assert_eq!(Pos::new(2, 2), matches[0].changed_pos());
    for pos in matches[0].iter() {
        let gem = match_board.piece(*pos);
        assert!(gem == Gem::Red || gem == Gem::Both);
    }
    match_board.set_piece(Pos::new(1, 2), Gem::Blue);
    assert!(match_board.matches().is_empty());
}

#[test]
fn making_a_match_move_completes_the_match() {
    let spaces: Vec<Pos<5, 5>> = vec![Pos::new(0, 0), Pos::new(1, 0), Pos::new(2, 0)];
    let pattern = MatchPattern::new(Kind::Blue, &spaces[..]);
    let mut board: BoardState<Gem, 5, 5> = BoardState::new();
    board.set_piece(Pos::new(0, 1), Gem::Blue);
    board.set_piece(Pos::new(1, 1), Gem::Blue);
    board.set_piece(Pos::new(2, 2), Gem::Blue);
    let mut match_board = MatchBoard::new(board, vec![&pattern]);
    assert!(match_board.matches().is_empty());
    let moves = match_board.match_moves();
    assert!(!moves.is_empty());
    let missing = moves[0].missing_pos();
    let completing = moves[0].completing_pos();
    assert_eq!(Pos::new(2, 1), missing);
    assert_eq!(Pos::new(2, 2), completing);
    match_board.swap(missing, completing);
    let matches = match_board.matches();
    assert_eq!(1, matches.len());
    assert!(matches[0].contains(Pos::new(0, 1)));
    assert!(matches[0].contains(Pos::new(1, 1)));
    assert!(matches[0].contains(Pos::new(2, 1)));
}

#[test]
fn barrier_stops_a_match_move() {
    let spaces: Vec<Pos<5, 5>> = vec![Pos::new(0, 0), Pos::new(1, 0), Pos::new(2, 0)];
    let pattern = MatchPattern::new(Kind::Blue, &spaces[..]);
    let mut board: BoardState<Gem, 5, 5> = BoardState::new();
    board.set_piece(Pos::new(0, 1), Gem::Blue);
    board.set_piece(Pos::new(1, 1), Gem::Blue);
    board.set_piece(Pos::new(2, 2), Gem::Blue);
    board.set_barrier_between(Pos::new(2, 1), Pos::new(2, 2), true).unwrap();
    let match_board = MatchBoard::new(board, vec![&pattern]);
    assert!(match_board.match_moves().is_empty());
}

#[test]
fn cloned_match_board_has_same_matches() {
    let spaces: Vec<Pos<4, 4>> = vec![Pos::new(0, 0), Pos::new(0, 1)];
    let pattern = MatchPattern::new(Kind::Red, &spaces[..]);
    let mut board: BoardState<Gem, 4, 4> = BoardState::new();
    board.set_piece(Pos::new(3, 0), Gem::Red);
    board.set_piece(Pos::new(3, 1), Gem::Red);
    let match_board = MatchBoard::new(board, vec![&pattern]);
    let copy = match_board.clone();
    assert_eq!(match_board, copy);
    assert_eq!(1, copy.matches().len());
}

#[test]
fn direction_set_insert_reports_new_directions() {
    let mut set = DirectionSet::new();
    assert!(!set.contains(Direction::East));
    assert!(set.insert(Direction::East));
    assert!(!set.insert(Direction::East));
    assert!(set.contains(Direction::East));
    assert!(!set.contains(Direction::West));
    let all = DirectionSet::all();
    assert!(all.contains(Direction::North) && all.contains(Direction::South));
    assert!(BoardPiece::Regular('x', all).is_movable(Direction::West));
}

#[test]
fn bitboard_clone_and_size() {
    let mut board = BitBoard::new(3, 2);
    board.set(Pos::<4, 4>::new(2, 1));
    let copy = board.clone();
    assert_eq!(3, copy.width());
    assert_eq!(2, copy.height());
    assert!(copy.is_set(Pos::<4, 4>::new(2, 1)));
    assert!(!copy.is_set(Pos::<4, 4>::new(1, 2 - 1)));
    assert_eq!("001\n000\n", copy.to_string());
}

#[test]
fn board_gravity_leaves_no_piece_over_air() {
    let mut board: BoardState<Gem, 4, 5> = BoardState::new();
    board.set_piece(Pos::new(0, 4), Gem::Red);
    board.set_piece(Pos::new(1, 4), Gem::Blue);
    board.set_piece(Pos::new(1, 3), Gem::Both);
    board.set_piece(Pos::new(2, 1), Gem::Red);
    board.set_piece(Pos::new(3, 4), Gem::Blue);
    board.set_barrier_between(Pos::new(2, 2), Pos::new(2, 3), true).unwrap();
    board.set_barrier_between(Pos::new(3, 1), Pos::new(3, 2), true).unwrap();
    board.apply_gravity_to_board();
    for x in 0..4 {
        for y in 1..5 {
            let here = Pos::new(x, y);
            let below = Pos::new(x, y - 1);
            if board.piece(here) != Gem::Nothing && !board.has_barrier_between(below, here) {
                assert_ne!(Gem::Nothing, board.piece(below));
            }
        }
    }
    let mut pieces = 0;
    for x in 0..4 {
        for y in 0..5 {
            if board.piece(Pos::new(x, y)) != Gem::Nothing {
                pieces += 1;
            }
        }
    }
    assert_eq!(5, pieces);
}

#[test]
fn scanned_matches_cover_different_positions() {
    let spaces: Vec<Pos<5, 5>> = vec![Pos::new(0, 0), Pos::new(1, 0), Pos::new(2, 0)];
    let pattern = MatchPattern::new(Kind::Red, &spaces[..]);
    let mut board: BoardState<Gem, 5, 5> = BoardState::new();
    for x in 0..4 {
        board.set_piece(Pos::new(x, 0), Gem::Red);
    }
    let match_board = MatchBoard::new(board, vec![&pattern]);
    let matches = match_board.matches();
    assert_eq!(2, matches.len());
    let cells: Vec<Vec<(usize, usize)>> =
        matches.iter().map(|m| m.iter().map(|p| (p.x(), p.y())).collect()).collect();
    assert_eq!(vec![(0, 0), (1, 0), (2, 0)], cells[0]);
    assert_eq!(vec![(1, 0), (2, 0), (3, 0)], cells[1]);
    for m in matches.iter() {
        assert!(m.contains(m.changed_pos()));
    }
}

#[test]
fn board_gravity_on_a_board_one_space_wide() {
    let mut board: BoardState<Gem, 1, 4> = BoardState::new();
    board.set_piece(Pos::new(0, 3), Gem::Red);
    let moves = board.apply_gravity_to_board();
    assert_eq!(vec![(Pos::new(0, 3), Pos::new(0, 0))], moves);
    assert_eq!(Gem::Red, board.piece(Pos::new(0, 0)));
    assert_eq!(Gem::Nothing, board.piece(Pos::new(0, 3)));
}

#[test]
fn board_gravity_on_a_board_one_space_high() {
    let mut board: BoardState<Gem, 4, 1> = BoardState::new();
    board.set_piece(Pos::new(2, 0), Gem::Blue);
    let moves = board.apply_gravity_to_board();
    assert!(moves.is_empty());
    assert_eq!(Gem::Blue, board.piece(Pos::new(2, 0)));
}

#[test]
fn column_gravity_on_a_board_one_space_high() {
    let mut board: BoardState<Gem, 15, 1> = BoardState::new();
    board.set_piece(Pos::new(1, 0), Gem::Red);
    let moves = board.apply_gravity_to_column(swap_and_match::Col::new(1));
    assert!(moves.is_empty());
    assert_eq!(Gem::Red, board.piece(Pos::new(1, 0)));
}

#[test]
fn match_moves_on_a_board_one_space_wide() {
    let spaces: Vec<Pos<1, 4>> = vec![Pos::new(0, 0), Pos::new(0, 1), Pos::new(0, 2)];
    let pattern = MatchPattern::new(Kind::Red, &spaces[..]);
    let mut board: BoardState<Gem, 1, 4> = BoardState::new();
    board.set_piece(Pos::new(0, 0), Gem::Red);
    board.set_piece(Pos::new(0, 1), Gem::Red);
    board.set_piece(Pos::new(0, 2), Gem::Blue);
    board.set_piece(Pos::new(0, 3), Gem::Red);
    let match_board = MatchBoard::new(board, vec![&pattern]);
    assert!(match_board.matches().is_empty());
    let moves = match_board.match_moves();
    assert!(!moves.is_empty());
    assert_eq!(Pos::new(0, 2), moves[0].missing_pos());
    assert_eq!(Pos::new(0, 3), moves[0].completing_pos());
}
