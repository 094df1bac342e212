use std::ops::BitAnd;
use swap_and_match::{BoardState, MatchBoard, MatchPattern, Piece, Pos};

#[derive(Copy, Clone, Eq, PartialEq, Ord, PartialOrd, Hash, Debug)]
enum TestMatchType {
    First,
    Second
}

#[derive(Copy, Clone, Eq, PartialEq, Ord, PartialOrd, Hash, Debug)]
enum TestPiece {
    Nothing,
    First,
    Second,
    Both
}

impl Default for TestPiece {
    fn default() -> Self {
        TestPiece::Nothing
    }
}

impl TestPiece {
    fn bits(self) -> u8 {
        match self {
            TestPiece::Nothing => 0b00,
            TestPiece::First => 0b01,
            TestPiece::Second => 0b10,
            TestPiece::Both => 0b11
        }
    }
}

impl From<TestMatchType> for TestPiece {
    fn from(value: TestMatchType) -> Self {
        match value {
            TestMatchType::First => TestPiece::First,
            TestMatchType::Second => TestPiece::Second
        }
    }
}

impl BitAnd for TestPiece {
    type Output = Self;

    fn bitand(self, rhs: Self) -> Self::Output {
        match self.bits() & rhs.bits() {
            0b00 => TestPiece::Nothing,
            0b01 => TestPiece::First,
            0b10 => TestPiece::Second,
            0b11 => TestPiece::Both,
            _ => panic!("impossible")
        }
    }
}

impl Piece for TestPiece {
    type MatchType = TestMatchType;
    const AIR: Self = Self::Nothing;
}

#[test]
fn get_piece_in_bounds_returns_piece() {
    let board = BoardState::<TestPiece, 15, 16>::new();

    let pattern_pos = vec![Pos::new(2, 3), Pos::new(3, 3), Pos::new(6, 8)];
    let pattern = MatchPattern::new(TestMatchType::Second, &pattern_pos[..]);

    let match_board = MatchBoard::new(board, vec![&pattern]);

    assert_eq!(TestPiece::Nothing, match_board.piece(Pos::new(0, 0)));
}

#[test]
fn matches_no_patterns_none() {
    let mut board: MatchBoard<TestMatchType, TestPiece, 15, 16> = MatchBoard::new(
        BoardState::new(),
        Vec::new()
    );

    board.set_piece(Pos::new(1, 2), TestPiece::First);
    board.set_piece(Pos::new(2, 3), TestPiece::First);
    assert!(board.matches().is_empty());
}

#[test]
fn matches_checks_initial_board() {
    let mut board = BoardState::<TestPiece, 15, 16>::new();

    board.set_piece(Pos::new(0, 1), TestPiece::First);
    board.set_piece(Pos::new(1, 1), TestPiece::Both);
    board.set_piece(Pos::new(4, 6), TestPiece::First);

    let pattern_pos = vec![Pos::new(2, 3), Pos::new(3, 3), Pos::new(6, 8)];
    let pattern = MatchPattern::new(TestMatchType::First, &pattern_pos[..]);

    let match_board = MatchBoard::new(
        board,
        vec![&pattern]
    );

    let next_match = &match_board.matches()[0];
    assert_eq!(Pos::new(0, 1), next_match.changed_pos());
    assert!(next_match.contains(Pos::new(0, 1)));
    assert!(next_match.contains(Pos::new(1, 1)));
    assert!(next_match.contains(Pos::new(4, 6)));
}

#[test]
fn matches_swap_pieces_match_found_at_first() {
    let mut board = BoardState::<TestPiece, 15, 16>::new();

    board.set_piece(Pos::new(0, 1), TestPiece::Second);
    board.set_piece(Pos::new(1, 1), TestPiece::Both);
    board.set_piece(Pos::new(8, 8), TestPiece::Second);

    let pattern_pos = vec![Pos::new(2, 3), Pos::new(3, 3), Pos::new(8, 8)];
    let pattern = MatchPattern::new(TestMatchType::Second, &pattern_pos[..]);

    let mut match_board = MatchBoard::new(board, vec![&pattern]);

    match_board.swap(Pos::new(6, 6), Pos::new(8, 8));

    let next_match = &match_board.matches()[0];
    assert_eq!(Pos::new(6, 6), next_match.changed_pos());
    assert!(next_match.contains(Pos::new(0, 1)));
    assert!(next_match.contains(Pos::new(1, 1)));
    assert!(next_match.contains(Pos::new(6, 6)));
}

#[test]
fn matches_swap_pieces_match_found_at_second() {
    let mut board = BoardState::<TestPiece, 15, 16>::new();

    board.set_piece(Pos::new(0, 1), TestPiece::Second);
    board.set_piece(Pos::new(1, 1), TestPiece::Both);
    board.set_piece(Pos::new(8, 8), TestPiece::Second);

    let pattern_pos = vec![Pos::new(2, 3), Pos::new(3, 3), Pos::new(8, 8)];
    let pattern = MatchPattern::new(TestMatchType::Second, &pattern_pos[..]);

    let mut match_board = MatchBoard::new(board, vec![&pattern]);

    match_board.swap(Pos::new(8, 8), Pos::new(6, 6));

    let next_match = &match_board.matches()[0];
    assert_eq!(Pos::new(6, 6), next_match.changed_pos());
    assert!(next_match.contains(Pos::new(0, 1)));
    assert!(next_match.contains(Pos::new(1, 1)));
    assert!(next_match.contains(Pos::new(6, 6)));
}

#[test]
fn matches_swap_self_has_previous_match() {
    let mut board = BoardState::<TestPiece, 15, 16>::new();

    board.set_piece(Pos::new(0, 0), TestPiece::Second);
    board.set_piece(Pos::new(6, 5), TestPiece::Second);
    board.set_piece(Pos::new(1, 0), TestPiece::Both);

    let pattern_pos = vec![Pos::new(2, 3), Pos::new(3, 3), Pos::new(8, 8)];
    let pattern = MatchPattern::new(TestMatchType::Second, &pattern_pos[..]);

    let mut match_board = MatchBoard::new(board, vec![&pattern]);

    match_board.swap(Pos::new(6, 5), Pos::new(6, 5));

    let next_match = &match_board.matches()[0];
    assert_eq!(Pos::new(0, 0), next_match.changed_pos());
    assert!(next_match.contains(Pos::new(0, 0)));
    assert!(next_match.contains(Pos::new(1, 0)));
    assert!(next_match.contains(Pos::new(6, 5)));
}

#[test]
fn matches_wrong_match_type_none_found() {
    let board = BoardState::<TestPiece, 15, 16>::new();

    let pattern_pos = vec![Pos::new(2, 3), Pos::new(3, 3), Pos::new(6, 8)];
    let pattern = MatchPattern::new(TestMatchType::Second, &pattern_pos[..]);

    let mut match_board = MatchBoard::new(board, vec![&pattern]);

    match_board.set_piece(Pos::new(0, 1), TestPiece::Second);
    match_board.set_piece(Pos::new(1, 1), TestPiece::Both);
    match_board.set_piece(Pos::new(4, 6), TestPiece::First);

    assert!(match_board.matches().is_empty())
}

#[test]
fn matches_matches_when_not_all_in_queue() {
    let mut board = BoardState::<TestPiece, 15, 16>::new();
    board.set_piece(Pos::new(0, 1), TestPiece::Second);
    board.set_piece(Pos::new(1, 1), TestPiece::Both);

    let pattern_pos = vec![Pos::new(2, 3), Pos::new(3, 3), Pos::new(6, 8)];
    let pattern = MatchPattern::new(TestMatchType::Second, &pattern_pos[..]);

    let mut match_board = MatchBoard::new(board, vec![&pattern]);

    match_board.set_piece(Pos::new(4, 6), TestPiece::Second);

    let next_match = &match_board.matches()[0];
    assert_eq!(Pos::new(4, 6), next_match.changed_pos());
    assert!(next_match.contains(Pos::new(0, 1)));
    assert!(next_match.contains(Pos::new(1, 1)));
    assert!(next_match.contains(Pos::new(4, 6)));
}

#[test]
fn matches_matches_when_changed_twice() {
    let board = BoardState::<TestPiece, 15, 16>::new();

    let pattern_pos = vec![Pos::new(2, 3), Pos::new(3, 3), Pos::new(6, 8)];
    let pattern = MatchPattern::new(TestMatchType::Second, &pattern_pos[..]);

    let mut match_board = MatchBoard::new(board, vec![&pattern]);

    match_board.set_piece(Pos::new(0, 1), TestPiece::Second);
    match_board.set_piece(Pos::new(1, 1), TestPiece::Both);
    match_board.set_piece(Pos::new(4, 6), TestPiece::Second);
    match_board.set_piece(Pos::new(0, 1), TestPiece::Both);

    let next_match = &match_board.matches()[0];

    assert_eq!(Pos::new(0, 1), next_match.changed_pos());
    assert!(next_match.contains(Pos::new(0, 1)));
    assert!(next_match.contains(Pos::new(1, 1)));
    assert!(next_match.contains(Pos::new(4, 6)));
}

#[test]
fn matches_never_matches_when_match_overwritten() {
    let board = BoardState::<TestPiece, 15, 16>::new();

    let pattern_pos = vec![Pos::new(2, 3), Pos::new(3, 3), Pos::new(6, 8)];
    let pattern = MatchPattern::new(TestMatchType::Second, &pattern_pos[..]);

    let mut match_board = MatchBoard::new(board, vec![&pattern]);

    match_board.set_piece(Pos::new(0, 1), TestPiece::Second);
    match_board.set_piece(Pos::new(1, 1), TestPiece::Both);
    match_board.set_piece(Pos::new(4, 6), TestPiece::Second);
    match_board.set_piece(Pos::new(0, 1), TestPiece::First);

    assert!(match_board.matches().is_empty());
}

#[test]
fn matches_set_pieces_matches_earlier_pattern() {
    let board = BoardState::<TestPiece, 15, 16>::new();

    let pattern_pos1 = vec![Pos::new(2, 3), Pos::new(3, 3), Pos::new(6, 8)];
    let pattern_pos2 = vec![
        Pos::new(2, 3), Pos::new(3, 3),
        Pos::new(6, 8), Pos::new(7, 8)
    ];
    let pattern1 = MatchPattern::new(TestMatchType::Second, &pattern_pos1[..]);
    let pattern2 = MatchPattern::new(TestMatchType::Second, &pattern_pos2[..]);

    let mut match_board = MatchBoard::new(board, vec![&pattern1, &pattern2]);

    match_board.set_piece(Pos::new(0, 1), TestPiece::Second);
    match_board.set_piece(Pos::new(1, 1), TestPiece::Both);
    match_board.set_piece(Pos::new(4, 6), TestPiece::Second);
    match_board.set_piece(Pos::new(5, 6), TestPiece::Both);

    let matches = match_board.matches();

    let next_match = &matches[0];
    assert_eq!(Pos::new(4, 6), next_match.changed_pos());
    assert!(next_match.contains(Pos::new(0, 1)));
    assert!(next_match.contains(Pos::new(1, 1)));
    assert!(next_match.contains(Pos::new(4, 6)));
    assert!(!next_match.contains(Pos::new(5, 6)));

    let next_next_match = &matches[1];
    assert_eq!(Pos::new(5, 6), next_next_match.changed_pos());
    assert!(next_next_match.contains(Pos::new(0, 1)));
    assert!(next_next_match.contains(Pos::new(1, 1)));
    assert!(next_next_match.contains(Pos::new(4, 6)));
    assert!(next_next_match.contains(Pos::new(5, 6)));
}

#[test]
fn match_moves_no_patterns_none() {
    let mut board: MatchBoard<TestMatchType, TestPiece, 15, 16> = MatchBoard::new(
        BoardState::new(),
        Vec::new()
    );

    board.set_piece(Pos::new(1, 2), TestPiece::First);
    board.set_piece(Pos::new(2, 3), TestPiece::First);
    assert!(board.match_moves().is_empty());
}

#[test]
fn match_moves_checks_initial_board() {
    let mut board = BoardState::<TestPiece, 15, 16>::new();

    board.set_piece(Pos::new(0, 1), TestPiece::First);
    board.set_piece(Pos::new(2, 1), TestPiece::Both);
    board.set_piece(Pos::new(4, 6), TestPiece::First);

    let pattern_pos = vec![Pos::new(2, 3), Pos::new(3, 3), Pos::new(6, 8)];
    let pattern = MatchPattern::new(TestMatchType::First, &pattern_pos[..]);

    let match_board = MatchBoard::new(
        board,
        vec![&pattern]
    );

    let next_match = &match_board.match_moves()[0];
    assert_eq!(Pos::new(1, 1), next_match.missing_pos());
    assert!(next_match.contains(Pos::new(0, 1)));
    assert!(!next_match.contains(Pos::new(1, 1)));
    assert!(next_match.contains(Pos::new(4, 6)));
    assert_eq!(Pos::new(2, 1), next_match.completing_pos());
}

#[test]
fn match_moves_swap_pieces_match_found_at_first() {
    let mut board = BoardState::<TestPiece, 15, 16>::new();

    board.set_piece(Pos::new(0, 1), TestPiece::Second);
    board.set_piece(Pos::new(6, 7), TestPiece::Both);
    board.set_piece(Pos::new(1, 1), TestPiece::Both);
    board.set_piece(Pos::new(6, 6), TestPiece::Second);

    let pattern_pos = vec![Pos::new(2, 3), Pos::new(3, 3), Pos::new(8, 8)];
    let pattern = MatchPattern::new(TestMatchType::Second, &pattern_pos[..]);

    let mut match_board = MatchBoard::new(board, vec![&pattern]);

    match_board.swap(Pos::new(6, 6), Pos::new(8, 8));

    let next_match = &match_board.match_moves()[0];
    assert_eq!(Pos::new(6, 6), next_match.missing_pos());
    assert!(next_match.contains(Pos::new(0, 1)));
    assert!(next_match.contains(Pos::new(1, 1)));
    assert!(!next_match.contains(Pos::new(6, 6)));
    assert_eq!(Pos::new(6, 7), next_match.completing_pos());
}

#[test]
fn match_moves_swap_pieces_match_found_at_second() {
    let mut board = BoardState::<TestPiece, 15, 16>::new();

    board.set_piece(Pos::new(0, 1), TestPiece::Second);
    board.set_piece(Pos::new(1, 1), TestPiece::Both);
    board.set_piece(Pos::new(6, 6), TestPiece::Second);
    board.set_piece(Pos::new(6, 7), TestPiece::Both);

    let pattern_pos = vec![Pos::new(2, 3), Pos::new(3, 3), Pos::new(8, 8)];
    let pattern = MatchPattern::new(TestMatchType::Second, &pattern_pos[..]);

    let mut match_board = MatchBoard::new(board, vec![&pattern]);

    match_board.swap(Pos::new(8, 8), Pos::new(6, 6));

    let next_match = &match_board.match_moves()[0];
    assert_eq!(Pos::new(6, 6), next_match.missing_pos());
    assert!(next_match.contains(Pos::new(0, 1)));
    assert!(next_match.contains(Pos::new(1, 1)));
    assert!(!next_match.contains(Pos::new(6, 6)));
    assert_eq!(Pos::new(6, 7), next_match.completing_pos());
}

#[test]
fn match_moves_swap_self_no_match() {
    let mut board = BoardState::<TestPiece, 15, 16>::new();

    board.set_piece(Pos::new(0, 1), TestPiece::Second);
    board.set_piece(Pos::new(6, 6), TestPiece::Second);

    let pattern_pos = vec![Pos::new(2, 3), Pos::new(3, 3), Pos::new(8, 8)];
    let pattern = MatchPattern::new(TestMatchType::Second, &pattern_pos[..]);

    let mut match_board = MatchBoard::new(board, vec![&pattern]);

    match_board.swap(Pos::new(6, 6), Pos::new(6, 6));

    assert!(match_board.match_moves().is_empty())
}

#[test]
fn match_moves_wrong_match_type_none_found() {
    let board = BoardState::<TestPiece, 15, 16>::new();

    let pattern_pos = vec![Pos::new(2, 3), Pos::new(3, 3), Pos::new(6, 8)];
    let pattern = MatchPattern::new(TestMatchType::Second, &pattern_pos[..]);

    let mut match_board = MatchBoard::new(board, vec![&pattern]);

    match_board.set_piece(Pos::new(0, 1), TestPiece::Second);
    match_board.set_piece(Pos::new(4, 6), TestPiece::First);

    assert!(match_board.match_moves().is_empty())
}

#[test]
fn match_moves_matches_when_not_all_in_queue() {
    let mut board = BoardState::<TestPiece, 15, 16>::new();
    board.set_piece(Pos::new(0, 1), TestPiece::Second);
    board.set_piece(Pos::new(2, 1), TestPiece::Second);

    let pattern_pos = vec![Pos::new(2, 3), Pos::new(3, 3), Pos::new(6, 8)];
    let pattern = MatchPattern::new(TestMatchType::Second, &pattern_pos[..]);

    let mut match_board = MatchBoard::new(board, vec![&pattern]);

    match_board.set_piece(Pos::new(4, 6), TestPiece::Second);

    let next_match = &match_board.match_moves()[0];
    assert_eq!(Pos::new(1, 1), next_match.missing_pos());
    assert!(next_match.contains(Pos::new(0, 1)));
    assert!(!next_match.contains(Pos::new(1, 1)));
    assert!(next_match.contains(Pos::new(4, 6)));
    assert_eq!(Pos::new(2, 1), next_match.completing_pos());
}

#[test]
fn match_moves_matches_when_changed_twice() {
    let board = BoardState::<TestPiece, 15, 16>::new();

    let pattern_pos = vec![Pos::new(2, 3), Pos::new(3, 3), Pos::new(6, 8)];
    let pattern = MatchPattern::new(TestMatchType::Second, &pattern_pos[..]);

    let mut match_board = MatchBoard::new(board, vec![&pattern]);

    match_board.set_piece(Pos::new(0, 1), TestPiece::Second);
    match_board.set_piece(Pos::new(2, 1), TestPiece::Second);
    match_board.set_piece(Pos::new(4, 6), TestPiece::Second);
    match_board.set_piece(Pos::new(0, 1), TestPiece::Both);

    let next_match = &match_board.match_moves()[0];
    assert_eq!(Pos::new(1, 1), next_match.missing_pos());
    assert!(next_match.contains(Pos::new(0, 1)));
    assert!(!next_match.contains(Pos::new(1, 1)));
    assert!(next_match.contains(Pos::new(4, 6)));
    assert_eq!(Pos::new(2, 1), next_match.completing_pos());
}

#[test]
fn match_moves_never_matches_when_match_overwritten() {
    let board = BoardState::<TestPiece, 15, 16>::new();

    let pattern_pos = vec![Pos::new(2, 3), Pos::new(3, 3), Pos::new(6, 8)];
    let pattern = MatchPattern::new(TestMatchType::Second, &pattern_pos[..]);

    let mut match_board = MatchBoard::new(board, vec![&pattern]);

    match_board.set_piece(Pos::new(0, 1), TestPiece::Second);
    match_board.set_piece(Pos::new(1, 1), TestPiece::Both);
    match_board.set_piece(Pos::new(0, 1), TestPiece::First);

    assert!(match_board.match_moves().is_empty());
}

#[test]
fn match_moves_set_pieces_matches_earlier_pattern() {
    let board = BoardState::<TestPiece, 15, 16>::new();

    let pattern_pos1 = vec![Pos::new(2, 3), Pos::new(3, 3), Pos::new(6, 8)];
    let pattern_pos2 = vec![
        Pos::new(2, 3), Pos::new(3, 3),
        Pos::new(6, 8), Pos::new(6, 9)
    ];
    let pattern1 = MatchPattern::new(TestMatchType::Second, &pattern_pos1[..]);
    let pattern2 = MatchPattern::new(TestMatchType::Second, &pattern_pos2[..]);

    let mut match_board = MatchBoard::new(board, vec![&pattern1, &pattern2]);

    match_board.set_piece(Pos::new(0, 1), TestPiece::Second);
    match_board.set_piece(Pos::new(1, 1), TestPiece::Both);
    match_board.set_piece(Pos::new(4, 7), TestPiece::Both);

    let next_match = &match_board.match_moves()[0];
    assert_eq!(Pos::new(4, 6), next_match.missing_pos());
    assert!(next_match.contains(Pos::new(0, 1)));
    assert!(next_match.contains(Pos::new(1, 1)));
    assert!(!next_match.contains(Pos::new(4, 6)));
    assert!(!next_match.contains(Pos::new(4, 7)));
}

#[test]
fn end_game_returns_board() {
    let board = BoardState::<TestPiece, 15, 16>::new();

    let pattern_pos = vec![Pos::new(2, 3), Pos::new(3, 3), Pos::new(6, 8)];
    let pattern = MatchPattern::new(TestMatchType::Second, &pattern_pos[..]);

    let mut match_board = MatchBoard::new(board, vec![&pattern]);

    match_board.set_piece(Pos::new(0, 1), TestPiece::First);
    match_board.set_piece(Pos::new(1, 1), TestPiece::Both);
    match_board.set_piece(Pos::new(4, 6), TestPiece::Second);

    match_board.swap(Pos::new(4, 6), Pos::new(5, 6));

    let final_board = match_board.end_game();

    for x in 0..15 {
        for y in 0..16 {
            if x == 0 && y == 1 {
                assert_eq!(TestPiece::First, final_board.piece(Pos::new(x, y)));
            } else if x == 1 && y == 1 {
                assert_eq!(TestPiece::Both, final_board.piece(Pos::new(x, y)));
            } else if x == 5 && y == 6 {
                assert_eq!(TestPiece::Second, final_board.piece(Pos::new(x, y)));
            } else {
                assert_eq!(TestPiece::Nothing, final_board.piece(Pos::new(x, y)));
            }
        }
    }
}
