use std::collections::HashSet;
use std::ops::BitAnd;
use swap_and_match::{BoardState, Col, Piece, Pos};

#[derive(Copy, Clone, Eq, PartialEq, Ord, PartialOrd, Hash, Debug)]
enum TestPiece {
    Air,
    First,
    Second
}

impl Default for TestPiece {
    fn default() -> Self {
        TestPiece::Air
    }
}

impl TestPiece {
    fn bits(self) -> u8 {
        match self {
            TestPiece::Air => 0b00,
            TestPiece::First => 0b01,
            TestPiece::Second => 0b10
        }
    }
}

impl From<u8> for TestPiece {
    fn from(value: u8) -> Self {
        match value {
            0 => TestPiece::First,
            1 => TestPiece::Second,
            _ => TestPiece::Air
        }
    }
}

impl BitAnd for TestPiece {
    type Output = Self;

    fn bitand(self, rhs: Self) -> Self::Output {
        match self.bits() & rhs.bits() {
            0b00 => TestPiece::Air,
            0b01 => TestPiece::First,
            0b10 => TestPiece::Second,
            _ => panic!("impossible")
        }
    }
}

impl Piece for TestPiece {
    type MatchType = u8;
    const AIR: Self = Self::Air;
}

fn moves_produce_board<const W: usize, const H: usize>(moves: &Vec<(Pos<W, H>, Pos<W, H>)>,
                                                       start: &mut BoardState<TestPiece, W, H>,
                                                       end: &BoardState<TestPiece, W, H>) -> bool {
    for (first, second) in moves {
        start.swap(*first, *second);
    }

    for x in 0..W {
        for y in 0..H {
            let pos = Pos::new(x, y);
            if start.piece(pos) != end.piece(pos) {
                return false;
            }
        }
    }

    true
}

#[test]
fn get_piece_zero_zero_default_retrieved() {
    let board: BoardState<TestPiece, 15, 16> = BoardState::new();
    assert_eq!(TestPiece::Air, board.piece(Pos::new(0, 0)));
}

#[test]
fn get_piece_never_set_default_retrieved() {
    let board: BoardState<TestPiece, 15, 16> = BoardState::new();
    assert_eq!(TestPiece::Air, board.piece(Pos::new(5, 10)));
}

#[test]
fn swap_adjacent_swapped() {
    let mut board: BoardState<TestPiece, 15, 16> = BoardState::new();
    let piece1 = TestPiece::First;
    let piece2 = TestPiece::Second;

    board.set_piece(Pos::new(1, 2), piece1);
    board.set_piece(Pos::new(1, 3), piece2);

    board.swap(Pos::new(1, 2), Pos::new(1, 3));
    assert_eq!(piece2, board.piece(Pos::new(1, 2)));
    assert_eq!(piece1, board.piece(Pos::new(1, 3)));
}

#[test]
fn swap_non_adjacent_swapped() {
    let mut board: BoardState<TestPiece, 15, 16> = BoardState::new();
    let piece1 = TestPiece::First;
    let piece2 = TestPiece::Second;

    board.set_piece(Pos::new(1, 2), piece1);
    board.set_piece(Pos::new(14, 15), piece2);

    board.swap(Pos::new(1, 2), Pos::new(14, 15));
    assert_eq!(piece2, board.piece(Pos::new(1, 2)));
    assert_eq!(piece1, board.piece(Pos::new(14, 15)));
}

#[test]
fn swap_self_no_change() {
    let mut board: BoardState<TestPiece, 15, 16> = BoardState::new();
    let piece1 = TestPiece::First;

    board.set_piece(Pos::new(1, 2), piece1);

    board.swap(Pos::new(1, 2), Pos::new(1, 2));
    assert_eq!(piece1, board.piece(Pos::new(1, 2)));
}

#[test]
fn set_piece_none_previous_default_returned() {
    let mut board: BoardState<TestPiece, 15, 16> = BoardState::new();
    let piece1 = TestPiece::First;

    assert_eq!(TestPiece::default(), board.set_piece(Pos::new(1, 2), piece1));
    assert_eq!(piece1, board.piece(Pos::new(1, 2)));
}

#[test]
fn set_piece_one_previous_old_returned() {
    let mut board: BoardState<TestPiece, 15, 16> = BoardState::new();
    let piece1 = TestPiece::First;
    let piece2 = TestPiece::Second;

    assert_eq!(TestPiece::default(), board.set_piece(Pos::new(1, 2), piece1));
    assert_eq!(piece1, board.set_piece(Pos::new(1, 2), piece2));
    assert_eq!(piece2, board.piece(Pos::new(1, 2)));
}

#[test]
fn set_piece_duplicate_old_returned() {
    let mut board: BoardState<TestPiece, 15, 16> = BoardState::new();
    let piece1 = TestPiece::First;

    assert_eq!(TestPiece::default(), board.set_piece(Pos::new(1, 2), piece1));
    assert_eq!(piece1, board.set_piece(Pos::new(1, 2), piece1));
    assert_eq!(piece1, board.piece(Pos::new(1, 2)));
}

#[test]
fn has_barrier_barriers_unset_defaults_false() {
    let board: BoardState<TestPiece, 15, 16> = BoardState::new();
    for x in 0..14 {
        for y in 0..15 {
            assert!(!board.has_barrier_between(Pos::new(x, y), Pos::new(x, y + 1)));
            assert!(!board.has_barrier_between(Pos::new(x, y), Pos::new(x + 1, y)));
        }
    }
}

#[test]
fn has_barrier_barrier_set_true() {
    let mut board: BoardState<TestPiece, 15, 16> = BoardState::new();
    for x in 0..14 {
        for y in 0..15 {
            board.set_barrier_between(Pos::new(x, y), Pos::new(x, y + 1), true).unwrap();
            assert!(board.has_barrier_between(Pos::new(x, y), Pos::new(x, y + 1)));
            board.set_barrier_between(Pos::new(x, y), Pos::new(x, y + 1), false).unwrap();

            board.set_barrier_between(Pos::new(x, y), Pos::new(x + 1, y), true).unwrap();
            assert!(board.has_barrier_between(Pos::new(x, y), Pos::new(x + 1, y)));
            board.set_barrier_between(Pos::new(x, y), Pos::new(x + 1, y), false).unwrap();
        }
    }
}

#[test]
fn has_barrier_barrier_set_twice_true() {
    let mut board: BoardState<TestPiece, 15, 16> = BoardState::new();
    for x in 0..14 {
        for y in 0..15 {
            board.set_barrier_between(Pos::new(x, y), Pos::new(x, y + 1), true).unwrap();
            board.set_barrier_between(Pos::new(x, y), Pos::new(x, y + 1), true).unwrap();
            assert!(board.has_barrier_between(Pos::new(x, y), Pos::new(x, y + 1)));
            board.set_barrier_between(Pos::new(x, y), Pos::new(x, y + 1), false).unwrap();

            board.set_barrier_between(Pos::new(x, y), Pos::new(x + 1, y), true).unwrap();
            board.set_barrier_between(Pos::new(x, y), Pos::new(x + 1, y), true).unwrap();
            assert!(board.has_barrier_between(Pos::new(x, y), Pos::new(x + 1, y)));
            board.set_barrier_between(Pos::new(x, y), Pos::new(x + 1, y), false).unwrap();
        }
    }
}

#[test]
fn has_barrier_barrier_overwritten_false() {
    let mut board: BoardState<TestPiece, 15, 16> = BoardState::new();
    for x in 0..14 {
        for y in 0..15 {
            board.set_barrier_between(Pos::new(x, y), Pos::new(x, y + 1), true).unwrap();
            board.set_barrier_between(Pos::new(x, y), Pos::new(x, y + 1), false).unwrap();
            assert!(!board.has_barrier_between(Pos::new(x, y), Pos::new(x, y + 1)));

            board.set_barrier_between(Pos::new(x, y), Pos::new(x + 1, y), true).unwrap();
            board.set_barrier_between(Pos::new(x, y), Pos::new(x + 1, y), false).unwrap();
            assert!(!board.has_barrier_between(Pos::new(x, y), Pos::new(x + 1, y)));
        }
    }
}

#[test]
fn set_barrier_horizontally_separated_err() {
    let mut board: BoardState<TestPiece, 15, 16> = BoardState::new();
    assert!(board.set_barrier_between(Pos::new(1, 2), Pos::new(3, 2), true).is_err());
}

#[test]
fn set_barrier_vertically_separated_err() {
    let mut board: BoardState<TestPiece, 15, 16> = BoardState::new();
    assert!(board.set_barrier_between(Pos::new(1, 2), Pos::new(1, 4), true).is_err());
}

#[test]
fn set_barrier_diagonally_adjacent_panics() {
    let mut board: BoardState<TestPiece, 15, 16> = BoardState::new();
    assert!(board.set_barrier_between(Pos::new(1, 2), Pos::new(2, 3), true).is_err());
}

#[test]
fn has_barrier_horizontally_separated_false() {
    let board: BoardState<TestPiece, 15, 16> = BoardState::new();
    assert!(!board.has_barrier_between(Pos::new(1, 2), Pos::new(3, 2)));
}

#[test]
fn has_barrier_vertically_separated_false() {
    let board: BoardState<TestPiece, 15, 16> = BoardState::new();
    assert!(!board.has_barrier_between(Pos::new(1, 2), Pos::new(1, 4)));
}

#[test]
fn has_barrier_diagonally_adjacent_false() {
    let board: BoardState<TestPiece, 15, 16> = BoardState::new();
    assert!(!board.has_barrier_between(Pos::new(1, 2), Pos::new(2, 3)));
}

#[test]
fn surface_zero_height_none() {
    let board: BoardState<TestPiece, 15, 0> = BoardState::new();
    assert!(board.surface(Col::new(1)).is_none());
}

#[test]
fn surface_all_air_zero() {
    let board: BoardState<TestPiece, 15, 16> = BoardState::new();
    assert_eq!(0, board.surface(Col::new(1)).unwrap());
}

#[test]
fn surface_all_filled_none() {
    let mut board: BoardState<TestPiece, 15, 8> = BoardState::new();
    let x = 1;

    for y in 0..8 {
        board.set_piece(Pos::new(x, y), TestPiece::First);
    }

    assert!(board.surface(Col::new(x)).is_none());
}

#[test]
fn surface_top_filled_none() {
    let mut board: BoardState<TestPiece, 15, 8> = BoardState::new();
    let x = 1;

    for y in 4..8 {
        board.set_piece(Pos::new(x, y), TestPiece::First);
    }

    assert!(board.surface(Col::new(x)).is_none());
}

#[test]
fn surface_air_pockets_finds_topmost() {
    let mut board: BoardState<TestPiece, 15, 8> = BoardState::new();
    let x = 1;

    board.set_piece(Pos::new(x, 1), TestPiece::First);
    board.set_piece(Pos::new(x, 2), TestPiece::Second);
    board.set_piece(Pos::new(x, 5), TestPiece::First);

    board.set_barrier_between(Pos::new(x, 2), Pos::new(x, 3), true).unwrap();

    assert_eq!(6, board.surface(Col::new(x)).unwrap());
}

#[test]
fn surface_barrier_below_top_finds_barrier() {
    let mut board: BoardState<TestPiece, 15, 8> = BoardState::new();
    let x = 1;

    board.set_piece(Pos::new(x, 1), TestPiece::First);
    board.set_piece(Pos::new(x, 2), TestPiece::Second);
    board.set_piece(Pos::new(x, 5), TestPiece::First);

    board.set_barrier_between(Pos::new(x, 2), Pos::new(x, 3), true).unwrap();
    board.set_barrier_between(Pos::new(x, 6), Pos::new(x, 7), true).unwrap();

    assert_eq!(7, board.surface(Col::new(x)).unwrap());
}

#[test]
fn column_gravity_zero_height_no_exception() {
    let mut board: BoardState<TestPiece, 15, 0> = BoardState::new();
    assert!(board.apply_gravity_to_column(Col::new(1)).is_empty());
}

#[test]
fn column_gravity_all_air_unchanged() {
    let mut board: BoardState<TestPiece, 15, 16> = BoardState::new();
    assert!(board.apply_gravity_to_column(Col::new(1)).is_empty());
    for y in 0..16 {
        assert_eq!(TestPiece::Air, board.piece(Pos::new(1, y)));
    }
}

#[test]
fn column_gravity_all_filled_unchanged() {
    let mut board: BoardState<TestPiece, 15, 8> = BoardState::new();
    let x = 1;

    for y in 0..8 {
        board.set_piece(Pos::new(x, y), TestPiece::First);
    }

    assert!(board.apply_gravity_to_column(Col::new(1)).is_empty());
    for y in 0..8 {
        assert_eq!(TestPiece::First, board.piece(Pos::new(1, y)));
    }
}

#[test]
fn column_gravity_air_pockets_pieces_fall() {
    let mut board: BoardState<TestPiece, 15, 8> = BoardState::new();
    let x = 1;

    board.set_piece(Pos::new(x, 0), TestPiece::First);
    board.set_piece(Pos::new(x, 2), TestPiece::Second);
    board.set_piece(Pos::new(x, 5), TestPiece::First);
    board.set_piece(Pos::new(x, 7), TestPiece::First);

    board.set_barrier_between(Pos::new(x, 3), Pos::new(x, 4), true).unwrap();

    assert_eq!(vec![(2, 1), (5, 4), (7, 5)], board.apply_gravity_to_column(Col::new(1)));

    assert_eq!(TestPiece::First, board.piece(Pos::new(x, 0)));
    assert_eq!(TestPiece::Second, board.piece(Pos::new(x, 1)));
    assert_eq!(TestPiece::Air, board.piece(Pos::new(x, 2)));
    assert_eq!(TestPiece::Air, board.piece(Pos::new(x, 3)));
    assert_eq!(TestPiece::First, board.piece(Pos::new(x, 4)));
    assert_eq!(TestPiece::First, board.piece(Pos::new(x, 5)));
    assert_eq!(TestPiece::Air, board.piece(Pos::new(x, 6)));
    assert_eq!(TestPiece::Air, board.piece(Pos::new(x, 7)));
}

#[test]
fn board_gravity_simple_drop() {
    let mut board: BoardState<TestPiece, 15, 16> = BoardState::new();
    board.set_piece(Pos::new(0, 15), TestPiece::First);

    let mut start_board = board.clone();
    let moves = board.apply_gravity_to_board();

    assert_eq!(TestPiece::First, board.piece(Pos::new(0, 0)));
    assert_eq!(TestPiece::Air, board.piece(Pos::new(0, 15)));

    assert!(moves_produce_board(&moves, &mut start_board, &board));
}

#[test]
fn board_gravity_drop_onto_barrier() {
    let mut board: BoardState<TestPiece, 15, 16> = BoardState::new();
    board.set_piece(Pos::new(0, 15), TestPiece::First);
    board.set_barrier_between(Pos::new(0, 5), Pos::new(0, 6), true).unwrap();

    let mut start_board = board.clone();
    let moves = board.apply_gravity_to_board();

    assert_eq!(TestPiece::Air, board.piece(Pos::new(0, 0)));
    assert_eq!(TestPiece::Air, board.piece(Pos::new(0, 5)));
    assert_eq!(TestPiece::First, board.piece(Pos::new(0, 6)));
    assert_eq!(TestPiece::Air, board.piece(Pos::new(0, 15)));

    assert!(moves_produce_board(&moves, &mut start_board, &board));
}

#[test]
fn board_gravity_piece_at_bottom_stays_put() {
    let mut board: BoardState<TestPiece, 15, 16> = BoardState::new();
    board.set_piece(Pos::new(0, 0), TestPiece::First);
    board.set_barrier_between(Pos::new(0, 5), Pos::new(0, 6), true).unwrap();

    let mut start_board = board.clone();
    let moves = board.apply_gravity_to_board();

    assert_eq!(TestPiece::First, board.piece(Pos::new(0, 0)));
    assert_eq!(TestPiece::Air, board.piece(Pos::new(0, 5)));
    assert_eq!(TestPiece::Air, board.piece(Pos::new(0, 6)));
    assert_eq!(TestPiece::Air, board.piece(Pos::new(0, 15)));

    assert!(moves_produce_board(&moves, &mut start_board, &board));
}

#[test]
fn board_gravity_piece_on_barrier_stays_put() {
    let mut board: BoardState<TestPiece, 15, 16> = BoardState::new();
    board.set_piece(Pos::new(0, 6), TestPiece::First);
    board.set_barrier_between(Pos::new(0, 5), Pos::new(0, 6), true).unwrap();

    let mut start_board = board.clone();
    let moves = board.apply_gravity_to_board();

    assert_eq!(TestPiece::Air, board.piece(Pos::new(0, 0)));
    assert_eq!(TestPiece::Air, board.piece(Pos::new(0, 5)));
    assert_eq!(TestPiece::First, board.piece(Pos::new(0, 6)));
    assert_eq!(TestPiece::Air, board.piece(Pos::new(0, 15)));

    assert!(moves_produce_board(&moves, &mut start_board, &board));
}

#[test]
fn board_gravity_two_drop_onto_barrier_shift_left() {
    let mut board: BoardState<TestPiece, 15, 16> = BoardState::new();
    board.set_piece(Pos::new(1, 15), TestPiece::First);
    board.set_piece(Pos::new(1, 14), TestPiece::Second);
    board.set_barrier_between(Pos::new(1, 5), Pos::new(1, 6), true).unwrap();

    let mut start_board = board.clone();
    let moves = board.apply_gravity_to_board();

    assert_eq!(TestPiece::Air, board.piece(Pos::new(1, 0)));
    assert_eq!(TestPiece::Air, board.piece(Pos::new(1, 5)));
    assert_eq!(TestPiece::First, board.piece(Pos::new(1, 6)));
    assert_eq!(TestPiece::Air, board.piece(Pos::new(1, 7)));
    assert_eq!(TestPiece::Second, board.piece(Pos::new(0, 0)));
    assert_eq!(TestPiece::Air, board.piece(Pos::new(1, 14)));
    assert_eq!(TestPiece::Air, board.piece(Pos::new(1, 15)));

    assert!(moves_produce_board(&moves, &mut start_board, &board));
}

#[test]
fn board_gravity_two_drop_onto_barrier_shift_right() {
    let mut board: BoardState<TestPiece, 15, 16> = BoardState::new();
    board.set_piece(Pos::new(0, 15), TestPiece::First);
    board.set_piece(Pos::new(0, 14), TestPiece::Second);
    board.set_barrier_between(Pos::new(0, 5), Pos::new(0, 6), true).unwrap();

    let mut start_board = board.clone();
    let moves = board.apply_gravity_to_board();

    assert_eq!(TestPiece::Air, board.piece(Pos::new(0, 0)));
    assert_eq!(TestPiece::Air, board.piece(Pos::new(0, 5)));
    assert_eq!(TestPiece::First, board.piece(Pos::new(0, 6)));
    assert_eq!(TestPiece::Air, board.piece(Pos::new(0, 7)));
    assert_eq!(TestPiece::Second, board.piece(Pos::new(1, 0)));
    assert_eq!(TestPiece::Air, board.piece(Pos::new(0, 14)));
    assert_eq!(TestPiece::Air, board.piece(Pos::new(0, 15)));

    assert!(moves_produce_board(&moves, &mut start_board, &board));
}

#[test]
fn board_gravity_two_drop_onto_barrier_barrier_blocks_right() {
    let mut board: BoardState<TestPiece, 15, 16> = BoardState::new();
    board.set_piece(Pos::new(0, 15), TestPiece::First);
    board.set_piece(Pos::new(0, 14), TestPiece::Second);
    board.set_barrier_between(Pos::new(0, 5), Pos::new(0, 6), true).unwrap();
    board.set_barrier_between(Pos::new(0, 6), Pos::new(1, 6), true).unwrap();

    let mut start_board = board.clone();
    let moves = board.apply_gravity_to_board();

    assert_eq!(TestPiece::Air, board.piece(Pos::new(0, 0)));
    assert_eq!(TestPiece::Air, board.piece(Pos::new(0, 5)));
    assert_eq!(TestPiece::Second, board.piece(Pos::new(0, 6)));
    assert_eq!(TestPiece::First, board.piece(Pos::new(0, 7)));
    assert_eq!(TestPiece::Air, board.piece(Pos::new(1, 0)));
    assert_eq!(TestPiece::Air, board.piece(Pos::new(0, 14)));
    assert_eq!(TestPiece::Air, board.piece(Pos::new(0, 15)));

    assert!(moves_produce_board(&moves, &mut start_board, &board));
}

#[test]
fn board_gravity_two_drop_onto_barrier_barrier_blocks_left() {
    let mut board: BoardState<TestPiece, 15, 16> = BoardState::new();
    board.set_piece(Pos::new(1, 15), TestPiece::First);
    board.set_piece(Pos::new(1, 14), TestPiece::Second);
    board.set_barrier_between(Pos::new(1, 5), Pos::new(1, 6), true).unwrap();
    board.set_barrier_between(Pos::new(0, 6), Pos::new(1, 6), true).unwrap();

    let mut start_board = board.clone();
    let moves = board.apply_gravity_to_board();

    assert_eq!(TestPiece::Air, board.piece(Pos::new(1, 0)));
    assert_eq!(TestPiece::Air, board.piece(Pos::new(1, 5)));
    assert_eq!(TestPiece::First, board.piece(Pos::new(1, 6)));
    assert_eq!(TestPiece::Air, board.piece(Pos::new(1, 7)));
    assert_eq!(TestPiece::Second, board.piece(Pos::new(2, 0)));
    assert_eq!(TestPiece::Air, board.piece(Pos::new(1, 14)));
    assert_eq!(TestPiece::Air, board.piece(Pos::new(1, 15)));

    assert!(moves_produce_board(&moves, &mut start_board, &board));
}

#[test]
fn board_gravity_drop_onto_barrier_edge_blocks_left() {
    let mut board: BoardState<TestPiece, 15, 16> = BoardState::new();
    board.set_piece(Pos::new(1, 15), TestPiece::First);

    board.set_piece(Pos::new(0, 13), TestPiece::First);
    board.set_piece(Pos::new(1, 14), TestPiece::Second);
    board.set_piece(Pos::new(2, 7), TestPiece::First);
    board.set_piece(Pos::new(3, 6), TestPiece::Second);
    board.set_piece(Pos::new(4, 8), TestPiece::First);
    board.set_piece(Pos::new(5, 10), TestPiece::First);
    board.set_piece(Pos::new(6, 6), TestPiece::Second);
    board.set_piece(Pos::new(7, 6), TestPiece::Second);
    board.set_piece(Pos::new(8, 7), TestPiece::First);
    board.set_piece(Pos::new(9, 6), TestPiece::Second);
    board.set_piece(Pos::new(10, 13), TestPiece::First);
    board.set_piece(Pos::new(11, 12), TestPiece::Second);
    board.set_piece(Pos::new(12, 10), TestPiece::Second);
    board.set_piece(Pos::new(13, 6), TestPiece::First);

    board.set_barrier_between(Pos::new(0, 5), Pos::new(0, 6), true).unwrap();
    board.set_barrier_between(Pos::new(1, 5), Pos::new(1, 6), true).unwrap();
    board.set_barrier_between(Pos::new(2, 5), Pos::new(2, 6), true).unwrap();
    board.set_barrier_between(Pos::new(3, 5), Pos::new(3, 6), true).unwrap();
    board.set_barrier_between(Pos::new(4, 5), Pos::new(4, 6), true).unwrap();
    board.set_barrier_between(Pos::new(5, 5), Pos::new(5, 6), true).unwrap();
    board.set_barrier_between(Pos::new(6, 5), Pos::new(6, 6), true).unwrap();
    board.set_barrier_between(Pos::new(7, 5), Pos::new(7, 6), true).unwrap();
    board.set_barrier_between(Pos::new(8, 5), Pos::new(8, 6), true).unwrap();
    board.set_barrier_between(Pos::new(9, 5), Pos::new(9, 6), true).unwrap();
    board.set_barrier_between(Pos::new(10, 5), Pos::new(10, 6), true).unwrap();
    board.set_barrier_between(Pos::new(11, 5), Pos::new(11, 6), true).unwrap();
    board.set_barrier_between(Pos::new(12, 5), Pos::new(12, 6), true).unwrap();
    board.set_barrier_between(Pos::new(13, 5), Pos::new(13, 6), true).unwrap();

    let mut start_board = board.clone();
    let moves = board.apply_gravity_to_board();

    assert_eq!(TestPiece::First, board.piece(Pos::new(0, 6)));
    assert_eq!(TestPiece::First, board.piece(Pos::new(1, 6)));
    assert_eq!(TestPiece::Second, board.piece(Pos::new(2, 6)));
    assert_eq!(TestPiece::First, board.piece(Pos::new(3, 6)));
    assert_eq!(TestPiece::Second, board.piece(Pos::new(4, 6)));
    assert_eq!(TestPiece::First, board.piece(Pos::new(5, 6)));
    assert_eq!(TestPiece::First, board.piece(Pos::new(6, 6)));
    assert_eq!(TestPiece::Second, board.piece(Pos::new(7, 6)));
    assert_eq!(TestPiece::Second, board.piece(Pos::new(8, 6)));
    assert_eq!(TestPiece::First, board.piece(Pos::new(9, 6)));
    assert_eq!(TestPiece::Second, board.piece(Pos::new(10, 6)));
    assert_eq!(TestPiece::First, board.piece(Pos::new(11, 6)));
    assert_eq!(TestPiece::Second, board.piece(Pos::new(12, 6)));
    assert_eq!(TestPiece::Second, board.piece(Pos::new(13, 6)));
    assert_eq!(TestPiece::First, board.piece(Pos::new(14, 0)));

    for x in 0..15 {
        for y in 0..16 {
            if (x != 14 && y != 6) || (x == 14 && y != 0) {
                assert_eq!(TestPiece::Air, board.piece(Pos::new(x, y)));
            }
        }
    }

    assert!(moves_produce_board(&moves, &mut start_board, &board));
}

#[test]
fn board_gravity_drop_onto_barrier_edge_blocks_right() {
    let mut board: BoardState<TestPiece, 15, 16> = BoardState::new();
    board.set_piece(Pos::new(13, 15), TestPiece::First);

    board.set_piece(Pos::new(1, 13), TestPiece::First);
    board.set_piece(Pos::new(2, 14), TestPiece::Second);
    board.set_piece(Pos::new(3, 7), TestPiece::First);
    board.set_piece(Pos::new(4, 6), TestPiece::Second);
    board.set_piece(Pos::new(5, 8), TestPiece::First);
    board.set_piece(Pos::new(6, 10), TestPiece::First);
    board.set_piece(Pos::new(7, 6), TestPiece::Second);
    board.set_piece(Pos::new(8, 6), TestPiece::Second);
    board.set_piece(Pos::new(9, 7), TestPiece::First);
    board.set_piece(Pos::new(10, 6), TestPiece::Second);
    board.set_piece(Pos::new(11, 13), TestPiece::First);
    board.set_piece(Pos::new(12, 12), TestPiece::Second);
    board.set_piece(Pos::new(13, 10), TestPiece::Second);
    board.set_piece(Pos::new(14, 6), TestPiece::First);

    board.set_barrier_between(Pos::new(1, 5), Pos::new(1, 6), true).unwrap();
    board.set_barrier_between(Pos::new(2, 5), Pos::new(2, 6), true).unwrap();
    board.set_barrier_between(Pos::new(3, 5), Pos::new(3, 6), true).unwrap();
    board.set_barrier_between(Pos::new(4, 5), Pos::new(4, 6), true).unwrap();
    board.set_barrier_between(Pos::new(5, 5), Pos::new(5, 6), true).unwrap();
    board.set_barrier_between(Pos::new(6, 5), Pos::new(6, 6), true).unwrap();
    board.set_barrier_between(Pos::new(7, 5), Pos::new(7, 6), true).unwrap();
    board.set_barrier_between(Pos::new(8, 5), Pos::new(8, 6), true).unwrap();
    board.set_barrier_between(Pos::new(9, 5), Pos::new(9, 6), true).unwrap();
    board.set_barrier_between(Pos::new(10, 5), Pos::new(10, 6), true).unwrap();
    board.set_barrier_between(Pos::new(11, 5), Pos::new(11, 6), true).unwrap();
    board.set_barrier_between(Pos::new(12, 5), Pos::new(12, 6), true).unwrap();
    board.set_barrier_between(Pos::new(13, 5), Pos::new(13, 6), true).unwrap();
    board.set_barrier_between(Pos::new(14, 5), Pos::new(14, 6), true).unwrap();

    let mut start_board = board.clone();
    let moves = board.apply_gravity_to_board();

    assert_eq!(TestPiece::First, board.piece(Pos::new(0, 0)));
    assert_eq!(TestPiece::Second, board.piece(Pos::new(1, 6)));
    assert_eq!(TestPiece::First, board.piece(Pos::new(2, 6)));
    assert_eq!(TestPiece::Second, board.piece(Pos::new(3, 6)));
    assert_eq!(TestPiece::First, board.piece(Pos::new(4, 6)));
    assert_eq!(TestPiece::First, board.piece(Pos::new(5, 6)));
    assert_eq!(TestPiece::Second, board.piece(Pos::new(6, 6)));
    assert_eq!(TestPiece::Second, board.piece(Pos::new(7, 6)));
    assert_eq!(TestPiece::First, board.piece(Pos::new(8, 6)));
    assert_eq!(TestPiece::Second, board.piece(Pos::new(9, 6)));
    assert_eq!(TestPiece::First, board.piece(Pos::new(10, 6)));
    assert_eq!(TestPiece::Second, board.piece(Pos::new(11, 6)));
    assert_eq!(TestPiece::Second, board.piece(Pos::new(12, 6)));
    assert_eq!(TestPiece::First, board.piece(Pos::new(13, 6)));
    assert_eq!(TestPiece::First, board.piece(Pos::new(14, 6)));

    for x in 0..15 {
        for y in 0..16 {
            if (x != 0 && y != 6) || (x == 0 && y != 0) {
                assert_eq!(TestPiece::Air, board.piece(Pos::new(x, y)));
            }
        }
    }

    assert!(moves_produce_board(&moves, &mut start_board, &board));
}

#[test]
fn board_gravity_drop_onto_airless_row_no_shift() {
    let mut board: BoardState<TestPiece, 15, 16> = BoardState::new();
    board.set_piece(Pos::new(4, 15), TestPiece::First);

    board.set_piece(Pos::new(0, 14), TestPiece::First);
    board.set_piece(Pos::new(1, 13), TestPiece::First);
    board.set_piece(Pos::new(2, 14), TestPiece::Second);
    board.set_piece(Pos::new(3, 7), TestPiece::First);
    board.set_piece(Pos::new(4, 6), TestPiece::Second);
    board.set_piece(Pos::new(5, 8), TestPiece::First);
    board.set_piece(Pos::new(6, 10), TestPiece::First);
    board.set_piece(Pos::new(7, 6), TestPiece::Second);
    board.set_piece(Pos::new(8, 6), TestPiece::Second);
    board.set_piece(Pos::new(9, 7), TestPiece::First);
    board.set_piece(Pos::new(10, 6), TestPiece::Second);
    board.set_piece(Pos::new(11, 13), TestPiece::First);
    board.set_piece(Pos::new(12, 12), TestPiece::Second);
    board.set_piece(Pos::new(13, 10), TestPiece::Second);
    board.set_piece(Pos::new(14, 6), TestPiece::First);

    board.set_barrier_between(Pos::new(0, 5), Pos::new(0, 6), true).unwrap();
    board.set_barrier_between(Pos::new(1, 5), Pos::new(1, 6), true).unwrap();
    board.set_barrier_between(Pos::new(2, 5), Pos::new(2, 6), true).unwrap();
    board.set_barrier_between(Pos::new(3, 5), Pos::new(3, 6), true).unwrap();
    board.set_barrier_between(Pos::new(4, 5), Pos::new(4, 6), true).unwrap();
    board.set_barrier_between(Pos::new(5, 5), Pos::new(5, 6), true).unwrap();
    board.set_barrier_between(Pos::new(6, 5), Pos::new(6, 6), true).unwrap();
    board.set_barrier_between(Pos::new(7, 5), Pos::new(7, 6), true).unwrap();
    board.set_barrier_between(Pos::new(8, 5), Pos::new(8, 6), true).unwrap();
    board.set_barrier_between(Pos::new(9, 5), Pos::new(9, 6), true).unwrap();
    board.set_barrier_between(Pos::new(10, 5), Pos::new(10, 6), true).unwrap();
    board.set_barrier_between(Pos::new(11, 5), Pos::new(11, 6), true).unwrap();
    board.set_barrier_between(Pos::new(12, 5), Pos::new(12, 6), true).unwrap();
    board.set_barrier_between(Pos::new(13, 5), Pos::new(13, 6), true).unwrap();
    board.set_barrier_between(Pos::new(14, 5), Pos::new(14, 6), true).unwrap();

    let mut start_board = board.clone();
    let moves = board.apply_gravity_to_board();

    assert_eq!(TestPiece::First, board.piece(Pos::new(4, 7)));

    assert_eq!(TestPiece::First, board.piece(Pos::new(0, 6)));
    assert_eq!(TestPiece::First, board.piece(Pos::new(1, 6)));
    assert_eq!(TestPiece::Second, board.piece(Pos::new(2, 6)));
    assert_eq!(TestPiece::First, board.piece(Pos::new(3, 6)));
    assert_eq!(TestPiece::Second, board.piece(Pos::new(4, 6)));
    assert_eq!(TestPiece::First, board.piece(Pos::new(5, 6)));
    assert_eq!(TestPiece::First, board.piece(Pos::new(6, 6)));
    assert_eq!(TestPiece::Second, board.piece(Pos::new(7, 6)));
    assert_eq!(TestPiece::Second, board.piece(Pos::new(8, 6)));
    assert_eq!(TestPiece::First, board.piece(Pos::new(9, 6)));
    assert_eq!(TestPiece::Second, board.piece(Pos::new(10, 6)));
    assert_eq!(TestPiece::First, board.piece(Pos::new(11, 6)));
    assert_eq!(TestPiece::Second, board.piece(Pos::new(12, 6)));
    assert_eq!(TestPiece::Second, board.piece(Pos::new(13, 6)));
    assert_eq!(TestPiece::First, board.piece(Pos::new(14, 6)));

    for x in 0..15 {
        for y in 0..16 {
            if y != 6 && (x != 4 || y != 7) {
                assert_eq!(TestPiece::Air, board.piece(Pos::new(x, y)));
            }
        }
    }

    assert!(moves_produce_board(&moves, &mut start_board, &board));
}

#[test]
fn board_gravity_drop_onto_airless_interval_no_shift() {
    let mut board: BoardState<TestPiece, 15, 16> = BoardState::new();
    board.set_piece(Pos::new(4, 15), TestPiece::First);

    board.set_piece(Pos::new(3, 7), TestPiece::First);
    board.set_piece(Pos::new(4, 6), TestPiece::Second);
    board.set_piece(Pos::new(5, 8), TestPiece::First);
    board.set_piece(Pos::new(6, 10), TestPiece::First);
    board.set_piece(Pos::new(7, 6), TestPiece::Second);
    board.set_piece(Pos::new(8, 6), TestPiece::Second);

    board.set_barrier_between(Pos::new(2, 6), Pos::new(3, 6), true).unwrap();
    board.set_barrier_between(Pos::new(3, 5), Pos::new(3, 6), true).unwrap();
    board.set_barrier_between(Pos::new(4, 5), Pos::new(4, 6), true).unwrap();
    board.set_barrier_between(Pos::new(5, 5), Pos::new(5, 6), true).unwrap();
    board.set_barrier_between(Pos::new(6, 5), Pos::new(6, 6), true).unwrap();
    board.set_barrier_between(Pos::new(7, 5), Pos::new(7, 6), true).unwrap();
    board.set_barrier_between(Pos::new(8, 5), Pos::new(8, 6), true).unwrap();
    board.set_barrier_between(Pos::new(8, 6), Pos::new(9, 6), true).unwrap();

    let mut start_board = board.clone();
    let moves = board.apply_gravity_to_board();

    assert_eq!(TestPiece::First, board.piece(Pos::new(4, 7)));

    assert_eq!(TestPiece::First, board.piece(Pos::new(3, 6)));
    assert_eq!(TestPiece::Second, board.piece(Pos::new(4, 6)));
    assert_eq!(TestPiece::First, board.piece(Pos::new(5, 6)));
    assert_eq!(TestPiece::First, board.piece(Pos::new(6, 6)));
    assert_eq!(TestPiece::Second, board.piece(Pos::new(7, 6)));
    assert_eq!(TestPiece::Second, board.piece(Pos::new(8, 6)));

    for x in 0..15 {
        for y in 0..16 {
            if !(x == 4 && y == 7) && !(y == 6 && (x >= 3 || y <= 8)) {
                assert_eq!(TestPiece::Air, board.piece(Pos::new(x, y)));
            }
        }
    }

    assert!(moves_produce_board(&moves, &mut start_board, &board));
}

#[test]
fn board_gravity_no_drop_shift_left() {
    let mut board: BoardState<TestPiece, 15, 16> = BoardState::new();
    board.set_piece(Pos::new(1, 7), TestPiece::First);
    board.set_piece(Pos::new(1, 6), TestPiece::Second);
    board.set_barrier_between(Pos::new(1, 5), Pos::new(1, 6), true).unwrap();

    let mut start_board = board.clone();
    let moves = board.apply_gravity_to_board();

    assert_eq!(TestPiece::Air, board.piece(Pos::new(1, 0)));
    assert_eq!(TestPiece::Air, board.piece(Pos::new(1, 5)));
    assert_eq!(TestPiece::First, board.piece(Pos::new(1, 6)));
    assert_eq!(TestPiece::Air, board.piece(Pos::new(1, 7)));
    assert_eq!(TestPiece::Second, board.piece(Pos::new(0, 0)));
    assert_eq!(TestPiece::Air, board.piece(Pos::new(1, 14)));
    assert_eq!(TestPiece::Air, board.piece(Pos::new(1, 15)));

    assert!(moves_produce_board(&moves, &mut start_board, &board));
}

#[test]
fn board_gravity_no_drop_shift_right() {
    let mut board: BoardState<TestPiece, 15, 16> = BoardState::new();
    board.set_piece(Pos::new(0, 7), TestPiece::First);
    board.set_piece(Pos::new(0, 6), TestPiece::Second);
    board.set_barrier_between(Pos::new(0, 5), Pos::new(0, 6), true).unwrap();

    let mut start_board = board.clone();
    let moves = board.apply_gravity_to_board();

    assert_eq!(TestPiece::Air, board.piece(Pos::new(0, 0)));
    assert_eq!(TestPiece::Air, board.piece(Pos::new(0, 5)));
    assert_eq!(TestPiece::First, board.piece(Pos::new(0, 6)));
    assert_eq!(TestPiece::Air, board.piece(Pos::new(0, 7)));
    assert_eq!(TestPiece::Second, board.piece(Pos::new(1, 0)));
    assert_eq!(TestPiece::Air, board.piece(Pos::new(0, 14)));
    assert_eq!(TestPiece::Air, board.piece(Pos::new(0, 15)));

    assert!(moves_produce_board(&moves, &mut start_board, &board));
}

#[test]
fn board_gravity_drop_above_equidistant_air_prefers_shift_left() {
    let mut board: BoardState<TestPiece, 15, 16> = BoardState::new();
    board.set_piece(Pos::new(5, 15), TestPiece::First);

    board.set_piece(Pos::new(4, 6), TestPiece::Second);
    board.set_piece(Pos::new(5, 8), TestPiece::First);
    board.set_piece(Pos::new(6, 10), TestPiece::First);

    board.set_barrier_between(Pos::new(2, 6), Pos::new(3, 6), true).unwrap();
    board.set_barrier_between(Pos::new(3, 5), Pos::new(3, 6), true).unwrap();
    board.set_barrier_between(Pos::new(4, 5), Pos::new(4, 6), true).unwrap();
    board.set_barrier_between(Pos::new(5, 5), Pos::new(5, 6), true).unwrap();
    board.set_barrier_between(Pos::new(6, 5), Pos::new(6, 6), true).unwrap();
    board.set_barrier_between(Pos::new(7, 5), Pos::new(7, 6), true).unwrap();
    board.set_barrier_between(Pos::new(8, 5), Pos::new(8, 6), true).unwrap();
    board.set_barrier_between(Pos::new(8, 6), Pos::new(9, 6), true).unwrap();

    let mut start_board = board.clone();
    let moves = board.apply_gravity_to_board();

    assert_eq!(TestPiece::Second, board.piece(Pos::new(3, 6)));
    assert_eq!(TestPiece::First, board.piece(Pos::new(4, 6)));
    assert_eq!(TestPiece::First, board.piece(Pos::new(5, 6)));
    assert_eq!(TestPiece::First, board.piece(Pos::new(6, 6)));

    for x in 0..15 {
        for y in 0..16 {
            if !(y == 6 && (x >= 3 || y <= 6)) {
                assert_eq!(TestPiece::Air, board.piece(Pos::new(x, y)));
            }
        }
    }

    assert!(moves_produce_board(&moves, &mut start_board, &board));
}

#[test]
fn board_gravity_cascade() {
    let mut board: BoardState<TestPiece, 15, 16> = BoardState::new();

    board.set_barrier_between(Pos::new(1, 5), Pos::new(1, 6), true).unwrap();
    board.set_barrier_between(Pos::new(0, 6), Pos::new(1, 6), true).unwrap();
    board.set_barrier_between(Pos::new(2, 2), Pos::new(2, 3), true).unwrap();
    board.set_barrier_between(Pos::new(2, 8), Pos::new(2, 9), true).unwrap();
    board.set_barrier_between(Pos::new(3, 8), Pos::new(3, 9), true).unwrap();
    board.set_barrier_between(Pos::new(4, 8), Pos::new(4, 9), true).unwrap();
    board.set_barrier_between(Pos::new(4, 9), Pos::new(5, 9), true).unwrap();

    board.set_piece(Pos::new(4, 15), TestPiece::First);
    board.set_piece(Pos::new(4, 14), TestPiece::Second);
    board.set_piece(Pos::new(4, 13), TestPiece::First);
    board.set_piece(Pos::new(4, 12), TestPiece::Second);
    board.set_piece(Pos::new(3, 12), TestPiece::First);
    board.set_piece(Pos::new(3, 11), TestPiece::Second);
    board.set_piece(Pos::new(2, 14), TestPiece::First);
    board.set_piece(Pos::new(1, 15), TestPiece::First);
    board.set_piece(Pos::new(1, 13), TestPiece::Second);

    let mut start_board = board.clone();
    let moves = board.apply_gravity_to_board();

    assert_eq!(TestPiece::Second, board.piece(Pos::new(0, 0)));
    assert_eq!(TestPiece::First, board.piece(Pos::new(1, 0)));
    assert_eq!(TestPiece::First, board.piece(Pos::new(2, 0)));
    assert_eq!(TestPiece::Second, board.piece(Pos::new(3, 0)));

    assert_eq!(TestPiece::First, board.piece(Pos::new(2, 3)));

    assert_eq!(TestPiece::Second, board.piece(Pos::new(1, 6)));

    assert_eq!(TestPiece::First, board.piece(Pos::new(2, 9)));
    assert_eq!(TestPiece::Second, board.piece(Pos::new(3, 9)));
    assert_eq!(TestPiece::First, board.piece(Pos::new(4, 9)));

    let mut filled_pos = HashSet::new();
    filled_pos.insert(Pos::new(0, 0));
    filled_pos.insert(Pos::new(1, 0));
    filled_pos.insert(Pos::new(2, 0));
    filled_pos.insert(Pos::new(3, 0));
    filled_pos.insert(Pos::new(2, 3));
    filled_pos.insert(Pos::new(1, 6));
    filled_pos.insert(Pos::new(2, 9));
    filled_pos.insert(Pos::new(3, 9));
    filled_pos.insert(Pos::new(4, 9));

    for x in 0..15 {
        for y in 0..16 {
            let pos = Pos::new(x, y);
            if !filled_pos.contains(&pos) {
                assert_eq!(TestPiece::Air, board.piece(pos));
            }
        }
    }

    assert!(moves_produce_board(&moves, &mut start_board, &board));
}

#[test]
fn board_gravity_pyramid() {
    let mut board: BoardState<TestPiece, 15, 16> = BoardState::new();

    board.set_piece(Pos::new(7, 15), TestPiece::First);
    board.set_piece(Pos::new(7, 14), TestPiece::Second);
    board.set_piece(Pos::new(7, 13), TestPiece::First);
    board.set_piece(Pos::new(7, 12), TestPiece::Second);
    board.set_piece(Pos::new(7, 11), TestPiece::First);
    board.set_piece(Pos::new(7, 10), TestPiece::Second);
    board.set_piece(Pos::new(7, 9), TestPiece::First);
    board.set_piece(Pos::new(7, 8), TestPiece::First);
    board.set_piece(Pos::new(7, 7), TestPiece::Second);
    board.set_piece(Pos::new(7, 6), TestPiece::First);
    board.set_piece(Pos::new(7, 5), TestPiece::Second);
    board.set_piece(Pos::new(7, 4), TestPiece::Second);
    board.set_piece(Pos::new(7, 3), TestPiece::Second);
    board.set_piece(Pos::new(7, 2), TestPiece::First);
    board.set_piece(Pos::new(7, 1), TestPiece::Second);
    board.set_piece(Pos::new(7, 0), TestPiece::First);

    board.set_barrier_between(Pos::new(3, 0), Pos::new(4, 0), true).unwrap();
    board.set_barrier_between(Pos::new(10, 0), Pos::new(11, 0), true).unwrap();

    board.set_barrier_between(Pos::new(4, 1), Pos::new(5, 1), true).unwrap();
    board.set_barrier_between(Pos::new(9, 1), Pos::new(10, 1), true).unwrap();

    board.set_barrier_between(Pos::new(5, 2), Pos::new(6, 2), true).unwrap();
    board.set_barrier_between(Pos::new(8, 2), Pos::new(9, 2), true).unwrap();

    let mut start_board = board.clone();
    let moves = board.apply_gravity_to_board();

    assert_eq!(TestPiece::First, board.piece(Pos::new(4, 0)));
    assert_eq!(TestPiece::First, board.piece(Pos::new(5, 0)));
    assert_eq!(TestPiece::Second, board.piece(Pos::new(6, 0)));
    assert_eq!(TestPiece::First, board.piece(Pos::new(7, 0)));
    assert_eq!(TestPiece::Second, board.piece(Pos::new(8, 0)));
    assert_eq!(TestPiece::Second, board.piece(Pos::new(9, 0)));
    assert_eq!(TestPiece::Second, board.piece(Pos::new(10, 0)));

    assert_eq!(TestPiece::Second, board.piece(Pos::new(5, 1)));
    assert_eq!(TestPiece::First, board.piece(Pos::new(6, 1)));
    assert_eq!(TestPiece::First, board.piece(Pos::new(7, 1)));
    assert_eq!(TestPiece::Second, board.piece(Pos::new(8, 1)));
    assert_eq!(TestPiece::First, board.piece(Pos::new(9, 1)));

    assert_eq!(TestPiece::Second, board.piece(Pos::new(6, 2)));
    assert_eq!(TestPiece::Second, board.piece(Pos::new(7, 2)));
    assert_eq!(TestPiece::First, board.piece(Pos::new(8, 2)));

    assert_eq!(TestPiece::First, board.piece(Pos::new(7, 3)));

    let mut filled_pos = HashSet::new();
    filled_pos.insert(Pos::new(4, 0));
    filled_pos.insert(Pos::new(5, 0));
    filled_pos.insert(Pos::new(6, 0));
    filled_pos.insert(Pos::new(7, 0));
    filled_pos.insert(Pos::new(8, 0));
    filled_pos.insert(Pos::new(9, 0));
    filled_pos.insert(Pos::new(10, 0));

    filled_pos.insert(Pos::new(5, 1));
    filled_pos.insert(Pos::new(6, 1));
    filled_pos.insert(Pos::new(7, 1));
    filled_pos.insert(Pos::new(8, 1));
    filled_pos.insert(Pos::new(9, 1));

    filled_pos.insert(Pos::new(6, 2));
    filled_pos.insert(Pos::new(7, 2));
    filled_pos.insert(Pos::new(8, 2));

    filled_pos.insert(Pos::new(7, 3));

    for x in 0..15 {
        for y in 0..16 {
            let pos = Pos::new(x, y);
            if !filled_pos.contains(&pos) {
                assert_eq!(TestPiece::Air, board.piece(pos));
            }
        }
    }

    assert!(moves_produce_board(&moves, &mut start_board, &board));
}
