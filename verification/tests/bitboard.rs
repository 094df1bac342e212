use swap_and_match::bitboard::BitBoard;
use swap_and_match::Pos;

type BoardPos = Pos<256, 256>;

#[test]
fn bitboard_new_no_size_does_not_panic() {
    BitBoard::new(0, 0);
}
#[test]
fn bitboard_new_no_width_does_not_panic() {
    BitBoard::new(0, 10);
}
#[test]
fn bitboard_new_no_height_does_not_panic() {
    BitBoard::new(10, 0);
}

#[test]
fn bitboard_modify_indices_do_not_collide() {
    let pos = BoardPos::new(1, 0);

    /* Collision occurs if index is calculated incorrectly: 1 * 15 + 0 == 0 * 15 + 15 ;
       x * width + y should be y * width + x */
    let poss_colliding_pos = BoardPos::new(0, 15);

    let mut board = BitBoard::new(15, 17);
    board.set(pos);

    assert!(!board.is_set(poss_colliding_pos));
}

#[test]
fn bitboard_set_previously_unset() {
    let pos = BoardPos::new(1, 3);
    let mut board = BitBoard::new(16, 16);
    board.set(pos);
    assert!(board.is_set(pos));
}

#[test]
fn bitboard_set_previously_set() {
    let pos = BoardPos::new(1, 3);
    let mut board = BitBoard::new(16, 16);
    board.set(pos);
    board.set(pos);
    assert!(board.is_set(pos));
}

#[test]
fn bitboard_set_large_board() {
    let pos = BoardPos::new(254, 254);
    let mut board = BitBoard::new(255, 255);
    board.set(pos);
    board.set(pos);
    assert!(board.is_set(pos));
}

#[test]
fn bitboard_unset_previously_unset() {
    let pos = BoardPos::new(1, 3);
    let mut board = BitBoard::new(16, 16);
    board.unset(pos);
    assert!(!board.is_set(pos));
}

#[test]
fn bitboard_unset_previously_set() {
    let pos = BoardPos::new(1, 3);
    let mut board = BitBoard::new(16, 16);
    board.set(pos);
    board.unset(pos);
    assert!(!board.is_set(pos));
}

#[test]
fn bitboard_unset_large_board() {
    let pos = BoardPos::new(254, 254);
    let mut board = BitBoard::new(255, 255);
    board.set(pos);
    board.unset(pos);
    assert!(!board.is_set(pos));
}

#[test]
fn bitboard_swap_both_unset() {
    let pos1 = BoardPos::new(1, 3);
    let pos2 = BoardPos::new(0, 5);
    let mut board = BitBoard::new(16, 16);
    board.swap(pos1, pos2);
    assert!(!board.is_set(pos1));
    assert!(!board.is_set(pos2));
}

#[test]
fn bitboard_swap_both_set() {
    let pos1 = BoardPos::new(1, 3);
    let pos2 = BoardPos::new(0, 5);
    let mut board = BitBoard::new(16, 16);
    board.set(pos1);
    board.set(pos2);
    board.swap(pos1, pos2);
    assert!(board.is_set(pos1));
    assert!(board.is_set(pos2));
}

#[test]
fn bitboard_swap_first_set() {
    let pos1 = BoardPos::new(1, 3);
    let pos2 = BoardPos::new(0, 5);
    let mut board = BitBoard::new(16, 16);
    board.set(pos1);
    board.swap(pos1, pos2);
    assert!(!board.is_set(pos1));
    assert!(board.is_set(pos2));
}

#[test]
fn bitboard_swap_second_set() {
    let pos1 = BoardPos::new(1, 3);
    let pos2 = BoardPos::new(0, 5);
    let mut board = BitBoard::new(16, 16);
    board.set(pos2);
    board.swap(pos1, pos2);
    assert!(board.is_set(pos1));
    assert!(!board.is_set(pos2));
}

#[test]
fn bitboard_swap_large_board() {
    let pos1 = BoardPos::new(254, 254);
    let pos2 = BoardPos::new(0, 5);
    let mut board = BitBoard::new(255, 255);
    board.set(pos2);
    board.swap(pos1, pos2);
    assert!(board.is_set(pos1));
    assert!(!board.is_set(pos2));
}

#[test]
fn bitboard_display_shows_state() {
    let mut board = BitBoard::new(15, 17);
    board.set(BoardPos::new(14, 16));
    board.set(BoardPos::new(3, 4));
    board.set(BoardPos::new(2, 2));
    board.set(BoardPos::new(10, 4));
    board.unset(BoardPos::new(10, 4));
    board.set(BoardPos::new(11, 7));

    let expected = "\
    000000000000001\
    \n000000000000000\
    \n000000000000000\
    \n000000000000000\
    \n000000000000000\
    \n000000000000000\
    \n000000000000000\
    \n000000000000000\
    \n000000000000000\
    \n000000000001000\
    \n000000000000000\
    \n000000000000000\
    \n000100000000000\
    \n000000000000000\
    \n001000000000000\
    \n000000000000000\
    \n000000000000000\
    \n";

    assert_eq!(expected, board.to_string());
}
