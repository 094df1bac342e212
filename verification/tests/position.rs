use swap_and_match::{Col, ColError, Pos, PosError};

const MAX: usize = usize::MAX;

#[test]
fn col_new_positive_component_allowed() {
    let col: Col<15> = Col::new(1);
    assert_eq!(1, col.x);
}

#[test]
fn col_try_new_x_out_of_bounds() {
    assert_eq!(Col::<15>::try_new(15), Err(ColError::OutOfBounds(15)));
}

#[test]
fn col_try_new_large_x_out_of_bounds() {
    assert_eq!(Col::<15>::try_new(usize::MAX), Err(ColError::OutOfBounds(usize::MAX)));
}

#[test]
fn col_try_new_positive_components_allowed() {
    let col: Col<15> = Col::try_new(1).unwrap();
    assert_eq!(1, col.x);
}

#[test]
fn pos_new_positive_components_allowed() {
    let pos: Pos<15, 16> = Pos::new(1, 4);
    assert_eq!(1, pos.x());
    assert_eq!(4, pos.y());
}

#[test]
fn pos_try_new_x_out_of_bounds() {
    assert_eq!(Pos::<15, 16>::try_new(15, 4), Err(PosError::OutOfBounds(15, 4)));
}

#[test]
fn pos_try_new_y_out_of_bounds() {
    assert_eq!(Pos::<15, 16>::try_new(1, 16), Err(PosError::OutOfBounds(1, 16)));
}

#[test]
fn pos_try_new_large_x_out_of_bounds() {
    assert_eq!(Pos::<15, 16>::try_new(usize::MAX, 4), Err(PosError::OutOfBounds(usize::MAX, 4)));
}

#[test]
fn pos_try_new_large_y_out_of_bounds() {
    assert_eq!(Pos::<15, 16>::try_new(1, usize::MAX), Err(PosError::OutOfBounds(1, usize::MAX)));
}

#[test]
fn pos_try_new_positive_components_allowed() {
    let pos: Pos<15, 16> = Pos::try_new(1, 4).unwrap();
    assert_eq!(1, pos.x());
    assert_eq!(4, pos.y());
}

#[test]
fn add_positive_components_summed() {
    let pos1: Pos<15, 16> = Pos::new(1, 4);
    let pos2: Pos<15, 16> = Pos::new(13, 5);
    let sum = (pos1 + pos2).unwrap();
    assert_eq!(14, sum.x());
    assert_eq!(9, sum.y());
}

#[test]
fn add_positive_components_out_of_bounds() {
    let pos1: Pos<15, 16> = Pos::new(1, 4);
    let pos2: Pos<15, 16> = Pos::new(14, 5);
    assert_eq!((pos1 + pos2), Err(PosError::OutOfBounds(15, 9)));
}

#[test]
fn add_positive_components_overflow() {
    let pos1: Pos<MAX, 16> = Pos::new(usize::MAX - 5, 4);
    let pos2: Pos<MAX, 16> = Pos::new(6, 5);
    assert_eq!((pos1 + pos2), Err(PosError::Overflow));
}

#[test]
fn sub_positive_components_subtracted() {
    let pos1: Pos<15, 16> = Pos::new(1, 4);
    let pos2: Pos<15, 16> = Pos::new(14, 5);
    let diff = (pos2 - pos1).unwrap();
    assert_eq!(13, diff.x());
    assert_eq!(1, diff.y());
}

#[test]
fn sub_positive_components_overflow() {
    let pos1: Pos<MAX, 16> = Pos::new(5, 4);
    let pos2: Pos<MAX, 16> = Pos::new(6, 5);
    assert_eq!((pos1 - pos2), Err(PosError::Overflow));
}

#[test]
fn equals_same_pos_equal() {
    let pos1: Pos<15, 16> = Pos::new(1, 4);
    let pos2: Pos<15, 16> = Pos::new(1, 4);
    assert_eq!(pos1, pos2);
}

#[test]
fn equals_components_diff_not_equal() {
    let pos1: Pos<15, 16> = Pos::new(1, 4);
    let pos2: Pos<15, 16> = Pos::new(0, 15);
    assert_ne!(pos1, pos2);
}

#[test]
fn equals_components_reversed_not_equal() {
    let pos1: Pos<15, 16> = Pos::new(1, 4);
    let pos2: Pos<15, 16> = Pos::new(4, 1);
    assert_ne!(pos1, pos2);
}

#[test]
fn format_positive_components_no_signs() {
    let pos: Pos<15, 16> = Pos::new(1, 4);
    assert_eq!("(1, 4)", pos.to_string());
}
