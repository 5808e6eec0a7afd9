use tiles_2048::components::{Board, Direction, RotateBy};
use tiles_2048::rotation::{rotate_board, rotate_index};

fn filled(values: [usize; 16]) -> Vec<Option<usize>> {
    values.iter().map(|&x| Some(x)).collect()
}

#[test]
fn rotate_test() {
    let board_vec: Vec<Option<usize>> =
        filled([0, 1, 2, 3, 4, 5, 6, 7, 8, 9, 10, 11, 12, 13, 14, 15]);
    let full_board = rotate_board(&Board::<4, usize>(board_vec.clone()), RotateBy::Full);
    assert_eq!(
        full_board,
        Board::<4, usize>(filled([15, 14, 13, 12, 11, 10, 9, 8, 7, 6, 5, 4, 3, 2, 1, 0]))
    );

    let left_board = rotate_board(&Board::<4, usize>(board_vec.clone()), RotateBy::Left);
    assert_eq!(
        left_board,
        Board(filled([3, 7, 11, 15, 2, 6, 10, 14, 1, 5, 9, 13, 0, 4, 8, 12]))
    );
    let orig_board = rotate_board(&left_board, RotateBy::Right);
    assert_eq!(orig_board, Board(board_vec.clone()));

    let right_board = rotate_board(&Board::<4, usize>(board_vec.clone()), RotateBy::Right);
    assert_eq!(
        right_board,
        Board(filled([12, 8, 4, 0, 13, 9, 5, 1, 14, 10, 6, 2, 15, 11, 7, 3]))
    );
    let orig_board = rotate_board(&right_board, RotateBy::Left);
    assert_eq!(orig_board, Board(board_vec.clone()));
}

#[test]
fn rotate_index_test() {
    let rotate_value = RotateBy::Left;
    assert_eq!((0, 3), rotate_index::<4>(0, 0, rotate_value));
    assert_eq!((0, 0), rotate_index::<4>(0, 3, rotate_value.revert()));

    assert_eq!((1, 1), rotate_index::<4>(1, 2, RotateBy::Right));
}

#[test]
fn rotate_identity_keeps_the_board() {
    let board_vec: Vec<Option<usize>> =
        filled([0, 1, 2, 3, 4, 5, 6, 7, 8, 9, 10, 11, 12, 13, 14, 15]);
    let same = rotate_board(&Board::<4, usize>(board_vec.clone()), RotateBy::Identity);
    assert_eq!(same, Board(board_vec));
    assert_eq!((2, 3), rotate_index::<4>(2, 3, RotateBy::Identity));
    assert_eq!((1, 0), rotate_index::<4>(2, 3, RotateBy::Full));
}

#[test]
fn rotate_then_revert_is_identity_for_every_rotation() {
    let rotations = [RotateBy::Identity, RotateBy::Left, RotateBy::Right, RotateBy::Full];
    let cells: Vec<Option<usize>> = vec![Some(7), None, Some(3), None, None, Some(1), None, None, Some(9)];
    for by in rotations {
        let there = rotate_board(&Board::<3, usize>(cells.clone()), by);
        let back = rotate_board(&there, by.revert());
        assert_eq!(back, Board::<3, usize>(cells.clone()));
        for c in 0..3 {
            for r in 0..3 {
                let (c1, r1) = rotate_index::<3>(c, r, by);
                assert_eq!((c, r), rotate_index::<3>(c1, r1, by.revert()));
            }
        }
    }
}

#[test]
fn revert_and_from_direction() {
    assert_eq!(RotateBy::Identity.revert(), RotateBy::Identity);
    assert_eq!(RotateBy::Left.revert(), RotateBy::Right);
    assert_eq!(RotateBy::Right.revert(), RotateBy::Left);
    assert_eq!(RotateBy::Full.revert(), RotateBy::Full);
    assert_eq!(RotateBy::from_direction(&Direction::Left), RotateBy::Identity);
    assert_eq!(RotateBy::from_direction(&Direction::Right), RotateBy::Full);
    assert_eq!(RotateBy::from_direction(&Direction::Up), RotateBy::Left);
    assert_eq!(RotateBy::from_direction(&Direction::Down), RotateBy::Right);
    assert_eq!(Direction::default(), Direction::Right);
}

#[test]
fn rotate_board_of_one_cell_and_of_none() {
    let one = rotate_board(&Board::<1, usize>(vec![Some(5)]), RotateBy::Left);
    assert_eq!(one, Board::<1, usize>(vec![Some(5)]));
    let none = rotate_board(&Board::<0, usize>(vec![]), RotateBy::Full);
    assert_eq!(none, Board::<0, usize>(vec![]));
}
