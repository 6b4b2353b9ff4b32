use binoxxo::field::Board;
use binoxxo::rules::{
    are_columns_balanced, are_columns_unique, are_rows_balanced, are_rows_unique,
    calc_column_siganture, calc_row_siganture, has_no_more_than_two_same_neightbors,
    is_board_full, is_board_valid, is_move_valid, is_unique_column, is_unique_row,
    is_valid_colum, is_valid_pair_rule, is_valid_row,
};

#[test]
fn rules_x_with_adjacent_oo_is_valid() {
    let board = Board::from_str(
        "O _ _ _
            O _ _ _
            X _ _ _
            _ _ _ _",
    ).unwrap();

    assert_eq!(true, is_valid_pair_rule(&board, 0, 2));
}

#[test]
fn rules_x_with_surounding_oo_is_valid() {
    let board = Board::from_str(
        "X O X _
            _ _ _ _
            _ _ _ _
            _ _ _ _",
    ).unwrap();

    assert_eq!(true, is_valid_pair_rule(&board, 1, 0));
}

#[test]
fn rules_x_with_adjacent_xx_is_invalid_horizontally() {
    let board = Board::from_str(
        "_ _ _ _
            X X X _
            _ _ _ _
            _ _ _ _",
    ).unwrap();

    assert_eq!(false, is_valid_pair_rule(&board, 0, 1));
    assert_eq!(false, is_valid_pair_rule(&board, 1, 1));
    assert_eq!(false, is_valid_pair_rule(&board, 2, 1));
}

#[test]
fn rules_x_with_adjacent_xx_is_invalid_vertically() {
    let board = Board::from_str(
        "_ O _ _
            _ O _ _
            _ O _ _
            _ _ _ _",
    ).unwrap();

    assert_eq!(false, is_valid_pair_rule(&board, 1, 0));
    assert_eq!(false, is_valid_pair_rule(&board, 1, 1));
    assert_eq!(false, is_valid_pair_rule(&board, 1, 2));
}

#[test]
fn rules_not_more_than_half_the_field_per_column_valid() {
    let board = Board::from_str(
        "_ X _ _
            _ X _ _
            _ O _ _
            _ O _ _",
    ).unwrap();

    assert_eq!(true, is_valid_colum(&board, 1, 2));
}

#[test]
fn rules_not_more_than_half_the_field_per_column_invalid() {
    let board = Board::from_str(
        "_ X _ _
            _ O _ _
            _ X _ _
            _ X _ _",
    ).unwrap();

    assert_eq!(false, is_valid_colum(&board, 1, 2));
}

#[test]
fn rules_not_more_than_half_the_field_per_row_valid() {
    let board = Board::from_str(
        "
            _ _ _ _
            O X X O
            _ _ _ _
            _ _ _ _",
    ).unwrap();

    assert_eq!(true, is_valid_row(&board, 2, 1));
}

#[test]
fn rules_not_more_than_half_the_field_per_row_invalid() {
    let board = Board::from_str(
        "
            _ _ _ _
            O X O O
            _ _ _ _
            _ _ _ _",
    ).unwrap();

    assert_eq!(false, is_valid_row(&board, 2, 1));
}

#[test]
fn rules_calc_column_siganture_of_non_empty_column() {
    let board = Board::from_str(
        "
            O O X X
            O X X X
            O O O X
            O X O X",
    ).unwrap();

    assert_eq!(Some(0), calc_column_siganture(&board, 0));
    assert_eq!(Some(10), calc_column_siganture(&board, 1));
    assert_eq!(Some(3), calc_column_siganture(&board, 2));
    assert_eq!(Some(15), calc_column_siganture(&board, 3));
}

#[test]
fn rules_calc_column_siganture_of_empty_column() {
    let board = Board::from_str(
        "
            O O _ _
            O X X _
            O O O _
            O X O _",
    ).unwrap();

    assert_eq!(None, calc_column_siganture(&board, 2));
    assert_eq!(None, calc_column_siganture(&board, 3));
}

#[test]
fn rules_unique_column() {
    let board = Board::from_str(
        "
            X O
            O X",
    ).unwrap();

    assert_eq!(true, is_unique_column(&board, 0));
    assert_eq!(true, is_unique_column(&board, 1));
}

#[test]
fn rules_double_column() {
    let board = Board::from_str(
        "
            X X
            O O",
    ).unwrap();

    assert_eq!(false, is_unique_column(&board, 0));
    assert_eq!(false, is_unique_column(&board, 1));
}

#[test]
fn rules_empty_column_is_unique() {
    let board = Board::from_str(
        "
            _ _
            O O",
    ).unwrap();

    assert_eq!(true, is_unique_column(&board, 0));
    assert_eq!(true, is_unique_column(&board, 1));
}

#[test]
fn rules_calc_row_siganture_of_empty_row() {
    let board = Board::from_str(
        "
            _ _ _ _
            O X _ _
            O O O O
            O X O X",
    ).unwrap();

    assert_eq!(None, calc_row_siganture(&board, 0));
    assert_eq!(None, calc_row_siganture(&board, 1));
}

#[test]
fn rules_calc_row_siganture_of_non_empty_row() {
    let board = Board::from_str(
        "
            O O X X
            O X O X
            O O O X
            X X X X",
    ).unwrap();

    assert_eq!(Some(12), calc_row_siganture(&board, 0));
    assert_eq!(Some(10), calc_row_siganture(&board, 1));
    assert_eq!(Some(8), calc_row_siganture(&board, 2));
    assert_eq!(Some(15), calc_row_siganture(&board, 3));
}

#[test]
fn rules_unique_row() {
    let board = Board::from_str(
        "
            X O
            O X",
    ).unwrap();

    assert_eq!(true, is_unique_row(&board, 0));
    assert_eq!(true, is_unique_row(&board, 1));
}

#[test]
fn rules_valid_move() {
    let board = Board::from_str(
        "
            O X X O
            X O O X
            X X O O
            O O X X",
    ).unwrap();

    for x in 0..4 {
        for y in 0..4 {
            assert_eq!(true, is_move_valid(&board, x, y));
        }
    }
}

#[test]
fn regression_board_01() {
    let board = Board::from_str(
        "
            X O X O O X
            O X O X X O
            X O X O O X
            O X O X X O
            X X O X O O
            O O X O X X",
    ).unwrap();

    assert_eq!(false, is_unique_column(&board, 2));
    assert_eq!(false, is_unique_column(&board, 5));
}

#[test]
fn regression_board_02() {
    let board = Board::from_str(
        "
            X O X O O X
            O X O X X O
            X O X O O X
            O X O X X O
            X X O X O O
            O O X O X X",
    ).unwrap();

    assert_eq!(false, is_unique_row(&board, 0));
    assert_eq!(false, is_unique_row(&board, 2));

    assert_eq!(false, is_unique_row(&board, 1));
    assert_eq!(false, is_unique_row(&board, 3));
}

#[test]
fn is_board_valid_for_valid_board() {
    let ok = Board::from_str(
        "
            X O X O
            O X O X
            X X O O
            O O X X",
    ).unwrap();

    assert_eq!(true, is_board_valid(&ok));
}

#[test]
fn is_board_invalid_for_invalid_board() {
    let wrong = Board::from_str(
        "
            O X O X
            X O X O
            X O O O
            O X X O",
    ).unwrap();

    assert_eq!(false, is_board_valid(&wrong));
}

#[test]
fn non_unique_rows() {
    let wrong = Board::from_str(
        "
            X O
            X O",
    ).unwrap();

    assert_eq!(false, are_rows_unique(&wrong));
}

#[test]
fn non_unique_columns() {
    let wrong = Board::from_str(
        "
            X X
            O O",
    ).unwrap();

    assert_eq!(false, are_columns_unique(&wrong));
}

#[test]
fn unbalanced_rows() {
    let wrong = Board::from_str(
        "
            O X O X
            X O X O
            X O O O
            O X X X",
    ).unwrap();

    assert_eq!(false, are_rows_balanced(&wrong));
}

#[test]
fn unbalanced_columns() {
    let wrong = Board::from_str(
        "
            O X O X
            X O X O
            X X O O
            O O X O",
    ).unwrap();

    assert_eq!(false, are_columns_balanced(&wrong));
}

#[test]
fn is_board_valid_for_incomplete_board() {
    let incomplete = Board::from_str(
        "
            _ O X O
            O X O X
            X X O O
            O O X X",
    ).unwrap();

    assert_eq!(false, is_board_valid(&incomplete));
}

#[test]
fn more_then_two_o_in_a_row() {
    let wrong = Board::from_str(
        "
            O X O X
            X O X O
            X O O O
            O X X O",
    ).unwrap();

    assert_eq!(false, has_no_more_than_two_same_neightbors(&wrong));
}

#[test]
fn is_board_full_with_full_board() {
    let full_board = Board::from_str(
        "
            O X O X
            X O X O
            X O O O
            O X X O",
    ).unwrap();
    assert_eq!(true, is_board_full(&full_board));
}

#[test]
fn is_board_full_with_none_full_board() {
    let none_full_board = Board::from_str(
        "
            O X O X
            X _ X O
            X O O O
            O X X O",
    ).unwrap();
    assert_eq!(false, is_board_full(&none_full_board));
}
