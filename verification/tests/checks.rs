use binoxxo::field::Board;
use binoxxo::rules::{
    are_columns_balanced, are_columns_unique, are_rows_balanced, are_rows_unique,
    calc_column_siganture, calc_row_siganture, has_no_more_than_two_same_neightbors,
    is_board_full, is_board_valid, is_move_valid, is_unique_column, is_unique_row,
    is_valid_colum, is_valid_pair_rule, is_valid_row,
};

#[test]
fn three_equal_neighbours_in_the_top_row_are_found() {
    let board = Board::from_str(
        "X X X O
         O O X X
         X O O X
         O X O O",
    )
    .unwrap();

    assert_eq!(false, has_no_more_than_two_same_neightbors(&board));
    assert_eq!(false, is_board_valid(&board));
}

#[test]
fn three_equal_neighbours_in_the_left_column_are_found() {
    let board = Board::from_str(
        "O X O X
         O O X X
         O X X O
         X O O X",
    )
    .unwrap();

    assert_eq!(false, has_no_more_than_two_same_neightbors(&board));
    assert_eq!(false, is_board_valid(&board));
}

#[test]
fn two_equal_neighbours_everywhere_are_accepted() {
    let board = Board::from_str(
        "X X O O
         X X O O
         O O X X
         O O X X",
    )
    .unwrap();

    assert_eq!(true, has_no_more_than_two_same_neightbors(&board));
    assert_eq!(true, are_rows_balanced(&board));
    assert_eq!(true, are_columns_balanced(&board));
    assert_eq!(false, are_rows_unique(&board));
    assert_eq!(false, are_columns_unique(&board));
    assert_eq!(false, is_board_valid(&board));
}

#[test]
fn three_empty_neighbours_count_as_equal() {
    let board = Board::from_str(
        "X O X O
         O _ _ _
         X O X O
         O X O X",
    )
    .unwrap();

    assert_eq!(false, has_no_more_than_two_same_neightbors(&board));
}

#[test]
fn board_with_an_empty_cell_at_the_border_is_not_full() {
    let corner = Board::from_str(
        "_ X O X
         X O X O
         X O O O
         O X X O",
    )
    .unwrap();
    let edge = Board::from_str(
        "O X O X
         X O X O
         X O O _
         O X X O",
    )
    .unwrap();

    assert_eq!(false, is_board_full(&corner));
    assert_eq!(false, is_board_full(&edge));
}

#[test]
fn smallest_boards_are_valid_if_their_rows_differ() {
    let valid = Board::from_str("X O\nO X").unwrap();
    let twins = Board::from_str("X O\nX O").unwrap();

    assert_eq!(true, is_board_valid(&valid));
    assert_eq!(false, is_board_valid(&twins));
}

#[test]
fn one_incomplete_line_among_complete_ones_has_a_signature_of_its_own() {
    let board = Board::from_str(
        "X O
         _ X",
    )
    .unwrap();

    assert_eq!(true, are_rows_unique(&board));
    assert_eq!(true, are_columns_unique(&board));
    assert_eq!(false, are_rows_balanced(&board));
    assert_eq!(false, is_board_valid(&board));
}

#[test]
fn two_incomplete_lines_share_the_missing_signature() {
    let board = Board::from_str(
        "X O X _
         O X O X
         X X O O
         O O X _",
    )
    .unwrap();

    assert_eq!(false, are_rows_unique(&board));
    assert_eq!(true, are_columns_unique(&board));
}

#[test]
fn signature_sets_one_binary_digit_per_x() {
    let board = Board::from_str(
        "X O O O O O
         O X O O O O
         O O X O O O
         O O O X O O
         O O O O X O
         X X X X X X",
    )
    .unwrap();

    assert_eq!(Some(33), calc_column_siganture(&board, 0));
    assert_eq!(Some(34), calc_column_siganture(&board, 1));
    assert_eq!(Some(48), calc_column_siganture(&board, 4));
    assert_eq!(Some(32), calc_column_siganture(&board, 5));
    assert_eq!(Some(1), calc_row_siganture(&board, 0));
    assert_eq!(Some(16), calc_row_siganture(&board, 4));
    assert_eq!(Some(63), calc_row_siganture(&board, 5));
}

#[test]
fn uniqueness_compares_only_complete_lines() {
    let board = Board::from_str(
        "X O X O
         X O X O
         X O _ O
         _ _ _ _",
    )
    .unwrap();

    assert_eq!(false, is_unique_row(&board, 0));
    assert_eq!(false, is_unique_row(&board, 1));
    assert_eq!(true, is_unique_row(&board, 2));
    assert_eq!(true, is_unique_row(&board, 3));
    assert_eq!(true, is_unique_column(&board, 0));
}

#[test]
fn balance_counts_the_token_of_the_cell() {
    let board = Board::from_str(
        "X X X _
         O _ _ _
         O _ _ _
         _ _ _ _",
    )
    .unwrap();

    assert_eq!(false, is_valid_row(&board, 0, 0));
    assert_eq!(true, is_valid_row(&board, 0, 1));
    assert_eq!(true, is_valid_colum(&board, 0, 0));
    assert_eq!(true, is_valid_colum(&board, 0, 1));
    assert_eq!(true, is_valid_colum(&board, 1, 0));
}

#[test]
fn pair_rule_looks_at_both_ends_and_the_middle() {
    let board = Board::from_str(
        "X X O X X O
         _ _ _ _ _ _
         O _ _ _ _ X
         O _ _ _ _ X
         X _ _ _ _ X
         O O O X O O",
    )
    .unwrap();

    assert_eq!(true, is_valid_pair_rule(&board, 0, 0));
    assert_eq!(true, is_valid_pair_rule(&board, 4, 0));
    assert_eq!(true, is_valid_pair_rule(&board, 0, 3));
    assert_eq!(false, is_valid_pair_rule(&board, 5, 2));
    assert_eq!(false, is_valid_pair_rule(&board, 5, 3));
    assert_eq!(false, is_valid_pair_rule(&board, 5, 4));
    assert_eq!(false, is_valid_pair_rule(&board, 0, 5));
    assert_eq!(false, is_valid_pair_rule(&board, 1, 5));
    assert_eq!(false, is_valid_pair_rule(&board, 2, 5));
    assert_eq!(true, is_valid_pair_rule(&board, 3, 5));
    assert_eq!(true, is_valid_pair_rule(&board, 4, 5));
}

#[test]
fn move_is_invalid_if_one_rule_is_broken() {
    let run = Board::from_str(
        "X X X _
         _ _ _ _
         _ _ _ _
         _ _ _ _",
    )
    .unwrap();
    let unbalanced = Board::from_str(
        "X X O X
         _ _ _ _
         _ _ _ _
         _ _ _ _",
    )
    .unwrap();
    let twin_rows = Board::from_str(
        "X O O X
         _ _ _ _
         X O O X
         _ _ _ _",
    )
    .unwrap();
    let twin_columns = Board::from_str(
        "X _ X _
         O _ O _
         O _ O _
         X _ X _",
    )
    .unwrap();

    assert_eq!(false, is_move_valid(&run, 1, 0));
    assert_eq!(false, is_move_valid(&unbalanced, 0, 0));
    assert_eq!(true, is_move_valid(&unbalanced, 2, 0));
    assert_eq!(false, is_move_valid(&twin_rows, 3, 0));
    assert_eq!(false, is_move_valid(&twin_columns, 0, 3));
    assert_eq!(true, is_move_valid(&twin_columns, 0, 0) == is_move_valid(&twin_columns, 2, 0));
}

#[test]
fn full_board_is_valid_exactly_if_every_cell_is() {
    let texts = [
        "X O\nO X",
        "X O\nX O",
        "X X\nO O",
        "X O X O\nO X O X\nX X O O\nO O X X",
        "O X O X\nX O X O\nX O O O\nO X X O",
        "X X X O\nO O X X\nX O O X\nO X O O",
        "O X O X\nO O X X\nO X X O\nX O O X",
        "X X O O\nX X O O\nO O X X\nO O X X",
        "O X X O\nX O O X\nX X O O\nO O X X",
        "X O X O O X\nO X O X X O\nX O X O O X\nO X O X X O\nX X O X O O\nO O X O X X",
        "O X O X X O\nX O O X O X\nO X X O X O\nO X O X O X\nX O X O X O\nX O X O O X",
    ];
    let mut valid_boards = 0;
    for text in texts {
        let board = Board::from_str(text).unwrap();
        let size = board.get_size();
        assert!(is_board_full(&board));

        let every_cell = (0..size).all(|x| (0..size).all(|y| is_move_valid(&board, x, y)));

        assert_eq!(every_cell, is_board_valid(&board));
        if every_cell {
            valid_boards += 1;
        }
    }
    assert_eq!(4, valid_boards);
}
