//! The checks of single moves, the options of empty cells and the selection
//! of the next move, seen together.

use binoxxo::bruteforce::choose_move::select_next_move;
use binoxxo::bruteforce::possible_move::{calc_possible_move, calc_possible_moves, PossibleMove};
use binoxxo::field::{Board, Field};
use binoxxo::rules::{
    calc_column_siganture, calc_row_siganture, is_move_valid, is_unique_column, is_unique_row,
    is_valid_colum, is_valid_pair_rule, is_valid_row,
};
use rand::rngs::StdRng;
use rand::SeedableRng;

#[test]
fn bruteforce_select_none_if_one_impossible_move_in_list() {
    let mut rng = StdRng::from_entropy();

    assert_eq!(
        None,
        select_next_move(
            &[
                PossibleMove::OneMove(1, 1, Field::X),
                PossibleMove::TwoMoves(2, 2),
                PossibleMove::NoMove,
            ],
            &mut rng
        )
    );
}

#[test]
fn bruteforce_select_random_one_move_if_list_of_possible_moves_contains_one_move() {
    let possible_moves = vec![
        PossibleMove::OneMove(1, 1, Field::X),
        PossibleMove::OneMove(2, 1, Field::O),
        PossibleMove::TwoMoves(2, 2),
    ];
    let mut rng = StdRng::from_entropy();
    let next_move = select_next_move(&possible_moves, &mut rng).unwrap();
    assert!(possible_moves.contains(&PossibleMove::OneMove(
        next_move.x,
        next_move.y,
        next_move.field,
    )));
}

#[test]
fn bruteforce_select_random_two_move_if_list_of_possible_moves_contains_only_two_moves() {
    let possible_moves = vec![
        PossibleMove::TwoMoves(1, 1),
        PossibleMove::TwoMoves(2, 1),
        PossibleMove::TwoMoves(2, 2),
    ];
    let mut rng = StdRng::from_entropy();
    let next_move = select_next_move(&possible_moves, &mut rng).unwrap();
    assert!(possible_moves.contains(&PossibleMove::TwoMoves(next_move.x, next_move.y,)));
}

#[test]
fn bruteforce_get_possible_moves_for_all_empty_fields() {
    let mut board = Board::from_str(
        "
            X X _ _
            O O X X
            O X X O
            _ _ X O",
    )
    .unwrap();

    let possible_moves = calc_possible_moves(&mut board);
    assert_eq!(4, possible_moves.len());
}

#[test]
fn bruteforce_get_possible_moves_does_not_change_board() {
    let mut board = Board::from_str(
        "
            X X _ _
            O O X X
            O X X O
            _ _ X O",
    )
    .unwrap();

    let _ = calc_possible_moves(&mut board);
    assert_eq!(
        Board::from_str(
            "
            X X _ _
            O O X X
            O X X O
            _ _ X O"
        )
        .unwrap(),
        board
    );
}

#[test]
fn bruteforce_get_possible_one_moves_for_all_empty_fields() {
    let mut board = Board::from_str(
        "
            X X _ _
            O O X X
            O X X O
            _ _ X O",
    )
    .unwrap();

    let possible_moves = calc_possible_moves(&mut board);
    assert!(possible_moves.contains(&PossibleMove::OneMove(2, 0, Field::O),));
    assert!(possible_moves.contains(&PossibleMove::OneMove(1, 3, Field::O),));
    assert!(possible_moves.contains(&PossibleMove::OneMove(0, 3, Field::X),));
    assert!(possible_moves.contains(&PossibleMove::NoMove));
}

#[test]
fn bruteforce_next_to_a_single_x_are_two_moves_possible() {
    let mut board = Board::from_str(
        "
            X _ _ _
            _ _ _ _
            _ _ _ _
            _ _ _ _",
    )
    .unwrap();

    let possible_moves = calc_possible_moves(&mut board);

    assert!(possible_moves.contains(&PossibleMove::TwoMoves(1, 0)));
}

#[test]
fn bruteforce_move_not_possible_for_set_field() {
    let mut board = Board::from_str(
        "
            X _
            _ _",
    )
    .unwrap();

    assert_eq!(PossibleMove::NoMove, calc_possible_move(&mut board, 0, 0));
}

#[test]
fn bruteforce_two_options_for_empty_board() {
    let mut board = Board::from_str(
        "
            _ _
            _ _",
    )
    .unwrap();

    for x in 0..2 {
        for y in 0..2 {
            assert_eq!(
                PossibleMove::TwoMoves(x, y),
                calc_possible_move(&mut board, x, y)
            );
        }
    }
}

#[test]
fn bruteforce_only_option_x_possible() {
    let mut board = Board::from_str(
        "
            O O
            O _",
    )
    .unwrap();

    assert_eq!(
        PossibleMove::OneMove(1, 1, Field::X),
        calc_possible_move(&mut board, 1, 1)
    );
}

#[test]
fn bruteforce_only_option_o_possible() {
    let mut board = Board::from_str(
        "
            _ X X O
            X X O O
            O O X X
            X O O X",
    )
    .unwrap();

    assert_eq!(
        PossibleMove::OneMove(0, 0, Field::O),
        calc_possible_move(&mut board, 0, 0)
    );
}

#[test]
fn bruteforce_x_with_adjacent_oo_is_valid() {
    let board = Board::from_str(
        "O _ _ _
            O _ _ _
            X _ _ _
            _ _ _ _",
    ).unwrap();

    assert_eq!(true, is_valid_pair_rule(&board, 0, 2));
}

#[test]
fn bruteforce_x_with_surounding_oo_is_valid() {
    let board = Board::from_str(
        "X O X _
            _ _ _ _
            _ _ _ _
            _ _ _ _",
    ).unwrap();

    assert_eq!(true, is_valid_pair_rule(&board, 1, 0));
}

#[test]
fn bruteforce_x_with_adjacent_xx_is_invalid_horizontally() {
    let board = Board::from_str(
        "_ _ _ _
            X X X _
            _ _ _ _
            _ _ _ _",
    ).unwrap();

    assert_eq!(false, is_valid_pair_rule(&board, 0, 1));
    assert_eq!(false, is_valid_pair_rule(&board, 1, 1));
    assert_eq!(false, is_valid_pair_rule(&board, 2, 1));
}

#[test]
fn bruteforce_x_with_adjacent_xx_is_invalid_vertically() {
    let board = Board::from_str(
        "_ O _ _
            _ O _ _
            _ O _ _
            _ _ _ _",
    ).unwrap();

    assert_eq!(false, is_valid_pair_rule(&board, 1, 0));
    assert_eq!(false, is_valid_pair_rule(&board, 1, 1));
    assert_eq!(false, is_valid_pair_rule(&board, 1, 2));
}

#[test]
fn bruteforce_not_more_than_half_the_field_per_column_valid() {
    let board = Board::from_str(
        "_ X _ _
            _ X _ _
            _ O _ _
            _ O _ _",
    ).unwrap();

    assert_eq!(true, is_valid_colum(&board, 1, 2));
}

#[test]
fn bruteforce_not_more_than_half_the_field_per_column_invalid() {
    let board = Board::from_str(
        "_ X _ _
            _ O _ _
            _ X _ _
            _ X _ _",
    ).unwrap();

    assert_eq!(false, is_valid_colum(&board, 1, 2));
}

#[test]
fn bruteforce_not_more_than_half_the_field_per_row_valid() {
    let board = Board::from_str(
        "
            _ _ _ _
            O X X O
            _ _ _ _
            _ _ _ _",
    ).unwrap();

    assert_eq!(true, is_valid_row(&board, 2, 1));
}

#[test]
fn bruteforce_not_more_than_half_the_field_per_row_invalid() {
    let board = Board::from_str(
        "
            _ _ _ _
            O X O O
            _ _ _ _
            _ _ _ _",
    ).unwrap();

    assert_eq!(false, is_valid_row(&board, 2, 1));
}

#[test]
fn bruteforce_calc_column_siganture_of_non_empty_column() {
    let board = Board::from_str(
        "
            O O X X
            O X X X
            O O O X
            O X O X",
    ).unwrap();

    assert_eq!(Some(0), calc_column_siganture(&board, 0));
    assert_eq!(Some(10), calc_column_siganture(&board, 1));
    assert_eq!(Some(3), calc_column_siganture(&board, 2));
    assert_eq!(Some(15), calc_column_siganture(&board, 3));
}

#[test]
fn bruteforce_calc_column_siganture_of_empty_column() {
    let board = Board::from_str(
        "
            O O _ _
            O X X _
            O O O _
            O X O _",
    ).unwrap();

    assert_eq!(None, calc_column_siganture(&board, 2));
    assert_eq!(None, calc_column_siganture(&board, 3));
}

#[test]
fn bruteforce_unique_column() {
    let board = Board::from_str(
        "
            X O
            O X",
    ).unwrap();

    assert_eq!(true, is_unique_column(&board, 0));
    assert_eq!(true, is_unique_column(&board, 1));
}

#[test]
fn bruteforce_double_column() {
    let board = Board::from_str(
        "
            X X
            O O",
    ).unwrap();

    assert_eq!(false, is_unique_column(&board, 0));
    assert_eq!(false, is_unique_column(&board, 1));
}

#[test]
fn bruteforce_empty_column_is_unique() {
    let board = Board::from_str(
        "
            _ _
            O O",
    ).unwrap();

    assert_eq!(true, is_unique_column(&board, 0));
    assert_eq!(true, is_unique_column(&board, 1));
}

#[test]
fn bruteforce_calc_row_siganture_of_empty_row() {
    let board = Board::from_str(
        "
            _ _ _ _
            O X _ _
            O O O O
            O X O X",
    ).unwrap();

    assert_eq!(None, calc_row_siganture(&board, 0));
    assert_eq!(None, calc_row_siganture(&board, 1));
}

#[test]
fn bruteforce_calc_row_siganture_of_non_empty_row() {
    let board = Board::from_str(
        "
            O O X X
            O X O X
            O O O X
            X X X X",
    ).unwrap();

    assert_eq!(Some(12), calc_row_siganture(&board, 0));
    assert_eq!(Some(10), calc_row_siganture(&board, 1));
    assert_eq!(Some(8), calc_row_siganture(&board, 2));
    assert_eq!(Some(15), calc_row_siganture(&board, 3));
}

#[test]
fn bruteforce_unique_row() {
    let board = Board::from_str(
        "
            X O
            O X",
    ).unwrap();

    assert_eq!(true, is_unique_row(&board, 0));
    assert_eq!(true, is_unique_row(&board, 1));
}

#[test]
fn bruteforce_valid_move() {
    let board = Board::from_str(
        "
            O X X O
            X O O X
            X X O O
            O O X X",
    ).unwrap();

    for x in 0..4 {
        for y in 0..4 {
            assert_eq!(true, is_move_valid(&board, x, y));
        }
    }
}
