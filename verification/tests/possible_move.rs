use binoxxo::bruteforce::possible_move::{calc_possible_move, calc_possible_moves, PossibleMove};
use binoxxo::field::{Board, Field};

#[test]
fn possible_move_get_possible_moves_for_all_empty_fields() {
    let mut board = Board::from_str(
        "
            X X _ _
            O O X X
            O X X O
            _ _ X O",
    )
    .unwrap();

    let possible_moves = calc_possible_moves(&mut board);
    assert_eq!(4, possible_moves.len());
}

#[test]
fn possible_move_get_possible_moves_does_not_change_board() {
    let mut board = Board::from_str(
        "
            X X _ _
            O O X X
            O X X O
            _ _ X O",
    )
    .unwrap();

    let _ = calc_possible_moves(&mut board);
    assert_eq!(
        Board::from_str(
            "
            X X _ _
            O O X X
            O X X O
            _ _ X O"
        )
        .unwrap(),
        board
    );
}

#[test]
fn possible_move_get_possible_one_moves_for_all_empty_fields() {
    let mut board = Board::from_str(
        "
            X X _ _
            O O X X
            O X X O
            _ _ X O",
    )
    .unwrap();

    let possible_moves = calc_possible_moves(&mut board);
    assert!(possible_moves.contains(&PossibleMove::OneMove(2, 0, Field::O),));
    assert!(possible_moves.contains(&PossibleMove::OneMove(1, 3, Field::O),));
    assert!(possible_moves.contains(&PossibleMove::OneMove(0, 3, Field::X),));
    assert!(possible_moves.contains(&PossibleMove::NoMove));
}

#[test]
fn possible_move_next_to_a_single_x_are_two_moves_possible() {
    let mut board = Board::from_str(
        "
            X _ _ _
            _ _ _ _
            _ _ _ _
            _ _ _ _",
    )
    .unwrap();

    let possible_moves = calc_possible_moves(&mut board);

    assert!(possible_moves.contains(&PossibleMove::TwoMoves(1, 0)));
}

#[test]
fn possible_move_move_not_possible_for_set_field() {
    let mut board = Board::from_str(
        "
            X _
            _ _",
    )
    .unwrap();

    assert_eq!(PossibleMove::NoMove, calc_possible_move(&mut board, 0, 0));
}

#[test]
fn possible_move_two_options_for_empty_board() {
    let mut board = Board::from_str(
        "
            _ _
            _ _",
    )
    .unwrap();

    for x in 0..2 {
        for y in 0..2 {
            assert_eq!(
                PossibleMove::TwoMoves(x, y),
                calc_possible_move(&mut board, x, y)
            );
        }
    }
}

#[test]
fn possible_move_only_option_x_possible() {
    let mut board = Board::from_str(
        "
            O O
            O _",
    )
    .unwrap();

    assert_eq!(
        PossibleMove::OneMove(1, 1, Field::X),
        calc_possible_move(&mut board, 1, 1)
    );
}

#[test]
fn possible_move_only_option_o_possible() {
    let mut board = Board::from_str(
        "
            _ X X O
            X X O O
            O O X X
            X O O X",
    )
    .unwrap();

    assert_eq!(
        PossibleMove::OneMove(0, 0, Field::O),
        calc_possible_move(&mut board, 0, 0)
    );
}
