use binoxxo::field::{Board, Field};

#[test]
fn from_str_reads_rows_from_the_top_down() {
    let board = Board::from_str("X O _ _\nO _ _ _\n_ _ _ _\n_ _ _ X").unwrap();

    assert_eq!(4, board.get_size());
    assert_eq!(Field::X, board.get(0, 0));
    assert_eq!(Field::O, board.get(1, 0));
    assert_eq!(Field::O, board.get(0, 1));
    assert_eq!(Field::X, board.get(3, 3));
    assert_eq!(Field::Empty, board.get(3, 0));
    assert_eq!(Field::Empty, board.get(0, 3));
}

#[test]
fn from_str_splits_at_any_white_space() {
    let board = Board::from_str("\t X\u{a0}O\r\n\u{3000}_\u{2003}\u{2028}O \n").unwrap();

    assert_eq!(2, board.get_size());
    assert_eq!(Field::X, board.get(0, 0));
    assert_eq!(Field::O, board.get(1, 0));
    assert_eq!(Field::Empty, board.get(0, 1));
    assert_eq!(Field::O, board.get(1, 1));
}

#[test]
fn from_str_does_not_split_at_other_characters() {
    assert_eq!(
        Err("Unknown field string".to_string()),
        Board::from_str("X\u{200b}O O X _")
    );
    assert_eq!(
        Err("Board too small (at least 2 elements)".to_string()),
        Board::from_str("X,O,O,X")
    );
    assert_eq!(
        Err("Number of string elements must be square number".to_string()),
        Board::from_str("X,O O,X")
    );
}

#[test]
fn from_str_rejects_a_number_of_tokens_that_is_no_square() {
    assert_eq!(
        Err("Number of string elements must be square number".to_string()),
        Board::from_str("X O X")
    );
    assert_eq!(
        Err("Number of string elements must be square number".to_string()),
        Board::from_str("X O X O _")
    );
}

#[test]
fn from_str_counts_tokens_before_it_reads_them() {
    assert_eq!(
        Err("Number of string elements must be square number".to_string()),
        Board::from_str("X O ?")
    );
    assert_eq!(
        Err("Board size must be even".to_string()),
        Board::from_str("a b c d e f g h i")
    );
}

#[test]
fn from_str_rejects_a_board_that_is_too_small() {
    assert_eq!(
        Err("Board too small (at least 2 elements)".to_string()),
        Board::from_str("")
    );
    assert_eq!(
        Err("Board too small (at least 2 elements)".to_string()),
        Board::from_str("  \n ")
    );
    assert_eq!(
        Err("Board too small (at least 2 elements)".to_string()),
        Board::from_str("X")
    );
}

#[test]
fn from_str_rejects_an_odd_side_length() {
    assert_eq!(
        Err("Board size must be even".to_string()),
        Board::from_str("X O X O X O X O X")
    );
}

#[test]
fn from_str_rejects_an_unknown_token() {
    assert_eq!(
        Err("Unknown field string".to_string()),
        Board::from_str("X O E X")
    );
    assert_eq!(
        Err("Unknown field string".to_string()),
        Board::from_str("X O XX X")
    );
    assert_eq!(
        Err("Unknown field string".to_string()),
        Board::from_str("x O _ X")
    );
}

#[test]
fn parse_is_the_same_as_from_str() {
    let parsed: Result<Board, String> = "X O\nO X".parse();

    assert_eq!(Board::from_str("X O\nO X"), parsed);
}

#[test]
fn to_string_writes_one_line_per_row() {
    let mut board = Board::new(4);
    board.set(0, 0, Field::X);
    board.set(1, 0, Field::O);
    board.set(3, 2, Field::X);
    board.set(0, 3, Field::O);

    assert_eq!("X O _ _\n_ _ _ _\n_ _ _ X\nO _ _ _\n", board.to_string());
}

#[test]
fn full_board_survives_the_round_trip() {
    let board = Board::from_str(
        "X O X O
         O X O X
         X X O O
         O O X X",
    )
    .unwrap();

    let text = board.to_string();

    assert_eq!("X O X O\nO X O X\nX X O O\nO O X X\n", text);
    assert_eq!(Ok(board), Board::from_str(&text));
}

#[test]
fn board_with_empty_cells_survives_the_round_trip() {
    let mut board = Board::new(6);
    board.set(0, 0, Field::X);
    board.set(5, 0, Field::O);
    board.set(2, 3, Field::O);
    board.set(5, 5, Field::X);

    assert_eq!(Ok(board.clone()), Board::from_str(&board.to_string()));
}

#[test]
fn blank_board_survives_the_round_trip() {
    let board = Board::new(2);

    assert_eq!("_ _\n_ _\n", board.to_string());
    assert_eq!(Ok(board.clone()), Board::from_str(&board.to_string()));
}

#[test]
fn clone_keeps_size_and_cells() {
    let board = Board::from_str("X _\n_ O").unwrap();

    let copy = board.clone();

    assert_eq!(board, copy);
    assert_eq!(vec![Field::X, Field::Empty, Field::Empty, Field::O], *copy.fields());
}

#[test]
fn white_space_is_what_char_says() {
    for c in '\0'..=char::MAX {
        let text = format!("X{}O O X", c);

        assert_eq!(c.is_whitespace(), Board::from_str(&text).is_ok());
    }
}
