use binoxxo::bruteforce::build_board::Game;
use binoxxo::bruteforce::choose_move::MoveSelection;
use binoxxo::bruteforce::{create_full_board, create_puzzle_board};
use binoxxo::field::{Board, Field};
use binoxxo::rules::{is_board_full, is_board_valid, is_move_valid};
use rand::rngs::StdRng;
use rand::SeedableRng;

fn count_filled(board: &Board) -> usize {
    board.fields().iter().filter(|field| **field != Field::Empty).count()
}

fn is_part_of(puzzle: &Board, solution: &Board) -> bool {
    let size = puzzle.get_size();
    size == solution.get_size()
        && (0..size).all(|x| {
            (0..size).all(|y| {
                puzzle.get(x, y) == Field::Empty || puzzle.get(x, y) == solution.get(x, y)
            })
        })
}

#[test]
fn new_game_starts_on_a_blank_board() {
    let game = Game::new(6);

    assert_eq!(Board::new(6), *game.board());
    assert_eq!(0, game.moves().len());
    assert_eq!(false, game.is_full());
}

#[test]
fn new_move_fills_one_cell() {
    let mut rng = StdRng::seed_from_u64(3);
    let mut game = Game::new(4);

    assert_eq!(true, game.new_move(&mut rng));

    assert_eq!(1, game.moves().len());
    let m = game.moves()[0];
    assert_eq!(MoveSelection::Random, m.was_random);
    assert_eq!(m.field, game.board().get(m.x, m.y));
    assert_eq!(1, count_filled(game.board()));
}

#[test]
fn every_move_is_valid_when_it_is_made() {
    let mut rng = StdRng::seed_from_u64(11);
    let mut game = Game::new(6);

    while !game.is_full() && game.new_move(&mut rng) {
        let m = *game.moves().last().unwrap();
        assert!(m.field != Field::Empty);
        assert_eq!(m.field, game.board().get(m.x, m.y));
        assert!(is_move_valid(game.board(), m.x, m.y));
        assert_eq!(game.moves().len(), count_filled(game.board()));
    }
}

#[test]
fn undo_moves_empties_the_cells_of_the_latest_moves() {
    let mut rng = StdRng::seed_from_u64(5);
    let mut game = Game::new(4);
    for _ in 0..5 {
        assert!(game.new_move(&mut rng));
    }
    let moves = game.moves().clone();
    let mut expected = game.board().clone();
    expected.clear(moves[4].x, moves[4].y);
    expected.clear(moves[3].x, moves[3].y);

    game.undo_moves(2);

    assert_eq!(moves[..3].to_vec(), *game.moves());
    assert_eq!(expected, *game.board());

    game.undo_moves(0);

    assert_eq!(moves[..3].to_vec(), *game.moves());
    assert_eq!(expected, *game.board());

    game.undo_moves(3);

    assert_eq!(0, game.moves().len());
    assert_eq!(Board::new(4), *game.board());
}

#[test]
fn backtrack_takes_back_some_moves_but_never_all() {
    let mut kept = Vec::new();
    for seed in 0..60 {
        let mut rng = StdRng::seed_from_u64(5);
        let mut game = Game::new(4);
        for _ in 0..6 {
            assert!(game.new_move(&mut rng));
        }
        let moves = game.moves().clone();
        let filled = game.board().clone();
        let mut rng = StdRng::seed_from_u64(seed);

        game.backtrack(&mut rng);

        let left = game.moves().len();
        assert!(1 <= left && left < 6);
        assert_eq!(moves[..left].to_vec(), *game.moves());
        let mut expected = filled;
        for m in moves[left..].iter() {
            expected.clear(m.x, m.y);
        }
        assert_eq!(expected, *game.board());
        if !kept.contains(&left) {
            kept.push(left);
        }
    }
    kept.sort();
    assert_eq!(vec![1, 2, 3, 4, 5], kept);
}

#[test]
fn backtrack_takes_back_one_of_two_moves() {
    for seed in 0..10 {
        let mut rng = StdRng::seed_from_u64(seed);
        let mut game = Game::new(2);
        assert!(game.new_move(&mut rng));
        assert!(game.new_move(&mut rng));
        let first = game.moves()[0];

        game.backtrack(&mut rng);

        assert_eq!(vec![first], *game.moves());
        assert_eq!(1, count_filled(game.board()));
    }
}

#[test]
fn full_game_has_one_move_per_cell() {
    for seed in 0..5 {
        let mut rng = StdRng::seed_from_u64(seed);

        let game = Game::build_full_game(6, 3600, &mut rng).unwrap();

        assert_eq!(true, game.is_full());
        assert_eq!(36, game.moves().len());
        assert_eq!(true, is_board_full(game.board()));
        assert_eq!(true, is_board_valid(game.board()));
        for m in game.moves() {
            assert_eq!(m.field, game.board().get(m.x, m.y));
        }
    }
}

#[test]
fn search_gives_up_without_enough_tries() {
    let mut rng = StdRng::seed_from_u64(1);

    assert!(Game::build_full_game(4, 0, &mut rng).is_none());
    assert!(Game::build_full_game(4, 15, &mut rng).is_none());
    assert_eq!(None, Game::build_full_board(4, 15, &mut rng));
    assert_eq!(None, Game::build_puzzle_board(4, 15, 2, &mut rng));
    assert_eq!(None, Game::build_full_board(2, 3, &mut rng));
}

#[test]
fn search_needs_no_more_tries_than_cells_on_the_smallest_board() {
    for seed in 0..20 {
        let mut rng = StdRng::seed_from_u64(seed);

        let board = Game::build_full_board(2, 4, &mut rng).unwrap();

        assert_eq!(true, is_board_valid(&board));
    }
}

#[test]
fn search_never_fails_on_the_smallest_board() {
    let checkered = [
        Board::from_str("X O\nO X").unwrap(),
        Board::from_str("O X\nX O").unwrap(),
    ];
    for seed in 0..50 {
        let mut rng = StdRng::seed_from_u64(seed);

        let game = Game::build_full_game(2, 4, &mut rng).unwrap();
        let board = Game::build_full_board(2, 400, &mut rng).unwrap();
        let puzzle = Game::build_puzzle_board(2, 4, 1, &mut rng).unwrap();

        assert_eq!(4, game.moves().len());
        assert!(checkered.contains(game.board()));
        assert!(checkered.contains(&board));
        assert!(checkered.iter().any(|solution| is_part_of(&puzzle, solution)));
        assert!(create_full_board(2, &mut rng).is_ok());
        assert!(create_puzzle_board(2, 0, &mut rng).is_ok());
    }
}

#[test]
fn full_boards_are_full_and_valid() {
    for size in [2, 4, 6, 8, 10] {
        for seed in 0..3 {
            let mut rng = StdRng::seed_from_u64(seed);

            let board = create_full_board(size, &mut rng).unwrap();

            assert_eq!(size, board.get_size());
            assert_eq!(true, is_board_full(&board));
            assert_eq!(true, is_board_valid(&board));
        }
    }
}

#[test]
fn same_seed_builds_the_same_board() {
    let mut first = StdRng::seed_from_u64(42);
    let mut second = StdRng::seed_from_u64(42);

    assert_eq!(
        create_full_board(8, &mut first),
        create_full_board(8, &mut second)
    );
    assert_eq!(
        create_puzzle_board(8, 5, &mut first),
        create_puzzle_board(8, 5, &mut second)
    );
}

#[test]
fn carving_ends_with_the_random_move_that_takes_the_last_guess() {
    for seed in 0..5 {
        for guesses in 0..8 {
            let mut rng = StdRng::seed_from_u64(seed);
            let game = Game::build_full_game(6, 3600, &mut rng).unwrap();
            let solution = game.board().clone();
            let moves = game.moves().clone();
            let random_moves: Vec<usize> = (0..moves.len())
                .rev()
                .filter(|k| moves[*k].was_random == MoveSelection::Random)
                .collect();
            let last_paid = if guesses == 0 {
                random_moves.first()
            } else {
                random_moves.get(guesses - 1)
            };

            let puzzle = game.carve_puzzle(guesses);

            assert!(is_part_of(&puzzle, &solution));
            for (k, m) in moves.iter().enumerate() {
                let reached = last_paid.map_or(true, |stop| k > *stop);
                if reached && m.was_random == MoveSelection::Fixed {
                    assert_eq!(Field::Empty, puzzle.get(m.x, m.y));
                } else {
                    assert_eq!(m.field, puzzle.get(m.x, m.y));
                }
            }
        }
    }
}

#[test]
fn carving_keeps_the_fixed_move_below_the_last_guess() {
    let mut found = false;
    for seed in 0..20 {
        let mut rng = StdRng::seed_from_u64(seed);
        let game = Game::build_full_game(6, 3600, &mut rng).unwrap();
        let moves = game.moves().clone();
        let top = (0..moves.len())
            .rev()
            .find(|k| moves[*k].was_random == MoveSelection::Random)
            .unwrap();
        if top == 0 || moves[top - 1].was_random != MoveSelection::Fixed {
            continue;
        }
        found = true;
        let below = moves[top - 1];

        let puzzle = game.carve_puzzle(1);

        assert_eq!(below.field, puzzle.get(below.x, below.y));
        assert_eq!(top + 1, count_filled(&puzzle));
    }
    assert!(found);
}

#[test]
fn smallest_puzzle_keeps_the_first_move_only() {
    for seed in 0..20 {
        for guesses in 0..4 {
            let mut rng = StdRng::seed_from_u64(seed);
            let game = Game::build_full_game(2, 4, &mut rng).unwrap();
            let first = game.moves()[0];
            assert_eq!(MoveSelection::Random, first.was_random);
            assert!(game.moves()[1..]
                .iter()
                .all(|m| m.was_random == MoveSelection::Fixed));

            let puzzle = game.carve_puzzle(guesses);

            assert_eq!(1, count_filled(&puzzle));
            assert_eq!(first.field, puzzle.get(first.x, first.y));

            let mut rng = StdRng::seed_from_u64(seed);
            let created = create_puzzle_board(2, guesses, &mut rng).unwrap();
            assert_eq!(1, count_filled(&created));
        }
    }
}

#[test]
fn carving_without_guesses_removes_only_fixed_cells() {
    let mut rng = StdRng::seed_from_u64(9);
    let game = Game::build_full_game(6, 3600, &mut rng).unwrap();
    let moves = game.moves().clone();
    let trailing_fixed = moves
        .iter()
        .rev()
        .take_while(|m| m.was_random == MoveSelection::Fixed)
        .count();

    let puzzle = game.carve_puzzle(0);

    assert_eq!(36 - trailing_fixed, count_filled(&puzzle));
    for m in moves.iter().filter(|m| m.was_random == MoveSelection::Random) {
        assert_eq!(m.field, puzzle.get(m.x, m.y));
    }
}

#[test]
fn carving_with_more_guesses_than_random_moves_keeps_exactly_those() {
    let mut rng = StdRng::seed_from_u64(9);
    let game = Game::build_full_game(6, 3600, &mut rng).unwrap();
    let moves = game.moves().clone();

    let puzzle = game.carve_puzzle(36);

    for m in moves.iter() {
        match m.was_random {
            MoveSelection::Fixed => assert_eq!(Field::Empty, puzzle.get(m.x, m.y)),
            MoveSelection::Random => assert_eq!(m.field, puzzle.get(m.x, m.y)),
        }
    }
}

#[test]
fn puzzles_have_empty_cells_and_the_side_length_asked_for() {
    for size in [4, 6, 10] {
        let mut rng = StdRng::seed_from_u64(7);

        let puzzle = create_puzzle_board(size, 3, &mut rng).unwrap();

        assert_eq!(size, puzzle.get_size());
        assert_eq!(false, is_board_full(&puzzle));
        assert_eq!(false, is_board_valid(&puzzle));
    }
}
