//! A brute force puzzle generator.
//! First it builds a random and valid binoxxo board, move by move, and takes
//! moves back when it gets stuck. Then it empties cells again and returns
//! the resulting incomplete board as puzzle. Because the puzzle is carved
//! out of a valid board, there exists at least one valid solution for it.

use crate::bruteforce::choose_move::{
    is_dead_end, is_selectable, select_next_move, Move, MoveSelection,
};
use crate::bruteforce::possible_move::{
    calc_possible_moves, can_take, is_offered, lemma_offered_fits, lemma_possible_moves,
    possible_move, possible_moves, PossibleMove,
};
use crate::bruteforce::random::random_in_range;
use crate::bruteforce::rules::board_valid;
use crate::bruteforce::solvable::{
    is_solvable, lemma_small_blank_solvable, lemma_small_move_keeps_solvable,
    lemma_solvable_has_move,
};
use crate::bruteforce::soundness::{
    empty_count, is_sound, lemma_blank_is_sound, lemma_clear_keeps_sound, lemma_empty_cells_put,
    lemma_empty_cells_range, lemma_empty_count, lemma_fresh_token_fits, lemma_full_sound_is_valid,
    lemma_move_keeps_sound,
};
use crate::field::{Board, Field, Grid};
use rand::rngs::StdRng;
use vstd::prelude::*;

verus! {

/// Whether the moves are what fills the grid: each names a cell of the grid
/// that holds the token of the move, and no two name the same cell.
pub open spec fn moves_fill(g: Grid, moves: Seq<Move>) -> bool {
    &&& forall|i: int|
        0 <= i < moves.len() ==> {
            &&& g.has((#[trigger] moves[i]).x as int, moves[i].y as int)
            &&& moves[i].field != Field::Empty
            &&& g.at(moves[i].x as int, moves[i].y as int) == moves[i].field
        }
    &&& forall|i: int, j: int|
        0 <= i < j < moves.len() ==> !((#[trigger] moves[i]).x == (#[trigger] moves[j]).x
            && moves[i].y == moves[j].y)
}

/// The grid of side length `size` that the moves fill, one after the other,
/// starting from the blank grid.
pub open spec fn replayed(size: nat, moves: Seq<Move>) -> Grid
    decreases moves.len(),
{
    if moves.len() == 0 {
        Grid::blank(size)
    } else {
        replayed(size, moves.drop_last()).put(
            moves.last().x as int,
            moves.last().y as int,
            moves.last().field,
        )
    }
}

/// Whether the moves are a history of play on a board of side length
/// `size`: each of them may be selected on the grid that the moves before
/// it fill.
pub open spec fn is_played(size: nat, moves: Seq<Move>) -> bool
    decreases moves.len(),
{
    moves.len() == 0 || (is_played(size, moves.drop_last()) && is_selectable(
        possible_moves(replayed(size, moves.drop_last())),
        moves.last(),
    ))
}

/// The grid after the last `number` of the moves are taken back, the latest
/// first: their cells are empty again.
pub open spec fn taken_back(g: Grid, moves: Seq<Move>, number: nat) -> Grid
    decreases number,
{
    if number == 0 || moves.len() == 0 {
        g
    } else {
        taken_back(
            g.put(moves.last().x as int, moves.last().y as int, Field::Empty),
            moves.drop_last(),
            (number - 1) as nat,
        )
    }
}

/// The puzzle carved out of a grid by going back through the moves that
/// filled it, the latest first: the cell of a fixed move is emptied, and
/// the cell of a random move stays and costs one guess. The carving ends
/// with the random move that takes the last guess, or with the first
/// random move if there is no guess at all: the cells of all moves before
/// it stay as they are.
pub open spec fn carved(g: Grid, moves: Seq<Move>, guesses: nat) -> Grid
    decreases moves.len(),
{
    if moves.len() == 0 {
        g
    } else {
        match moves.last().was_random {
            MoveSelection::Fixed => carved(
                g.put(moves.last().x as int, moves.last().y as int, Field::Empty),
                moves.drop_last(),
                guesses,
            ),
            MoveSelection::Random => if guesses <= 1 {
                g
            } else {
                carved(g, moves.drop_last(), (guesses - 1) as nat)
            },
        }
    }
}

/// Emptying the cell of the latest move leaves a grid that the earlier
/// moves fill.
pub proof fn lemma_moves_fill_after_undo(g: Grid, moves: Seq<Move>)
    requires
        g.wf(),
        moves_fill(g, moves),
        moves.len() > 0,
    ensures
        moves_fill(
            g.put(moves.last().x as int, moves.last().y as int, Field::Empty),
            moves.drop_last(),
        ),
{
    let last = moves.last();
    g.lemma_put(last.x as int, last.y as int, Field::Empty);
    let h = g.put(last.x as int, last.y as int, Field::Empty);
    let rest = moves.drop_last();
    assert forall|i: int| 0 <= i < rest.len() implies {
        &&& h.has((#[trigger] rest[i]).x as int, rest[i].y as int)
        &&& rest[i].field != Field::Empty
        &&& h.at(rest[i].x as int, rest[i].y as int) == rest[i].field
    } by {
        assert(rest[i] == moves[i]);
        assert(!(moves[i].x == moves[moves.len() - 1].x && moves[i].y == moves[moves.len() - 1].y));
    }
    assert forall|i: int, j: int| 0 <= i < j < rest.len() implies !((#[trigger] rest[i]).x == (
    #[trigger] rest[j]).x && rest[i].y == rest[j].y) by {
        assert(rest[i] == moves[i] && rest[j] == moves[j]);
    }
}

/// Filling an empty cell with a token leaves a grid that the moves so far
/// and the new move fill.
pub proof fn lemma_moves_fill_after_move(g: Grid, moves: Seq<Move>, m: Move)
    requires
        g.wf(),
        moves_fill(g, moves),
        g.has(m.x as int, m.y as int),
        g.at(m.x as int, m.y as int) == Field::Empty,
        m.field != Field::Empty,
    ensures
        moves_fill(g.put(m.x as int, m.y as int, m.field), moves.push(m)),
{
    let h = g.put(m.x as int, m.y as int, m.field);
    let all = moves.push(m);
    g.lemma_put(m.x as int, m.y as int, m.field);
    assert forall|i: int| 0 <= i < all.len() implies {
        &&& h.has((#[trigger] all[i]).x as int, all[i].y as int)
        &&& all[i].field != Field::Empty
        &&& h.at(all[i].x as int, all[i].y as int) == all[i].field
    } by {
        if i < moves.len() {
            assert(all[i] == moves[i]);
        }
    }
    assert forall|i: int, j: int| 0 <= i < j < all.len() implies !((#[trigger] all[i]).x == (
    #[trigger] all[j]).x && all[i].y == all[j].y) by {
        assert(all[i] == moves[i]);
        if j < moves.len() {
            assert(all[j] == moves[j]);
        }
    }
}

/// A move that may be selected on a grid fills an empty cell with a token
/// the cell can take: a fixed move with the only such token, a random move
/// with one of two.
pub proof fn lemma_selected_fits(g: Grid, m: Move)
    requires
        g.wf(),
        g.size <= usize::MAX,
        is_selectable(possible_moves(g), m),
    ensures
        g.has(m.x as int, m.y as int),
        g.at(m.x as int, m.y as int) == Field::Empty,
        m.field == Field::X || m.field == Field::O,
        can_take(g, m.x as int, m.y as int, m.field),
        (m.was_random == MoveSelection::Random) == (can_take(g, m.x as int, m.y as int, Field::X)
            && can_take(g, m.x as int, m.y as int, Field::O)),
{
    lemma_possible_moves(g);
    let option = if m.was_random == MoveSelection::Fixed {
        PossibleMove::OneMove(m.x, m.y, m.field)
    } else {
        PossibleMove::TwoMoves(m.x, m.y)
    };
    assert(possible_moves(g).contains(option));
    lemma_offered_fits(g, option);
}

/// The grid that a history of play fills is well formed and breaks no rule
/// so far, the moves are what fills it, and every cell that no move names is
/// empty.
pub proof fn lemma_played_grid(size: nat, moves: Seq<Move>)
    requires
        size >= 2,
        size % 2 == 0,
        size * size <= usize::MAX,
        is_played(size, moves),
    ensures
        replayed(size, moves).wf(),
        replayed(size, moves).size == size,
        is_sound(replayed(size, moves)),
        moves_fill(replayed(size, moves), moves),
        empty_count(replayed(size, moves)) + moves.len() == size * size,
    decreases moves.len(),
{
    if moves.len() == 0 {
        Grid::lemma_blank(size);
        lemma_blank_is_sound(size);
        lemma_empty_count(Grid::blank(size));
    } else {
        let front = moves.drop_last();
        let m = moves.last();
        let g = replayed(size, front);
        lemma_played_grid(size, front);
        assert(g.size <= g.size * g.size) by (nonlinear_arith)
            requires
                g.size >= 1,
        ;
        lemma_selected_fits(g, m);
        g.lemma_put(m.x as int, m.y as int, m.field);
        lemma_move_keeps_sound(g, m.x as int, m.y as int, m.field);
        lemma_empty_cells_put(g, m.x as int, m.y as int, m.field, g.size as int);
        lemma_moves_fill_after_move(g, front, m);
        assert(front.push(m) =~= moves);
    }
}

/// Taking back the latest move of a history of play leaves the grid that
/// the moves before it fill.
pub proof fn lemma_played_undo(size: nat, moves: Seq<Move>)
    requires
        size >= 2,
        size % 2 == 0,
        size * size <= usize::MAX,
        is_played(size, moves),
        moves.len() > 0,
    ensures
        is_played(size, moves.drop_last()),
        replayed(size, moves).put(moves.last().x as int, moves.last().y as int, Field::Empty)
            == replayed(size, moves.drop_last()),
{
    let front = moves.drop_last();
    let m = moves.last();
    let g = replayed(size, front);
    lemma_played_grid(size, front);
    assert(g.size <= g.size * g.size) by (nonlinear_arith)
        requires
            g.size >= 1,
    ;
    lemma_selected_fits(g, m);
    g.lemma_put_twice(m.x as int, m.y as int, m.field, Field::Empty);
}

/// A board with at most one token is never a dead end: it has an empty
/// cell, and each of its empty cells can take a token.
pub proof fn lemma_sparse_grid_has_move(g: Grid)
    requires
        g.wf(),
        empty_count(g) + 1 >= g.size * g.size,
    ensures
        !is_dead_end(possible_moves(g)),
{
    lemma_possible_moves(g);
    lemma_empty_count(g);
    lemma_empty_cells_range(g, g.size as int);
    assert(g.size * g.size >= 4) by (nonlinear_arith)
        requires
            g.size >= 2,
    ;
    assert(!g.is_full());
    // the token that no cell of the grid holds
    let fresh = if g == Grid::blank(g.size) {
        Field::X
    } else {
        let (p, q) = choose|p: int, q: int|
            0 <= p < g.size && 0 <= q < g.size && g.at(p, q) != Field::Empty;
        let other = g.put(p, q, Field::Empty);
        g.lemma_put(p, q, Field::Empty);
        lemma_empty_cells_put(g, p, q, Field::Empty, g.size as int);
        lemma_empty_count(other);
        Grid::lemma_blank(g.size);
        assert forall|a: int, b: int| g.has(a, b) && (a != p || b != q) implies g.at(a, b)
            == Field::Empty by {
            assert(other.at(a, b) == g.at(a, b));
            assert(Grid::blank(g.size).at(a, b) == Field::Empty);
        }
        if g.at(p, q) == Field::X {
            Field::O
        } else {
            Field::X
        }
    };
    Grid::lemma_blank(g.size);
    assert forall|a: int, b: int| g.has(a, b) implies #[trigger] g.at(a, b) != fresh by {
        if g == Grid::blank(g.size) {
            assert(Grid::blank(g.size).at(a, b) == Field::Empty);
        }
    }
    if possible_moves(g).contains(PossibleMove::NoMove) {
        assert(is_offered(g, PossibleMove::NoMove));
        let (x, y) = choose|x: int, y: int|
            g.has(x, y) && g.at(x, y) == Field::Empty && PossibleMove::NoMove
                == #[trigger] possible_move(g, x, y);
        lemma_fresh_token_fits(g, x, y, fresh);
        assert(can_take(g, x, y, fresh));
    }
}

/// Whether `puzzle` is what carving with `guesses` leaves of the full board
/// of side length `size` that `moves`, a history of play, fill. That board
/// obeys all rules and solves the puzzle.
pub open spec fn is_carved_from(puzzle: Grid, size: nat, moves: Seq<Move>, guesses: nat) -> bool {
    &&& moves.len() == size * size
    &&& is_played(size, moves)
    &&& replayed(size, moves).wf()
    &&& replayed(size, moves).is_full()
    &&& board_valid(replayed(size, moves))
    &&& puzzle == carved(replayed(size, moves), moves, guesses)
    &&& puzzle.is_part_of(replayed(size, moves))
}

/// Whether `puzzle` is a puzzle of side length `size`: a grid carved with
/// `guesses` out of a full and valid board of that side length, along the
/// history of play that filled the board.
pub open spec fn is_puzzle(puzzle: Grid, size: nat, guesses: nat) -> bool {
    &&& puzzle.wf()
    &&& puzzle.size == size
    &&& exists|moves: Seq<Move>| #[trigger] is_carved_from(puzzle, size, moves, guesses)
}

/// A carved puzzle is part of the grid it was carved out of: carving only
/// empties cells.
pub proof fn lemma_carved_is_part(g: Grid, moves: Seq<Move>, guesses: nat)
    requires
        g.wf(),
        moves_fill(g, moves),
    ensures
        carved(g, moves, guesses).wf(),
        carved(g, moves, guesses).is_part_of(g),
    decreases moves.len(),
{
    if moves.len() > 0 {
        let last = moves.last();
        match last.was_random {
            MoveSelection::Fixed => {
                let h = g.put(last.x as int, last.y as int, Field::Empty);
                g.lemma_put(last.x as int, last.y as int, Field::Empty);
                lemma_moves_fill_after_undo(g, moves);
                lemma_carved_is_part(h, moves.drop_last(), guesses);
                let puzzle = carved(g, moves, guesses);
                assert forall|x: int, y: int|
                    puzzle.has(x, y) && #[trigger] puzzle.at(x, y) != Field::Empty implies g.at(
                    x,
                    y,
                ) == puzzle.at(x, y) by {
                    assert(h.at(x, y) == puzzle.at(x, y));
                }
            },
            MoveSelection::Random => {
                if guesses > 1 {
                    assert(moves_fill(g, moves.drop_last())) by {
                        let rest = moves.drop_last();
                        assert forall|i: int| 0 <= i < rest.len() implies {
                            &&& g.has((#[trigger] rest[i]).x as int, rest[i].y as int)
                            &&& rest[i].field != Field::Empty
                            &&& g.at(rest[i].x as int, rest[i].y as int) == rest[i].field
                        } by {
                            assert(rest[i] == moves[i]);
                        }
                        assert forall|i: int, j: int| 0 <= i < j < rest.len() implies !((
                        #[trigger] rest[i]).x == (#[trigger] rest[j]).x && rest[i].y
                            == rest[j].y) by {
                            assert(rest[i] == moves[i] && rest[j] == moves[j]);
                        }
                    }
                    lemma_carved_is_part(g, moves.drop_last(), (guesses - 1) as nat);
                }
            },
        }
    }
}

/// How many random moves come after move `k`.
pub open spec fn random_moves_after(moves: Seq<Move>, k: int) -> nat
    decreases moves.len(),
{
    if moves.len() <= k + 1 || moves.len() == 0 {
        0
    } else {
        random_moves_after(moves.drop_last(), k) + if moves.last().was_random
            == MoveSelection::Random {
            1nat
        } else {
            0nat
        }
    }
}

/// Whether carving with `guesses` empties the cell of move `k`: the move is
/// fixed, and the random moves after it do not use up the guesses. Where
/// there is no guess, the first random move ends the carving as the last
/// guess would.
pub open spec fn is_carved_away(moves: Seq<Move>, k: int, guesses: nat) -> bool {
    &&& moves[k].was_random == MoveSelection::Fixed
    &&& random_moves_after(moves, k) < (if guesses == 0 {
        1nat
    } else {
        guesses
    })
}

/// Whether one of the moves names the cell at column `x`, row `y`.
pub open spec fn names_cell(moves: Seq<Move>, x: int, y: int) -> bool {
    exists|k: int| 0 <= k < moves.len() && (#[trigger] moves[k]).x == x && moves[k].y == y
}

/// What carving leaves, cell by cell: the cell of a move is empty if the
/// move is carved away and holds the token of the move if not, and a cell
/// that no move names is as it was.
pub proof fn lemma_carved_cells(g: Grid, moves: Seq<Move>, guesses: nat)
    requires
        g.wf(),
        moves_fill(g, moves),
    ensures
        forall|k: int|
            0 <= k < moves.len() ==> carved(g, moves, guesses).at(
                (#[trigger] moves[k]).x as int,
                moves[k].y as int,
            ) == (if is_carved_away(moves, k, guesses) {
                Field::Empty
            } else {
                moves[k].field
            }),
        forall|x: int, y: int|
            g.has(x, y) && !names_cell(moves, x, y) ==> #[trigger] carved(g, moves, guesses).at(
                x,
                y,
            ) == g.at(x, y),
    decreases moves.len(),
{
    if moves.len() > 0 {
        let front = moves.drop_last();
        let last = moves.last();
        let top = moves.len() - 1;
        let puzzle = carved(g, moves, guesses);
        assert(moves[top] == last);
        assert forall|k: int| 0 <= k < front.len() implies #[trigger] front[k] == moves[k]
            && !(moves[k].x == last.x && moves[k].y == last.y) && names_cell(
            moves,
            moves[k].x as int,
            moves[k].y as int,
        ) by {
            assert(!((#[trigger] moves[k]).x == (#[trigger] moves[top]).x && moves[k].y
                == moves[top].y));
        }
        assert(!names_cell(front, last.x as int, last.y as int)) by {
            if names_cell(front, last.x as int, last.y as int) {
                let k = choose|k: int|
                    0 <= k < front.len() && (#[trigger] front[k]).x == last.x as int && front[k].y
                        == last.y as int;
                assert(front[k] == moves[k]);
            }
        }
        assert forall|x: int, y: int| !names_cell(moves, x, y) implies !names_cell(
            front,
            x,
            y,
        ) && !(x == last.x && y == last.y) by {
            if names_cell(front, x, y) {
                let k = choose|k: int|
                    0 <= k < front.len() && (#[trigger] front[k]).x == x && front[k].y == y;
                assert(moves[k] == front[k]);
            }
            if x == last.x && y == last.y {
                assert(moves[top].x == x && moves[top].y == y);
            }
        }
        assert(random_moves_after(moves, top) == 0);
        match last.was_random {
            MoveSelection::Fixed => {
                let h = g.put(last.x as int, last.y as int, Field::Empty);
                g.lemma_put(last.x as int, last.y as int, Field::Empty);
                lemma_moves_fill_after_undo(g, moves);
                lemma_carved_cells(h, front, guesses);
                assert(puzzle == carved(h, front, guesses));
                assert forall|k: int| 0 <= k < moves.len() implies puzzle.at(
                    (#[trigger] moves[k]).x as int,
                    moves[k].y as int,
                ) == (if is_carved_away(moves, k, guesses) {
                    Field::Empty
                } else {
                    moves[k].field
                }) by {
                    if k < top {
                        assert(front[k] == moves[k]);
                        assert(random_moves_after(moves, k) == random_moves_after(front, k));
                    } else {
                        assert(h.has(last.x as int, last.y as int));
                    }
                }
                assert forall|x: int, y: int|
                    g.has(x, y) && !names_cell(moves, x, y) implies #[trigger] puzzle.at(x, y)
                    == g.at(x, y) by {
                    assert(h.has(x, y) && !names_cell(front, x, y));
                }
            },
            MoveSelection::Random => {
                assert forall|k: int| 0 <= k < top implies random_moves_after(moves, k)
                    == random_moves_after(front, k) + 1 && #[trigger] front[k] == moves[k] by {}
                if guesses > 1 {
                    assert(moves_fill(g, front)) by {
                        assert forall|i: int| 0 <= i < front.len() implies {
                            &&& g.has((#[trigger] front[i]).x as int, front[i].y as int)
                            &&& front[i].field != Field::Empty
                            &&& g.at(front[i].x as int, front[i].y as int) == front[i].field
                        } by {
                            assert(front[i] == moves[i]);
                        }
                        assert forall|i: int, j: int| 0 <= i < j < front.len() implies !((
                        #[trigger] front[i]).x == (#[trigger] front[j]).x && front[i].y
                            == front[j].y) by {
                            assert(front[i] == moves[i] && front[j] == moves[j]);
                        }
                    }
                    lemma_carved_cells(g, front, (guesses - 1) as nat);
                    assert(puzzle == carved(g, front, (guesses - 1) as nat));
                    assert forall|k: int| 0 <= k < moves.len() implies puzzle.at(
                        (#[trigger] moves[k]).x as int,
                        moves[k].y as int,
                    ) == (if is_carved_away(moves, k, guesses) {
                        Field::Empty
                    } else {
                        moves[k].field
                    }) by {
                        if k < top {
                            assert(front[k] == moves[k]);
                            assert(is_carved_away(front, k, (guesses - 1) as nat)
                                == is_carved_away(moves, k, guesses));
                        } else {
                            assert(g.has(last.x as int, last.y as int));
                        }
                    }
                    assert forall|x: int, y: int|
                        g.has(x, y) && !names_cell(moves, x, y) implies #[trigger] puzzle.at(
                        x,
                        y,
                    ) == g.at(x, y) by {
                        assert(!names_cell(front, x, y));
                    }
                } else {
                    assert(puzzle == g);
                    assert forall|k: int| 0 <= k < moves.len() implies puzzle.at(
                        (#[trigger] moves[k]).x as int,
                        moves[k].y as int,
                    ) == (if is_carved_away(moves, k, guesses) {
                        Field::Empty
                    } else {
                        moves[k].field
                    }) by {
                        if k < top {
                            assert(front[k] == moves[k]);
                        }
                    }
                }
            },
        }
    }
}

/// The failure of a search that found no full board within the tries it
/// was allowed.
#[derive(Copy, Clone, Debug, PartialEq, Eq)]
pub struct NoBoardFound {
    /// the side length asked for
    pub size: usize,
    /// the guesses asked for, if a puzzle was asked for
    pub guesses: Option<usize>,
    /// the number of tries that were made
    pub tries: usize,
}

/// A board under construction together with the moves that have filled it
/// so far, the latest last.
pub struct Game {
    board: Board,
    moves: Vec<Move>,
}

impl Game {
    /// The board of the game.
    pub closed spec fn grid(self) -> Grid {
        self.board@
    }

    /// The moves that have filled the board, the latest last.
    pub closed spec fn history(self) -> Seq<Move> {
        self.moves@
    }

    /// The invariant of every game: its moves are a history of play, each
    /// selected on the board that the moves before it had filled, and its
    /// board is what they fill. So the board breaks no rule so far, and
    /// every cell that no move names is empty.
    pub open spec fn wf(self) -> bool {
        &&& self.grid().wf()
        &&& self.grid().size * self.grid().size <= usize::MAX
        &&& is_played(self.grid().size, self.history())
        &&& self.grid() == replayed(self.grid().size, self.history())
        &&& is_sound(self.grid())
        &&& moves_fill(self.grid(), self.history())
        &&& empty_count(self.grid()) + self.history().len() == self.grid().size * self.grid().size
    }

    /// Starts a game on a blank board of side length `size`.
    pub fn new(size: usize) -> (game: Game)
        requires
            size >= 2,
            size % 2 == 0,
            size * size <= usize::MAX,
        ensures
            game.wf(),
            game.grid() == Grid::blank(size as nat),
            game.history().len() == 0,
    {
        proof {
            Grid::lemma_blank(size as nat);
            lemma_blank_is_sound(size as nat);
            lemma_empty_count(Grid::blank(size as nat));
        }
        Game { board: Board::new(size), moves: Vec::new() }
    }

    /// Returns the board of the game.
    pub fn board(&self) -> (board: &Board)
        ensures
            board@ == self.grid(),
    {
        &self.board
    }

    /// Returns the moves that have filled the board, the latest last.
    pub fn moves(&self) -> (moves: &Vec<Move>)
        ensures
            moves@ == self.history(),
    {
        &self.moves
    }

    /// Returns whether the board of the game has no empty cell left.
    pub fn is_full(&self) -> (full: bool)
        requires
            self.wf(),
        ensures
            full == self.grid().is_full(),
    {
        proof {
            lemma_empty_count(self.grid());
        }
        let size = self.board.get_size();
        self.moves.len() == (size * size)
    }

    /// Selects a move for one of the empty cells, with the random choices
    /// drawn from `rng`, and makes it. Returns `false`, and leaves the game
    /// as it is, if the board is a dead end: one of its empty cells can
    /// take neither token.
    pub fn new_move(&mut self, rng: &mut StdRng) -> (moved: bool)
        requires
            old(self).wf(),
            !old(self).grid().is_full(),
        ensures
            final(self).wf(),
            moved == !is_dead_end(possible_moves(old(self).grid())),
            !moved ==> final(self).grid() == old(self).grid() && final(self).history() == old(
                self,
            ).history(),
            moved ==> {
                let m = final(self).history().last();
                &&& final(self).history() == old(self).history().push(m)
                &&& final(self).grid() == old(self).grid().put(m.x as int, m.y as int, m.field)
                &&& is_selectable(possible_moves(old(self).grid()), m)
            },
    {
        let ghost g = self.grid();
        let possible_moves = calc_possible_moves(&mut self.board);
        if let Some(m) = select_next_move(possible_moves.as_slice(), rng) {
            proof {
                assert(g.size <= g.size * g.size) by (nonlinear_arith)
                    requires
                        g.size >= 1,
                ;
                lemma_selected_fits(g, m);
                g.lemma_put(m.x as int, m.y as int, m.field);
                lemma_move_keeps_sound(g, m.x as int, m.y as int, m.field);
                lemma_empty_cells_put(g, m.x as int, m.y as int, m.field, g.size as int);
                lemma_moves_fill_after_move(g, old(self).history(), m);
            }
            self.board.set(m.x, m.y, m.field);
            self.moves.push(m);
            proof {
                assert(self.history() == old(self).history().push(m));
                assert(self.history().drop_last() =~= old(self).history());
            }
            true
        } else {
            false
        }
    }

    /// Takes back the last `number` moves, the latest first, and empties
    /// their cells.
    pub fn undo_moves(&mut self, number: usize)
        requires
            old(self).wf(),
            number <= old(self).history().len(),
        ensures
            final(self).wf(),
            final(self).history() == old(self).history().take(
                old(self).history().len() - number,
            ),
            final(self).grid() == taken_back(old(self).grid(), old(self).history(), number as nat),
            final(self).grid().size == old(self).grid().size,
    {
        let mut i: usize = 0;
        while i < number
            invariant
                i <= number,
                number <= old(self).history().len(),
                self.wf(),
                self.grid().size == old(self).grid().size,
                self.history() == old(self).history().take(old(self).history().len() - i),
                taken_back(self.grid(), self.history(), (number - i) as nat) == taken_back(
                    old(self).grid(),
                    old(self).history(),
                    number as nat,
                ),
            decreases number - i,
        {
            let ghost g = self.grid();
            let ghost moves = self.history();
            let m = self.moves.pop().unwrap();
            proof {
                assert(m == moves[moves.len() - 1]);
                lemma_moves_fill_after_undo(g, moves);
                g.lemma_put(m.x as int, m.y as int, Field::Empty);
                lemma_clear_keeps_sound(g, m.x as int, m.y as int);
                lemma_empty_cells_put(g, m.x as int, m.y as int, Field::Empty, g.size as int);
                lemma_played_undo(g.size, moves);
            }
            self.board.clear(m.x, m.y);
            i += 1;
            proof {
                assert(self.history() =~= old(self).history().take(
                    old(self).history().len() - i,
                ));
                assert(self.history() == moves.drop_last());
            }
        }
    }

    /// Takes back a random number of the latest moves, at least one and not
    /// all of them, with the number drawn from `rng`. This is the way out of
    /// a dead end, which takes at least two moves to reach.
    pub fn backtrack(&mut self, rng: &mut StdRng)
        requires
            old(self).wf(),
            old(self).history().len() >= 2,
        ensures
            final(self).wf(),
            1 <= final(self).history().len() < old(self).history().len(),
            final(self).history() == old(self).history().take(final(self).history().len() as int),
            final(self).grid() == taken_back(
                old(self).grid(),
                old(self).history(),
                (old(self).history().len() - final(self).history().len()) as nat,
            ),
            final(self).grid().size == old(self).grid().size,
    {
        let number_of_moves = random_in_range(rng, 1, self.moves.len());
        self.undo_moves(number_of_moves);
    }

    /// Builds a full board move by move, with the random choices drawn from
    /// `rng`. Whenever the board is a dead end, a random number of the
    /// latest moves, at least one and not all of them, is taken back. Gives
    /// up after `max_tries` rounds, each of which makes one move or takes
    /// moves back.
    ///
    /// A round fills at most one cell, so fewer rounds than cells never
    /// suffice. On the smallest board, of side length two, the search meets
    /// no dead end whatever is drawn: there it succeeds as soon as it may
    /// make four rounds.
    pub fn build_full_game(size: usize, max_tries: usize, rng: &mut StdRng) -> (found: Option<
        Game,
    >)
        requires
            size >= 2,
            size % 2 == 0,
            size * size <= usize::MAX,
        ensures
            found matches Some(game) ==> {
                &&& game.wf()
                &&& game.grid().size == size
                &&& game.grid().is_full()
                &&& game.history().len() == size * size
            },
            max_tries < size * size ==> found is None,
            size == 2 && max_tries >= 4 ==> found is Some,
    {
        let mut game = Game::new(size);
        let mut tries: usize = 0;
        proof {
            lemma_empty_count(game.grid());
            if size == 2 {
                lemma_small_blank_solvable();
            }
        }
        while tries < max_tries
            invariant
                tries <= max_tries,
                game.wf(),
                game.grid().size == size,
                game.history().len() <= tries,
                size == 2 ==> is_solvable(game.grid()) && game.history().len() == tries,
            decreases max_tries - tries,
        {
            if game.is_full() {
                proof {
                    lemma_empty_count(game.grid());
                }
                return Some(game);
            }
            let ghost before = game.grid();
            if !game.new_move(rng) {
                proof {
                    if game.history().len() < 2 {
                        lemma_sparse_grid_has_move(game.grid());
                    }
                    if size == 2 {
                        lemma_solvable_has_move(before);
                    }
                }
                game.backtrack(rng);
            } else {
                proof {
                    if size == 2 {
                        lemma_small_move_keeps_solvable(before, game.history().last());
                    }
                }
            }
            tries += 1;
        }
        proof {
            lemma_empty_count(game.grid());
            assert(size == 2 ==> size * size == 4) by (nonlinear_arith);
        }
        if game.is_full() {
            proof {
                lemma_empty_count(game.grid());
            }
            Some(game)
        } else {
            None
        }
    }

    /// Builds a full and valid board of side length `size`, or nothing if
    /// `max_tries` rounds did not suffice. Fewer rounds than cells never
    /// suffice, and four always do on the smallest board.
    pub fn build_full_board(size: usize, max_tries: usize, rng: &mut StdRng) -> (found: Option<
        Board,
    >)
        requires
            size >= 2,
            size % 2 == 0,
            size * size <= usize::MAX,
        ensures
            found matches Some(board) ==> {
                &&& board@.size == size
                &&& board@.is_full()
                &&& board_valid(board@)
            },
            max_tries < size * size ==> found is None,
            size == 2 && max_tries >= 4 ==> found is Some,
    {
        match Game::build_full_game(size, max_tries, rng) {
            Some(game) => {
                proof {
                    lemma_full_sound_is_valid(game.grid());
                }
                Some(game.board)
            },
            None => None,
        }
    }

    /// Carves a puzzle out of the board of the game by going back through
    /// its moves, the latest first: the cell of a fixed move is emptied, and
    /// the cell of a random move stays and costs one of the `guesses`. The
    /// carving ends with the random move that takes the last guess, or with
    /// the first random move if there is no guess at all.
    pub fn carve_puzzle(self, guesses: usize) -> (puzzle: Board)
        requires
            self.wf(),
        ensures
            puzzle@ == carved(self.grid(), self.history(), guesses as nat),
            puzzle@.is_part_of(self.grid()),
    {
        let ghost target = carved(self.grid(), self.history(), guesses as nat);
        proof {
            lemma_carved_is_part(self.grid(), self.history(), guesses as nat);
        }
        let mut board = self.board;
        let mut moves = self.moves;
        let mut guesses = guesses;
        let mut carving = true;
        while carving
            invariant
                board@.wf(),
                carving ==> moves_fill(board@, moves@) && carved(board@, moves@, guesses as nat)
                    == target,
                !carving ==> board@ == target,
            decreases
                    (if carving {
                        moves@.len() + 1
                    } else {
                        0
                    }),
        {
            let ghost g = board@;
            let ghost before = moves@;
            match moves.pop() {
                Some(m) => {
                    proof {
                        assert(m == before[before.len() - 1]);
                        assert(moves@ == before.drop_last());
                    }
                    match m.was_random {
                        MoveSelection::Fixed => {
                            proof {
                                lemma_moves_fill_after_undo(g, before);
                                g.lemma_put(m.x as int, m.y as int, Field::Empty);
                            }
                            board.clear(m.x, m.y);
                        },
                        MoveSelection::Random => {
                            if guesses <= 1 {
                                carving = false;
                            } else {
                                proof {
                                    assert forall|i: int| 0 <= i < moves@.len() implies {
                                        &&& g.has((#[trigger] moves@[i]).x as int, moves@[i].y as int)
                                        &&& moves@[i].field != Field::Empty
                                        &&& g.at(moves@[i].x as int, moves@[i].y as int)
                                            == moves@[i].field
                                    } by {
                                        assert(moves@[i] == before[i]);
                                    }
                                    assert forall|i: int, j: int|
                                        0 <= i < j < moves@.len() implies !((
                                    #[trigger] moves@[i]).x == (#[trigger] moves@[j]).x
                                        && moves@[i].y == moves@[j].y) by {
                                        assert(moves@[i] == before[i] && moves@[j] == before[j]);
                                    }
                                }
                                guesses -= 1;
                            }
                        },
                    }
                },
                None => {
                    carving = false;
                },
            }
        }
        board
    }

    /// Builds a full and valid board of side length `size` and carves a
    /// puzzle with the given number of `guesses` out of it, or returns
    /// nothing if `max_tries` rounds did not suffice to build the board.
    /// Fewer rounds than cells never suffice, and four always do on the
    /// smallest board.
    pub fn build_puzzle_board(
        size: usize,
        max_tries: usize,
        guesses: usize,
        rng: &mut StdRng,
    ) -> (found: Option<Board>)
        requires
            size >= 2,
            size % 2 == 0,
            size * size <= usize::MAX,
        ensures
            found matches Some(puzzle) ==> is_puzzle(puzzle@, size as nat, guesses as nat),
            max_tries < size * size ==> found is None,
            size == 2 && max_tries >= 4 ==> found is Some,
    {
        match Game::build_full_game(size, max_tries, rng) {
            Some(game) => {
                proof {
                    lemma_full_sound_is_valid(game.grid());
                    lemma_carved_is_part(game.grid(), game.history(), guesses as nat);
                }
                let ghost moves = game.history();
                let puzzle = game.carve_puzzle(guesses);
                proof {
                    assert(is_carved_from(puzzle@, size as nat, moves, guesses as nat));
                }
                Some(puzzle)
            },
            None => None,
        }
    }
}

/// Returns a valid and full binoxxo board of side length `size`, with the
/// random choices drawn from `rng`.
///
/// The search makes a limited number of tries, a hundred for every cell, in
/// order to bound its running time. This leads to the small chance that it
/// finds no board: then the failure is returned. On the smallest board, of
/// side length two, the search always finds one.
pub fn create_full_board(size: usize, rng: &mut StdRng) -> (result: Result<
    Board,
    NoBoardFound,
>)
    requires
        size >= 2,
        size % 2 == 0,
        size * size * 100 <= usize::MAX,
    ensures
        result matches Ok(board) ==> {
            &&& board@.size == size
            &&& board@.is_full()
            &&& board_valid(board@)
        },
        result matches Err(failure) ==> failure == (NoBoardFound {
            size,
            guesses: None,
            tries: (size * size * 100) as usize,
        }),
        size == 2 ==> result is Ok,
{
    assert(size * size <= size * size * 100) by (nonlinear_arith);
    let max_tries = size * size * 100;
    match Game::build_full_board(size, max_tries, rng) {
        Some(board) => Ok(board),
        None => Err(NoBoardFound { size, guesses: None, tries: max_tries }),
    }
}

/// Returns a binoxxo puzzle board of side length `size`, with the random
/// choices drawn from `rng`. Some cells of the puzzle are empty, and there
/// exists at least one valid board that the puzzle can be completed to. The
/// more `guesses`, the more cells are empty.
///
/// The search may fail as that of [`create_full_board`] may.
pub fn create_puzzle_board(size: usize, guesses: usize, rng: &mut StdRng) -> (result: Result<
    Board,
    NoBoardFound,
>)
    requires
        size >= 2,
        size % 2 == 0,
        size * size * 100 <= usize::MAX,
    ensures
        result matches Ok(puzzle) ==> is_puzzle(puzzle@, size as nat, guesses as nat),
        result matches Err(failure) ==> failure == (NoBoardFound {
            size,
            guesses: Some(guesses),
            tries: (size * size * 100) as usize,
        }),
        size == 2 ==> result is Ok,
{
    assert(size * size <= size * size * 100) by (nonlinear_arith);
    let max_tries = size * size * 100;
    match Game::build_puzzle_board(size, max_tries, guesses, rng) {
        Some(puzzle) => Ok(puzzle),
        None => Err(NoBoardFound { size, guesses: Some(guesses), tries: max_tries }),
    }
}

} // verus!
