//! Determines the options for the empty cells of a board:
//! [`calc_possible_move`] for one cell, [`calc_possible_moves`] for all.

use crate::bruteforce::rules::{is_move_valid, move_valid};
use crate::bruteforce::soundness::lemma_fresh_token_fits;
use crate::field::{Board, Field, Grid};
use vstd::prelude::*;

verus! {

/// The options for a given empty cell.
#[derive(Copy, Clone, Debug, PartialEq, Eq, Structural)]
pub enum PossibleMove {
    /// no valid move possible (neither X nor O)
    NoMove,
    /// exactly one move possible (either X or O)
    /// - 1. entry is the column `x`
    /// - 2. entry is the row `y`
    /// - 3. entry is the token (either `X` or `O`, but not `Empty`)
    OneMove(usize, usize, Field),
    /// both moves possible
    /// - 1. entry is the column `x`
    /// - 2. entry is the row `y`
    TwoMoves(usize, usize),
}

/// Whether the empty cell at column `x`, row `y` can take the token `v`:
/// with `v` written there, the cell obeys the rules for a single move.
pub open spec fn can_take(g: Grid, x: int, y: int, v: Field) -> bool {
    move_valid(g.put(x, y, v), x, y)
}

/// The options for the cell at column `x`, row `y`. A cell that is not
/// empty has none.
pub open spec fn possible_move(g: Grid, x: int, y: int) -> PossibleMove {
    if g.at(x, y) != Field::Empty {
        PossibleMove::NoMove
    } else if can_take(g, x, y, Field::X) && can_take(g, x, y, Field::O) {
        PossibleMove::TwoMoves(x as usize, y as usize)
    } else if can_take(g, x, y, Field::X) {
        PossibleMove::OneMove(x as usize, y as usize, Field::X)
    } else if can_take(g, x, y, Field::O) {
        PossibleMove::OneMove(x as usize, y as usize, Field::O)
    } else {
        PossibleMove::NoMove
    }
}

/// The options for the empty cells among the first `rows` cells of column
/// `x`, from the top down.
pub open spec fn column_moves(g: Grid, x: int, rows: int) -> Seq<PossibleMove>
    decreases rows,
{
    if rows <= 0 {
        Seq::empty()
    } else if g.at(x, rows - 1) == Field::Empty {
        column_moves(g, x, rows - 1).push(possible_move(g, x, rows - 1))
    } else {
        column_moves(g, x, rows - 1)
    }
}

/// The options for the empty cells of the first `cols` columns, column by
/// column.
pub open spec fn board_moves(g: Grid, cols: int) -> Seq<PossibleMove>
    decreases cols,
{
    if cols <= 0 {
        Seq::empty()
    } else {
        board_moves(g, cols - 1) + column_moves(g, cols - 1, g.size as int)
    }
}

/// The options for all empty cells of the grid, in increasing order of
/// their columns and, within a column, of their rows.
pub open spec fn possible_moves(g: Grid) -> Seq<PossibleMove> {
    board_moves(g, g.size as int)
}

/// Whether `option` is what some empty cell of the grid is offered.
pub open spec fn is_offered(g: Grid, option: PossibleMove) -> bool {
    exists|x: int, y: int|
        g.has(x, y) && g.at(x, y) == Field::Empty && option == #[trigger] possible_move(g, x, y)
}

/// On a blank board every cell has both moves.
pub proof fn lemma_blank_offers_two_moves(size: nat, x: int, y: int)
    requires
        size >= 2,
        size % 2 == 0,
        0 <= x < size,
        0 <= y < size,
    ensures
        possible_move(Grid::blank(size), x, y) == PossibleMove::TwoMoves(x as usize, y as usize),
{
    let g = Grid::blank(size);
    Grid::lemma_blank(size);
    lemma_fresh_token_fits(g, x, y, Field::X);
    lemma_fresh_token_fits(g, x, y, Field::O);
}

/// The options of the first `rows` cells of a column are what the empty
/// cells among them are offered: each of those and nothing else.
pub proof fn lemma_column_moves(g: Grid, x: int, rows: int)
    requires
        0 <= rows,
    ensures
        forall|i: int|
            0 <= i < column_moves(g, x, rows).len() ==> exists|y: int|
                0 <= y < rows && g.at(x, y) == Field::Empty && #[trigger] column_moves(
                    g,
                    x,
                    rows,
                )[i] == #[trigger] possible_move(g, x, y),
        forall|y: int|
            0 <= y < rows && g.at(x, y) == Field::Empty ==> column_moves(g, x, rows).contains(
                #[trigger] possible_move(g, x, y),
            ),
    decreases rows,
{
    if rows > 0 {
        lemma_column_moves(g, x, rows - 1);
        let before = column_moves(g, x, rows - 1);
        let all = column_moves(g, x, rows);
        assert forall|i: int| 0 <= i < all.len() implies exists|y: int|
            0 <= y < rows && g.at(x, y) == Field::Empty && #[trigger] all[i]
                == #[trigger] possible_move(g, x, y) by {
            if i < before.len() {
                let y = choose|y: int|
                    0 <= y < rows - 1 && g.at(x, y) == Field::Empty && before[i]
                        == #[trigger] possible_move(g, x, y);
                assert(all[i] == possible_move(g, x, y));
            } else {
                assert(all[i] == possible_move(g, x, rows - 1));
            }
        }
        assert forall|y: int| 0 <= y < rows && g.at(x, y) == Field::Empty implies all.contains(
            #[trigger] possible_move(g, x, y),
        ) by {
            if y < rows - 1 {
                let i = choose|i: int|
                    0 <= i < before.len() && before[i] == possible_move(g, x, y);
                assert(all[i] == possible_move(g, x, y));
            } else {
                assert(all[all.len() - 1] == possible_move(g, x, y));
            }
        }
    }
}

/// The options of the first `cols` columns are what the empty cells of
/// those columns are offered: each of those and nothing else.
pub proof fn lemma_board_moves(g: Grid, cols: int)
    requires
        0 <= cols <= g.size,
    ensures
        forall|i: int|
            0 <= i < board_moves(g, cols).len() ==> is_offered(g, #[trigger] board_moves(g, cols)[i]),
        forall|x: int, y: int|
            0 <= x < cols && 0 <= y < g.size && g.at(x, y) == Field::Empty ==> board_moves(
                g,
                cols,
            ).contains(#[trigger] possible_move(g, x, y)),
    decreases cols,
{
    if cols > 0 {
        lemma_board_moves(g, cols - 1);
        lemma_column_moves(g, cols - 1, g.size as int);
        let before = board_moves(g, cols - 1);
        let column = column_moves(g, cols - 1, g.size as int);
        let all = board_moves(g, cols);
        assert forall|i: int| 0 <= i < all.len() implies is_offered(g, #[trigger] all[i]) by {
            if i < before.len() {
                assert(all[i] == before[i]);
            } else {
                let j = i - before.len();
                assert(all[i] == column[j]);
                let y = choose|y: int|
                    0 <= y < g.size && g.at(cols - 1, y) == Field::Empty && column[j]
                        == #[trigger] possible_move(g, cols - 1, y);
                assert(g.has(cols - 1, y));
            }
        }
        assert forall|x: int, y: int|
            0 <= x < cols && 0 <= y < g.size && g.at(x, y) == Field::Empty implies all.contains(
            #[trigger] possible_move(g, x, y),
        ) by {
            if x < cols - 1 {
                let i = choose|i: int|
                    0 <= i < before.len() && before[i] == possible_move(g, x, y);
                assert(all[i] == possible_move(g, x, y));
            } else {
                let j = choose|j: int|
                    0 <= j < column.len() && column[j] == possible_move(g, x, y);
                assert(all[before.len() + j] == possible_move(g, x, y));
            }
        }
    }
}

/// The options of a grid are what its empty cells are offered: each of
/// those and nothing else. There is none exactly if the grid is full.
pub proof fn lemma_possible_moves(g: Grid)
    requires
        g.wf(),
    ensures
        forall|option: PossibleMove|
            #[trigger] possible_moves(g).contains(option) <==> is_offered(g, option),
        possible_moves(g).len() == 0 <==> g.is_full(),
{
    lemma_board_moves(g, g.size as int);
    let all = possible_moves(g);
    assert forall|option: PossibleMove| #[trigger] all.contains(option) <==> is_offered(
        g,
        option,
    ) by {
        if all.contains(option) {
            let i = choose|i: int| 0 <= i < all.len() && all[i] == option;
            assert(is_offered(g, all[i]));
        }
        if is_offered(g, option) {
            let (x, y) = choose|x: int, y: int|
                g.has(x, y) && g.at(x, y) == Field::Empty && option == #[trigger] possible_move(
                    g,
                    x,
                    y,
                );
            assert(all.contains(possible_move(g, x, y)));
        }
    }
    if all.len() > 0 {
        assert(is_offered(g, all[0]));
    }
    if !g.is_full() {
        let (x, y) = choose|x: int, y: int| g.has(x, y) && g.at(x, y) == Field::Empty;
        assert(all.contains(possible_move(g, x, y)));
    }
}

/// An option with a token is offered only for an empty cell of the grid
/// that can take the token: a forced option for a cell that can take no
/// other, a free option for a cell that can take both.
pub proof fn lemma_offered_fits(g: Grid, option: PossibleMove)
    requires
        g.wf(),
        g.size <= usize::MAX,
        is_offered(g, option),
    ensures
        option matches PossibleMove::OneMove(x, y, v) ==> {
            &&& g.has(x as int, y as int)
            &&& g.at(x as int, y as int) == Field::Empty
            &&& (v == Field::X || v == Field::O)
            &&& can_take(g, x as int, y as int, v)
            &&& !(can_take(g, x as int, y as int, Field::X) && can_take(
                g,
                x as int,
                y as int,
                Field::O,
            ))
        },
        option matches PossibleMove::TwoMoves(x, y) ==> {
            &&& g.has(x as int, y as int)
            &&& g.at(x as int, y as int) == Field::Empty
            &&& can_take(g, x as int, y as int, Field::X)
            &&& can_take(g, x as int, y as int, Field::O)
        },
{
    let (x, y) = choose|x: int, y: int|
        g.has(x, y) && g.at(x, y) == Field::Empty && option == #[trigger] possible_move(g, x, y);
    assert(x as usize == x && y as usize == y);
}

/// Determines the options for the cell at column `x` and row `y` by trying
/// both tokens there. The board is the same after the call as before it.
pub fn calc_possible_move(board: &mut Board, x: usize, y: usize) -> (possible: PossibleMove)
    requires
        old(board)@.has(x as int, y as int),
    ensures
        final(board)@ == old(board)@,
        possible == possible_move(old(board)@, x as int, y as int),
{
    let ghost g = board@;
    if Field::Empty == board.get(x, y) {
        proof {
            g.lemma_put(x as int, y as int, Field::X);
            g.lemma_put(x as int, y as int, Field::O);
            g.lemma_put_twice(x as int, y as int, Field::X, Field::Empty);
            g.lemma_put_twice(x as int, y as int, Field::O, Field::Empty);
        }
        board.set(x, y, Field::X);
        let x_possible = is_move_valid(board, x, y);
        board.clear(x, y);
        board.set(x, y, Field::O);
        let o_possible = is_move_valid(board, x, y);
        board.clear(x, y);
        if x_possible && o_possible {
            PossibleMove::TwoMoves(x, y)
        } else if x_possible {
            PossibleMove::OneMove(x, y, Field::X)
        } else if o_possible {
            PossibleMove::OneMove(x, y, Field::O)
        } else {
            PossibleMove::NoMove
        }
    } else {
        PossibleMove::NoMove
    }
}

/// Returns the options for all empty cells of `board`, in increasing order
/// of their columns and, within a column, of their rows. The board is the
/// same after the call as before it.
pub fn calc_possible_moves(board: &mut Board) -> (result: Vec<PossibleMove>)
    ensures
        final(board)@ == old(board)@,
        result@ == possible_moves(old(board)@),
{
    let ghost g = board@;
    let size = board.get_size();
    let mut result = Vec::new();
    let mut x: usize = 0;
    while x < size
        invariant
            x <= size,
            size == g.size,
            board@ == g,
            result@ == board_moves(g, x as int),
        decreases size - x,
    {
        let mut y: usize = 0;
        while y < size
            invariant
                x < size,
                y <= size,
                size == g.size,
                board@ == g,
                result@ == board_moves(g, x as int) + column_moves(g, x as int, y as int),
            decreases size - y,
        {
            if Field::Empty == board.get(x, y) {
                let possible = calc_possible_move(board, x, y);
                result.push(possible);
                proof {
                    assert(result@ =~= board_moves(g, x as int) + column_moves(
                        g,
                        x as int,
                        y + 1,
                    ));
                }
            }
            y += 1;
        }
        x += 1;
    }
    result
}

} // verus!
