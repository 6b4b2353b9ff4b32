//! Grids that can still be completed to a valid board.
//!
//! A grid is *solvable* if it is part of a grid that obeys all rules, its
//! solution. Every empty cell of a solvable grid can take the token that
//! the solution holds there, so a solvable grid is never a dead end. On the
//! smallest board the search for a full board never leaves the solvable
//! grids, which is why it never fails there.

use crate::bruteforce::build_board::{
    carved, is_carved_from, is_played, is_puzzle, lemma_played_grid, lemma_played_undo,
    lemma_selected_fits, replayed,
};
use crate::bruteforce::choose_move::{
    has_forced, is_dead_end, is_forced, is_selectable, Move, MoveSelection,
};
use crate::bruteforce::possible_move::{
    can_take, is_offered, lemma_blank_offers_two_moves, lemma_offered_fits,
    lemma_possible_moves, possible_move, possible_moves, PossibleMove,
};
use crate::bruteforce::rules::{
    balance_rule, board_valid, count_of, has_run, is_complete, lemma_count_step,
    lemma_signature_injective, line_unique, lines_balanced, lines_distinct, move_valid,
    run_free_at, signature,
};
use crate::bruteforce::soundness::{
    empty_count, lemma_empty_cells_range, lemma_empty_count, lemma_full_lines_complete,
    lemma_valid_cell_by_cell, lemma_valid_is_full,
};
use crate::field::{Axis, Field, Grid};
use vstd::prelude::*;

verus! {

/// Whether `b` is a solution of `g`: a grid that obeys all rules and holds
/// every token that `g` holds.
pub open spec fn is_solution(g: Grid, b: Grid) -> bool {
    b.wf() && board_valid(b) && g.is_part_of(b)
}

/// Whether the grid has a solution.
pub open spec fn is_solvable(g: Grid) -> bool {
    exists|b: Grid| #[trigger] is_solution(g, b)
}

/// Whether every token of `part` stands at the same place in `whole`, a
/// line of the same length.
pub open spec fn line_part_of(part: Seq<Field>, whole: Seq<Field>) -> bool {
    &&& part.len() == whole.len()
    &&& forall|i: int|
        0 <= i < part.len() && #[trigger] part[i] != Field::Empty ==> whole[i] == part[i]
}

/// The token other than `v`.
pub open spec fn other_token(v: Field) -> Field {
    if v == Field::X {
        Field::O
    } else {
        Field::X
    }
}

/// The board of side length two with `first` in its upper left and lower
/// right corner and the other token in the two other corners.
pub open spec fn checker(first: Field) -> Grid {
    Grid {
        size: 2,
        cols: seq![seq![first, other_token(first)], seq![other_token(first), first]],
    }
}

/// A part of a line holds a token at most as often as the whole line, and
/// a complete part is the whole line.
pub proof fn lemma_line_part(part: Seq<Field>, whole: Seq<Field>, v: Field)
    requires
        line_part_of(part, whole),
        v != Field::Empty,
    ensures
        count_of(part, v) <= count_of(whole, v),
        is_complete(part) ==> part == whole,
    decreases part.len(),
{
    if part.len() > 0 {
        assert(line_part_of(part.drop_last(), whole.drop_last())) by {
            assert forall|i: int|
                0 <= i < part.drop_last().len() && #[trigger] part.drop_last()[i]
                    != Field::Empty implies whole.drop_last()[i] == part.drop_last()[i] by {
                assert(part[i] != Field::Empty);
            }
        }
        lemma_line_part(part.drop_last(), whole.drop_last(), v);
        if part.last() == v {
            assert(part[part.len() - 1] != Field::Empty);
        }
    }
    if is_complete(part) {
        assert forall|i: int| 0 <= i < part.len() implies part[i] == whole[i] by {
            assert(part[i] != Field::Empty);
        }
        assert(part =~= whole);
    }
}

/// Every line of a part of a grid is part of the same line of that grid.
pub proof fn lemma_part_lines(g: Grid, b: Grid)
    requires
        g.wf(),
        b.wf(),
        g.is_part_of(b),
    ensures
        forall|axis: Axis, k: int|
            0 <= k < g.size ==> line_part_of(#[trigger] g.line(axis, k), b.line(axis, k)),
{
    g.lemma_lines();
    b.lemma_lines();
    assert forall|axis: Axis, k: int| 0 <= k < g.size implies line_part_of(
        #[trigger] g.line(axis, k),
        b.line(axis, k),
    ) by {
        let part = g.line(axis, k);
        let whole = b.line(axis, k);
        assert forall|i: int| 0 <= i < part.len() && #[trigger] part[i] != Field::Empty implies whole[i]
            == part[i] by {
            match axis {
                Axis::Column => {
                    assert(g.col(k)[i] == g.at(k, i));
                    assert(b.col(k)[i] == b.at(k, i));
                },
                Axis::Row => {
                    assert(g.row(k)[i] == g.at(i, k));
                    assert(b.row(k)[i] == b.at(i, k));
                },
            }
        }
    }
}

/// Every empty cell of a grid can take the token that a solution of the
/// grid holds there, and the solution is one of the grid with that token.
pub proof fn lemma_solution_fits(g: Grid, b: Grid, x: int, y: int)
    requires
        g.wf(),
        is_solution(g, b),
        g.has(x, y),
        g.at(x, y) == Field::Empty,
    ensures
        b.at(x, y) == Field::X || b.at(x, y) == Field::O,
        can_take(g, x, y, b.at(x, y)),
        is_solution(g.put(x, y, b.at(x, y)), b),
{
    let v = b.at(x, y);
    let h = g.put(x, y, v);
    lemma_valid_is_full(b);
    lemma_valid_cell_by_cell(b);
    lemma_full_lines_complete(b);
    assert(b.has(x, y));
    assert(move_valid(b, x, y));
    g.lemma_put(x, y, v);
    g.lemma_lines();
    h.lemma_lines();
    b.lemma_lines();
    assert(h.is_part_of(b));
    lemma_part_lines(h, b);
    assert forall|axis: Axis|
        run_free_at(
            #[trigger] h.line(axis, axis.line_through(x, y)),
            axis.place_of(x, y),
        ) && balance_rule(h.line(axis, axis.line_through(x, y)), axis.place_of(x, y))
            && line_unique(h, axis, axis.line_through(x, y)) by {
        let through = axis.line_through(x, y);
        let place = axis.place_of(x, y);
        g.lemma_put_line(x, y, v, axis);
        let part = h.line(axis, through);
        let whole = b.line(axis, through);
        assert(line_part_of(part, whole));
        assert(run_free_at(whole, place) && balance_rule(whole, place) && line_unique(
            b,
            axis,
            through,
        )) by {
            match axis {
                Axis::Column => {},
                Axis::Row => {},
            }
        }
        assert(part[place] == v && whole[place] == v) by {
            match axis {
                Axis::Column => {
                    assert(b.col(x)[y] == b.at(x, y));
                },
                Axis::Row => {
                    assert(b.row(y)[x] == b.at(x, y));
                },
            }
        }
        assert forall|i: int| has_run(part, i) implies has_run(whole, i) by {
            assert(part[i] != Field::Empty);
            assert(part[i + 1] != Field::Empty);
            assert(part[i + 2] != Field::Empty);
        }
        lemma_line_part(part, whole, v);
        if signature(part) is Some {
            assert(part == whole);
            assert(is_complete(whole));
            assert forall|c: int| 0 <= c < h.size && c != through implies #[trigger] signature(
                h.line(axis, c),
            ) != signature(part) by {
                let twin = h.line(axis, c);
                if signature(twin) == signature(part) {
                    lemma_signature_injective(twin, part);
                    assert(line_part_of(twin, b.line(axis, c)));
                    lemma_line_part(twin, b.line(axis, c), v);
                    assert(signature(b.line(axis, c)) != signature(whole));
                }
            }
        }
    }
    assert(h.line(Axis::Column, Axis::Column.line_through(x, y)) == h.col(x));
    assert(h.line(Axis::Row, Axis::Row.line_through(x, y)) == h.row(y));
}

/// A solvable grid with an empty cell is no dead end.
pub proof fn lemma_solvable_has_move(g: Grid)
    requires
        g.wf(),
        is_solvable(g),
        !g.is_full(),
    ensures
        !is_dead_end(possible_moves(g)),
{
    lemma_possible_moves(g);
    let b = choose|b: Grid| #[trigger] is_solution(g, b);
    if possible_moves(g).contains(PossibleMove::NoMove) {
        assert(is_offered(g, PossibleMove::NoMove));
        let (x, y) = choose|x: int, y: int|
            g.has(x, y) && g.at(x, y) == Field::Empty && PossibleMove::NoMove
                == #[trigger] possible_move(g, x, y);
        lemma_solution_fits(g, b, x, y);
    }
}

/// A forced option names the token that every solution of the grid holds
/// at its cell.
pub proof fn lemma_forced_follows_solution(g: Grid, b: Grid, x: usize, y: usize, v: Field)
    requires
        g.wf(),
        g.size <= usize::MAX,
        is_solution(g, b),
        is_offered(g, PossibleMove::OneMove(x, y, v)),
    ensures
        v == b.at(x as int, y as int),
{
    lemma_offered_fits(g, PossibleMove::OneMove(x, y, v));
    lemma_solution_fits(g, b, x as int, y as int);
}

/// The two checkered boards of side length two obey all rules.
pub proof fn lemma_checker_valid(first: Field)
    requires
        first == Field::X || first == Field::O,
    ensures
        checker(first).wf(),
        board_valid(checker(first)),
        forall|x: int, y: int|
            checker(first).has(x, y) ==> #[trigger] checker(first).at(x, y) == (if x == y {
                first
            } else {
                other_token(first)
            }),
{
    let b = checker(first);
    let second = other_token(first);
    assert(b.cols[0] =~= seq![first, second]);
    assert(b.cols[1] =~= seq![second, first]);
    assert(b.wf());
    b.lemma_lines();
    assert forall|axis: Axis|
        #![trigger b.line(axis, 0)]
        b.line(axis, 0) == seq![first, second] && b.line(axis, 1) == seq![second, first] by {
        match axis {
            Axis::Column => {},
            Axis::Row => {
                assert(b.row(0) =~= seq![first, second]);
                assert(b.row(1) =~= seq![second, first]);
            },
        }
    }
    let upper = seq![first, second];
    let lower = seq![second, first];
    assert(upper[0] != lower[0]);
    lemma_signature_injective(upper, lower);
    assert forall|line: Seq<Field>, v: Field|
        (line == upper || line == lower) && (v == Field::X || v == Field::O) implies #[trigger] count_of(
        line,
        v,
    ) == 1 by {
        lemma_count_step(line, 0, v);
        lemma_count_step(line, 1, v);
        assert(line.take(2) =~= line);
    }
    assert forall|axis: Axis| lines_distinct(b, axis) && lines_balanced(b, axis) by {
        assert(b.line(axis, 0) == upper && b.line(axis, 1) == lower);
        assert forall|k: int| 0 <= k < b.size implies {
            &&& count_of(#[trigger] b.line(axis, k), Field::X) == b.size / 2
            &&& count_of(b.line(axis, k), Field::O) == b.size / 2
        } by {
            assert(k == 0 || k == 1);
        }
    }
    assert(lines_distinct(b, Axis::Column) && lines_balanced(b, Axis::Column));
    assert(lines_distinct(b, Axis::Row) && lines_balanced(b, Axis::Row));
}

/// On a board of side length two, an empty cell cannot take the token of a
/// filled cell in its row or in its column.
pub proof fn lemma_neighbour_blocks(g: Grid, fx: int, fy: int, ex: int, ey: int)
    requires
        g.wf(),
        g.size == 2,
        g.has(fx, fy),
        g.has(ex, ey),
        g.at(fx, fy) != Field::Empty,
        g.at(ex, ey) == Field::Empty,
        fx == ex || fy == ey,
    ensures
        !can_take(g, ex, ey, g.at(fx, fy)),
{
    let t = g.at(fx, fy);
    let h = g.put(ex, ey, t);
    g.lemma_put(ex, ey, t);
    h.lemma_lines();
    assert(h.at(fx, fy) == t && h.at(ex, ey) == t);
    if fx == ex {
        let line = h.col(ex);
        assert(line[fy] == h.at(ex, fy) && line[ey] == h.at(ex, ey));
        assert(line.len() == 2) by {
            assert(h.line(Axis::Column, ex).len() == 2);
        }
        lemma_count_step(line, 0, t);
        lemma_count_step(line, 1, t);
        assert(line.take(2) =~= line);
        assert(count_of(line, t) == 2);
        assert(!balance_rule(h.col(ex), ey));
    } else {
        let line = h.row(ey);
        assert(line[fx] == h.at(fx, ey) && line[ex] == h.at(ex, ey));
        assert(line.len() == 2) by {
            assert(h.line(Axis::Row, ey).len() == 2);
        }
        lemma_count_step(line, 0, t);
        lemma_count_step(line, 1, t);
        assert(line.take(2) =~= line);
        assert(count_of(line, t) == 2);
        assert(!balance_rule(h.row(ey), ex));
    }
}

/// On a solvable board of side length two that is neither blank nor full,
/// one of the empty cells has a forced option.
pub proof fn lemma_small_has_forced(g: Grid, b: Grid)
    requires
        g.wf(),
        g.size == 2,
        is_solution(g, b),
        !g.is_full(),
        g != Grid::blank(2),
    ensures
        has_forced(possible_moves(g)),
{
    lemma_empty_count(g);
    lemma_empty_cells_range(g, 2);
    assert(2 * g.size == g.size * g.size) by (nonlinear_arith)
        requires
            g.size == 2,
    ;
    let (p, q) = choose|p: int, q: int| 0 <= p < 2 && 0 <= q < 2 && g.at(p, q) != Field::Empty;
    let (a, c) = choose|a: int, c: int| g.has(a, c) && g.at(a, c) == Field::Empty;
    // a filled cell and an empty cell that share a row or a column
    let (fx, fy, ex, ey) = if p == a || q == c {
        (p, q, a, c)
    } else if g.at(a, q) == Field::Empty {
        (p, q, a, q)
    } else {
        (a, q, a, c)
    };
    assert(g.has(fx, fy) && g.has(ex, ey));
    assert(g.at(fx, fy) != Field::Empty && g.at(ex, ey) == Field::Empty);
    assert(fx == ex || fy == ey);
    lemma_neighbour_blocks(g, fx, fy, ex, ey);
    lemma_solution_fits(g, b, ex, ey);
    let option = possible_move(g, ex, ey);
    assert(is_forced(option));
    lemma_possible_moves(g);
    assert(is_offered(g, option));
    assert(possible_moves(g).contains(option));
    let i = choose|i: int| 0 <= i < possible_moves(g).len() && possible_moves(g)[i] == option;
    assert(is_forced(possible_moves(g)[i]));
}

/// On a board of side length two, a move that may be selected on a solvable
/// grid leaves a solvable grid.
pub proof fn lemma_small_move_keeps_solvable(g: Grid, m: Move)
    requires
        g.wf(),
        g.size == 2,
        is_solvable(g),
        !g.is_full(),
        is_selectable(possible_moves(g), m),
    ensures
        is_solvable(g.put(m.x as int, m.y as int, m.field)),
{
    let x = m.x as int;
    let y = m.y as int;
    let h = g.put(x, y, m.field);
    lemma_selected_fits(g, m);
    g.lemma_put(x, y, m.field);
    if g == Grid::blank(2) {
        let first = if x == y {
            m.field
        } else {
            other_token(m.field)
        };
        let b = checker(first);
        lemma_checker_valid(first);
        Grid::lemma_blank(2);
        assert(b.at(x, y) == m.field);
        assert forall|a: int, c: int|
            h.has(a, c) && #[trigger] h.at(a, c) != Field::Empty implies b.at(a, c) == h.at(
            a,
            c,
        ) by {
            if a != x || c != y {
                assert(g.at(a, c) == Field::Empty);
            }
        }
        assert(is_solution(h, b));
    } else {
        let b = choose|b: Grid| #[trigger] is_solution(g, b);
        lemma_small_has_forced(g, b);
        lemma_possible_moves(g);
        assert(is_offered(g, PossibleMove::OneMove(m.x, m.y, m.field)));
        lemma_forced_follows_solution(g, b, m.x, m.y, m.field);
        lemma_solution_fits(g, b, x, y);
        assert(is_solution(h, b));
    }
}

/// The blank board of side length two is solvable.
pub proof fn lemma_small_blank_solvable()
    ensures
        is_solvable(Grid::blank(2)),
{
    lemma_checker_valid(Field::X);
    Grid::lemma_blank(2);
    assert(is_solution(Grid::blank(2), checker(Field::X)));
}

/// On a board of side length two, the first move of a history of play is
/// random and every later move is fixed, and the grid that the moves fill is
/// solvable.
pub proof fn lemma_small_history(moves: Seq<Move>)
    requires
        is_played(2, moves),
    ensures
        is_solvable(replayed(2, moves)),
        forall|k: int|
            0 <= k < moves.len() ==> ((#[trigger] moves[k]).was_random == MoveSelection::Random
                <==> k == 0),
    decreases moves.len(),
{
    if moves.len() == 0 {
        lemma_small_blank_solvable();
    } else {
        let front = moves.drop_last();
        let m = moves.last();
        let g = replayed(2, front);
        lemma_small_history(front);
        lemma_played_grid(2, front);
        lemma_selected_fits(g, m);
        lemma_empty_count(g);
        lemma_small_move_keeps_solvable(g, m);
        if front.len() == 0 {
            lemma_possible_moves(g);
            if has_forced(possible_moves(g)) {
                let i = choose|i: int|
                    0 <= i < possible_moves(g).len() && is_forced(#[trigger] possible_moves(g)[i]);
                assert(possible_moves(g).contains(possible_moves(g)[i]));
                let (x, y) = choose|x: int, y: int|
                    g.has(x, y) && g.at(x, y) == Field::Empty && possible_moves(g)[i]
                        == #[trigger] possible_move(g, x, y);
                lemma_blank_offers_two_moves(2, x, y);
            }
        } else {
            let b = choose|b: Grid| #[trigger] is_solution(g, b);
            lemma_small_has_forced(g, b);
        }
        assert forall|k: int| 0 <= k < moves.len() implies ((#[trigger] moves[k]).was_random
            == MoveSelection::Random <==> k == 0) by {
            if k < front.len() {
                assert(moves[k] == front[k]);
            }
        }
    }
}

/// Carving a history of play whose first move is random and whose later
/// moves are all fixed leaves what the first move filled, whatever the
/// guesses.
pub proof fn lemma_carved_to_first(size: nat, moves: Seq<Move>, guesses: nat)
    requires
        size >= 2,
        size % 2 == 0,
        size * size <= usize::MAX,
        is_played(size, moves),
        moves.len() > 0,
        forall|k: int|
            0 <= k < moves.len() ==> ((#[trigger] moves[k]).was_random == MoveSelection::Random
                <==> k == 0),
    ensures
        is_played(size, moves.take(1)),
        carved(replayed(size, moves), moves, guesses) == replayed(size, moves.take(1)),
    decreases moves.len(),
{
    let g = replayed(size, moves);
    if moves.len() == 1 {
        assert(moves.take(1) =~= moves);
        assert(moves[0].was_random == MoveSelection::Random);
        assert(moves.last() == moves[0]);
        assert(carved(g, moves.drop_last(), (guesses - 1) as nat) == g);
    } else {
        let front = moves.drop_last();
        assert(moves[moves.len() - 1].was_random == MoveSelection::Fixed);
        assert(moves.last() == moves[moves.len() - 1]);
        lemma_played_undo(size, moves);
        assert(carved(g, moves, guesses) == carved(
            g.put(moves.last().x as int, moves.last().y as int, Field::Empty),
            front,
            guesses,
        ));
        assert forall|k: int| 0 <= k < front.len() implies ((#[trigger] front[k]).was_random
            == MoveSelection::Random <==> k == 0) by {
            assert(front[k] == moves[k]);
        }
        lemma_carved_to_first(size, front, guesses);
        assert(front.take(1) =~= moves.take(1));
    }
}

/// A puzzle of side length two keeps exactly one cell, that of the first
/// move, however many guesses it was carved with.
pub proof fn lemma_smallest_puzzle_keeps_one_cell(puzzle: Grid, guesses: nat)
    requires
        is_puzzle(puzzle, 2, guesses),
    ensures
        empty_count(puzzle) == 3,
{
    let moves = choose|moves: Seq<Move>| #[trigger] is_carved_from(puzzle, 2, moves, guesses);
    assert(moves.len() == 4) by (nonlinear_arith)
        requires
            moves.len() == 2 * 2,
    ;
    lemma_small_history(moves);
    lemma_carved_to_first(2, moves, guesses);
    lemma_played_grid(2, moves.take(1));
}

} // verus!
