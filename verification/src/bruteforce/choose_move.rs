//! Selects the next move from the options of all empty cells with
//! [`select_next_move`]. The selected move is a [`Move`].

use crate::bruteforce::possible_move::PossibleMove;
use crate::bruteforce::random::{choose_option, flip_coin};
use crate::field::Field;
use rand::rngs::StdRng;
use vstd::prelude::*;

verus! {

/// Whether the selected move was the only possible one for its cell, or was
/// chosen at random while both X and O were possible there.
#[derive(Copy, Clone, Debug, PartialEq, Eq, Structural)]
pub enum MoveSelection {
    /// was randomly selected from multiple options (either X or O)
    Random,
    /// was the only possible move available
    Fixed,
}

/// Next move to perform.
#[derive(Copy, Clone, Debug, PartialEq, Eq, Structural)]
pub struct Move {
    /// Either `X` or `O`.
    pub field: Field,
    /// column of next move
    pub x: usize,
    /// row of next move
    pub y: usize,
    /// whether it was the only possible move or
    /// randomly selected from multiple possible moves
    pub was_random: MoveSelection,
}

/// Whether the options leave no move: there is no empty cell, or one of
/// the empty cells can take neither token.
pub open spec fn is_dead_end(options: Seq<PossibleMove>) -> bool {
    options.len() == 0 || options.contains(PossibleMove::NoMove)
}

/// Whether the option leaves exactly one token for its cell.
pub open spec fn is_forced(option: PossibleMove) -> bool {
    option is OneMove
}

/// Whether one of the options leaves exactly one token for its cell.
pub open spec fn has_forced(options: Seq<PossibleMove>) -> bool {
    exists|i: int| 0 <= i < options.len() && is_forced(#[trigger] options[i])
}

/// The options that leave exactly one token for their cell, in their order.
pub open spec fn forced_options(options: Seq<PossibleMove>) -> Seq<PossibleMove> {
    options.filter(|option: PossibleMove| is_forced(option))
}

/// The move that commits the chosen option: the one token of a forced
/// option, marked as fixed, or for a free option the token the coin gives,
/// `X` for heads and `O` for tails, marked as random. An option without a
/// token commits nothing.
pub open spec fn committed(chosen: PossibleMove, heads: bool) -> Option<Move> {
    match chosen {
        PossibleMove::NoMove => None,
        PossibleMove::OneMove(x, y, field) => Some(
            Move { field, x, y, was_random: MoveSelection::Fixed },
        ),
        PossibleMove::TwoMoves(x, y) => Some(
            Move {
                field: if heads {
                    Field::X
                } else {
                    Field::O
                },
                x,
                y,
                was_random: MoveSelection::Random,
            },
        ),
    }
}

/// Whether `next` may be selected from the options: if there are forced
/// options, it commits one of them, and otherwise it commits one of the
/// free options with either token.
pub open spec fn is_selectable(options: Seq<PossibleMove>, next: Move) -> bool {
    if has_forced(options) {
        &&& next.was_random == MoveSelection::Fixed
        &&& options.contains(PossibleMove::OneMove(next.x, next.y, next.field))
    } else {
        &&& next.was_random == MoveSelection::Random
        &&& options.contains(PossibleMove::TwoMoves(next.x, next.y))
        &&& (next.field == Field::X || next.field == Field::O)
    }
}

/// Returns the move that commits the chosen option, with the coin deciding
/// the token where the option leaves both.
pub fn commit_move(chosen: PossibleMove, heads: bool) -> (next: Option<Move>)
    ensures
        next == committed(chosen, heads),
{
    match chosen {
        PossibleMove::NoMove => None,
        PossibleMove::OneMove(x, y, field) => Some(
            Move { field, x, y, was_random: MoveSelection::Fixed },
        ),
        PossibleMove::TwoMoves(x, y) => {
            let field = if heads {
                Field::X
            } else {
                Field::O
            };
            Some(Move { field, x, y, was_random: MoveSelection::Random })
        },
    }
}

/// Tells whether the options leave no move.
fn leaves_no_move(possible_moves: &[PossibleMove]) -> (dead_end: bool)
    ensures
        dead_end == is_dead_end(possible_moves@),
{
    let mut i: usize = 0;
    while i < possible_moves.len()
        invariant
            i <= possible_moves@.len(),
            forall|j: int| 0 <= j < i ==> possible_moves@[j] != PossibleMove::NoMove,
        decreases possible_moves@.len() - i,
    {
        if possible_moves[i] == PossibleMove::NoMove {
            return true;
        }
        i += 1;
    }
    possible_moves.len() == 0
}

/// Collects the options that leave exactly one token for their cell.
fn collect_forced(possible_moves: &[PossibleMove]) -> (forced: Vec<PossibleMove>)
    ensures
        forced@ == forced_options(possible_moves@),
        forced@.len() > 0 <==> has_forced(possible_moves@),
        forall|option: PossibleMove|
            forced@.contains(option) ==> is_forced(option) && possible_moves@.contains(option),
{
    let mut forced: Vec<PossibleMove> = Vec::new();
    let mut i: usize = 0;
    proof {
        reveal(Seq::filter);
        assert(possible_moves@.take(0) =~= Seq::empty());
    }
    while i < possible_moves.len()
        invariant
            i <= possible_moves@.len(),
            forced@ == forced_options(possible_moves@.take(i as int)),
        decreases possible_moves@.len() - i,
    {
        proof {
            reveal(Seq::filter);
            assert(possible_moves@.take(i + 1).drop_last() =~= possible_moves@.take(i as int));
        }
        match possible_moves[i] {
            PossibleMove::OneMove(_, _, _) => {
                forced.push(possible_moves[i]);
            },
            _ => {},
        }
        i += 1;
    }
    proof {
        broadcast use vstd::seq_lib::group_filter_ensures;

        let is_forced_option = |option: PossibleMove| is_forced(option);
        assert(possible_moves@.take(i as int) =~= possible_moves@);
        assert forall|option: PossibleMove| forced@.contains(option) implies is_forced(option)
            && possible_moves@.contains(option) by {
            possible_moves@.lemma_filter_contains_rev(is_forced_option, option);
        }
        if forced@.len() > 0 {
            assert(forced@.contains(forced@[0]));
            let j = choose|j: int|
                0 <= j < possible_moves@.len() && possible_moves@[j] == forced@[0];
            assert(is_forced(possible_moves@[j]));
        }
        if has_forced(possible_moves@) {
            let j = choose|j: int|
                0 <= j < possible_moves@.len() && is_forced(#[trigger] possible_moves@[j]);
            assert(forced@.contains(possible_moves@[j]));
        }
    }
    forced
}

/// Returns from the options of all empty cells the next move to take, with
/// all random choices drawn from `rng`.
///
/// If there is no option, or one of the options is no move at all, it
/// returns `None`: from here on no valid board can be built any more.
///
/// Otherwise it prefers forced options (cells where only X or only O is
/// possible) and returns one of them, marked as [`MoveSelection::Fixed`].
///
/// Only if there are no forced options, it returns one of the others with
/// a randomly chosen token, marked as [`MoveSelection::Random`].
pub fn select_next_move(possible_moves: &[PossibleMove], rng: &mut StdRng) -> (next: Option<
    Move,
>)
    ensures
        next is None <==> is_dead_end(possible_moves@),
        next matches Some(m) ==> is_selectable(possible_moves@, m),
{
    if leaves_no_move(possible_moves) {
        return None;
    }
    let single_options = collect_forced(possible_moves);
    if single_options.len() > 0 {
        match choose_option(single_options.as_slice(), rng) {
            Some(chosen) => commit_move(chosen, false),
            None => None,
        }
    } else {
        match choose_option(possible_moves, rng) {
            Some(chosen) => {
                proof {
                    let i = choose|i: int|
                        0 <= i < possible_moves@.len() && possible_moves@[i] == chosen;
                    assert(!is_forced(possible_moves@[i]));
                }
                commit_move(chosen, flip_coin(rng))
            },
            None => None,
        }
    }
}

} // verus!
