//! Why a board that is filled move by move ends up valid.
//!
//! A grid is *sound* if what it holds so far breaks no rule: no line has
//! three equal neighbours, more than half of its cells filled with one
//! token, or, once complete, a twin along its axis. The blank grid is
//! sound, a move that [`move_valid`] accepts keeps a grid sound, emptying a
//! cell keeps it sound, and a sound grid without empty cells obeys all
//! rules.

use crate::bruteforce::rules::{
    balance_rule, board_valid, count_of, has_run, is_complete, is_straddled,
    lemma_signature_injective, line_unique, lines_balanced, lines_distinct, move_valid,
    run_free_at, signature,
};
use crate::field::{Axis, Field, Grid};
use vstd::prelude::*;

verus! {

/// Whether line `k` along `axis` breaks no rule so far: no three equal
/// neighbours, neither token in more than half of its cells, and no other
/// line with its signature once it is complete.
pub open spec fn line_sound(g: Grid, axis: Axis, k: int) -> bool {
    &&& forall|i: int| !#[trigger] has_run(g.line(axis, k), i)
    &&& count_of(g.line(axis, k), Field::X) <= g.size / 2
    &&& count_of(g.line(axis, k), Field::O) <= g.size / 2
    &&& line_unique(g, axis, k)
}

/// Whether no column and no row of the grid breaks a rule so far.
pub open spec fn is_sound(g: Grid) -> bool {
    forall|axis: Axis, k: int| 0 <= k < g.size ==> #[trigger] line_sound(g, axis, k)
}

/// The number of empty cells in the first `cols` columns of the grid.
pub open spec fn empty_cells(g: Grid, cols: int) -> nat
    decreases cols,
{
    if cols <= 0 {
        0
    } else {
        empty_cells(g, cols - 1) + count_of(g.col(cols - 1), Field::Empty)
    }
}

/// The number of empty cells of the grid.
pub open spec fn empty_count(g: Grid) -> nat {
    empty_cells(g, g.size as int)
}

/// Replacing one cell of a line changes the count of a token by what left
/// and what came.
pub proof fn lemma_count_update(line: Seq<Field>, i: int, v: Field, w: Field)
    requires
        0 <= i < line.len(),
    ensures
        count_of(line.update(i, v), w) + (if line[i] == w {
            1nat
        } else {
            0nat
        }) == count_of(line, w) + (if v == w {
            1nat
        } else {
            0nat
        }),
    decreases line.len(),
{
    let after = line.update(i, v);
    if i == line.len() - 1 {
        assert(after.drop_last() =~= line.drop_last());
    } else {
        assert(after.drop_last() =~= line.drop_last().update(i, v));
        lemma_count_update(line.drop_last(), i, v, w);
    }
}

/// The counts of the three kinds of cells add up to the length of a line,
/// and a token that a line does not hold counts zero, and only such a one.
pub proof fn lemma_count_total(line: Seq<Field>)
    ensures
        count_of(line, Field::X) + count_of(line, Field::O) + count_of(line, Field::Empty)
            == line.len(),
        forall|v: Field|
            (#[trigger] count_of(line, v) == 0) <==> (forall|i: int|
                0 <= i < line.len() ==> line[i] != v),
    decreases line.len(),
{
    if line.len() > 0 {
        let front = line.drop_last();
        lemma_count_total(front);
        assert forall|v: Field|
            (#[trigger] count_of(line, v) == 0) <==> (forall|i: int|
                0 <= i < line.len() ==> line[i] != v) by {
            assert(count_of(front, v) == 0 <==> (forall|i: int|
                0 <= i < front.len() ==> front[i] != v));
            if count_of(line, v) == 0 {
                assert forall|i: int| 0 <= i < line.len() implies line[i] != v by {
                    if i < front.len() {
                        assert(front[i] != v);
                    }
                }
            }
            if forall|i: int| 0 <= i < line.len() ==> line[i] != v {
                assert forall|i: int| 0 <= i < front.len() implies front[i] != v by {
                    assert(line[i] != v);
                }
            }
        }
    }
}

/// The blank grid is sound.
pub proof fn lemma_blank_is_sound(size: nat)
    requires
        size >= 2,
        size % 2 == 0,
    ensures
        is_sound(Grid::blank(size)),
{
    let g = Grid::blank(size);
    Grid::lemma_blank(size);
    g.lemma_lines();
    assert forall|axis: Axis, k: int| 0 <= k < g.size implies #[trigger] line_sound(
        g,
        axis,
        k,
    ) by {
        let line = g.line(axis, k);
        assert forall|i: int| 0 <= i < line.len() implies line[i] == Field::Empty by {
            match axis {
                Axis::Column => {
                    assert(g.col(k)[i] == g.at(k, i));
                },
                Axis::Row => {
                    assert(g.row(k)[i] == g.at(i, k));
                },
            }
        }
        lemma_count_total(line);
        assert(line[0] == Field::Empty);
    }
}

/// Line `k` along `axis` stays sound under a move that `move_valid`
/// accepts.
proof fn lemma_move_keeps_line_sound(g: Grid, x: int, y: int, v: Field, axis: Axis, k: int)
    requires
        g.wf(),
        is_sound(g),
        g.has(x, y),
        g.at(x, y) == Field::Empty,
        v != Field::Empty,
        move_valid(g.put(x, y, v), x, y),
        0 <= k < g.size,
    ensures
        line_sound(g.put(x, y, v), axis, k),
{
    let h = g.put(x, y, v);
    let through = axis.line_through(x, y);
    let place = axis.place_of(x, y);
    g.lemma_put_line(x, y, v, axis);
    g.lemma_put(x, y, v);
    g.lemma_lines();
    assert(line_sound(g, axis, k));
    assert(line_sound(g, axis, through));
    let before = g.line(axis, k);
    let after = h.line(axis, k);
    assert(line_unique(h, axis, through)) by {
        match axis {
            Axis::Column => {},
            Axis::Row => {},
        }
    }
    if k == through {
        assert(run_free_at(after, place) && balance_rule(after, place)) by {
            match axis {
                Axis::Column => {},
                Axis::Row => {},
            }
        }
        assert forall|i: int| !#[trigger] has_run(after, i) by {
            if has_run(after, i) {
                if i == place - 2 || i == place - 1 || i == place {
                } else {
                    assert(has_run(before, i));
                }
            }
        }
        lemma_count_update(before, place, v, Field::X);
        lemma_count_update(before, place, v, Field::O);
    } else {
        assert(after == before);
        if signature(after) is Some {
            assert forall|c: int| 0 <= c < h.size && c != k implies #[trigger] signature(
                h.line(axis, c),
            ) != signature(h.line(axis, k)) by {
                if c == through {
                    if signature(h.line(axis, through)) is Some {
                        assert(signature(h.line(axis, k)) != signature(h.line(axis, through)));
                    }
                } else {
                    assert(h.line(axis, c) == g.line(axis, c));
                    assert(signature(g.line(axis, c)) != signature(g.line(axis, k)));
                }
            }
        }
    }
}

/// A move that `move_valid` accepts on an empty cell keeps a sound grid
/// sound.
pub proof fn lemma_move_keeps_sound(g: Grid, x: int, y: int, v: Field)
    requires
        g.wf(),
        is_sound(g),
        g.has(x, y),
        g.at(x, y) == Field::Empty,
        v != Field::Empty,
        move_valid(g.put(x, y, v), x, y),
    ensures
        is_sound(g.put(x, y, v)),
{
    let h = g.put(x, y, v);
    assert forall|axis: Axis, k: int| 0 <= k < h.size implies #[trigger] line_sound(
        h,
        axis,
        k,
    ) by {
        lemma_move_keeps_line_sound(g, x, y, v, axis, k);
    }
}

/// Line `k` along `axis` stays sound when a cell is emptied.
proof fn lemma_clear_keeps_line_sound(g: Grid, x: int, y: int, axis: Axis, k: int)
    requires
        g.wf(),
        is_sound(g),
        g.has(x, y),
        0 <= k < g.size,
    ensures
        line_sound(g.put(x, y, Field::Empty), axis, k),
{
    let h = g.put(x, y, Field::Empty);
    let through = axis.line_through(x, y);
    let place = axis.place_of(x, y);
    g.lemma_put_line(x, y, Field::Empty, axis);
    g.lemma_lines();
    assert(line_sound(g, axis, k));
    let before = g.line(axis, k);
    let after = h.line(axis, k);
    assert(h.line(axis, through)[place] == Field::Empty);
    assert(signature(h.line(axis, through)) is None);
    if k == through {
        assert forall|i: int| !#[trigger] has_run(after, i) by {
            if has_run(after, i) {
                assert(has_run(before, i));
            }
        }
        lemma_count_update(before, place, Field::Empty, Field::X);
        lemma_count_update(before, place, Field::Empty, Field::O);
    } else {
        assert(after == before);
        if signature(after) is Some {
            assert forall|c: int| 0 <= c < h.size && c != k implies #[trigger] signature(
                h.line(axis, c),
            ) != signature(h.line(axis, k)) by {
                if c != through {
                    assert(h.line(axis, c) == g.line(axis, c));
                    assert(signature(g.line(axis, c)) != signature(g.line(axis, k)));
                }
            }
        }
    }
}

/// Emptying a cell keeps a sound grid sound.
pub proof fn lemma_clear_keeps_sound(g: Grid, x: int, y: int)
    requires
        g.wf(),
        is_sound(g),
        g.has(x, y),
    ensures
        is_sound(g.put(x, y, Field::Empty)),
{
    let h = g.put(x, y, Field::Empty);
    assert forall|axis: Axis, k: int| 0 <= k < h.size implies #[trigger] line_sound(
        h,
        axis,
        k,
    ) by {
        lemma_clear_keeps_line_sound(g, x, y, axis, k);
    }
}

/// Every line of a full grid is complete.
pub proof fn lemma_full_lines_complete(g: Grid)
    requires
        g.wf(),
        g.is_full(),
    ensures
        forall|axis: Axis, k: int| 0 <= k < g.size ==> is_complete(#[trigger] g.line(axis, k)),
{
    g.lemma_lines();
    assert forall|axis: Axis, k: int| 0 <= k < g.size implies is_complete(
        #[trigger] g.line(axis, k),
    ) by {
        let line = g.line(axis, k);
        assert forall|i: int| 0 <= i < line.len() implies #[trigger] line[i] != Field::Empty by {
            match axis {
                Axis::Column => {
                    assert(g.col(k)[i] == g.at(k, i));
                },
                Axis::Row => {
                    assert(g.row(k)[i] == g.at(i, k));
                },
            }
        }
    }
}

/// A sound grid without empty cells obeys all binoxxo rules.
pub proof fn lemma_full_sound_is_valid(g: Grid)
    requires
        g.wf(),
        is_sound(g),
        g.is_full(),
    ensures
        board_valid(g),
{
    g.lemma_lines();
    lemma_full_lines_complete(g);
    assert forall|axis: Axis| lines_distinct(g, axis) && lines_balanced(g, axis) by {
        assert forall|a: int, b: int| 0 <= a < b < g.size implies #[trigger] signature(
            g.line(axis, a),
        ) != #[trigger] signature(g.line(axis, b)) by {
            assert(line_sound(g, axis, a));
            assert(is_complete(g.line(axis, a)));
        }
        assert forall|k: int| 0 <= k < g.size implies {
            &&& count_of(#[trigger] g.line(axis, k), Field::X) == g.size / 2
            &&& count_of(g.line(axis, k), Field::O) == g.size / 2
        } by {
            assert(line_sound(g, axis, k));
            assert(is_complete(g.line(axis, k)));
            lemma_count_total(g.line(axis, k));
        }
    }
    assert(lines_distinct(g, Axis::Column) && lines_balanced(g, Axis::Column));
    assert(lines_distinct(g, Axis::Row) && lines_balanced(g, Axis::Row));
    assert forall|x: int, y: int| g.has(x, y) implies !#[trigger] is_straddled(g, x, y) by {
        assert(line_sound(g, Axis::Row, y));
        assert(line_sound(g, Axis::Column, x));
        if g.has(x - 1, y) && g.has(x + 1, y) && g.at(x - 1, y) == g.at(x, y) && g.at(x + 1, y)
            == g.at(x, y) {
            assert(g.row(y)[x - 1] == g.at(x - 1, y));
            assert(g.row(y)[x] == g.at(x, y));
            assert(g.row(y)[x + 1] == g.at(x + 1, y));
            assert(g.at(x - 1, y) != Field::Empty);
            assert(has_run(g.line(Axis::Row, y), x - 1));
        }
        if g.has(x, y - 1) && g.has(x, y + 1) && g.at(x, y - 1) == g.at(x, y) && g.at(x, y + 1)
            == g.at(x, y) {
            assert(g.col(x)[y - 1] == g.at(x, y - 1));
            assert(g.col(x)[y] == g.at(x, y));
            assert(g.col(x)[y + 1] == g.at(x, y + 1));
            assert(g.at(x, y - 1) != Field::Empty);
            assert(has_run(g.line(Axis::Column, x), y - 1));
        }
    }
}

/// A grid that obeys all binoxxo rules has no empty cell.
pub proof fn lemma_valid_is_full(g: Grid)
    requires
        g.wf(),
        board_valid(g),
    ensures
        g.is_full(),
{
    g.lemma_lines();
    assert forall|x: int, y: int| g.has(x, y) implies #[trigger] g.at(x, y) != Field::Empty by {
        let line = g.line(Axis::Column, x);
        lemma_count_total(line);
        assert(count_of(line, Field::X) == g.size / 2);
        assert(count_of(line, Field::Empty) == 0);
        assert(g.col(x)[y] == g.at(x, y));
    }
}

/// A grid obeys all binoxxo rules exactly if it is full and each of its
/// cells obeys the rules for a single move.
pub proof fn lemma_valid_cell_by_cell(g: Grid)
    requires
        g.wf(),
    ensures
        board_valid(g) <==> g.is_full() && forall|x: int, y: int|
            g.has(x, y) ==> #[trigger] move_valid(g, x, y),
{
    g.lemma_lines();
    if board_valid(g) {
        lemma_valid_is_full(g);
        lemma_full_lines_complete(g);
        assert forall|x: int, y: int| g.has(x, y) implies #[trigger] move_valid(g, x, y) by {
            let col = g.line(Axis::Column, x);
            let row = g.line(Axis::Row, y);
            assert(g.col(x)[y] == g.at(x, y) && g.row(y)[x] == g.at(x, y));
            assert(g.at(x, y) != Field::Empty);
            assert forall|i: int| !has_run(col, i) by {
                if has_run(col, i) {
                    assert(g.col(x)[i] == g.at(x, i));
                    assert(g.col(x)[i + 1] == g.at(x, i + 1));
                    assert(g.col(x)[i + 2] == g.at(x, i + 2));
                    assert(is_straddled(g, x, i + 1));
                }
            }
            assert forall|i: int| !has_run(row, i) by {
                if has_run(row, i) {
                    assert(g.row(y)[i] == g.at(i, y));
                    assert(g.row(y)[i + 1] == g.at(i + 1, y));
                    assert(g.row(y)[i + 2] == g.at(i + 2, y));
                    assert(is_straddled(g, i + 1, y));
                }
            }
            assert(count_of(col, Field::X) == g.size / 2 && count_of(col, Field::O) == g.size / 2);
            assert(count_of(row, Field::X) == g.size / 2 && count_of(row, Field::O) == g.size / 2);
            assert forall|axis: Axis, k: int| 0 <= k < g.size implies line_unique(g, axis, k) by {
                assert forall|c: int| 0 <= c < g.size && c != k implies #[trigger] signature(
                    g.line(axis, c),
                ) != signature(g.line(axis, k)) by {
                    if c < k {
                        assert(signature(g.line(axis, c)) != signature(g.line(axis, k)));
                    } else {
                        assert(signature(g.line(axis, k)) != signature(g.line(axis, c)));
                    }
                }
            }
            assert(line_unique(g, Axis::Row, y));
            assert(line_unique(g, Axis::Column, x));
        }
    }
    if g.is_full() && forall|x: int, y: int| g.has(x, y) ==> #[trigger] move_valid(g, x, y) {
        assert forall|axis: Axis, k: int| 0 <= k < g.size implies #[trigger] line_sound(
            g,
            axis,
            k,
        ) by {
            let line = g.line(axis, k);
            assert(move_valid(g, k, 0) && move_valid(g, 0, k));
            assert(line_unique(g, axis, k)) by {
                match axis {
                    Axis::Column => {},
                    Axis::Row => {},
                }
            }
            assert forall|i: int| 0 <= i < g.size implies run_free_at(line, i) && balance_rule(
                line,
                i,
            ) by {
                match axis {
                    Axis::Column => {
                        assert(move_valid(g, k, i));
                    },
                    Axis::Row => {
                        assert(move_valid(g, i, k));
                    },
                }
            }
            assert forall|i: int| !#[trigger] has_run(line, i) by {
                if has_run(line, i) {
                    assert(run_free_at(line, i));
                }
            }
            lemma_count_total(line);
            if count_of(line, Field::X) != 0 {
                let i = choose|i: int| 0 <= i < line.len() && line[i] == Field::X;
                assert(balance_rule(line, i));
            }
            if count_of(line, Field::O) != 0 {
                let i = choose|i: int| 0 <= i < line.len() && line[i] == Field::O;
                assert(balance_rule(line, i));
            }
        }
        lemma_full_sound_is_valid(g);
    }
}

/// A token that the grid does not hold yet fits into every empty cell: the
/// move is valid.
pub proof fn lemma_fresh_token_fits(g: Grid, x: int, y: int, v: Field)
    requires
        g.wf(),
        g.has(x, y),
        g.at(x, y) == Field::Empty,
        v != Field::Empty,
        forall|a: int, b: int| g.has(a, b) ==> #[trigger] g.at(a, b) != v,
    ensures
        move_valid(g.put(x, y, v), x, y),
{
    let h = g.put(x, y, v);
    g.lemma_lines();
    g.lemma_put(x, y, v);
    assert forall|axis: Axis|
        run_free_at(
            #[trigger] h.line(axis, axis.line_through(x, y)),
            axis.place_of(x, y),
        ) && balance_rule(h.line(axis, axis.line_through(x, y)), axis.place_of(x, y))
            && line_unique(h, axis, axis.line_through(x, y)) by {
        let through = axis.line_through(x, y);
        let place = axis.place_of(x, y);
        g.lemma_put_line(x, y, v, axis);
        let before = g.line(axis, through);
        let after = h.line(axis, through);
        assert forall|k: int, i: int| 0 <= k < g.size && 0 <= i < g.size implies #[trigger] g.line(
            axis,
            k,
        )[i] != v by {
            match axis {
                Axis::Column => {
                    assert(g.col(k)[i] == g.at(k, i));
                },
                Axis::Row => {
                    assert(g.row(k)[i] == g.at(i, k));
                },
            }
        }
        lemma_count_total(before);
        lemma_count_update(before, place, v, v);
        assert(count_of(after, v) == 1);
        if signature(after) is Some {
            assert forall|c: int| 0 <= c < h.size && c != through implies #[trigger] signature(
                h.line(axis, c),
            ) != signature(after) by {
                assert(h.line(axis, c) == g.line(axis, c));
                lemma_signature_injective(g.line(axis, c), after);
                assert(g.line(axis, c)[place] != v);
            }
        }
    }
    assert(h.line(Axis::Column, Axis::Column.line_through(x, y)) == h.col(x));
    assert(h.line(Axis::Row, Axis::Row.line_through(x, y)) == h.row(y));
}

/// `put` changes the number of empty cells by what left and what came.
pub proof fn lemma_empty_cells_put(g: Grid, x: int, y: int, v: Field, cols: int)
    requires
        g.wf(),
        g.has(x, y),
        0 <= cols <= g.size,
    ensures
        empty_cells(g.put(x, y, v), cols) + (if x < cols && g.at(x, y) == Field::Empty {
            1nat
        } else {
            0nat
        }) == empty_cells(g, cols) + (if x < cols && v == Field::Empty {
            1nat
        } else {
            0nat
        }),
    decreases cols,
{
    if cols > 0 {
        g.lemma_put(x, y, v);
        lemma_empty_cells_put(g, x, y, v, cols - 1);
        if x == cols - 1 {
            lemma_count_update(g.col(x), y, v, Field::Empty);
        }
    }
}

/// The first `cols` columns hold at most `cols * size` empty cells; they
/// hold none exactly if all their cells are filled, and that many exactly
/// if all their cells are empty.
pub proof fn lemma_empty_cells_range(g: Grid, cols: int)
    requires
        g.wf(),
        0 <= cols <= g.size,
    ensures
        empty_cells(g, cols) <= cols * g.size,
        empty_cells(g, cols) == 0 <==> (forall|a: int, b: int|
            0 <= a < cols && 0 <= b < g.size ==> #[trigger] g.at(a, b) != Field::Empty),
        empty_cells(g, cols) == cols * g.size <==> (forall|a: int, b: int|
            0 <= a < cols && 0 <= b < g.size ==> #[trigger] g.at(a, b) == Field::Empty),
    decreases cols,
{
    if cols > 0 {
        let last = g.col(cols - 1);
        lemma_empty_cells_range(g, cols - 1);
        lemma_count_total(last);
        g.lemma_lines();
        assert((cols - 1) * g.size + g.size == cols * g.size) by (nonlinear_arith);
        let filled_before = forall|a: int, b: int|
            0 <= a < cols - 1 && 0 <= b < g.size ==> #[trigger] g.at(a, b) != Field::Empty;
        let filled = forall|a: int, b: int|
            0 <= a < cols && 0 <= b < g.size ==> #[trigger] g.at(a, b) != Field::Empty;
        let blank_before = forall|a: int, b: int|
            0 <= a < cols - 1 && 0 <= b < g.size ==> #[trigger] g.at(a, b) == Field::Empty;
        let blank = forall|a: int, b: int|
            0 <= a < cols && 0 <= b < g.size ==> #[trigger] g.at(a, b) == Field::Empty;
        let last_filled = forall|i: int| 0 <= i < last.len() ==> last[i] != Field::Empty;
        let last_blank = forall|i: int| 0 <= i < last.len() ==> last[i] == Field::Empty;
        assert(last_filled <==> count_of(last, Field::Empty) == 0);
        assert(last_blank <==> count_of(last, Field::Empty) == g.size) by {
            if last_blank {
                assert(forall|i: int| 0 <= i < last.len() ==> last[i] != Field::X);
                assert(forall|i: int| 0 <= i < last.len() ==> last[i] != Field::O);
            }
            if count_of(last, Field::Empty) == g.size {
                assert(count_of(last, Field::X) == 0);
                assert(count_of(last, Field::O) == 0);
                assert(forall|i: int| 0 <= i < last.len() ==> last[i] != Field::X);
                assert(forall|i: int| 0 <= i < last.len() ==> last[i] != Field::O);
            }
        }
        assert(filled <==> filled_before && last_filled) by {
            if filled {
                assert forall|i: int| 0 <= i < last.len() implies last[i] != Field::Empty by {
                    assert(g.at(cols - 1, i) != Field::Empty);
                }
            }
            if filled_before && last_filled {
                assert forall|a: int, b: int| 0 <= a < cols && 0 <= b < g.size implies #[trigger] g.at(
                    a,
                    b,
                ) != Field::Empty by {
                    if a == cols - 1 {
                        assert(last[b] != Field::Empty);
                    }
                }
            }
        }
        assert(blank <==> blank_before && last_blank) by {
            if blank {
                assert forall|i: int| 0 <= i < last.len() implies last[i] == Field::Empty by {
                    assert(g.at(cols - 1, i) == Field::Empty);
                }
            }
            if blank_before && last_blank {
                assert forall|a: int, b: int| 0 <= a < cols && 0 <= b < g.size implies #[trigger] g.at(
                    a,
                    b,
                ) == Field::Empty by {
                    if a == cols - 1 {
                        assert(last[b] == Field::Empty);
                    }
                }
            }
        }
    }
}

/// The number of empty cells of a grid: `size * size` at most, zero exactly
/// if the grid is full, and `size * size` exactly if it is blank.
pub proof fn lemma_empty_count(g: Grid)
    requires
        g.wf(),
    ensures
        empty_count(g) <= g.size * g.size,
        empty_count(g) == 0 <==> g.is_full(),
        empty_count(g) == g.size * g.size <==> g == Grid::blank(g.size),
{
    lemma_empty_cells_range(g, g.size as int);
    Grid::lemma_blank(g.size);
    let blank = Grid::blank(g.size);
    if empty_count(g) == g.size * g.size {
        assert forall|x: int| 0 <= x < g.size implies #[trigger] g.cols[x] == blank.cols[x] by {
            assert forall|y: int| 0 <= y < g.size implies g.cols[x][y] == blank.cols[x][y] by {
                assert(g.at(x, y) == Field::Empty);
            }
            assert(g.cols[x] =~= blank.cols[x]);
        }
        assert(g.cols =~= blank.cols);
    }
    if g == blank {
        assert forall|a: int, b: int| 0 <= a < g.size && 0 <= b < g.size implies #[trigger] g.at(
            a,
            b,
        ) == Field::Empty by {
            assert(blank.has(a, b));
        }
    }
}

} // verus!
