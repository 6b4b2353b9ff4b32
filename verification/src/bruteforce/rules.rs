//! Checks whether a single move or a whole board obeys the binoxxo rules.
//!
//! The rules are stated on lines, the columns and rows of a [`Grid`], and
//! the functions of this module compute them on a [`Board`].

use crate::field::{Axis, Board, Field, Grid};
use vstd::arithmetic::power2::{
    lemma2_to64, lemma2_to64_rest, lemma_pow2_strictly_increases, lemma_pow2_unfold, pow2,
};
use vstd::prelude::*;

verus! {

/// How often the token `v` occurs in `line`.
pub open spec fn count_of(line: Seq<Field>, v: Field) -> nat
    decreases line.len(),
{
    if line.len() == 0 {
        0
    } else {
        count_of(line.drop_last(), v) + if line.last() == v {
            1nat
        } else {
            0nat
        }
    }
}

/// Whether the three cells of `line` that start at position `i` hold the
/// same token.
pub open spec fn has_run(line: Seq<Field>, i: int) -> bool {
    &&& 0 <= i
    &&& i + 2 < line.len()
    &&& line[i] != Field::Empty
    &&& line[i + 1] == line[i]
    &&& line[i + 2] == line[i]
}

/// Whether none of the three windows of three cells that cover position `i`
/// of `line` holds the same token thrice.
pub open spec fn run_free_at(line: Seq<Field>, i: int) -> bool {
    !has_run(line, i - 2) && !has_run(line, i - 1) && !has_run(line, i)
}

/// Whether no cell of `line` is empty.
pub open spec fn is_complete(line: Seq<Field>) -> bool {
    forall|i: int| 0 <= i < line.len() ==> #[trigger] line[i] != Field::Empty
}

/// The number whose binary digit `i` is one exactly where position `i` of
/// `line` holds an `X`.
pub open spec fn bits(line: Seq<Field>) -> nat
    decreases line.len(),
{
    if line.len() == 0 {
        0
    } else {
        bits(line.drop_last()) + if line.last() == Field::X {
            pow2((line.len() - 1) as nat)
        } else {
            0nat
        }
    }
}

/// The signature of a line: its `bits` if the line is complete, and nothing
/// as long as one of its cells is empty.
pub open spec fn signature(line: Seq<Field>) -> Option<nat> {
    if is_complete(line) {
        Some(bits(line))
    } else {
        None
    }
}

/// The pair rule for the cell at column `x`, row `y`: no three neighbouring
/// cells through it, in its column or in its row, hold its token.
pub open spec fn pair_rule(g: Grid, x: int, y: int) -> bool {
    run_free_at(g.col(x), y) && run_free_at(g.row(y), x)
}

/// The balance rule for position `i` of a line: the token there fills at
/// most half of the line.
pub open spec fn balance_rule(line: Seq<Field>, i: int) -> bool {
    count_of(line, line[i]) <= line.len() / 2
}

/// The uniqueness rule for line `k` along `axis`: if the line is complete,
/// no other line along that axis has its signature.
pub open spec fn line_unique(g: Grid, axis: Axis, k: int) -> bool {
    signature(g.line(axis, k)) is Some ==> forall|c: int|
        0 <= c < g.size && c != k ==> #[trigger] signature(g.line(axis, c)) != signature(
            g.line(axis, k),
        )
}

/// Whether the token at column `x`, row `y` obeys all rules that can be
/// checked for a single cell: the pair rule, the balance of its column and
/// of its row, and the uniqueness of its row and of its column.
pub open spec fn move_valid(g: Grid, x: int, y: int) -> bool {
    &&& pair_rule(g, x, y)
    &&& balance_rule(g.col(x), y)
    &&& balance_rule(g.row(y), x)
    &&& line_unique(g, Axis::Row, y)
    &&& line_unique(g, Axis::Column, x)
}

/// Whether the signatures of the lines along `axis` differ pairwise. A
/// missing signature equals a missing one.
pub open spec fn lines_distinct(g: Grid, axis: Axis) -> bool {
    forall|a: int, b: int|
        0 <= a < b < g.size ==> #[trigger] signature(g.line(axis, a)) != #[trigger] signature(
            g.line(axis, b),
        )
}

/// Whether every line along `axis` holds `X` in exactly half of its cells
/// and `O` in the other half.
pub open spec fn lines_balanced(g: Grid, axis: Axis) -> bool {
    forall|k: int|
        0 <= k < g.size ==> {
            &&& count_of(#[trigger] g.line(axis, k), Field::X) == g.size / 2
            &&& count_of(g.line(axis, k), Field::O) == g.size / 2
        }
}

/// Whether the cell at column `x`, row `y` stands between two neighbours,
/// left and right or above and below, that both equal it.
pub open spec fn is_straddled(g: Grid, x: int, y: int) -> bool {
    ||| g.has(x - 1, y) && g.has(x + 1, y) && g.at(x - 1, y) == g.at(x, y) && g.at(x + 1, y)
        == g.at(x, y)
    ||| g.has(x, y - 1) && g.has(x, y + 1) && g.at(x, y - 1) == g.at(x, y) && g.at(x, y + 1)
        == g.at(x, y)
}

/// Whether no cell of the grid is straddled by two neighbours equal to it.
pub open spec fn no_cell_straddled(g: Grid) -> bool {
    forall|x: int, y: int| g.has(x, y) ==> !#[trigger] is_straddled(g, x, y)
}

/// Whether the grid obeys all binoxxo rules: columns and rows have pairwise
/// different signatures, every row and column is balanced, and no cell is
/// straddled by two equal neighbours.
pub open spec fn board_valid(g: Grid) -> bool {
    &&& lines_distinct(g, Axis::Column)
    &&& lines_distinct(g, Axis::Row)
    &&& lines_balanced(g, Axis::Row)
    &&& lines_balanced(g, Axis::Column)
    &&& no_cell_straddled(g)
}

/// Counting in a prefix that is one cell longer adds that cell.
pub proof fn lemma_count_step(line: Seq<Field>, i: int, v: Field)
    requires
        0 <= i < line.len(),
    ensures
        count_of(line.take(i + 1), v) == count_of(line.take(i), v) + if line[i] == v {
            1nat
        } else {
            0nat
        },
        count_of(line.take(0), v) == 0,
        count_of(line.take(i), v) <= i,
    decreases i,
{
    assert(line.take(i + 1).drop_last() =~= line.take(i));
    if i > 0 {
        lemma_count_step(line, i - 1, v);
    }
}

/// The `bits` of a prefix that is one cell longer add the digit of that
/// cell, and stay below the next power of two.
pub proof fn lemma_bits_step(line: Seq<Field>, i: int)
    requires
        0 <= i < line.len(),
    ensures
        bits(line.take(i + 1)) == bits(line.take(i)) + if line[i] == Field::X {
            pow2(i as nat)
        } else {
            0nat
        },
        bits(line.take(0)) == 0,
        bits(line.take(i)) < pow2(i as nat),
        bits(line.take(i + 1)) < pow2((i + 1) as nat),
    decreases i,
{
    assert(line.take(i + 1).drop_last() =~= line.take(i));
    lemma_pow2_unfold((i + 1) as nat);
    if i > 0 {
        lemma_bits_step(line, i - 1);
    } else {
        lemma2_to64();
    }
}

/// The `bits` of a line are below two to the power of its length.
pub proof fn lemma_bits_bound(line: Seq<Field>)
    ensures
        bits(line) < pow2(line.len()),
{
    if line.len() == 0 {
        lemma2_to64();
    } else {
        lemma_bits_step(line, line.len() - 1);
        assert(line.take(line.len() as int) =~= line);
    }
}

/// Two complete lines of one length with the same `bits` are equal.
pub proof fn lemma_bits_injective(a: Seq<Field>, b: Seq<Field>)
    requires
        a.len() == b.len(),
        is_complete(a),
        is_complete(b),
        bits(a) == bits(b),
    ensures
        a == b,
    decreases a.len(),
{
    if a.len() > 0 {
        let n = a.len() - 1;
        lemma_bits_bound(a.drop_last());
        lemma_bits_bound(b.drop_last());
        assert(a.last() != Field::Empty && b.last() != Field::Empty);
        assert(a.last() == b.last());
        assert forall|i: int| 0 <= i < n implies #[trigger] a.drop_last()[i] != Field::Empty by {
            assert(a[i] != Field::Empty);
        }
        assert forall|i: int| 0 <= i < n implies #[trigger] b.drop_last()[i] != Field::Empty by {
            assert(b[i] != Field::Empty);
        }
        lemma_bits_injective(a.drop_last(), b.drop_last());
        assert(a =~= a.drop_last().push(a.last()));
        assert(b =~= b.drop_last().push(b.last()));
    } else {
        assert(a =~= b);
    }
}

/// A line has the signature of a complete line of its length exactly if it
/// equals that line.
pub proof fn lemma_signature_injective(a: Seq<Field>, b: Seq<Field>)
    requires
        a.len() == b.len(),
        is_complete(b),
    ensures
        signature(a) == signature(b) <==> a == b,
{
    if is_complete(a) && bits(a) == bits(b) {
        lemma_bits_injective(a, b);
    }
}

/// Returns the cell at position `i` of line `k` along `axis`.
fn line_cell(board: &Board, axis: Axis, k: usize, i: usize) -> (field: Field)
    requires
        k < board@.size,
        i < board@.size,
    ensures
        field == board@.line(axis, k as int)[i as int],
        board@.wf(),
{
    let size = board.get_size();
    proof {
        board@.lemma_lines();
    }
    match axis {
        Axis::Column => board.get(k, i),
        Axis::Row => board.get(i, k),
    }
}

/// Counts the cells of line `k` along `axis` that hold `v`.
fn count_in_line(board: &Board, axis: Axis, k: usize, v: Field) -> (n: usize)
    requires
        k < board@.size,
    ensures
        n == count_of(board@.line(axis, k as int), v),
{
    let size = board.get_size();
    let ghost line = board@.line(axis, k as int);
    proof {
        board@.lemma_lines();
    }
    let mut n: usize = 0;
    let mut i: usize = 0;
    while i < size
        invariant
            i <= size,
            size == board@.size,
            k < size,
            line == board@.line(axis, k as int),
            line.len() == size,
            n == count_of(line.take(i as int), v),
            n <= i,
        decreases size - i,
    {
        let field = line_cell(board, axis, k, i);
        proof {
            lemma_count_step(line, i as int, v);
        }
        if field == v {
            n += 1;
        }
        i += 1;
    }
    proof {
        lemma_count_step(line, 0, v);
        assert(line.take(size as int) =~= line);
    }
    n
}

/// Tells whether no cell of line `k` along `axis` is empty.
fn is_line_complete(board: &Board, axis: Axis, k: usize) -> (complete: bool)
    requires
        k < board@.size,
    ensures
        complete == is_complete(board@.line(axis, k as int)),
{
    let size = board.get_size();
    let ghost line = board@.line(axis, k as int);
    proof {
        board@.lemma_lines();
    }
    let mut i: usize = 0;
    while i < size
        invariant
            i <= size,
            size == board@.size,
            k < size,
            line == board@.line(axis, k as int),
            line.len() == size,
            forall|j: int| 0 <= j < i ==> #[trigger] line[j] != Field::Empty,
        decreases size - i,
    {
        if line_cell(board, axis, k, i) == Field::Empty {
            return false;
        }
        i += 1;
    }
    true
}

/// Tells whether the lines `a` and `b` along `axis` hold the same cells.
fn lines_equal(board: &Board, axis: Axis, a: usize, b: usize) -> (equal: bool)
    requires
        a < board@.size,
        b < board@.size,
    ensures
        equal == (board@.line(axis, a as int) == board@.line(axis, b as int)),
{
    let size = board.get_size();
    let ghost first = board@.line(axis, a as int);
    let ghost second = board@.line(axis, b as int);
    proof {
        board@.lemma_lines();
    }
    let mut i: usize = 0;
    while i < size
        invariant
            i <= size,
            size == board@.size,
            a < size,
            b < size,
            first == board@.line(axis, a as int),
            second == board@.line(axis, b as int),
            first.len() == size,
            second.len() == size,
            forall|j: int| 0 <= j < i ==> first[j] == second[j],
        decreases size - i,
    {
        if line_cell(board, axis, a, i) != line_cell(board, axis, b, i) {
            return false;
        }
        i += 1;
    }
    proof {
        assert(first =~= second);
    }
    true
}

/// Tells whether the lines `a` and `b` along `axis` have the same
/// signature: both are incomplete, or both are complete and equal.
fn signatures_equal(board: &Board, axis: Axis, a: usize, b: usize) -> (equal: bool)
    requires
        a < board@.size,
        b < board@.size,
    ensures
        equal == (signature(board@.line(axis, a as int)) == signature(
            board@.line(axis, b as int),
        )),
{
    let size = board.get_size();
    proof {
        board@.lemma_lines();
        if is_complete(board@.line(axis, b as int)) {
            lemma_signature_injective(board@.line(axis, a as int), board@.line(axis, b as int));
        }
    }
    let first_complete = is_line_complete(board, axis, a);
    let second_complete = is_line_complete(board, axis, b);
    if first_complete && second_complete {
        lines_equal(board, axis, a, b)
    } else {
        !first_complete && !second_complete
    }
}

/// Computes the signature of line `k` along `axis`.
fn line_signature(board: &Board, axis: Axis, k: usize) -> (sig: Option<i64>)
    requires
        k < board@.size,
        board@.size < 64,
    ensures
        sig is None <==> signature(board@.line(axis, k as int)) is None,
        sig matches Some(s) ==> s >= 0 && signature(board@.line(axis, k as int)) == Some(
            s as nat,
        ),
{
    let size = board.get_size();
    let ghost line = board@.line(axis, k as int);
    proof {
        board@.lemma_lines();
        lemma2_to64();
        lemma2_to64_rest();
    }
    let mut sig: i64 = 0;
    let mut power_of_2: i64 = 1;
    let mut i: usize = 0;
    while i < size
        invariant
            i <= size,
            size == board@.size,
            size <= 62,
            k < size,
            line == board@.line(axis, k as int),
            line.len() == size,
            forall|j: int| 0 <= j < i ==> #[trigger] line[j] != Field::Empty,
            sig == bits(line.take(i as int)),
            power_of_2 == pow2(i as nat),
            pow2(62) == 0x4000000000000000,
        decreases size - i,
    {
        proof {
            lemma_bits_step(line, i as int);
            lemma_pow2_unfold((i + 1) as nat);
            if i + 1 < 62 {
                lemma_pow2_strictly_increases((i + 1) as nat, 62);
            }
        }
        match line_cell(board, axis, k, i) {
            Field::X => {
                sig += power_of_2;
            },
            Field::O => {},
            Field::Empty => {
                return None;
            },
        }
        power_of_2 *= 2;
        i += 1;
    }
    proof {
        assert(line.take(size as int) =~= line);
    }
    Some(sig)
}

/// Tells whether line `k` along `axis` is incomplete or differs from every
/// other line along that axis.
fn is_line_unique(board: &Board, axis: Axis, k: usize) -> (unique: bool)
    requires
        k < board@.size,
    ensures
        unique == line_unique(board@, axis, k as int),
{
    let size = board.get_size();
    if !is_line_complete(board, axis, k) {
        return true;
    }
    let mut c: usize = 0;
    while c < size
        invariant
            c <= size,
            size == board@.size,
            k < size,
            signature(board@.line(axis, k as int)) is Some,
            forall|j: int|
                0 <= j < c && j != k ==> #[trigger] signature(board@.line(axis, j)) != signature(
                    board@.line(axis, k as int),
                ),
        decreases size - c,
    {
        if c != k && signatures_equal(board, axis, c, k) {
            return false;
        }
        c += 1;
    }
    true
}

/// Tells whether the signatures of the lines along `axis` differ pairwise.
fn are_lines_unique(board: &Board, axis: Axis) -> (unique: bool)
    ensures
        unique == lines_distinct(board@, axis),
{
    let size = board.get_size();
    let mut a: usize = 0;
    while a < size
        invariant
            a <= size,
            size == board@.size,
            forall|i: int, j: int|
                0 <= i < a && i < j < size ==> #[trigger] signature(board@.line(axis, i))
                    != #[trigger] signature(board@.line(axis, j)),
        decreases size - a,
    {
        let mut b: usize = a + 1;
        while b < size
            invariant
                a < b <= size,
                size == board@.size,
                forall|i: int, j: int|
                    0 <= i < a && i < j < size ==> #[trigger] signature(board@.line(axis, i))
                        != #[trigger] signature(board@.line(axis, j)),
                forall|j: int|
                    a < j < b ==> signature(board@.line(axis, a as int)) != #[trigger] signature(
                        board@.line(axis, j),
                    ),
            decreases size - b,
        {
            if signatures_equal(board, axis, a, b) {
                return false;
            }
            b += 1;
        }
        a += 1;
    }
    true
}

/// Tells whether every line along `axis` holds as many `X` as `O` and no
/// empty cell.
fn are_lines_balanced(board: &Board, axis: Axis) -> (balanced: bool)
    ensures
        balanced == lines_balanced(board@, axis),
{
    let size = board.get_size();
    let half_size = size / 2;
    let mut k: usize = 0;
    while k < size
        invariant
            k <= size,
            size == board@.size,
            half_size == size / 2,
            forall|j: int|
                0 <= j < k ==> {
                    &&& count_of(#[trigger] board@.line(axis, j), Field::X) == size / 2
                    &&& count_of(board@.line(axis, j), Field::O) == size / 2
                },
        decreases size - k,
    {
        if count_in_line(board, axis, k, Field::X) != half_size || count_in_line(
            board,
            axis,
            k,
            Field::O,
        ) != half_size {
            return false;
        }
        k += 1;
    }
    true
}

/// Returns whether the token at column `x` and row `y` obeys the pair rule:
/// it is not one of three equal neighbours in its column or in its row.
pub fn is_valid_pair_rule(board: &Board, x: usize, y: usize) -> (valid: bool)
    requires
        board@.has(x as int, y as int),
        board@.at(x as int, y as int) != Field::Empty,
    ensures
        valid == pair_rule(board@, x as int, y as int),
{
    let current = board.get(x, y);
    let size = board.get_size();
    proof {
        board@.lemma_lines();
    }

    let three_up = y > 1 && current == board.get(x, y - 2) && current == board.get(x, y - 1);
    let three_down = y < size - 2 && current == board.get(x, y + 1) && current == board.get(
        x,
        y + 2,
    );
    let three_middle = y > 0 && y < size - 1 && current == board.get(x, y - 1) && current
        == board.get(x, y + 1);

    let three_left = x > 1 && current == board.get(x - 2, y) && current == board.get(x - 1, y);
    let three_right = x < size - 2 && current == board.get(x + 1, y) && current == board.get(
        x + 2,
        y,
    );
    let three_center = x > 0 && x < size - 1 && current == board.get(x - 1, y) && current
        == board.get(x + 1, y);

    proof {
        let col = board@.col(x as int);
        let row = board@.row(y as int);
        assert(three_up == has_run(col, y - 2));
        assert(three_middle == has_run(col, y - 1));
        assert(three_down == has_run(col, y as int));
        assert(three_left == has_run(row, x - 2));
        assert(three_center == has_run(row, x - 1));
        assert(three_right == has_run(row, x as int));
    }
    !three_up && !three_down && !three_middle && !three_left && !three_right && !three_center
}

/// Returns whether the token at column `x` and row `y` fills at most half
/// of column `x`.
pub fn is_valid_colum(board: &Board, x: usize, y: usize) -> (valid: bool)
    requires
        board@.has(x as int, y as int),
    ensures
        valid == balance_rule(board@.col(x as int), y as int),
{
    let current = board.get(x, y);
    proof {
        board@.lemma_lines();
    }
    let count = count_in_line(board, Axis::Column, x, current);
    count <= board.get_size() / 2
}

/// Returns whether the token at column `x` and row `y` fills at most half
/// of row `y`.
pub fn is_valid_row(board: &Board, x: usize, y: usize) -> (valid: bool)
    requires
        board@.has(x as int, y as int),
    ensures
        valid == balance_rule(board@.row(y as int), x as int),
{
    let current = board.get(x, y);
    proof {
        board@.lemma_lines();
        assert(board@.line(Axis::Row, y as int).len() == board@.size);
    }
    let count = count_in_line(board, Axis::Row, y, current);
    count <= board.get_size() / 2
}

/// Returns the signature of column `x`: the number with binary digit `y`
/// set where row `y` holds an `X`, which is never negative, or nothing if
/// the column has an empty cell. The side length must leave the signature
/// room in an `i64`.
pub fn calc_column_siganture(board: &Board, x: usize) -> (sig: Option<i64>)
    requires
        x < board@.size,
        board@.size < 64,
    ensures
        sig is None <==> signature(board@.col(x as int)) is None,
        sig matches Some(s) ==> s >= 0 && signature(board@.col(x as int)) == Some(s as nat),
{
    line_signature(board, Axis::Column, x)
}

/// Returns whether column `x` has an empty cell or differs from every other
/// column.
pub fn is_unique_column(board: &Board, x: usize) -> (unique: bool)
    requires
        x < board@.size,
    ensures
        unique == line_unique(board@, Axis::Column, x as int),
{
    is_line_unique(board, Axis::Column, x)
}

/// Returns the signature of row `y`: the number with binary digit `x` set
/// where column `x` holds an `X`, which is never negative, or nothing if
/// the row has an empty cell. The side length must leave the signature
/// room in an `i64`.
pub fn calc_row_siganture(board: &Board, y: usize) -> (sig: Option<i64>)
    requires
        y < board@.size,
        board@.size < 64,
    ensures
        sig is None <==> signature(board@.row(y as int)) is None,
        sig matches Some(s) ==> s >= 0 && signature(board@.row(y as int)) == Some(s as nat),
{
    line_signature(board, Axis::Row, y)
}

/// Returns whether row `y` has an empty cell or differs from every other
/// row.
pub fn is_unique_row(board: &Board, y: usize) -> (unique: bool)
    requires
        y < board@.size,
    ensures
        unique == line_unique(board@, Axis::Row, y as int),
{
    is_line_unique(board, Axis::Row, y)
}

/// Returns whether the token at column `x` and row `y` of `board` obeys the
/// binoxxo rules. The rest of the board is *not* checked: even if this
/// function returns `true`, the board as a whole may be invalid.
///
/// To check the whole board use [`is_board_valid`].
pub fn is_move_valid(board: &Board, x: usize, y: usize) -> (valid: bool)
    requires
        board@.has(x as int, y as int),
        board@.at(x as int, y as int) != Field::Empty,
    ensures
        valid == move_valid(board@, x as int, y as int),
{
    is_valid_pair_rule(board, x, y) && is_valid_colum(board, x, y) && is_valid_row(board, x, y)
        && is_unique_row(board, y) && is_unique_column(board, x)
}

/// Returns whether no two columns have the same signature.
pub fn are_columns_unique(board: &Board) -> (unique: bool)
    ensures
        unique == lines_distinct(board@, Axis::Column),
{
    are_lines_unique(board, Axis::Column)
}

/// Returns whether no two rows have the same signature.
pub fn are_rows_unique(board: &Board) -> (unique: bool)
    ensures
        unique == lines_distinct(board@, Axis::Row),
{
    are_lines_unique(board, Axis::Row)
}

/// Returns whether every row holds `X` in one half of its cells and `O` in
/// the other half.
pub fn are_rows_balanced(board: &Board) -> (balanced: bool)
    ensures
        balanced == lines_balanced(board@, Axis::Row),
{
    are_lines_balanced(board, Axis::Row)
}

/// Returns whether every column holds `X` in one half of its cells and `O`
/// in the other half.
pub fn are_columns_balanced(board: &Board) -> (balanced: bool)
    ensures
        balanced == lines_balanced(board@, Axis::Column),
{
    are_lines_balanced(board, Axis::Column)
}

/// Tells whether the cell at column `x` and row `y` stands between two
/// neighbours that both equal it.
fn is_cell_straddled(board: &Board, x: usize, y: usize) -> (straddled: bool)
    requires
        board@.has(x as int, y as int),
    ensures
        straddled == is_straddled(board@, x as int, y as int),
{
    let size = board.get_size();
    let f = board.get(x, y);
    (x > 0 && x < size - 1 && f == board.get(x - 1, y) && f == board.get(x + 1, y)) || (y > 0 && y
        < size - 1 && f == board.get(x, y - 1) && f == board.get(x, y + 1))
}

/// Returns whether no cell of the board stands between two neighbours, left
/// and right or above and below, that both equal it.
pub fn has_no_more_than_two_same_neightbors(board: &Board) -> (valid: bool)
    ensures
        valid == no_cell_straddled(board@),
{
    let size = board.get_size();
    let mut x: usize = 0;
    while x < size
        invariant
            x <= size,
            size == board@.size,
            forall|a: int, b: int|
                0 <= a < x && 0 <= b < size ==> !#[trigger] is_straddled(board@, a, b),
        decreases size - x,
    {
        let mut y: usize = 0;
        while y < size
            invariant
                x < size,
                y <= size,
                size == board@.size,
                forall|a: int, b: int|
                    0 <= a < x && 0 <= b < size ==> !#[trigger] is_straddled(board@, a, b),
                forall|b: int| 0 <= b < y ==> !#[trigger] is_straddled(board@, x as int, b),
            decreases size - y,
        {
            if is_cell_straddled(board, x, y) {
                return false;
            }
            y += 1;
        }
        x += 1;
    }
    true
}

/// Returns whether the whole board obeys the binoxxo rules. A board with an
/// empty cell never does.
///
/// To check a single move use [`is_move_valid`].
pub fn is_board_valid(board: &Board) -> (valid: bool)
    ensures
        valid == board_valid(board@),
{
    are_columns_unique(board) && are_rows_unique(board) && are_rows_balanced(board)
        && are_columns_balanced(board) && has_no_more_than_two_same_neightbors(board)
}

/// Returns whether the board is full, that is, has no empty cell.
pub fn is_board_full(board: &Board) -> (full: bool)
    ensures
        full == board@.is_full(),
{
    let size = board.get_size();
    let mut x: usize = 0;
    while x < size
        invariant
            x <= size,
            size == board@.size,
            forall|a: int, b: int|
                0 <= a < x && 0 <= b < size ==> #[trigger] board@.at(a, b) != Field::Empty,
        decreases size - x,
    {
        let mut y: usize = 0;
        while y < size
            invariant
                x < size,
                y <= size,
                size == board@.size,
                forall|a: int, b: int|
                    0 <= a < x && 0 <= b < size ==> #[trigger] board@.at(a, b) != Field::Empty,
                forall|b: int| 0 <= b < y ==> #[trigger] board@.at(x as int, b) != Field::Empty,
            decreases size - y,
        {
            if board.get(x, y) == Field::Empty {
                return false;
            }
            y += 1;
        }
        x += 1;
    }
    true
}

} // verus!
