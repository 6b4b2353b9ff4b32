//! Boards as text: one token per cell, `X`, `O` or `_` for an empty cell,
//! row by row, the tokens separated by white space.
//!
//! [`Board::from_str`] reads such a text and [`Board::to_string`] writes it,
//! with the cells of a row separated by a blank and a line break after each
//! row.

use crate::field::{Board, Field, Grid};
use vstd::prelude::*;

verus! {

/// Whether `c` is white space, which separates tokens: a character with the
/// property `White_Space` of Unicode.
pub open spec fn is_space(c: char) -> bool {
    ||| c == ' '
    ||| '\u{9}' <= c <= '\u{d}'
    ||| c == '\u{85}'
    ||| c == '\u{a0}'
    ||| c == '\u{1680}'
    ||| '\u{2000}' <= c <= '\u{200a}'
    ||| c == '\u{2028}'
    ||| c == '\u{2029}'
    ||| c == '\u{202f}'
    ||| c == '\u{205f}'
    ||| c == '\u{3000}'
}

/// The tokens of a text: its longest stretches of characters that are not
/// white space, from left to right. A character that follows the text either
/// separates, starts a new token, or extends the last one.
pub open spec fn tokens(text: Seq<char>) -> Seq<Seq<char>>
    decreases text.len(),
{
    if text.len() == 0 {
        Seq::empty()
    } else if is_space(text.last()) {
        tokens(text.drop_last())
    } else if text.len() == 1 || is_space(text[text.len() - 2]) {
        tokens(text.drop_last()).push(seq![text.last()])
    } else {
        tokens(text.drop_last()).drop_last().push(
            tokens(text.drop_last()).last().push(text.last()),
        )
    }
}

/// The cell that a token stands for: `X`, `O`, `_` for an empty cell, and
/// nothing for any other token.
pub open spec fn token_field(token: Seq<char>) -> Option<Field> {
    if token == seq!['X'] {
        Some(Field::X)
    } else if token == seq!['O'] {
        Some(Field::O)
    } else if token == seq!['_'] {
        Some(Field::Empty)
    } else {
        None
    }
}

/// The cells that the tokens of a text stand for, in their order.
pub open spec fn fields_of(text: Seq<char>) -> Seq<Option<Field>> {
    tokens(text).map_values(|token: Seq<char>| token_field(token))
}

/// The number of cells of a square of the given side length.
pub open spec fn square(side: nat) -> nat {
    side * side
}

/// Whether `count` cells make up a square.
pub open spec fn is_square(count: nat) -> bool {
    exists|side: nat| #[trigger] square(side) == count
}

/// The side length of the square that `count` cells make up.
pub open spec fn side_of(count: nat) -> nat {
    choose|side: nat| #[trigger] square(side) == count
}

/// The grid of side length `size` that holds the cells row by row.
pub open spec fn grid_of(fields: Seq<Option<Field>>, size: nat) -> Grid {
    Grid {
        size,
        cols: Seq::new(size, |x: int| Seq::new(size, |y: int| fields[y * size + x]->0)),
    }
}

/// What reading a text gives: the grid that its tokens spell row by row, or
/// the message that says why they spell none. The number of tokens is
/// checked first, and then the tokens themselves.
pub open spec fn parsed(text: Seq<char>) -> Result<Grid, Seq<char>> {
    let fields = fields_of(text);
    if !is_square(fields.len()) {
        Err("Number of string elements must be square number"@)
    } else if side_of(fields.len()) < 2 {
        Err("Board too small (at least 2 elements)"@)
    } else if side_of(fields.len()) % 2 != 0 {
        Err("Board size must be even"@)
    } else if exists|i: int| 0 <= i < fields.len() && fields[i] is None {
        Err("Unknown field string"@)
    } else {
        Ok(grid_of(fields, side_of(fields.len())))
    }
}

/// The character that is written for a cell.
pub open spec fn field_char(field: Field) -> char {
    match field {
        Field::X => 'X',
        Field::O => 'O',
        Field::Empty => '_',
    }
}

/// The text of the first `cols` cells of row `y`: after each cell comes a
/// blank, and after the last cell of the row a line break.
pub open spec fn row_text(g: Grid, y: int, cols: int) -> Seq<char>
    decreases cols,
{
    if cols <= 0 {
        Seq::empty()
    } else {
        row_text(g, y, cols - 1).push(field_char(g.at(cols - 1, y))).push(
            if cols == g.size {
                '\n'
            } else {
                ' '
            },
        )
    }
}

/// The text of the first `rows` rows.
pub open spec fn rows_text(g: Grid, rows: int) -> Seq<char>
    decreases rows,
{
    if rows <= 0 {
        Seq::empty()
    } else {
        rows_text(g, rows - 1) + row_text(g, rows - 1, g.size as int)
    }
}

/// The text of a grid: its rows from the top down, each on a line of its
/// own, with the cells of a row separated by blanks.
pub open spec fn formatted(g: Grid) -> Seq<char> {
    rows_text(g, g.size as int)
}

/// Squares grow with their side length, so a number of cells has at most
/// one side length.
pub proof fn lemma_square_grows(a: nat, b: nat)
    ensures
        a < b ==> square(a) < square(b),
        square(a) == square(b) ==> a == b,
{
    if a < b {
        assert(a * a < b * b) by (nonlinear_arith)
            requires
                0 <= a < b,
        ;
    }
    if b < a {
        assert(b * b < a * a) by (nonlinear_arith)
            requires
                0 <= b < a,
        ;
    }
}

/// Every token has a character, and a text that ends within a token has a
/// token.
pub proof fn lemma_tokens_filled(text: Seq<char>)
    ensures
        forall|i: int| 0 <= i < tokens(text).len() ==> (#[trigger] tokens(text)[i]).len() > 0,
        text.len() > 0 && !is_space(text.last()) ==> tokens(text).len() > 0,
    decreases text.len(),
{
    if text.len() > 0 {
        let front = text.drop_last();
        let before = tokens(front);
        let all = tokens(text);
        lemma_tokens_filled(front);
        if is_space(text.last()) {
        } else if text.len() == 1 || is_space(text[text.len() - 2]) {
            assert forall|i: int| 0 <= i < all.len() implies (#[trigger] all[i]).len() > 0 by {
                if i < before.len() {
                    assert(all[i] == before[i]);
                }
            }
        } else {
            assert(front.last() == text[text.len() - 2]);
            assert forall|i: int| 0 <= i < all.len() implies (#[trigger] all[i]).len() > 0 by {
                if i < before.len() - 1 {
                    assert(all[i] == before[i]);
                }
            }
        }
    }
}

/// The tokens of a text that follows white space are read on their own.
pub proof fn lemma_tokens_concat(first: Seq<char>, second: Seq<char>)
    requires
        first.len() == 0 || is_space(first.last()),
    ensures
        tokens(first + second) == tokens(first) + tokens(second),
    decreases second.len(),
{
    let whole = first + second;
    if second.len() == 0 {
        assert(whole =~= first);
        assert(tokens(first) + tokens(second) =~= tokens(first));
    } else {
        let front = second.drop_last();
        assert(whole.drop_last() =~= first + front);
        assert(whole.last() == second.last());
        lemma_tokens_concat(first, front);
        lemma_tokens_filled(front);
        if is_space(second.last()) {
        } else if second.len() == 1 {
            assert(front =~= Seq::empty());
            assert(whole.len() == 1 || is_space(whole[whole.len() - 2]));
            assert(tokens(whole) =~= tokens(first) + tokens(second));
        } else {
            assert(whole[whole.len() - 2] == second[second.len() - 2]);
            if is_space(second[second.len() - 2]) {
                assert(tokens(whole) =~= tokens(first) + tokens(second));
            } else {
                assert(front.last() == second[second.len() - 2]);
                assert(tokens(front).len() > 0);
                assert(tokens(whole) =~= tokens(first) + tokens(second));
            }
        }
    }
}

/// The token that is written for a cell stands for that cell.
pub proof fn lemma_field_char(field: Field)
    ensures
        !is_space(field_char(field)),
        token_field(seq![field_char(field)]) == Some(field),
{
    assert(seq!['X'][0] == 'X');
    assert(seq!['O'][0] == 'O');
    assert(seq!['_'][0] == '_');
}

/// The tokens of the text of the first `cols` cells of a row are the
/// characters of those cells, and the text ends with white space.
pub proof fn lemma_row_tokens(g: Grid, y: int, cols: int)
    requires
        0 <= cols <= g.size,
    ensures
        tokens(row_text(g, y, cols)) == Seq::new(
            cols as nat,
            |x: int| seq![field_char(g.at(x, y))],
        ),
        cols > 0 ==> row_text(g, y, cols).len() > 0 && is_space(row_text(g, y, cols).last()),
        cols == 0 ==> row_text(g, y, cols).len() == 0,
    decreases cols,
{
    let expected = Seq::new(cols as nat, |x: int| seq![field_char(g.at(x, y))]);
    if cols > 0 {
        lemma_row_tokens(g, y, cols - 1);
        let before = row_text(g, y, cols - 1);
        let cell = field_char(g.at(cols - 1, y));
        let with_cell = before.push(cell);
        let all = row_text(g, y, cols);
        lemma_field_char(g.at(cols - 1, y));
        assert(all.drop_last() =~= with_cell);
        assert(with_cell.drop_last() =~= before);
        assert(tokens(all) == tokens(with_cell));
        if with_cell.len() > 1 {
            assert(with_cell[with_cell.len() - 2] == before.last());
        }
        assert(tokens(with_cell) == tokens(before).push(seq![cell]));
        assert(tokens(all) =~= expected);
    } else {
        assert(tokens(row_text(g, y, cols)) =~= expected);
    }
}

/// The tokens of the text of the first `rows` rows are the characters of
/// their cells, row by row, and the text ends with white space.
pub proof fn lemma_rows_tokens(g: Grid, rows: int)
    requires
        0 <= rows <= g.size,
    ensures
        tokens(rows_text(g, rows)).len() == rows * g.size,
        forall|x: int, y: int|
            0 <= x < g.size && 0 <= y < rows ==> tokens(rows_text(g, rows))[y * g.size + x]
                == seq![field_char(#[trigger] g.at(x, y))],
        forall|i: int|
            0 <= i < rows * g.size ==> token_field(#[trigger] tokens(rows_text(g, rows))[i])
                is Some,
        rows_text(g, rows).len() == 0 || is_space(rows_text(g, rows).last()),
    decreases rows,
{
    if rows > 0 {
        let before = rows_text(g, rows - 1);
        let row = row_text(g, rows - 1, g.size as int);
        let all = rows_text(g, rows);
        lemma_rows_tokens(g, rows - 1);
        lemma_row_tokens(g, rows - 1, g.size as int);
        lemma_tokens_concat(before, row);
        assert((rows - 1) * g.size + g.size == rows * g.size) by (nonlinear_arith);
        if g.size > 0 {
            assert(all.last() == row.last());
        } else {
            assert(all =~= before);
        }
        assert forall|x: int, y: int| 0 <= x < g.size && 0 <= y < rows implies tokens(all)[y
            * g.size + x] == seq![field_char(#[trigger] g.at(x, y))] by {
            if y < rows - 1 {
                assert(y * g.size + x < (rows - 1) * g.size) by (nonlinear_arith)
                    requires
                        0 <= x < g.size,
                        0 <= y < rows - 1,
                ;
                assert(0 <= y * g.size + x) by (nonlinear_arith)
                    requires
                        0 <= x < g.size,
                        0 <= y,
                ;
            } else {
                assert(tokens(all)[(rows - 1) * g.size + x] == tokens(row)[x]);
            }
        }
        assert forall|i: int| 0 <= i < rows * g.size implies token_field(
            #[trigger] tokens(all)[i],
        ) is Some by {
            if i < (rows - 1) * g.size {
                assert(tokens(all)[i] == tokens(before)[i]);
            } else {
                let x = i - (rows - 1) * g.size;
                assert(tokens(all)[i] == tokens(row)[x]);
                lemma_field_char(g.at(x, rows - 1));
            }
        }
    } else {
        assert(rows * g.size == 0) by (nonlinear_arith)
            requires
                rows == 0,
        ;
    }
}

/// Reading the text that is written for a grid gives the grid again.
pub proof fn lemma_round_trip(g: Grid)
    requires
        g.wf(),
    ensures
        parsed(formatted(g)) == Ok::<Grid, Seq<char>>(g),
{
    let text = formatted(g);
    let fields = fields_of(text);
    lemma_rows_tokens(g, g.size as int);
    assert(fields.len() == square(g.size));
    lemma_square_grows(g.size, side_of(fields.len()));
    assert(side_of(fields.len()) == g.size);
    assert forall|i: int| 0 <= i < fields.len() implies (#[trigger] fields[i]) is Some by {
        assert(token_field(tokens(text)[i]) is Some);
    }
    let read = grid_of(fields, g.size);
    assert forall|x: int| 0 <= x < g.size implies #[trigger] read.cols[x] == g.cols[x] by {
        assert forall|y: int| 0 <= y < g.size implies read.cols[x][y] == g.cols[x][y] by {
            assert(0 <= y * g.size + x < g.size * g.size) by (nonlinear_arith)
                requires
                    0 <= x < g.size,
                    0 <= y < g.size,
            ;
            assert(tokens(text)[y * g.size + x] == seq![field_char(g.at(x, y))]);
            lemma_field_char(g.at(x, y));
        }
        assert(read.cols[x] =~= g.cols[x]);
    }
    assert(read.cols =~= g.cols);
}

/// Tells whether `c` is white space.
fn is_separator(c: char) -> (space: bool)
    ensures
        space == is_space(c),
{
    let code = c as u32;
    code == 0x20 || (0x9 <= code && code <= 0xd) || code == 0x85 || code == 0xa0 || code == 0x1680
        || (0x2000 <= code && code <= 0x200a) || code == 0x2028 || code == 0x2029 || code == 0x202f
        || code == 0x205f || code == 0x3000
}

/// Returns the cell that the token of the single character `c` stands for.
fn field_for(c: char) -> (field: Option<Field>)
    ensures
        field == token_field(seq![c]),
{
    proof {
        assert(seq![c][0] == c);
        assert(seq!['X'][0] == 'X');
        assert(seq!['O'][0] == 'O');
        assert(seq!['_'][0] == '_');
        assert(c == 'X' ==> seq![c] =~= seq!['X']);
        assert(c == 'O' ==> seq![c] =~= seq!['O']);
        assert(c == '_' ==> seq![c] =~= seq!['_']);
    }
    if c == 'X' {
        Some(Field::X)
    } else if c == 'O' {
        Some(Field::O)
    } else if c == '_' {
        Some(Field::Empty)
    } else {
        None
    }
}

/// Reads the tokens of `text` and returns the cells they stand for.
fn read_fields(text: &str) -> (fields: Vec<Option<Field>>)
    ensures
        fields@ == fields_of(text@),
{
    let mut fields: Vec<Option<Field>> = Vec::new();
    let mut in_token = false;
    proof {
        assert(text@.take(0) =~= Seq::empty());
        assert(fields@ =~= fields_of(text@.take(0)));
    }
    for c in it: text.chars()
        invariant
            it.seq() == text@,
            fields@ == fields_of(text@.take(it.index() as int)),
            in_token == (it.index() > 0 && !is_space(text@[it.index() - 1])),
    {
        let ghost read = text@.take(it.index() as int);
        let ghost next = text@.take(it.index() + 1);
        proof {
            assert(next.drop_last() =~= read);
            assert(next.last() == c);
            lemma_tokens_filled(read);
            if it.index() > 0 {
                assert(read.last() == text@[it.index() - 1]);
                assert(next[next.len() - 2] == text@[it.index() - 1]);
            }
        }
        if is_separator(c) {
            in_token = false;
        } else if in_token {
            let last = fields.len() - 1;
            fields[last] = None;
            proof {
                let grown = tokens(read).last().push(c);
                assert(grown.len() >= 2);
                assert(seq!['X'].len() == 1 && seq!['O'].len() == 1 && seq!['_'].len() == 1);
                assert(token_field(grown) is None);
                assert(fields@ =~= fields_of(next));
            }
        } else {
            fields.push(field_for(c));
            in_token = true;
            proof {
                assert(fields@ =~= fields_of(next));
            }
        }
    }
    proof {
        assert(text@.take(text@.len() as int) =~= text@);
    }
    fields
}

/// Returns the side length of the square that `count` cells make up, or
/// nothing if they make up none.
fn square_root(count: usize) -> (root: Option<usize>)
    ensures
        root is Some <==> is_square(count as nat),
        root matches Some(side) ==> square(side as nat) == count && side == side_of(count as nat),
{
    let mut side: usize = 0;
    while (side as u128) * (side as u128) < count as u128
        invariant
            side <= count,
            side * side <= u128::MAX,
            forall|smaller: nat| smaller < side ==> #[trigger] square(smaller) < count,
        decreases count - side,
    {
        proof {
            assert(side < count) by (nonlinear_arith)
                requires
                    side * side < count,
            ;
            assert forall|smaller: nat| smaller < side + 1 implies #[trigger] square(smaller)
                < count by {
                lemma_square_grows(smaller, side as nat);
            }
        }
        side += 1;
        proof {
            assert(side * side <= u128::MAX) by (nonlinear_arith)
                requires
                    0 <= side <= 0xffff_ffff_ffff_ffff,
                    u128::MAX == 0xffff_ffff_ffff_ffff_ffff_ffff_ffff_ffff,
            ;
        }
    }
    proof {
        assert forall|other: nat| other != side implies #[trigger] square(other) != square(
            side as nat,
        ) && (square(side as nat) != count ==> square(other) != count) by {
            lemma_square_grows(other, side as nat);
            lemma_square_grows(side as nat, other);
        }
    }
    if (side as u128) * (side as u128) == count as u128 {
        proof {
            assert(square(side as nat) == count);
            lemma_square_grows(side as nat, side_of(count as nat));
        }
        Some(side)
    } else {
        None
    }
}

impl Board {
    /// Reads a board from a text that names its cells row by row, each as
    /// `X`, `O` or `_` for an empty cell, separated by white space. Fails with
    /// a message if the tokens make up no square of an even side length of at
    /// least two, or if one of them names no cell.
    pub fn from_str(b: &str) -> (result: Result<Board, String>)
        ensures
            match parsed(b@) {
                Ok(grid) => result matches Ok(board) && board@ == grid,
                Err(message) => result matches Err(said) && said@ == message,
            },
    {
        let fields = read_fields(b);
        let size = match square_root(fields.len()) {
            Some(size) => size,
            None => {
                return Err("Number of string elements must be square number".to_string());
            },
        };
        if size < 2 {
            return Err("Board too small (at least 2 elements)".to_string());
        }
        if 0 != size % 2 {
            return Err("Board size must be even".to_string());
        }
        let mut x = 0usize;
        let mut y = 0usize;
        let mut i = 0usize;
        let mut board = Board::new(size);
        proof {
            Grid::lemma_blank(size as nat);
        }
        while i < fields.len()
            invariant
                fields@ == fields_of(b@),
                fields@.len() == square(size as nat),
                size == side_of(fields@.len()),
                is_square(fields@.len()),
                size >= 2,
                size % 2 == 0,
                board@.wf(),
                board@.size == size,
                x < size,
                y <= size,
                i == y * size + x,
                i <= fields@.len(),
                forall|j: int| 0 <= j < i ==> (#[trigger] fields@[j]) is Some,
                forall|a: int, c: int|
                    board@.has(a, c) ==> #[trigger] board@.at(a, c) == (if c < y || (c == y && a
                        < x) {
                        fields@[c * size + a]->0
                    } else {
                        Field::Empty
                    }),
            decreases fields@.len() - i,
        {
            proof {
                assert(y < size) by (nonlinear_arith)
                    requires
                        y * size + x < size * size,
                        0 <= x,
                        y <= size,
                ;
            }
            let field = match fields[i] {
                Some(field) => field,
                None => {
                    return Err("Unknown field string".to_string());
                },
            };
            if Field::Empty != field {
                proof {
                    board@.lemma_put(x as int, y as int, field);
                }
                board.set(x, y, field);
            }
            proof {
                assert((y + 1) * size == y * size + size) by (nonlinear_arith);
            }
            i += 1;
            x += 1;
            if x >= size {
                y += 1;
                x = 0;
            }
        }
        proof {
            assert(y == size) by (nonlinear_arith)
                requires
                    y * size + x == size * size,
                    0 <= x < size,
                    y <= size,
            ;
            let grid = grid_of(fields@, size as nat);
            assert forall|a: int| 0 <= a < size implies #[trigger] board@.cols[a]
                == grid.cols[a] by {
                assert forall|c: int| 0 <= c < size implies board@.cols[a][c]
                    == grid.cols[a][c] by {
                    assert(board@.has(a, c));
                    assert(board@.at(a, c) == fields@[c * size + a]->0);
                }
                assert(board@.cols[a] =~= grid.cols[a]);
            }
            assert(board@.cols =~= grid.cols);
        }
        Ok(board)
    }

    /// Writes the board as text: its rows from the top down, each on a line
    /// of its own, with the cells of a row separated by blanks.
    pub fn to_string(&self) -> (text: String)
        ensures
            text@ == formatted(self@),
    {
        let mut result = String::new();
        let size = self.get_size();
        let ghost g = self@;
        proof {
            reveal_strlit("X");
            reveal_strlit("O");
            reveal_strlit("_");
            reveal_strlit(" ");
            reveal_strlit("\n");
        }
        let mut y: usize = 0;
        while y < size
            invariant
                y <= size,
                size == g.size,
                g == self@,
                g.wf(),
                result@ == rows_text(g, y as int),
                "X"@ == seq!['X'],
                "O"@ == seq!['O'],
                "_"@ == seq!['_'],
                " "@ == seq![' '],
                "\n"@ == seq!['\n'],
            decreases size - y,
        {
            let mut x: usize = 0;
            while x < size
                invariant
                    y < size,
                    x <= size,
                    size == g.size,
                    g == self@,
                    g.wf(),
                    result@ == rows_text(g, y as int) + (if x < size {
                        row_text(g, y as int, x as int)
                    } else {
                        row_text(g, y as int, x as int).drop_last()
                    }),
                    "X"@ == seq!['X'],
                    "O"@ == seq!['O'],
                    "_"@ == seq!['_'],
                    " "@ == seq![' '],
                decreases size - x,
            {
                let ghost before = result@;
                match self.get(x, y) {
                    Field::X => result.append("X"),
                    Field::O => result.append("O"),
                    Field::Empty => result.append("_"),
                }
                proof {
                    assert(result@ =~= before.push(field_char(g.at(x as int, y as int))));
                }
                if x < size - 1 {
                    result.append(" ");
                    proof {
                        assert(result@ =~= rows_text(g, y as int) + row_text(g, y as int, x + 1));
                    }
                } else {
                    proof {
                        assert(result@ =~= rows_text(g, y as int) + row_text(
                            g,
                            y as int,
                            x + 1,
                        ).drop_last());
                    }
                }
                x += 1;
            }
            result.append("\n");
            proof {
                assert(result@ =~= rows_text(g, y + 1));
            }
            y += 1;
        }
        result
    }
}

impl std::str::FromStr for Board {
    type Err = String;

    /// Reads a board from a text, as [`Board::from_str`] does.
    fn from_str(b: &str) -> (result: Result<Board, String>)
        ensures
            match parsed(b@) {
                Ok(grid) => result matches Ok(board) && board@ == grid,
                Err(message) => result matches Err(said) && said@ == message,
            },
    {
        Board::from_str(b)
    }
}

} // verus!
