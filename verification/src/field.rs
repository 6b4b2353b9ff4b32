//! The board and its cells: [`Field`], [`Board`] and the mathematical model
//! [`Grid`] that all contracts of this crate speak about.

use vstd::prelude::*;

verus! {

/// The content of one cell of a board.
#[derive(Copy, Clone, Debug, PartialEq, Eq, Structural)]
pub enum Field {
    /// the cell is empty
    Empty,
    /// the cell holds an X
    X,
    /// the cell holds an O
    O,
}

/// The two directions in which the cells of a board form lines.
#[derive(Copy, Clone, Debug, PartialEq, Eq, Structural)]
pub enum Axis {
    /// a line of cells that share their column
    Column,
    /// a line of cells that share their row
    Row,
}

impl Axis {
    /// Which line along this axis runs through the cell at column `x`,
    /// row `y`.
    pub open spec fn line_through(self, x: int, y: int) -> int {
        match self {
            Axis::Column => x,
            Axis::Row => y,
        }
    }

    /// The position of the cell at column `x`, row `y` within the line along
    /// this axis that runs through it.
    pub open spec fn place_of(self, x: int, y: int) -> int {
        match self {
            Axis::Column => y,
            Axis::Row => x,
        }
    }
}

/// The mathematical model of a board: its side length and its columns, each
/// column listing its cells from row `0` downwards.
pub struct Grid {
    /// the side length
    pub size: nat,
    /// the columns from the left to the right
    pub cols: Seq<Seq<Field>>,
}

impl Grid {
    /// A grid is well formed if its side length is even and at least two and
    /// it holds `size` columns of `size` cells each.
    pub open spec fn wf(self) -> bool {
        &&& self.size >= 2
        &&& self.size % 2 == 0
        &&& self.cols.len() == self.size
        &&& forall|x: int| 0 <= x < self.size ==> (#[trigger] self.cols[x]).len() == self.size
    }

    /// Whether column `x`, row `y` lies on the grid.
    pub open spec fn has(self, x: int, y: int) -> bool {
        0 <= x < self.size && 0 <= y < self.size
    }

    /// The cell at column `x`, row `y`.
    pub open spec fn at(self, x: int, y: int) -> Field {
        self.cols[x][y]
    }

    /// Column `x`, from row `0` downwards.
    pub open spec fn col(self, x: int) -> Seq<Field> {
        self.cols[x]
    }

    /// Row `y`, from column `0` rightwards.
    pub open spec fn row(self, y: int) -> Seq<Field> {
        Seq::new(self.size, |x: int| self.cols[x][y])
    }

    /// Line `k` along `axis`: column `k` from the top down, or row `k` from
    /// the left to the right.
    pub open spec fn line(self, axis: Axis, k: int) -> Seq<Field> {
        match axis {
            Axis::Column => self.col(k),
            Axis::Row => self.row(k),
        }
    }

    /// The grid with the cell at column `x`, row `y` replaced by `v`.
    pub open spec fn put(self, x: int, y: int, v: Field) -> Grid {
        Grid { size: self.size, cols: self.cols.update(x, self.cols[x].update(y, v)) }
    }

    /// The grid of side length `size` whose cells are all empty.
    pub open spec fn blank(size: nat) -> Grid {
        Grid { size, cols: Seq::new(size, |x: int| Seq::new(size, |y: int| Field::Empty)) }
    }

    /// Whether no cell of the grid is empty.
    pub open spec fn is_full(self) -> bool {
        forall|x: int, y: int| self.has(x, y) ==> #[trigger] self.at(x, y) != Field::Empty
    }

    /// Whether every cell that `self` has filled holds the same token in
    /// `other`, a grid of the same side length.
    pub open spec fn is_part_of(self, other: Grid) -> bool {
        &&& self.size == other.size
        &&& forall|x: int, y: int|
            self.has(x, y) && #[trigger] self.at(x, y) != Field::Empty ==> other.at(x, y)
                == self.at(x, y)
    }

    /// The blank grid of an even side length of at least two is well formed.
    pub proof fn lemma_blank(size: nat)
        requires
            size >= 2,
            size % 2 == 0,
        ensures
            Grid::blank(size).wf(),
            forall|x: int, y: int|
                Grid::blank(size).has(x, y) ==> #[trigger] Grid::blank(size).at(x, y)
                    == Field::Empty,
    {
    }

    /// Every line of a well-formed grid has `size` cells, and its cells are
    /// those of the grid.
    pub proof fn lemma_lines(self)
        requires
            self.wf(),
        ensures
            forall|axis: Axis, k: int|
                0 <= k < self.size ==> (#[trigger] self.line(axis, k)).len() == self.size,
            forall|x: int, y: int|
                self.has(x, y) ==> #[trigger] self.col(x)[y] == self.at(x, y),
            forall|x: int, y: int|
                self.has(x, y) ==> #[trigger] self.row(y)[x] == self.at(x, y),
    {
    }

    /// `put` changes the cell it names and no other: the column and the row
    /// through that cell are updated at its place, and every other line
    /// stays as it was.
    pub proof fn lemma_put(self, x: int, y: int, v: Field)
        requires
            self.wf(),
            self.has(x, y),
        ensures
            self.put(x, y, v).wf(),
            self.put(x, y, v).size == self.size,
            self.put(x, y, v).at(x, y) == v,
            forall|a: int, b: int|
                self.has(a, b) && (a != x || b != y) ==> #[trigger] self.put(x, y, v).at(a, b)
                    == self.at(a, b),
            self.put(x, y, v).col(x) == self.col(x).update(y, v),
            self.put(x, y, v).row(y) == self.row(y).update(x, v),
            forall|a: int|
                0 <= a < self.size && a != x ==> #[trigger] self.put(x, y, v).col(a) == self.col(
                    a,
                ),
            forall|b: int|
                0 <= b < self.size && b != y ==> #[trigger] self.put(x, y, v).row(b) == self.row(
                    b,
                ),
    {
        let after = self.put(x, y, v);
        assert(after.wf());
        assert(after.row(y) =~= self.row(y).update(x, v));
        assert forall|b: int| 0 <= b < self.size && b != y implies #[trigger] after.row(b)
            == self.row(b) by {
            assert(after.row(b) =~= self.row(b));
        }
    }

    /// `put` seen along one axis: the line through the cell is updated at the
    /// place of the cell, and every other line along that axis stays as it
    /// was.
    pub proof fn lemma_put_line(self, x: int, y: int, v: Field, axis: Axis)
        requires
            self.wf(),
            self.has(x, y),
        ensures
            self.put(x, y, v).wf(),
            0 <= axis.line_through(x, y) < self.size,
            0 <= axis.place_of(x, y) < self.size,
            self.line(axis, axis.line_through(x, y))[axis.place_of(x, y)] == self.at(x, y),
            self.put(x, y, v).line(axis, axis.line_through(x, y)) == self.line(
                axis,
                axis.line_through(x, y),
            ).update(axis.place_of(x, y), v),
            forall|k: int|
                0 <= k < self.size && k != axis.line_through(x, y) ==> #[trigger] self.put(
                    x,
                    y,
                    v,
                ).line(axis, k) == self.line(axis, k),
    {
        self.lemma_put(x, y, v);
        self.lemma_lines();
    }

    /// Writing a cell twice keeps the second token, and writing back what a
    /// cell held changes nothing.
    pub proof fn lemma_put_twice(self, x: int, y: int, v: Field, w: Field)
        requires
            self.wf(),
            self.has(x, y),
        ensures
            self.put(x, y, v).put(x, y, w) == self.put(x, y, w),
            self.put(x, y, self.at(x, y)) == self,
    {
        let twice = self.put(x, y, v).put(x, y, w);
        let once = self.put(x, y, w);
        assert(twice.cols[x] =~= once.cols[x]);
        assert(twice.cols =~= once.cols);
        let same = self.put(x, y, self.at(x, y));
        assert(same.cols[x] =~= self.cols[x]);
        assert(same.cols =~= self.cols);
    }
}

/// A square binoxxo board with a side length and its cells.
#[derive(Debug)]
pub struct Board {
    size: usize,
    fields: Vec<Field>,
}

impl View for Board {
    type V = Grid;

    closed spec fn view(&self) -> Grid {
        Grid {
            size: self.size as nat,
            cols: Seq::new(
                self.size as nat,
                |x: int| Seq::new(self.size as nat, |y: int| self.fields@[x * self.size + y]),
            ),
        }
    }
}

/// The position of column `x`, row `y` in the cell vector of a board of side
/// length `size` lies inside that vector.
proof fn lemma_index_in_range(size: int, x: int, y: int)
    requires
        0 <= x < size,
        0 <= y < size,
    ensures
        0 <= x * size <= x * size + y < size * size,
{
    assert(x * size + y < size * size) by (nonlinear_arith)
        requires
            0 <= x < size,
            0 <= y < size,
    ;
    assert(0 <= x * size) by (nonlinear_arith)
        requires
            0 <= x,
            0 <= size,
    ;
}

/// Two cells of a board share a position in the cell vector only if they are
/// the same cell.
proof fn lemma_index_injective(size: int, x1: int, y1: int, x2: int, y2: int)
    requires
        0 <= x1 < size,
        0 <= y1 < size,
        0 <= x2 < size,
        0 <= y2 < size,
        x1 * size + y1 == x2 * size + y2,
    ensures
        x1 == x2,
        y1 == y2,
{
    assert(x1 == x2) by (nonlinear_arith)
        requires
            0 <= y1 < size,
            0 <= y2 < size,
            x1 * size + y1 == x2 * size + y2,
    ;
}

impl PartialEq for Board {
    /// Tells whether two boards have the same side length and the same
    /// cells.
    fn eq(&self, other: &Board) -> (equal: bool) {
        proof {
            use_type_invariant(self);
            use_type_invariant(other);
        }
        if self.size != other.size {
            return false;
        }
        let mut i: usize = 0;
        while i < self.fields.len()
            invariant
                self.well_formed(),
                other.well_formed(),
                self.size == other.size,
                i <= self.fields@.len(),
                forall|j: int| 0 <= j < i ==> self.fields@[j] == other.fields@[j],
            decreases self.fields@.len() - i,
        {
            if self.fields[i] != other.fields[i] {
                proof {
                    lemma_index_split(self.size as int, i as int);
                    let x = i as int / self.size as int;
                    let y = i as int % self.size as int;
                    assert(self@.cols[x][y] != other@.cols[x][y]);
                }
                return false;
            }
            i += 1;
        }
        proof {
            assert forall|x: int| 0 <= x < self.size implies #[trigger] self@.cols[x]
                == other@.cols[x] by {
                assert forall|y: int| 0 <= y < self.size implies self@.cols[x][y]
                    == other@.cols[x][y] by {
                    lemma_index_in_range(self.size as int, x, y);
                }
                assert(self@.cols[x] =~= other@.cols[x]);
            }
            assert(self@.cols =~= other@.cols);
        }
        true
    }
}

impl vstd::std_specs::cmp::PartialEqSpecImpl for Board {
    open spec fn obeys_eq_spec() -> bool {
        true
    }

    open spec fn eq_spec(&self, other: &Board) -> bool {
        self@ == other@
    }
}

/// Every position in the cell vector of a board of side length `size` is
/// that of one of its cells.
proof fn lemma_index_split(size: int, i: int)
    requires
        0 < size,
        0 <= i < size * size,
    ensures
        0 <= i / size < size,
        0 <= i % size < size,
        (i / size) * size + i % size == i,
{
    vstd::arithmetic::div_mod::lemma_fundamental_div_mod(i, size);
    vstd::arithmetic::div_mod::lemma_mod_bound(i, size);
    let q = i / size;
    assert(size * q == q * size) by (nonlinear_arith);
    assert(q < size) by (nonlinear_arith)
        requires
            q * size <= i < size * size,
            0 < size,
    ;
    assert(0 <= q) by (nonlinear_arith)
        requires
            q * size + i % size == i,
            0 <= i,
            0 <= i % size < size,
            0 < size,
    ;
}

impl Clone for Board {
    /// Returns a board with the same side length and the same cells.
    fn clone(&self) -> (board: Board)
        ensures
            board@ == self@,
    {
        proof {
            use_type_invariant(self);
        }
        let fields = self.fields.clone();
        assert(fields@ =~= self.fields@);
        Board { size: self.size, fields }
    }
}

impl Board {
    /// The invariant of every board: an even side length of at least two and
    /// one cell for each position.
    #[verifier::type_invariant]
    pub closed spec fn well_formed(self) -> bool {
        &&& self.size >= 2
        &&& self.size % 2 == 0
        &&& self.fields@.len() == self.size * self.size
    }

    /// Creates a new binoxxo board of side length `size` with all cells empty.
    pub fn new(size: usize) -> (board: Board)
        requires
            size >= 2,
            size % 2 == 0,
            size * size <= usize::MAX,
        ensures
            board@ == Grid::blank(size as nat),
            board@.wf(),
    {
        let board = Board { size, fields: vec![Field::Empty; size * size] };
        proof {
            assert forall|x: int| 0 <= x < size implies #[trigger] board@.cols[x] == Grid::blank(
                size as nat,
            ).cols[x] by {
                assert forall|y: int| 0 <= y < size implies #[trigger] board@.cols[x][y]
                    == Field::Empty by {
                    lemma_index_in_range(size as int, x, y);
                }
                assert(board@.cols[x] =~= Grid::blank(size as nat).cols[x]);
            }
            assert(board@.cols =~= Grid::blank(size as nat).cols);
        }
        board
    }

    /// Returns the side length of the board.
    pub fn get_size(&self) -> (size: usize)
        ensures
            size == self@.size,
            self@.wf(),
    {
        proof {
            use_type_invariant(self);
        }
        self.size
    }

    /// Where the cell at column `x`, row `y` of a well-formed board lies in
    /// its cell vector.
    proof fn lemma_position(self, x: int, y: int)
        requires
            self.well_formed(),
            self@.has(x, y),
        ensures
            0 <= x * self.size <= x * self.size + y < self.fields@.len() <= usize::MAX,
            self@.at(x, y) == self.fields@[x * self.size + y],
    {
        lemma_index_in_range(self.size as int, x, y);
        assert(self.fields@.len() == self.fields.len());
    }

    /// Writing `v` at the position of column `x`, row `y` in the cell vector
    /// is `put` on the model.
    proof fn lemma_update_is_put(self, after: Board, x: int, y: int, v: Field)
        requires
            self.well_formed(),
            self@.has(x, y),
            after.size == self.size,
            after.fields@ == self.fields@.update(x * self.size + y, v),
        ensures
            after@ == self@.put(x, y, v),
    {
        let n = self.size as int;
        let goal = self@.put(x, y, v);
        lemma_index_in_range(n, x, y);
        assert forall|a: int| 0 <= a < n implies #[trigger] after@.cols[a] == goal.cols[a] by {
            assert forall|b: int| 0 <= b < n implies #[trigger] after@.cols[a][b]
                == goal.cols[a][b] by {
                lemma_index_in_range(n, a, b);
                if a * n + b == x * n + y {
                    lemma_index_injective(n, a, b, x, y);
                }
            }
            assert(after@.cols[a] =~= goal.cols[a]);
        }
        assert(after@.cols =~= goal.cols);
    }

    /// Returns the cells of the board, column after column, each column from
    /// the top down.
    pub fn fields(&self) -> (fields: &Vec<Field>)
        ensures
            fields@.len() == self@.size * self@.size,
            forall|x: int, y: int|
                self@.has(x, y) ==> 0 <= x * self@.size + y < fields@.len() && fields@[x
                    * self@.size + y] == #[trigger] self@.at(x, y),
    {
        proof {
            use_type_invariant(self);
            assert forall|x: int, y: int| self@.has(x, y) implies 0 <= x * self@.size + y
                < self.fields@.len() && self.fields@[x * self@.size + y] == #[trigger] self@.at(
                x,
                y,
            ) by {
                self.lemma_position(x, y);
            }
        }
        &self.fields
    }

    /// Returns the cell at column `x` and row `y`.
    pub fn get(&self, x: usize, y: usize) -> (field: Field)
        requires
            self@.has(x as int, y as int),
        ensures
            field == self@.at(x as int, y as int),
            self@.wf(),
    {
        proof {
            use_type_invariant(self);
            self.lemma_position(x as int, y as int);
        }
        self.fields[x * self.size + y]
    }

    /// Sets the empty cell at column `x` and row `y` to `field`, which is an
    /// `X` or an `O`.
    pub fn set(&mut self, x: usize, y: usize, field: Field)
        requires
            old(self)@.has(x as int, y as int),
            old(self)@.at(x as int, y as int) == Field::Empty,
            field != Field::Empty,
        ensures
            final(self)@ == old(self)@.put(x as int, y as int, field),
            final(self)@.wf(),
    {
        proof {
            use_type_invariant(&*self);
            self.lemma_position(x as int, y as int);
            self@.lemma_put(x as int, y as int, field);
        }
        let index: usize = x * self.size + y;
        self.fields[index] = field;
        proof {
            old(self).lemma_update_is_put(*self, x as int, y as int, field);
        }
    }

    /// Empties the cell at column `x` and row `y`, which holds an `X` or an
    /// `O`.
    pub fn clear(&mut self, x: usize, y: usize)
        requires
            old(self)@.has(x as int, y as int),
            old(self)@.at(x as int, y as int) != Field::Empty,
        ensures
            final(self)@ == old(self)@.put(x as int, y as int, Field::Empty),
            final(self)@.wf(),
    {
        proof {
            use_type_invariant(&*self);
            self.lemma_position(x as int, y as int);
            self@.lemma_put(x as int, y as int, Field::Empty);
        }
        let index: usize = x * self.size + y;
        self.fields[index] = Field::Empty;
        proof {
            old(self).lemma_update_is_put(*self, x as int, y as int, Field::Empty);
        }
    }
}

} // verus!
