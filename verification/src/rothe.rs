//! Rothe's diagram of the inversions of a permutation: a square table with a
//! dot where the permutation puts each element and a cross on every inversion.
use vstd::prelude::*;

verus! {

/// A permutation of `1..=n`, written as the list of its values.
pub struct Permutation {
    pub elements: Vec<u8>,
}

/// One cell of the diagram: empty, a dot (the permutation has its element
/// here) or a cross (an inversion).
#[derive(Copy, Clone, PartialEq, Eq, Structural, Debug)]
pub enum RotheInversionElem {
    Blank,
    Dot,
    X,
}

/// The diagram: `dimension` rows of `dimension` cells, stored row by row.
pub struct RotheInversionTable {
    dimension: usize,
    elements: Vec<RotheInversionElem>,
}

/// Where the cell in row `row` and column `col` is stored.
pub open spec fn slot(dimension: int, row: int, col: int) -> int {
    row * dimension + col
}

/// A cell inside the square has its slot inside the table.
pub proof fn lemma_slot_in_range(dimension: int, row: int, col: int)
    requires
        0 <= row < dimension,
        0 <= col < dimension,
    ensures
        0 <= slot(dimension, row, col) < dimension * dimension,
{
    assert(row * dimension + col < dimension * dimension) by (nonlinear_arith)
        requires
            0 <= row < dimension,
            0 <= col < dimension,
    ;
    assert(0 <= row * dimension) by (nonlinear_arith)
        requires
            0 <= row < dimension,
    ;
}

/// A slot inside the table belongs to a row inside the square.
pub proof fn lemma_slot_row(dimension: int, row: int, col: int)
    requires
        0 <= dimension,
        0 <= row,
        0 <= col,
        slot(dimension, row, col) < dimension * dimension,
    ensures
        row < dimension,
{
    assert(row < dimension) by (nonlinear_arith)
        requires
            0 <= dimension,
            0 <= row,
            0 <= col,
            row * dimension + col < dimension * dimension,
    ;
}

/// Two cells inside the square that share a slot are the same cell.
pub proof fn lemma_slot_unique(dimension: int, row: int, col: int, other_row: int, other_col: int)
    requires
        0 <= col < dimension,
        0 <= other_col < dimension,
        slot(dimension, row, col) == slot(dimension, other_row, other_col),
    ensures
        row == other_row,
        col == other_col,
{
    assert(row == other_row) by (nonlinear_arith)
        requires
            0 <= col < dimension,
            0 <= other_col < dimension,
            row * dimension + col == other_row * dimension + other_col,
    ;
}

/// The cell in row `row` and column `col` of a table with these cells holds a dot.
pub open spec fn is_dot(cells: Seq<RotheInversionElem>, dimension: int, row: int, col: int) -> bool {
    cells[slot(dimension, row, col)] == RotheInversionElem::Dot
}

/// Row `row` has a dot in column `col` or to the right of it.
pub open spec fn dot_to_right(
    cells: Seq<RotheInversionElem>,
    dimension: int,
    row: int,
    col: int,
) -> bool {
    exists|right: int| col <= right < dimension && #[trigger] is_dot(cells, dimension, row, right)
}

/// Column `col` has a dot in row `row` or below it.
pub open spec fn dot_below(
    cells: Seq<RotheInversionElem>,
    dimension: int,
    row: int,
    col: int,
) -> bool {
    exists|below: int| row <= below < dimension && #[trigger] is_dot(cells, dimension, below, col)
}

/// The cell marks an inversion: it holds no dot itself, but there is a dot to
/// its right in the same row and a dot below it in the same column.
pub open spec fn marks_inversion(
    cells: Seq<RotheInversionElem>,
    dimension: int,
    row: int,
    col: int,
) -> bool {
    &&& !is_dot(cells, dimension, row, col)
    &&& dot_to_right(cells, dimension, row, col)
    &&& dot_below(cells, dimension, row, col)
}

impl View for RotheInversionTable {
    type V = Seq<RotheInversionElem>;

    /// The cells, row by row.
    closed spec fn view(&self) -> Seq<RotheInversionElem> {
        self.elements@
    }
}

impl RotheInversionTable {
    #[verifier::type_invariant]
    spec fn well_formed(self) -> bool {
        self.elements.len() == self.dimension * self.dimension
    }

    /// The number of rows, which is also the number of columns.
    pub closed spec fn dim(self) -> int {
        self.dimension as int
    }

    /// The number of rows, which is also the number of columns.
    pub fn dimension(&self) -> (dimension: usize)
        ensures
            dimension == self.dim(),
            self@.len() == dimension * dimension,
    {
        proof {
            use_type_invariant(self);
        }
        self.dimension
    }

    /// The cell in row `row` and column `col`.
    pub fn get(&self, row: usize, col: usize) -> (cell: RotheInversionElem)
        requires
            slot(self.dim(), row as int, col as int) < self@.len(),
        ensures
            cell == self@[slot(self.dim(), row as int, col as int)],
    {
        proof {
            use_type_invariant(self);
            assert(0 <= row * self.dimension) by (nonlinear_arith);
        }
        let index = row * self.dimension + col;
        self.elements[index]
    }

    /// Stores `val` in the cell in row `row` and column `col`.
    pub fn put(&mut self, row: usize, col: usize, val: RotheInversionElem)
        requires
            slot(old(self).dim(), row as int, col as int) < old(self)@.len(),
        ensures
            final(self).dim() == old(self).dim(),
            final(self)@ == old(self)@.update(slot(old(self).dim(), row as int, col as int), val),
    {
        proof {
            use_type_invariant(&*self);
            assert(0 <= row * self.dimension) by (nonlinear_arith);
        }
        let index = row * self.dimension + col;
        self.elements[index] = val
    }

    /// Whether the cell in row `i` and column `j` marks an inversion. The cell
    /// does if it holds no dot, a dot stands to its right in row `i`, and a dot
    /// stands below it in column `j`.
    pub fn has_inversion(&self, i: usize, j: usize) -> (inverted: bool)
        requires
            slot(self.dim(), i as int, j as int) < self@.len(),
        ensures
            inverted == marks_inversion(self@, self.dim(), i as int, j as int),
    {
        let dimension = self.dimension();
        proof {
            lemma_slot_row(dimension as int, i as int, j as int);
        }
        if self.get(i, j) == RotheInversionElem::Dot {
            return false;
        }
        let mut dot_right = false;
        let mut jprime = j;
        while jprime < dimension
            invariant
                dimension == self.dim(),
                self@.len() == dimension * dimension,
                i < dimension,
                j <= jprime,
                jprime == j || jprime <= dimension,
                dot_right == exists|right: int|
                    j <= right < jprime && #[trigger] is_dot(self@, dimension as int, i as int, right),
            decreases dimension - jprime,
        {
            proof {
                lemma_slot_in_range(dimension as int, i as int, jprime as int);
            }
            if self.get(i, jprime) == RotheInversionElem::Dot {
                assert(is_dot(self@, dimension as int, i as int, jprime as int));
                dot_right = true;
            }
            jprime += 1;
        }
        if !dot_right {
            return false;
        }
        proof {
            let right = choose|right: int|
                j <= right < jprime && #[trigger] is_dot(self@, dimension as int, i as int, right);
            assert(is_dot(self@, dimension as int, i as int, right));
        }
        let mut iprime = i;
        while iprime < dimension
            invariant
                dimension == self.dim(),
                self@.len() == dimension * dimension,
                j < dimension,
                i <= iprime,
                !is_dot(self@, dimension as int, i as int, j as int),
                dot_to_right(self@, dimension as int, i as int, j as int),
                forall|below: int|
                    i <= below < iprime ==> !#[trigger] is_dot(
                        self@,
                        dimension as int,
                        below,
                        j as int,
                    ),
            decreases dimension - iprime,
        {
            proof {
                lemma_slot_in_range(dimension as int, iprime as int, j as int);
            }
            if self.get(iprime, j) == RotheInversionElem::Dot {
                assert(is_dot(self@, dimension as int, iprime as int, j as int));
                return true;
            }
            iprime += 1;
        }
        false
    }
}

/// One of the first `rows` values of the permutation puts its dot in slot `index`.
pub open spec fn dotted_by(values: Seq<u8>, rows: int, index: int) -> bool {
    exists|r: int|
        0 <= r < rows && slot(values.len() as int, r, (#[trigger] values[r]) - 1) == index
}

/// The table that holds the dots of the permutation and nothing else: row `r`
/// has its dot in column `values[r] - 1`.
pub open spec fn dots_of(values: Seq<u8>) -> Seq<RotheInversionElem> {
    Seq::new(
        values.len() * values.len(),
        |index: int|
            if dotted_by(values, values.len() as int, index) {
                RotheInversionElem::Dot
            } else {
                RotheInversionElem::Blank
            },
    )
}

/// What Rothe's diagram of the permutation holds in row `row` and column
/// `col`: the dot of that row, a cross where the dots mark an inversion, and
/// nothing elsewhere.
pub open spec fn rothe_cell(values: Seq<u8>, row: int, col: int) -> RotheInversionElem {
    let dimension = values.len() as int;
    if is_dot(dots_of(values), dimension, row, col) {
        RotheInversionElem::Dot
    } else if marks_inversion(dots_of(values), dimension, row, col) {
        RotheInversionElem::X
    } else {
        RotheInversionElem::Blank
    }
}

/// Whether a cell marks an inversion depends on where the dots are and on
/// nothing else.
proof fn lemma_same_dots(
    one: Seq<RotheInversionElem>,
    other: Seq<RotheInversionElem>,
    dimension: int,
    row: int,
    col: int,
)
    requires
        one.len() == dimension * dimension,
        other.len() == dimension * dimension,
        forall|index: int|
            0 <= index < one.len() ==> (#[trigger] one[index] == RotheInversionElem::Dot) == (
            other[index] == RotheInversionElem::Dot),
        0 <= row < dimension,
        0 <= col < dimension,
    ensures
        marks_inversion(one, dimension, row, col) == marks_inversion(other, dimension, row, col),
{
    assert forall|r: int, c: int| 0 <= r < dimension && 0 <= c < dimension implies #[trigger] is_dot(
        one,
        dimension,
        r,
        c,
    ) == is_dot(other, dimension, r, c) by {
        lemma_slot_in_range(dimension, r, c);
        assert((one[slot(dimension, r, c)] == RotheInversionElem::Dot) == (other[slot(
            dimension,
            r,
            c,
        )] == RotheInversionElem::Dot));
    }
    if dot_to_right(one, dimension, row, col) {
        let right = choose|right: int|
            col <= right < dimension && #[trigger] is_dot(one, dimension, row, right);
        assert(is_dot(other, dimension, row, right));
    }
    if dot_to_right(other, dimension, row, col) {
        let right = choose|right: int|
            col <= right < dimension && #[trigger] is_dot(other, dimension, row, right);
        assert(is_dot(one, dimension, row, right));
    }
    if dot_below(one, dimension, row, col) {
        let below = choose|below: int|
            row <= below < dimension && #[trigger] is_dot(one, dimension, below, col);
        assert(is_dot(other, dimension, below, col));
    }
    if dot_below(other, dimension, row, col) {
        let below = choose|below: int|
            row <= below < dimension && #[trigger] is_dot(other, dimension, below, col);
        assert(is_dot(one, dimension, below, col));
    }
}

/// Draws Rothe's diagram of a permutation. The values are counted from 1, the
/// rows and columns from 0: the dot of row `r` goes to column `values[r] - 1`.
/// Every cell that then marks an inversion gets a cross.
pub fn create_inversion_table(permutation: Permutation) -> (table: RotheInversionTable)
    requires
        permutation.elements@.len() * permutation.elements@.len() <= usize::MAX,
        forall|r: int|
            0 <= r < permutation.elements@.len() ==> (#[trigger] permutation.elements@[r]) >= 1
                && slot(
                permutation.elements@.len() as int,
                r,
                permutation.elements@[r] - 1,
            ) < permutation.elements@.len() * permutation.elements@.len(),
    ensures
        table.dim() == permutation.elements@.len(),
        table@.len() == table.dim() * table.dim(),
        forall|row: int, col: int|
            0 <= row < table.dim() && 0 <= col < table.dim() ==> table@[#[trigger] slot(
                table.dim(),
                row,
                col,
            )] == rothe_cell(permutation.elements@, row, col),
{
    let ghost values = permutation.elements@;
    let dim = permutation.elements.len();
    assert(dim * dim == values.len() * values.len());
    let elems = vec![RotheInversionElem::Blank; dim * dim];
    let mut table = RotheInversionTable { dimension: dim, elements: elems };
    // The dots come first.
    for i in 0..dim
        invariant
            values == permutation.elements@,
            dim == values.len(),
            table.dim() == dim,
            table@.len() == dim * dim,
            forall|r: int|
                0 <= r < values.len() ==> (#[trigger] values[r]) >= 1 && slot(
                    dim as int,
                    r,
                    values[r] - 1,
                ) < dim * dim,
            forall|index: int|
                0 <= index < table@.len() ==> #[trigger] table@[index] == if dotted_by(
                    values,
                    i as int,
                    index,
                ) {
                    RotheInversionElem::Dot
                } else {
                    RotheInversionElem::Blank
                },
    {
        let e: usize = permutation.elements[i] as usize;
        assert(values[i as int] >= 1);
        let ghost before = table@;
        table.put(i, e - 1, RotheInversionElem::Dot);
        proof {
            let target = slot(dim as int, i as int, e - 1);
            assert forall|index: int| 0 <= index < table@.len() implies #[trigger] table@[index]
                == if dotted_by(values, i + 1, index) {
                RotheInversionElem::Dot
            } else {
                RotheInversionElem::Blank
            } by {
                if dotted_by(values, i as int, index) {
                    let r = choose|r: int|
                        0 <= r < i && slot(values.len() as int, r, (#[trigger] values[r]) - 1)
                            == index;
                    assert(slot(values.len() as int, r, values[r] - 1) == index);
                }
                if index == target {
                    assert(slot(values.len() as int, i as int, values[i as int] - 1) == index);
                }
                if dotted_by(values, i + 1, index) {
                    let r = choose|r: int|
                        0 <= r < i + 1 && slot(values.len() as int, r, (#[trigger] values[r]) - 1)
                            == index;
                    if r < i {
                        assert(dotted_by(values, i as int, index));
                    }
                }
            }
        }
    }
    let ghost dots = table@;
    assert(dots =~= dots_of(values));
    // Then every cell is examined, dots and cells to the right of a dot included.
    for i in 0..dim
        invariant
            dim == values.len(),
            table.dim() == dim,
            table@.len() == dim * dim,
            dots == dots_of(values),
            forall|index: int|
                0 <= index < table@.len() ==> (#[trigger] table@[index] == RotheInversionElem::Dot)
                    == (dots[index] == RotheInversionElem::Dot),
            forall|row: int, col: int|
                0 <= row < dim && 0 <= col < dim ==> table@[#[trigger] slot(dim as int, row, col)]
                    == if row < i {
                    rothe_cell(values, row, col)
                } else {
                    dots[slot(dim as int, row, col)]
                },
    {
        for j in 0..dim
            invariant
                i < dim,
                dim == values.len(),
                table.dim() == dim,
                table@.len() == dim * dim,
                dots == dots_of(values),
                forall|index: int|
                    0 <= index < table@.len() ==> (#[trigger] table@[index]
                        == RotheInversionElem::Dot) == (dots[index] == RotheInversionElem::Dot),
                forall|row: int, col: int|
                    0 <= row < dim && 0 <= col < dim ==> table@[#[trigger] slot(
                        dim as int,
                        row,
                        col,
                    )] == if row < i || (row == i && col < j) {
                        rothe_cell(values, row, col)
                    } else {
                        dots[slot(dim as int, row, col)]
                    },
        {
            proof {
                lemma_slot_in_range(dim as int, i as int, j as int);
                lemma_same_dots(table@, dots, dim as int, i as int, j as int);
            }
            let ghost before = table@;
            let ghost here = slot(dim as int, i as int, j as int);
            assert(before[here] == dots[here]);
            if table.has_inversion(i, j) {
                table.put(i, j, RotheInversionElem::X);
            }
            proof {
                assert(table@[here] == rothe_cell(values, i as int, j as int));
                assert forall|row: int, col: int| 0 <= row < dim && 0 <= col < dim implies table@[
                #[trigger] slot(dim as int, row, col)] == if row < i || (row == i && col < j + 1) {
                    rothe_cell(values, row, col)
                } else {
                    dots[slot(dim as int, row, col)]
                } by {
                    lemma_slot_in_range(dim as int, row, col);
                    if slot(dim as int, row, col) == here {
                        lemma_slot_unique(dim as int, row, col, i as int, j as int);
                    } else {
                        assert(table@[slot(dim as int, row, col)] == before[slot(
                            dim as int,
                            row,
                            col,
                        )]);
                    }
                }
            }
        }
    }
    table
}

/// Where the values are those of a permutation of `1..=n`, the dot of a row
/// stands in the column of the row's value, and row `row` has a cross in
/// column `col` exactly when the value `col + 1` is smaller than the value of
/// that row and comes later in the permutation: the two are an inversion.
pub proof fn lemma_cell_of_permutation(values: Seq<u8>, row: int, col: int)
    requires
        forall|r: int| 0 <= r < values.len() ==> 1 <= #[trigger] values[r] <= values.len(),
        0 <= row < values.len(),
        0 <= col < values.len(),
    ensures
        rothe_cell(values, row, col) == if values[row] == col + 1 {
            RotheInversionElem::Dot
        } else if values[row] > col + 1 && exists|later: int|
            row < later < values.len() && #[trigger] values[later] == col + 1 {
            RotheInversionElem::X
        } else {
            RotheInversionElem::Blank
        },
{
    let n = values.len() as int;
    let dots = dots_of(values);
    assert forall|r: int, c: int| 0 <= r < n && 0 <= c < n implies (#[trigger] is_dot(
        dots,
        n,
        r,
        c,
    ) <==> values[r] == c + 1) by {
        lemma_slot_in_range(n, r, c);
        if dotted_by(values, n, slot(n, r, c)) {
            let k = choose|k: int|
                0 <= k < n && slot(n, k, (#[trigger] values[k]) - 1) == slot(n, r, c);
            lemma_slot_unique(n, k, values[k] - 1, r, c);
        }
        if values[r] == c + 1 {
            assert(slot(n, r, values[r] - 1) == slot(n, r, c));
        }
    }
    if dot_to_right(dots, n, row, col) {
        let right = choose|right: int| col <= right < n && #[trigger] is_dot(dots, n, row, right);
        assert(values[row] == right + 1);
    }
    if values[row] >= col + 1 {
        assert(is_dot(dots, n, row, values[row] - 1));
    }
    if dot_below(dots, n, row, col) {
        let below = choose|below: int| row <= below < n && #[trigger] is_dot(dots, n, below, col);
        assert(values[below] == col + 1);
    }
    if exists|later: int| row < later < n && #[trigger] values[later] == col + 1 {
        let later = choose|later: int| row < later < n && #[trigger] values[later] == col + 1;
        assert(is_dot(dots, n, later, col));
    }
}

} // verus!
