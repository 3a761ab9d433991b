//! The grid data type and its well-formedness predicate.

use vstd::prelude::*;

verus! {

/// The state of a single cell.
#[derive(Copy, Clone, PartialEq, Eq, Structural, Debug)]
pub enum CellState {
    Dead,
    Alive,
}

impl View for CellState {
    type V = CellState;

    open spec fn view(&self) -> CellState {
        *self
    }
}

impl DeepView for CellState {
    type V = CellState;

    open spec fn deep_view(&self) -> CellState {
        *self
    }
}

/// A grid of cells: a vector of rows. All rows must have the same length.
pub type Cells = Vec<Vec<CellState>>;

/// Well-formedness of a grid model: at least one row, at least one column,
/// and every row of the same length (rectangularity).
pub open spec fn grid_wf(g: Seq<Seq<CellState>>) -> bool {
    &&& g.len() >= 1
    &&& g[0].len() >= 1
    &&& forall|i: int| 0 <= i < g.len() ==> (#[trigger] g[i]).len() == g[0].len()
}

/// The deep view of a row of cells is its plain view.
pub broadcast proof fn lemma_row_deep_view(r: Vec<CellState>)
    ensures
        #[trigger] r.deep_view() == r@,
{
    assert(r.deep_view() =~= r@);
}

/// Dimensions of a rectangular table.
pub trait TableLike {
    /// Number of rows, as a mathematical value.
    spec fn spec_rows(&self) -> nat;

    /// Number of columns, as a mathematical value.
    spec fn spec_cols(&self) -> nat;

    /// Number of rows.
    fn num_rows(&self) -> (n: usize)
        ensures
            n == self.spec_rows(),
    ;

    /// Number of columns.
    fn num_cols(&self) -> (n: usize)
        requires
            self.spec_rows() >= 1,
        ensures
            n == self.spec_cols(),
    ;

    /// Index of the last row.
    fn last_row(&self) -> (r: usize)
        requires
            self.spec_rows() >= 1,
        ensures
            r == self.spec_rows() - 1,
    ;

    /// Index of the last column.
    fn last_col(&self) -> (c: usize)
        requires
            self.spec_rows() >= 1,
            self.spec_cols() >= 1,
        ensures
            c == self.spec_cols() - 1,
    ;
}

impl TableLike for Cells {
    open spec fn spec_rows(&self) -> nat {
        self@.len()
    }

    open spec fn spec_cols(&self) -> nat {
        self@[0]@.len()
    }

    fn num_rows(&self) -> (n: usize) {
        self.len()
    }

    fn num_cols(&self) -> (n: usize) {
        self[0].len()
    }

    fn last_row(&self) -> (r: usize) {
        self.len() - 1
    }

    fn last_col(&self) -> (c: usize) {
        self[0].len() - 1
    }
}

} // verus!
