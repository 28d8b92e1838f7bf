//! The execution trace: a table of field elements with a fixed number of
//! columns, whose rows are read cyclically.

use crate::field::FieldElement;
use vstd::prelude::*;

verus! {

/// What a trace table holds: its shape and its cells row by row.
pub struct TableView {
    pub num_rows: nat,
    pub num_columns: nat,
    pub cells: Seq<nat>,
}

impl TableView {
    /// There is a cell for each column of each row.
    pub open spec fn well_formed(self) -> bool {
        self.cells.len() == self.num_rows * self.num_columns
    }

    /// The cell of a column at a row. Rows wrap around: the row after the
    /// last one is the first.
    pub open spec fn at(self, column: int, row: int) -> nat {
        self.cells[(row % (self.num_rows as int)) * self.num_columns + column]
    }

    /// The table with one cell replaced.
    pub open spec fn with(self, column: int, row: int, value: nat) -> TableView {
        TableView {
            num_rows: self.num_rows,
            num_columns: self.num_columns,
            cells: self.cells.update(row * self.num_columns + column, value),
        }
    }
}

/// A table of field elements, held row by row.
pub struct TraceTable {
    num_rows: usize,
    num_columns: usize,
    values: Vec<FieldElement>,
}

impl View for TraceTable {
    type V = TableView;

    closed spec fn view(&self) -> TableView {
        TableView {
            num_rows: self.num_rows as nat,
            num_columns: self.num_columns as nat,
            cells: self.values@.map_values(|e: FieldElement| e@),
        }
    }
}

proof fn lemma_cell_index(row: int, column: int, num_rows: int, num_columns: int)
    requires
        0 <= row < num_rows,
        0 <= column < num_columns,
    ensures
        0 <= row * num_columns <= row * num_columns + column < num_rows * num_columns,
{
    assert(row * num_columns >= 0) by (nonlinear_arith)
        requires
            row >= 0,
            num_columns > 0,
    ;
    assert((row + 1) * num_columns <= num_rows * num_columns) by (nonlinear_arith)
        requires
            row + 1 <= num_rows,
            num_columns > 0,
    ;
    assert((row + 1) * num_columns == row * num_columns + num_columns) by (nonlinear_arith);
}

impl TraceTable {
    #[verifier::type_invariant]
    spec fn consistent(self) -> bool {
        &&& self.values@.len() == self.num_rows * self.num_columns
        &&& self.num_rows * self.num_columns <= usize::MAX
    }

    /// A table of the given shape, all of whose cells are zero.
    pub fn new(num_rows: usize, num_columns: usize) -> (table: TraceTable)
        requires
            num_rows * num_columns <= usize::MAX,
        ensures
            table@.well_formed(),
            table@.num_rows == num_rows,
            table@.num_columns == num_columns,
            forall|k: int| 0 <= k < table@.cells.len() ==> table@.cells[k] == 0,
    {
        let cells: usize = num_rows * num_columns;
        let mut values: Vec<FieldElement> = Vec::new();
        let mut k: usize = 0;
        while k < cells
            invariant
                k <= cells,
                values@.len() == k,
                forall|j: int| 0 <= j < k ==> (#[trigger] values@[j])@ == 0,
            decreases cells - k,
        {
            values.push(FieldElement::zero());
            k += 1;
        }
        TraceTable { num_rows, num_columns, values }
    }

    /// The number of rows.
    pub fn num_rows(&self) -> (n: usize)
        ensures
            n == self@.num_rows,
            self@.well_formed(),
    {
        proof {
            use_type_invariant(self);
        }
        self.num_rows
    }

    /// The number of columns.
    pub fn num_columns(&self) -> (n: usize)
        ensures
            n == self@.num_columns,
    {
        self.num_columns
    }

    /// The cell of a column at a row of the table.
    pub fn get(&self, column: usize, row: usize) -> (value: FieldElement)
        requires
            column < self@.num_columns,
            row < self@.num_rows,
        ensures
            value@ == self@.at(column as int, row as int),
    {
        proof {
            use_type_invariant(self);
            lemma_cell_index(
                row as int,
                column as int,
                self.num_rows as int,
                self.num_columns as int,
            );
            vstd::arithmetic::div_mod::lemma_small_mod(row as nat, self.num_rows as nat);
        }
        self.values[row * self.num_columns + column]
    }

    /// Replaces the cell of a column at a row of the table.
    pub fn set(&mut self, column: usize, row: usize, value: FieldElement)
        requires
            column < old(self)@.num_columns,
            row < old(self)@.num_rows,
        ensures
            final(self)@ == old(self)@.with(column as int, row as int, value@),
    {
        proof {
            use_type_invariant(&*self);
            lemma_cell_index(
                row as int,
                column as int,
                self.num_rows as int,
                self.num_columns as int,
            );
        }
        let index: usize = row * self.num_columns + column;
        self.values[index] = value;
        proof {
            assert(self@.cells =~= old(self)@.with(column as int, row as int, value@).cells);
        }
    }

    /// The cell of a column that lies `offset` rows after `row`, counted
    /// cyclically.
    pub fn cell(&self, column: usize, row: usize, offset: usize) -> (value: FieldElement)
        requires
            column < self@.num_columns,
            self@.num_rows > 0,
        ensures
            value@ == self@.at(column as int, row + offset),
    {
        let n: usize = self.num_rows;
        let a: usize = row % n;
        let b: usize = offset % n;
        let wrapped: usize = if a >= n - b {
            a - (n - b)
        } else {
            a + b
        };
        proof {
            use_type_invariant(self);
            vstd::arithmetic::div_mod::lemma_add_mod_noop(row as int, offset as int, n as int);
            if a >= n - b {
                vstd::arithmetic::div_mod::lemma_mod_sub_multiples_vanish(
                    (a + b) as int,
                    n as int,
                );
                vstd::arithmetic::div_mod::lemma_small_mod((a + b - n) as nat, n as nat);
            } else {
                vstd::arithmetic::div_mod::lemma_small_mod((a + b) as nat, n as nat);
            }
            assert(wrapped == (row + offset) % (n as int));
            lemma_cell_index(wrapped as int, column as int, n as int, self.num_columns as int);
        }
        self.values[wrapped * self.num_columns + column]
    }
}

/// The empty trace of the exchange circuit: ten columns of `2^15` rows.
pub fn get_trace_table() -> (table: TraceTable)
    ensures
        table@.well_formed(),
        table@.num_rows == 32768,
        table@.num_columns == 10,
        forall|k: int| 0 <= k < table@.cells.len() ==> table@.cells[k] == 0,
{
    let num_columns: usize = 10;
    let num_rows: usize = 32768;
    TraceTable::new(num_rows, num_columns)
}

} // verus!
