//! A table: columns of one length, each under a label.

use crate::column::Column;
use crate::datavalue::DataValue;
use crate::text::{str_texts, string_texts};
use vstd::prelude::*;

verus! {

/// What a table holds: the labels of its columns and, column by column,
/// the texts of its cells.
pub struct Table {
    pub labels: Seq<Seq<char>>,
    pub columns: Seq<Seq<Seq<char>>>,
}

impl Table {
    /// Each column has a label, and all columns have one length.
    pub open spec fn wf(self) -> bool {
        &&& self.labels.len() == self.columns.len()
        &&& forall|i: int, j: int|
            0 <= i < self.columns.len() && 0 <= j < self.columns.len() ==> (
            #[trigger] self.columns[i]).len() == (#[trigger] self.columns[j]).len()
    }

    /// The number of columns.
    pub open spec fn col_count(self) -> nat {
        self.columns.len()
    }

    /// The number of rows: the length of the columns, and 0 where there is
    /// no column.
    pub open spec fn row_count(self) -> nat {
        if self.columns.len() > 0 {
            self.columns[0].len()
        } else {
            0
        }
    }

    /// The text of the cell in the row `row` of the column `col`.
    pub open spec fn cell(self, row: int, col: int) -> Seq<char> {
        self.columns[col][row]
    }

    /// The texts of the row `row`, in the order of the columns.
    pub open spec fn row(self, row: int) -> Seq<Seq<char>> {
        Seq::new(self.columns.len(), |c: int| self.columns[c][row])
    }

    /// The table with the labels `labels` and `rows` rows of cells without
    /// text.
    pub open spec fn blank(labels: Seq<Seq<char>>, rows: nat) -> Table {
        Table {
            labels,
            columns: Seq::new(
                labels.len(),
                |c: int| Seq::new(rows, |r: int| Seq::<char>::empty()),
            ),
        }
    }

    /// The table with one more row, which holds `values`, one text for each
    /// column.
    pub open spec fn with_row(self, values: Seq<Seq<char>>) -> Table {
        Table {
            labels: self.labels,
            columns: Seq::new(self.columns.len(), |c: int| self.columns[c].push(values[c])),
        }
    }
}

/// A table. Its columns stand in the order in which they were given, the
/// first at the place 0, and have all the same number of rows.
pub struct DataSet {
    columns: Vec<Column>,
}

impl View for DataSet {
    type V = Table;

    closed spec fn view(&self) -> Table {
        Table {
            labels: Seq::new(self.columns@.len(), |c: int| self.columns@[c].label@),
            columns: Seq::new(self.columns@.len(), |c: int| self.columns@[c].data@),
        }
    }
}

impl DataSet {
    #[verifier::type_invariant]
    spec fn columns_of_one_length(&self) -> bool {
        self@.wf()
    }

    /// A table with one column for each of `labels`, in their order, and
    /// `row_count` rows of cells without text.
    pub fn new(labels: Vec<&str>, row_count: usize) -> (ds: DataSet)
        ensures
            ds@ == Table::blank(str_texts(labels@), row_count as nat),
            ds@.wf(),
    {
        let mut columns: Vec<Column> = Vec::new();
        let mut i: usize = 0;
        while i < labels.len()
            invariant
                i <= labels@.len(),
                columns@.len() == i,
                forall|c: int|
                    0 <= c < i ==> (#[trigger] columns@[c]).label@ == labels@[c]@
                        && columns@[c].data@ == Seq::new(
                        row_count as nat,
                        |r: int| Seq::<char>::empty(),
                    ),
            decreases labels@.len() - i,
        {
            columns.push(Column::new(labels[i], row_count));
            i += 1;
        }
        let ghost want = Table::blank(str_texts(labels@), row_count as nat);
        let ghost got = Table {
            labels: Seq::new(columns@.len(), |c: int| columns@[c].label@),
            columns: Seq::new(columns@.len(), |c: int| columns@[c].data@),
        };
        assert(got.labels =~= want.labels);
        assert(got.columns =~= want.columns);
        DataSet { columns }
    }

    /// The number of columns.
    pub fn col_count(&self) -> (n: usize)
        ensures
            n == self@.col_count(),
    {
        self.columns.len()
    }

    /// The number of rows; 0 where the table has no column.
    pub fn row_count(&self) -> (n: usize)
        ensures
            n == self@.row_count(),
    {
        if self.columns.len() != 0 {
            self.columns[0].data.len()
        } else {
            0
        }
    }

    /// The label of the column `index`.
    pub fn col_label(&self, index: usize) -> (r: &str)
        requires
            index < self@.col_count(),
        ensures
            r@ == self@.labels[index as int],
    {
        self.columns[index].label()
    }

    /// The column `index`.
    pub fn column(&self, index: usize) -> (c: &Column)
        requires
            index < self@.col_count(),
        ensures
            c.label@ == self@.labels[index as int],
            c.data@ == self@.columns[index as int],
            c.data@.len() == self@.row_count(),
    {
        proof {
            use_type_invariant(self);
            assert(self@.columns[index as int].len() == self@.columns[0].len());
        }
        &self.columns[index]
    }

    /// Adds one row at the end: in each column a cell with the text that
    /// `values` holds for it.
    pub fn add_row(&mut self, values: Vec<String>)
        requires
            values@.len() == old(self)@.col_count(),
        ensures
            final(self)@ == old(self)@.with_row(string_texts(values@)),
            final(self)@.wf(),
            final(self)@.col_count() == old(self)@.col_count(),
            old(self)@.col_count() > 0 ==> final(self)@.row_count() == old(self)@.row_count() + 1,
            forall|r: int|
                0 <= r < old(self)@.row_count() ==> final(self)@.row(r) == old(self)@.row(r),
            old(self)@.col_count() > 0 ==> final(self)@.row(old(self)@.row_count() as int)
                == string_texts(values@),
    {
        proof {
            use_type_invariant(&*self);
        }
        let ghost before = self@;
        let mut columns: Vec<Column> = Vec::new();
        std::mem::swap(&mut columns, &mut self.columns);
        let mut i: usize = 0;
        while i < columns.len()
            invariant
                i <= columns@.len(),
                columns@.len() == before.columns.len(),
                values@.len() == columns@.len(),
                forall|c: int| 0 <= c < columns@.len() ==> (#[trigger] columns@[c]).label@ == before.labels[c],
                forall|c: int| 0 <= c < i ==> (#[trigger] columns@[c]).data@ == before.columns[c].push(values@[c]@),
                forall|c: int| i <= c < columns@.len() ==> (#[trigger] columns@[c]).data@ == before.columns[c],
            decreases columns@.len() - i,
        {
            columns[i].data.add_row(values[i].as_str());
            i += 1;
        }
        let ghost want = before.with_row(string_texts(values@));
        let ghost got = Table {
            labels: Seq::new(columns@.len(), |c: int| columns@[c].label@),
            columns: Seq::new(columns@.len(), |c: int| columns@[c].data@),
        };
        assert(got.labels =~= want.labels);
        assert(got.columns =~= want.columns);
        self.columns = columns;
        proof {
            Table::lemma_with_row(before, string_texts(values@));
        }
    }

    /// The cell in the row `row` of the column `col`.
    pub fn at(&self, row: usize, col: usize) -> (r: &DataValue)
        requires
            col < self@.col_count(),
            row < self@.row_count(),
        ensures
            r@ == self@.cell(row as int, col as int),
            r.wf(),
    {
        proof {
            use_type_invariant(self);
            assert(self@.columns[col as int].len() == self@.columns[0].len());
        }
        &self.columns[col].data[row]
    }
}

impl Table {
    /// One more row makes the table one row longer, where it has a column,
    /// and leaves the rows that were there as they were.
    pub proof fn lemma_with_row(t: Table, values: Seq<Seq<char>>)
        requires
            t.wf(),
            values.len() == t.col_count(),
        ensures
            t.with_row(values).wf(),
            t.with_row(values).labels == t.labels,
            t.with_row(values).col_count() == t.col_count(),
            t.col_count() > 0 ==> t.with_row(values).row_count() == t.row_count() + 1,
            forall|r: int| 0 <= r < t.row_count() ==> t.with_row(values).row(r) == t.row(r),
            t.col_count() > 0 ==> t.with_row(values).row(t.row_count() as int) == values,
    {
        let u = t.with_row(values);
        assert forall|r: int| 0 <= r < t.row_count() implies u.row(r) == t.row(r) by {
            assert forall|c: int| 0 <= c < t.columns.len() implies u.columns[c][r]
                == t.columns[c][r] by {
                assert(t.columns[c].len() == t.columns[0].len());
            }
            assert(u.row(r) =~= t.row(r));
        }
        if t.col_count() > 0 {
            assert forall|c: int| 0 <= c < t.columns.len() implies u.columns[c][t.row_count() as int]
                == values[c] by {
                assert(t.columns[c].len() == t.columns[0].len());
            }
            assert(u.row(t.row_count() as int) =~= values);
        }
    }
}

} // verus!
