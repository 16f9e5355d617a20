//! A column with its label.

use crate::dataseries::DataSeries;
use vstd::prelude::*;
use vstd::string::*;

verus! {

/// A column of cells under a label. Labels need not differ from one
/// column to the next.
pub struct Column {
    pub label: String,
    pub data: DataSeries,
}

impl Column {
    /// A column under `label` with `size` cells without text.
    pub fn new(label: &str, size: usize) -> (c: Column)
        ensures
            c.label@ == label@,
            c.data@ == Seq::new(size as nat, |i: int| Seq::<char>::empty()),
    {
        Column { label: label.to_owned(), data: DataSeries::new(size) }
    }

    /// The label.
    pub fn label(&self) -> (r: &str)
        ensures
            r@ == self.label@,
    {
        self.label.as_str()
    }

    /// The cells.
    pub fn data(&self) -> (r: &DataSeries)
        ensures
            *r == self.data,
    {
        &self.data
    }
}

} // verus!
