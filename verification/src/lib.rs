//! An in-memory table of text cells, with a numeric reading of each cell,
//! and a reader that fills such a table from delimited text.

pub mod column;
pub mod csv_loader;
pub mod dataseries;
pub mod dataset;
pub mod datavalue;
pub mod limit;
pub mod limit_digits;
pub mod magnitude;
pub mod number;
pub mod quotes;
pub mod text;
