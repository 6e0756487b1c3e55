//! Reading a table of examples from CSV text.
use vstd::prelude::*;
use ndarray_csv::Array2Reader;
use ndarray_csv::ReadError;
use crate::table::{Table, grid_of_cells};
use crate::values::strs;

verus! {

#[verifier::external_type_specification]
#[verifier::external_body]
pub struct ExReadError(ReadError);

/// What `csv` (with no header row) and `ndarray_csv::Array2Reader::deserialize_array2_dynamic`
/// read from `bytes` as a two-dimensional array of strings: its cells in row order,
/// its number of rows and its number of columns; `None` where reading fails.
pub uninterp spec fn csv_cells(bytes: Seq<u8>) -> Option<(Seq<Seq<char>>, usize, usize)>;

/// Reads `bytes` as CSV with no header row through `csv::ReaderBuilder` and
/// `ndarray_csv::Array2Reader::deserialize_array2_dynamic` into an array of strings,
/// and hands out its cells in row order with its shape. The result is what
/// `csv_cells` names, and an array holds as many cells as its shape says.
#[verifier::external_body]
fn read_cells(bytes: &[u8]) -> (r: Result<(Vec<String>, usize, usize), ReadError>)
    ensures
        match r {
            Ok((cells, nrows, ncols)) => csv_cells(bytes@) == Some((strs(cells@), nrows, ncols))
                && cells.len() == nrows * ncols,
            Err(_) => csv_cells(bytes@) is None,
        },
{
    let mut reader = csv::ReaderBuilder::new().has_headers(false).from_reader(bytes);
    match reader.deserialize_array2_dynamic::<String>() {
        Ok(array) => {
            let (nrows, ncols) = array.dim();
            Ok((array.into_iter().collect(), nrows, ncols))
        },
        Err(error) => Err(error),
    }
}

/// Why a table could not be read.
#[derive(Debug)]
pub enum LoadError {
    /// The CSV reader failed: malformed CSV, a cell that is not UTF-8, or rows of
    /// different lengths.
    Csv(ReadError),
}

/// Reads a table of examples from CSV text with no header row: one example per
/// line, the target attribute in the last column.
pub fn parse_examples(bytes: &[u8]) -> (r: Result<Table, LoadError>)
    ensures
        match r {
            Ok(t) => csv_cells(bytes@) matches Some((cells, nrows, ncols)) && t@ == grid_of_cells(
                cells,
                nrows as nat,
                ncols as nat,
            ),
            Err(_) => csv_cells(bytes@) is None,
        },
{
    match read_cells(bytes) {
        Ok((cells, nrows, ncols)) => {
            let table = Table::from_shape_vec((nrows, ncols), cells);
            Ok(table.unwrap())
        },
        Err(error) => Err(LoadError::Csv(error)),
    }
}

} // verus!
