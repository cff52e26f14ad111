//! The argument of the eigenvalue operation: a 6×6 matrix, given by rows or flat.

use crate::json::{
    json_field, json_items_view, lemma_json_items_view, spec_json_field, Json, JsonValue,
};
use vstd::prelude::*;
use vstd::string::StringSliceAdditionalSpecFns;

verus! {

/// The number of rows and of columns.
pub const SIDE: usize = 6;

/// The number of cells.
pub const CELLS: usize = 36;

/// Why an argument does not give a matrix.
#[derive(Clone, Copy, Debug, PartialEq, Eq, Structural)]
pub enum ShapeError {
    /// `rows` is not an array.
    RowsNotVector,
    /// `rows` does not have six rows.
    RowsLength,
    /// A row is not an array.
    RowNotVector,
    /// A row does not have six entries.
    RowLength,
    /// An entry of a row is not a number.
    RowEntry,
    /// `data` is not an array.
    DataNotVector,
    /// `data` does not have 36 entries.
    DataLength,
    /// An entry of `data` is not a number.
    DataEntry,
    /// The argument has neither `rows` nor `data`.
    Missing,
}

impl ShapeError {
    /// The message of each error.
    pub open spec fn text(self) -> &'static str {
        match self {
            ShapeError::RowsNotVector => "rows must be a vector",
            ShapeError::RowsLength => "rows must have length 6",
            ShapeError::RowNotVector => "row must be a vector",
            ShapeError::RowLength => "each row must have length 6",
            ShapeError::RowEntry => "row entries must be numbers",
            ShapeError::DataNotVector => "data must be a vector",
            ShapeError::DataLength => "data must have length 36",
            ShapeError::DataEntry => "data entries must be numbers",
            ShapeError::Missing => "expected :data (len 36) or :rows (6x6)",
        }
    }

    /// The message of the error.
    pub fn message(&self) -> (r: &'static str)
        ensures
            r == self.text(),
    {
        match self {
            ShapeError::RowsNotVector => "rows must be a vector",
            ShapeError::RowsLength => "rows must have length 6",
            ShapeError::RowNotVector => "row must be a vector",
            ShapeError::RowLength => "each row must have length 6",
            ShapeError::RowEntry => "row entries must be numbers",
            ShapeError::DataNotVector => "data must be a vector",
            ShapeError::DataLength => "data must have length 36",
            ShapeError::DataEntry => "data entries must be numbers",
            ShapeError::Missing => "expected :data (len 36) or :rows (6x6)",
        }
    }
}

/// A matrix to take the eigenvalues of.
#[derive(Debug)]
pub struct MatrixInput {
    /// The 36 cells, row by row, each as the bit pattern of a double.
    pub cells: Vec<u64>,
    /// Whether the caller says that the matrix is symmetric.
    pub symmetric: bool,
}

/// The number that `j` is, as the bit pattern of a double.
pub open spec fn spec_json_number(j: JsonValue) -> Option<u64> {
    match j {
        JsonValue::Number(n) => n,
        _ => None,
    }
}

/// The numbers that `vals` are, if all of them are numbers.
pub open spec fn spec_numbers(vals: Seq<JsonValue>) -> Option<Seq<u64>>
    decreases vals.len(),
{
    if vals.len() == 0 {
        Some(Seq::empty())
    } else {
        match (spec_numbers(vals.drop_last()), spec_json_number(vals.last())) {
            (Some(ns), Some(n)) => Some(ns.push(n)),
            _ => None,
        }
    }
}

/// The six cells of a row.
pub open spec fn spec_row(row: JsonValue) -> Result<Seq<u64>, ShapeError> {
    match row {
        JsonValue::Array(vals) => if vals.len() != SIDE {
            Err(ShapeError::RowLength)
        } else {
            match spec_numbers(vals) {
                Some(ns) => Ok(ns),
                None => Err(ShapeError::RowEntry),
            }
        },
        _ => Err(ShapeError::RowNotVector),
    }
}

/// The cells of `rows`, row by row, or what is wrong with the first row that does
/// not give six cells.
pub open spec fn spec_rows(rows: Seq<JsonValue>) -> Result<Seq<u64>, ShapeError>
    decreases rows.len(),
{
    if rows.len() == 0 {
        Ok(Seq::empty())
    } else {
        match spec_rows(rows.drop_last()) {
            Ok(cells) => match spec_row(rows.last()) {
                Ok(row) => Ok(cells + row),
                Err(e) => Err(e),
            },
            Err(e) => Err(e),
        }
    }
}

/// The flag `symmetric` of an argument: false unless the argument is an object
/// whose member `symmetric` is `true`.
pub open spec fn spec_symmetric(input: JsonValue) -> bool {
    match spec_json_field(input, "symmetric".spec_bytes()) {
        Some(JsonValue::Bool(b)) => b,
        _ => false,
    }
}

/// The matrix that an argument gives: the cells of its member `rows`, six rows of
/// six numbers, or else of its member `data`, 36 numbers; and its flag.
pub open spec fn spec_build_matrix(input: JsonValue) -> Result<(Seq<u64>, bool), ShapeError> {
    match spec_json_field(input, "rows".spec_bytes()) {
        Some(JsonValue::Array(rows)) => if rows.len() != SIDE {
            Err(ShapeError::RowsLength)
        } else {
            match spec_rows(rows) {
                Ok(cells) => Ok((cells, spec_symmetric(input))),
                Err(e) => Err(e),
            }
        },
        Some(_) => Err(ShapeError::RowsNotVector),
        None => match spec_json_field(input, "data".spec_bytes()) {
            Some(JsonValue::Array(data)) => if data.len() != CELLS {
                Err(ShapeError::DataLength)
            } else {
                match spec_numbers(data) {
                    Some(cells) => Ok((cells, spec_symmetric(input))),
                    None => Err(ShapeError::DataEntry),
                }
            },
            Some(_) => Err(ShapeError::DataNotVector),
            None => Err(ShapeError::Missing),
        },
    }
}

/// As many numbers come out as values go in.
pub proof fn lemma_numbers_len(vals: Seq<JsonValue>)
    ensures
        spec_numbers(vals) matches Some(ns) ==> ns.len() == vals.len(),
    decreases vals.len(),
{
    if vals.len() > 0 {
        lemma_numbers_len(vals.drop_last());
    }
}

/// Six cells come out for each row.
pub proof fn lemma_rows_len(rows: Seq<JsonValue>)
    ensures
        spec_rows(rows) matches Ok(cells) ==> cells.len() == SIDE * rows.len(),
    decreases rows.len(),
{
    if rows.len() > 0 {
        lemma_rows_len(rows.drop_last());
        match rows.last() {
            JsonValue::Array(vals) => {
                lemma_numbers_len(vals);
            },
            _ => {},
        }
    }
}

/// A matrix has 36 cells.
pub proof fn lemma_build_matrix_cells(input: JsonValue)
    ensures
        spec_build_matrix(input) matches Ok((cells, _)) ==> cells.len() == CELLS,
{
    match spec_json_field(input, "rows".spec_bytes()) {
        Some(JsonValue::Array(rows)) => {
            lemma_rows_len(rows);
        },
        Some(_) => {},
        None => match spec_json_field(input, "data".spec_bytes()) {
            Some(JsonValue::Array(data)) => {
                lemma_numbers_len(data);
            },
            _ => {},
        },
    }
}

/// The number that `json` is, as the bit pattern of a double.
pub fn json_number(json: &Json) -> (r: Option<u64>)
    ensures
        r == spec_json_number(json@),
{
    match json {
        Json::Number(n) => *n,
        _ => None,
    }
}

/// Appends the numbers that `vals` are to `cells`; stops at the first that is no
/// number.
fn push_numbers(cells: &mut Vec<u64>, vals: &Vec<Json>) -> (ok: bool)
    ensures
        ok == spec_numbers(json_items_view(vals@)) is Some,
        ok ==> final(cells)@ == old(cells)@ + spec_numbers(
            json_items_view(vals@),
        )->0,
        spec_numbers(json_items_view(vals@)) is Some ==> spec_numbers(
            json_items_view(vals@),
        )->0.len() == vals@.len(),
{
    let ghost views = json_items_view(vals@);
    proof {
        lemma_json_items_view(vals@);
        assert(views.take(0) =~= Seq::<JsonValue>::empty());
        assert(cells@ + Seq::<u64>::empty() =~= cells@);
    }
    let mut i: usize = 0;
    while i < vals.len()
        invariant
            i <= vals@.len(),
            views == json_items_view(vals@),
            views.len() == vals@.len(),
            forall|j: int| 0 <= j < vals@.len() ==> (#[trigger] views[j]) == vals@[j]@,
            spec_numbers(views.take(i as int)) is Some,
            spec_numbers(views.take(i as int))->0.len() == i,
            cells@ == old(cells)@ + spec_numbers(views.take(i as int))->0,
        decreases vals@.len() - i,
    {
        proof {
            assert(views.take(i + 1).drop_last() =~= views.take(i as int));
            assert(views.take(i + 1).last() == views[i as int]);
        }
        match json_number(&vals[i]) {
            Some(n) => {
                cells.push(n);
                proof {
                    assert(cells@ =~= old(cells)@ + spec_numbers(views.take(i + 1))->0);
                }
            },
            None => {
                proof {
                    lemma_numbers_prefix(views, i + 1);
                }
                return false;
            },
        }
        i = i + 1;
    }
    proof {
        assert(views.take(views.len() as int) =~= views);
    }
    true
}

/// Where the first `k` of `vals` are not all numbers, `vals` are not.
pub proof fn lemma_numbers_prefix(vals: Seq<JsonValue>, k: int)
    requires
        0 <= k <= vals.len(),
        spec_numbers(vals.take(k)) is None,
    ensures
        spec_numbers(vals) is None,
    decreases vals.len(),
{
    if k == vals.len() {
        assert(vals.take(k) =~= vals);
    } else {
        assert(vals.drop_last().take(k) =~= vals.take(k));
        lemma_numbers_prefix(vals.drop_last(), k);
    }
}

/// Where the first `k` rows fail, the rows fail in the same way.
pub proof fn lemma_rows_prefix(rows: Seq<JsonValue>, k: int)
    requires
        0 <= k <= rows.len(),
        spec_rows(rows.take(k)) is Err,
    ensures
        spec_rows(rows) == spec_rows(rows.take(k)),
    decreases rows.len(),
{
    if k == rows.len() {
        assert(rows.take(k) =~= rows);
    } else {
        assert(rows.drop_last().take(k) =~= rows.take(k));
        lemma_rows_prefix(rows.drop_last(), k);
    }
}

/// The items of `json`, where it is an array.
fn json_array(json: &Json) -> (r: Option<&Vec<Json>>)
    ensures
        match r {
            Some(items) => json@ == JsonValue::Array(json_items_view(items@)),
            None => !(json@ is Array),
        },
{
    match json {
        Json::Array(items) => Some(items),
        _ => None,
    }
}

/// Appends the six cells of `row` to `cells`.
fn push_row(cells: &mut Vec<u64>, row: &Json) -> (r: Result<(), ShapeError>)
    ensures
        match r {
            Ok(_) => spec_row(row@) is Ok && final(cells)@ == old(cells)@ + spec_row(row@)->Ok_0
                && final(cells)@.len() == old(cells)@.len() + SIDE,
            Err(e) => spec_row(row@) == Err::<Seq<u64>, ShapeError>(e),
        },
{
    match json_array(row) {
        Some(vals) => {
            proof {
                lemma_json_items_view(vals@);
            }
            if vals.len() != SIDE {
                Err(ShapeError::RowLength)
            } else if !push_numbers(cells, vals) {
                Err(ShapeError::RowEntry)
            } else {
                Ok(())
            }
        },
        None => Err(ShapeError::RowNotVector),
    }
}

/// Appends the cells of `rows` to `cells`, row by row; stops at the first row that
/// does not give six cells.
fn push_rows(cells: &mut Vec<u64>, rows: &Vec<Json>) -> (r: Result<(), ShapeError>)
    requires
        old(cells)@.len() == 0,
    ensures
        match r {
            Ok(_) => spec_rows(json_items_view(rows@)) == Ok::<Seq<u64>, ShapeError>(
                final(cells)@,
            ) && final(cells)@.len() == SIDE * rows@.len(),
            Err(e) => spec_rows(json_items_view(rows@)) == Err::<Seq<u64>, ShapeError>(e),
        },
{
    let ghost views = json_items_view(rows@);
    proof {
        lemma_json_items_view(rows@);
        assert(views.take(0) =~= Seq::<JsonValue>::empty());
        assert(cells@ =~= Seq::<u64>::empty());
    }
    let mut i: usize = 0;
    while i < rows.len()
        invariant
            i <= rows@.len(),
            views == json_items_view(rows@),
            views.len() == rows@.len(),
            forall|j: int| 0 <= j < rows@.len() ==> (#[trigger] views[j]) == rows@[j]@,
            spec_rows(views.take(i as int)) == Ok::<Seq<u64>, ShapeError>(cells@),
            cells@.len() == SIDE * i,
        decreases rows@.len() - i,
    {
        proof {
            assert(views.take(i + 1).drop_last() =~= views.take(i as int));
            assert(views.take(i + 1).last() == views[i as int]);
        }
        match push_row(cells, &rows[i]) {
            Ok(_) => {},
            Err(e) => {
                proof {
                    lemma_rows_prefix(views, i + 1);
                }
                return Err(e);
            },
        }
        i = i + 1;
    }
    proof {
        assert(views.take(views.len() as int) =~= views);
    }
    Ok(())
}

/// Reads the matrix that the argument `input` gives: from its member `rows`, six
/// rows of six numbers, or else from its member `data`, 36 numbers.
pub fn build_matrix(input: &Json) -> (r: Result<MatrixInput, ShapeError>)
    ensures
        match r {
            Ok(m) => spec_build_matrix(input@) == Ok::<(Seq<u64>, bool), ShapeError>(
                (m.cells@, m.symmetric),
            ) && m.cells@.len() == CELLS,
            Err(e) => spec_build_matrix(input@) == Err::<(Seq<u64>, bool), ShapeError>(e),
        },
{
    let symmetric = match json_field(input, "symmetric") {
        Some(Json::Bool(b)) => *b,
        _ => false,
    };
    let mut cells: Vec<u64> = Vec::new();
    match json_field(input, "rows") {
        Some(rows_json) => match json_array(rows_json) {
            Some(rows) => {
                proof {
                    lemma_json_items_view(rows@);
                }
                if rows.len() != SIDE {
                    return Err(ShapeError::RowsLength);
                }
                match push_rows(&mut cells, rows) {
                    Ok(_) => Ok(MatrixInput { cells, symmetric }),
                    Err(e) => Err(e),
                }
            },
            None => Err(ShapeError::RowsNotVector),
        },
        None => match json_field(input, "data") {
            Some(data_json) => match json_array(data_json) {
                Some(data) => {
                    proof {
                        lemma_json_items_view(data@);
                    }
                    if data.len() != CELLS {
                        return Err(ShapeError::DataLength);
                    }
                    if push_numbers(&mut cells, data) {
                        proof {
                            assert(Seq::<u64>::empty() + cells@ =~= cells@);
                        }
                        Ok(MatrixInput { cells, symmetric })
                    } else {
                        Err(ShapeError::DataEntry)
                    }
                },
                None => Err(ShapeError::DataNotVector),
            },
            None => Err(ShapeError::Missing),
        },
    }
}

} // verus!
