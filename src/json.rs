//! Reading a grid from JSON text (an array of rows, each an array of numbers
//! or nulls) and writing one back.
use vstd::prelude::*;
use crate::board::Board;
use crate::grid::square_grid;

verus! {

#[verifier::external_type_specification]
#[verifier::external_body]
pub struct ExValue(serde_json::Value);

#[verifier::external_type_specification]
#[verifier::external_body]
pub struct ExError(serde_json::Error);

/// Relies on `serde_json::Value::as_array`: the elements of an array value.
pub assume_specification[ serde_json::Value::as_array ](v: &serde_json::Value) -> (r: Option<
    &Vec<serde_json::Value>,
>);

/// Relies on `serde_json::Value::is_number`: whether the value is a number.
pub assume_specification[ serde_json::Value::is_number ](v: &serde_json::Value) -> (r: bool);

/// Relies on `serde_json::Value::as_u64`: a number that fits a `u64`.
pub assume_specification[ serde_json::Value::as_u64 ](v: &serde_json::Value) -> (r: Option<u64>);

/// Relies on `serde_json::from_str`: parses JSON text into a value.
#[verifier::external_body]
fn parse_value(s: &str) -> (r: Result<serde_json::Value, serde_json::Error>) {
    serde_json::from_str(s)
}

/// Relies on `serde_json::Value::from` on nested vectors: an array of rows,
/// each an array whose cells are numbers or nulls.
#[verifier::external_body]
fn rows_value(rows: Vec<Vec<Option<u8>>>) -> (r: serde_json::Value) {
    serde_json::Value::from(rows)
}

/// The cell that a JSON value stands for: a number is kept modulo 256, any
/// other value is an empty cell. `None` for a number that is not a `u64`.
fn cell_of(v: &serde_json::Value) -> (r: Option<Option<u8>>) {
    if v.is_number() {
        match v.as_u64() {
            Some(x) => Some(Some((x % 256) as u8)),
            None => None,
        }
    } else {
        Some(None)
    }
}

/// The rows of a JSON array of arrays; `None` where the value has another
/// shape.
pub fn rows_of(value: &serde_json::Value) -> (r: Option<Vec<Vec<Option<u8>>>>) {
    let rows = match value.as_array() {
        Some(a) => a,
        None => return None,
    };
    let mut out: Vec<Vec<Option<u8>>> = Vec::new();
    let mut i: usize = 0;
    while i < rows.len()
        invariant
            0 <= i <= rows@.len(),
        decreases rows@.len() - i,
    {
        let cols = match rows[i].as_array() {
            Some(a) => a,
            None => return None,
        };
        let mut line: Vec<Option<u8>> = Vec::new();
        let mut k: usize = 0;
        while k < cols.len()
            invariant
                0 <= k <= cols@.len(),
            decreases cols@.len() - k,
        {
            match cell_of(&cols[k]) {
                Some(c) => line.push(c),
                None => return None,
            }
            k = k + 1;
        }
        out.push(line);
        i = i + 1;
    }
    Some(out)
}

impl Board {
    /// The grid written in JSON text as an array of rows; `None` where the
    /// text is not JSON, or not an array of arrays of numbers and nulls
    /// that `from_rows` accepts.
    pub fn from_json(s: &str) -> (r: Option<Board>)
        ensures
            r matches Some(b) ==> {
                &&& b.wf()
                &&& b@.synced()
                &&& square_grid(b@.grid, b@.size)
            },
    {
        let value = match parse_value(s) {
            Ok(v) => v,
            Err(_) => return None,
        };
        match rows_of(&value) {
            Some(rows) => Board::from_rows(rows),
            None => None,
        }
    }

    /// The grid as a JSON array of rows.
    pub fn to_json(&self) -> (r: serde_json::Value)
        requires
            self.wf(),
    {
        rows_value(self.to_vec())
    }
}

} // verus!
