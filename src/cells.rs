//! Cell writes: which sheet a request names, whether its value is a formula
//! to evaluate first, and what is stored and broadcast once it is known.

use vstd::prelude::*;
use crate::events::CellUpdate;
use crate::formula::{EvalError, body_of, formula_body, is_formula};

verus! {

/// A cell as clients send it: the sheet may be left out.
#[derive(Debug, PartialEq, Eq)]
pub struct Cell {
    pub sheet: Option<String>,
    pub row: i32,
    pub col: i32,
    pub value: String,
    pub font_weight: Option<String>,
    pub font_style: Option<String>,
    pub background_color: Option<String>,
}

/// A coordinate to clear.
#[derive(Debug, PartialEq, Eq)]
pub struct CellPosition {
    pub sheet: Option<String>,
    pub row: i32,
    pub col: i32,
}

/// The sheet that a request means: the one it names, else `default`.
pub open spec fn sheet_name(sheet: Option<String>) -> Seq<char> {
    match sheet {
        Some(s) => s@,
        None => "default"@,
    }
}

/// The sheet that a request means: the one it names, else `default`.
pub fn sheet_or_default(sheet: &Option<String>) -> (r: String)
    ensures
        r@ == sheet_name(*sheet),
{
    match sheet {
        Some(s) => s.clone(),
        None => String::from_str("default"),
    }
}

fn copy_text(t: &Option<String>) -> (r: Option<String>)
    ensures
        r == *t,
{
    match t {
        Some(s) => Some(s.clone()),
        None => None,
    }
}

/// `c` is `item` with its sheet named and its value replaced by `value`.
pub open spec fn stored_as(c: Cell, item: Cell, value: Seq<char>) -> bool {
    &&& c.sheet matches Some(s) && s@ == sheet_name(item.sheet)
    &&& c.row == item.row
    &&& c.col == item.col
    &&& c.value@ == value
    &&& c.font_weight == item.font_weight
    &&& c.font_style == item.font_style
    &&& c.background_color == item.background_color
}

/// The first step of a write.
#[derive(Debug, PartialEq, Eq)]
pub enum WriteStep {
    /// Store the cell as it is.
    Store(Cell),
    /// Evaluate this formula body first; the cell waits beside it.
    Evaluate(Cell, String),
}

/// Names the sheet of a written cell and says whether its value must be
/// evaluated as a formula before it is stored.
pub fn plan_write(item: Cell) -> (step: WriteStep)
    ensures
        !is_formula_text(item.value@) ==> (step matches WriteStep::Store(c) && stored_as(
            c,
            item,
            item.value@,
        )),
        is_formula_text(item.value@) ==> (step matches WriteStep::Evaluate(c, body) && stored_as(
            c,
            item,
            item.value@,
        ) && body@ == body_of(item.value@)),
{
    let sheet = sheet_or_default(&item.sheet);
    let formula = is_formula(item.value.as_str());
    let body = if formula {
        Some(formula_body(item.value.as_str()))
    } else {
        None
    };
    let c = Cell {
        sheet: Some(sheet),
        row: item.row,
        col: item.col,
        value: item.value,
        font_weight: item.font_weight,
        font_style: item.font_style,
        background_color: item.background_color,
    };
    match body {
        Some(b) => WriteStep::Evaluate(c, b),
        None => WriteStep::Store(c),
    }
}

pub open spec fn is_formula_text(v: Seq<char>) -> bool {
    v.len() > 0 && v[0] == '='
}

/// Finishes a formula write with the evaluation's outcome: the cell stores
/// the resolved value, or the write is refused with the evaluation's error.
pub fn complete_write(cell: Cell, outcome: Result<String, EvalError>) -> (r: Result<
    Cell,
    EvalError,
>)
    ensures
        outcome is Ok <==> r is Ok,
        r matches Ok(c) ==> (outcome matches Ok(v) && c.value == v && c.sheet == cell.sheet
            && c.row == cell.row && c.col == cell.col && c.font_weight == cell.font_weight
            && c.font_style == cell.font_style && c.background_color == cell.background_color),
        r matches Err(e) ==> outcome == Err::<String, EvalError>(e),
{
    match outcome {
        Ok(v) => Ok(Cell { value: v, ..cell }),
        Err(e) => Err(e),
    }
}

/// The event that tells live sessions of a stored cell.
pub fn cell_update(cell: &Cell, user_id: String) -> (u: CellUpdate)
    ensures
        u.sheet@ == sheet_name(cell.sheet),
        u.row == cell.row,
        u.col == cell.col,
        u.value == cell.value,
        u.font_weight == cell.font_weight,
        u.font_style == cell.font_style,
        u.background_color == cell.background_color,
        u.user_id == user_id,
{
    CellUpdate {
        sheet: sheet_or_default(&cell.sheet),
        row: cell.row,
        col: cell.col,
        value: cell.value.clone(),
        font_weight: copy_text(&cell.font_weight),
        font_style: copy_text(&cell.font_style),
        background_color: copy_text(&cell.background_color),
        user_id,
    }
}

/// The stored coordinate that a clear request names.
pub fn clear_key(pos: &CellPosition) -> (k: (String, i32, i32))
    ensures
        k.0@ == sheet_name(pos.sheet),
        k.1 == pos.row,
        k.2 == pos.col,
{
    (sheet_or_default(&pos.sheet), pos.row, pos.col)
}

} // verus!
