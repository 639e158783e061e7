use cellgrid::cells::{
    cell_update, clear_key, complete_write, plan_write, sheet_or_default, Cell, CellPosition,
    WriteStep,
};
use cellgrid::formula::EvalError;

fn cell(sheet: Option<&str>, value: &str) -> Cell {
    Cell {
        sheet: sheet.map(|s| s.to_string()),
        row: 1,
        col: 1,
        value: value.to_string(),
        font_weight: Some("bold".to_string()),
        font_style: None,
        background_color: Some("#fff".to_string()),
    }
}

#[test]
fn missing_sheet_means_default() {
    assert_eq!(sheet_or_default(&None), "default");
    assert_eq!(sheet_or_default(&Some("test".to_string())), "test");
}

#[test]
fn literal_value_is_stored_as_is() {
    match plan_write(cell(Some("test"), "42")) {
        WriteStep::Store(c) => {
            assert_eq!(c.sheet.as_deref(), Some("test"));
            assert_eq!(c.value, "42");
            assert_eq!(c.font_weight.as_deref(), Some("bold"));
        }
        other => panic!("unexpected {:?}", other),
    }
}

#[test]
fn formula_is_evaluated_before_it_is_stored() {
    match plan_write(cell(Some("test"), "=SUM(2,3)")) {
        WriteStep::Evaluate(c, body) => {
            assert_eq!(body, "SUM(2,3)");
            let stored = complete_write(c, Ok("5".to_string())).unwrap();
            assert_eq!(stored.value, "5");
            assert_eq!(stored.sheet.as_deref(), Some("test"));
            assert_eq!((stored.row, stored.col), (1, 1));
        }
        other => panic!("unexpected {:?}", other),
    }
}

#[test]
fn formula_error_refuses_the_write() {
    let c = cell(None, "=A1");
    let r = complete_write(c, Err(EvalError::Reference("A1".to_string())));
    assert_eq!(r, Err(EvalError::Reference("A1".to_string())));
}

#[test]
fn write_without_sheet_goes_to_default() {
    match plan_write(cell(None, "7")) {
        WriteStep::Store(c) => assert_eq!(c.sheet.as_deref(), Some("default")),
        other => panic!("unexpected {:?}", other),
    }
}

#[test]
fn update_event_carries_the_resolved_cell() {
    let c = Cell { value: "5".to_string(), ..cell(None, "=SUM(2,3)") };
    let u = cell_update(&c, "system".to_string());
    assert_eq!(u.sheet, "default");
    assert_eq!(u.value, "5");
    assert_eq!((u.row, u.col), (1, 1));
    assert_eq!(u.font_weight.as_deref(), Some("bold"));
    assert_eq!(u.font_style, None);
    assert_eq!(u.background_color.as_deref(), Some("#fff"));
    assert_eq!(u.user_id, "system");
}

#[test]
fn clear_names_the_stored_coordinate() {
    let k = clear_key(&CellPosition { sheet: None, row: 3, col: 4 });
    assert_eq!(k, ("default".to_string(), 3, 4));
    let k = clear_key(&CellPosition { sheet: Some("s".to_string()), row: 0, col: 0 });
    assert_eq!(k, ("s".to_string(), 0, 0));
}
