use cellgrid::formula::{
    cell_references, check_aggregate_arguments, formula_body, is_formula, resolve_references,
    Aggregate, CellRef, EvalError,
};

fn resolve(body: &str, values: &[Option<&str>]) -> Result<String, EvalError> {
    let values: Vec<Option<String>> = values.iter().map(|v| v.map(|t| t.to_string())).collect();
    resolve_references(body, &values)
}

#[test]
fn body_drops_a_single_leading_equals() {
    assert_eq!(formula_body("=SUM(1,2,3)"), "SUM(1,2,3)");
    assert_eq!(formula_body("==A1"), "=A1");
    assert_eq!(formula_body("A1"), "A1");
    assert_eq!(formula_body(""), "");
}

#[test]
fn formula_values_start_with_equals() {
    assert!(is_formula("=SUM(2,3)"));
    assert!(!is_formula("42"));
    assert!(!is_formula(""));
    assert!(!is_formula(" =1"));
}

#[test]
fn references_are_found_and_decoded() {
    let refs = cell_references("SUM(B2,3)");
    assert_eq!(
        refs,
        vec![CellRef { start: 4, split: 5, end: 6, row: Some(1), col: Some(1) }]
    );
}

#[test]
fn columns_count_in_base_twenty_six() {
    let refs = cell_references("A1+Z1+AA1+AB23");
    let cols: Vec<Option<i32>> = refs.iter().map(|r| r.col).collect();
    let rows: Vec<Option<i32>> = refs.iter().map(|r| r.row).collect();
    assert_eq!(cols, vec![Some(0), Some(25), Some(26), Some(27)]);
    assert_eq!(rows, vec![Some(0), Some(0), Some(0), Some(22)]);
}

#[test]
fn row_zero_is_minus_one() {
    let refs = cell_references("A0");
    assert_eq!(refs[0].row, Some(-1));
}

#[test]
fn coordinates_beyond_i32_are_none() {
    let refs = cell_references("A99999999999+AAAAAAAAAAAA1+A2147483648+A2147483649");
    assert_eq!(refs.len(), 4);
    assert_eq!(refs[0].row, None);
    assert_eq!(refs[1].col, None);
    assert_eq!(refs[1].row, Some(0));
    assert_eq!(refs[2].row, Some(2147483647));
    assert_eq!(refs[3].row, None);
}

#[test]
fn only_capitals_then_digits_are_references() {
    assert!(cell_references("a1+1A+AB+\"x\"").is_empty());
    let refs = cell_references("xAB12y");
    assert_eq!(refs.len(), 1);
    assert_eq!((refs[0].start, refs[0].split, refs[0].end), (1, 3, 5));
}

#[test]
fn stored_number_replaces_reference() {
    assert_eq!(resolve("SUM(B2,3)", &[Some("5")]), Ok("SUM(5,3)".to_string()));
}

#[test]
fn lone_reference_becomes_its_number() {
    let body = formula_body("=B2");
    assert_eq!(resolve(&body, &[Some("5")]), Ok("5".to_string()));
}

#[test]
fn each_occurrence_is_replaced_in_place() {
    assert_eq!(resolve("A1+A1", &[Some("2"), Some("2")]), Ok("2+2".to_string()));
    assert_eq!(resolve("A1+AA1*A10", &[Some("1"), Some("7"), Some("0.5")]), Ok("1+7*0.5".to_string()));
}

#[test]
fn text_without_references_is_unchanged() {
    assert_eq!(resolve("SUM(1,2,3)", &[]), Ok("SUM(1,2,3)".to_string()));
    assert_eq!(resolve("", &[]), Ok(String::new()));
}

#[test]
fn absent_cell_is_a_reference_error() {
    assert_eq!(
        resolve("SUM(B2,C3)", &[Some("5"), None]),
        Err(EvalError::Reference("C3".to_string()))
    );
}

#[test]
fn missing_value_counts_as_absent() {
    assert_eq!(resolve("A1", &[]), Err(EvalError::Reference("A1".to_string())));
}

#[test]
fn first_unresolved_reference_is_reported() {
    assert_eq!(
        resolve("X9+B2+C3", &[Some("1"), None, None]),
        Err(EvalError::Reference("B2".to_string()))
    );
}

#[test]
fn aggregates_without_arguments_fail() {
    assert_eq!(
        check_aggregate_arguments(Aggregate::Sum, 0),
        Err(EvalError::EmptyAggregate(Aggregate::Sum))
    );
    assert_eq!(
        check_aggregate_arguments(Aggregate::Average, 0),
        Err(EvalError::EmptyAggregate(Aggregate::Average))
    );
    assert_eq!(check_aggregate_arguments(Aggregate::Average, 3), Ok(()));
    assert_eq!(check_aggregate_arguments(Aggregate::Sum, 1), Ok(()));
}

#[test]
fn coordinates_need_both_parts() {
    let refs = cell_references("B2+A99999999999");
    assert_eq!(refs[0].coordinates(), Some((1, 1)));
    assert_eq!(refs[1].coordinates(), None);
}
