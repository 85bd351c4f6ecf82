use gridcalc::eval::{eval_string_cell, eval_string_expr, evaluate, evaluate_table};
use gridcalc::ingest::get_table_from_content;
use gridcalc::structs::{
    EvalError, EvalutedType, ExpressionCell, ExpressionCellValueType, SpecificCell, Table,
    TableExt,
};
use std::collections::HashMap;

fn load(content: &str) -> (Table, HashMap<u8, usize>) {
    get_table_from_content(content).unwrap()
}

fn formula_state(table: &Table, x: usize, y: usize) -> ExpressionCell {
    match &table.at(x, y).specs {
        SpecificCell::ExpressionCell(formula) => formula.clone(),
        _ => panic!("no formula at column {x}, row {y}"),
    }
}

fn num(n: i32) -> ExpressionCellValueType {
    ExpressionCellValueType::Numeric(n)
}

fn text(s: &str) -> ExpressionCellValueType {
    ExpressionCellValueType::Str(s.to_string())
}

#[test]
fn test_main() {
    let content = "A|B|C\n1|2|=A1+B1\n=C1+A2|hello|=\"x\"+B2\n";
    let (table, col_index) = load(content);
    let mut evaluated_table = table.clone();
    for x in 0..table.size_x {
        for y in 0..table.size_y {
            let cell = table.at(x, y);
            if let SpecificCell::ExpressionCell(_) = &cell.specs {
                let _ = evaluate(x, y, &mut evaluated_table, &col_index);
            }
        }
    }
    assert_eq!(formula_state(&evaluated_table, 2, 1).value, Some(num(3)));
    assert_eq!(formula_state(&evaluated_table, 2, 2).value, Some(text("xhello")));
    assert_eq!(formula_state(&evaluated_table, 0, 2).evaluated, EvalutedType::Failed);
    println!("{}", evaluated_table.dump());
    println!("{}", evaluated_table.to_string());
}

#[test]
fn numeric_cell_evaluates_to_its_number_and_table_is_untouched() {
    let (mut table, col_index) = load("A|B\n7|=A1");
    let before = table.clone();
    assert_eq!(evaluate(0, 1, &mut table, &col_index), Ok(num(7)));
    assert_eq!(table, before);
}

#[test]
fn text_cell_evaluates_to_its_text_and_table_is_untouched() {
    let (mut table, col_index) = load("A|B\nsome words|=A1");
    let before = table.clone();
    assert_eq!(evaluate(0, 1, &mut table, &col_index), Ok(text("some words")));
    assert_eq!(table, before);
}

#[test]
fn header_cell_is_a_text_cell() {
    let (mut table, col_index) = load("a|B\n1|2");
    assert_eq!(evaluate(0, 0, &mut table, &col_index), Ok(text("A")));
}

#[test]
fn empty_cell_has_no_value() {
    let (mut table, col_index) = load("A|B\n|1");
    let before = table.clone();
    assert_eq!(evaluate(0, 1, &mut table, &col_index), Err(EvalError::NonValueCell));
    assert_eq!(table, before);
}

#[test]
fn done_formula_returns_cached_value_without_change() {
    let (mut table, col_index) = load("A|B|C\n2|3|=A1+B1");
    let first = evaluate(2, 1, &mut table, &col_index);
    assert_eq!(first, Ok(num(5)));
    let after_first = table.clone();
    assert_eq!(formula_state(&table, 2, 1).evaluated, EvalutedType::Done);
    assert_eq!(formula_state(&table, 2, 1).value, Some(num(5)));
    let second = evaluate(2, 1, &mut table, &col_index);
    assert_eq!(second, first);
    assert_eq!(table, after_first);
}

#[test]
fn done_formula_is_not_computed_again() {
    // The cached value is returned even where it is not what the formula
    // would give: nothing is looked at but the cache.
    let (mut table, col_index) = load("A|B\n1|=A1+1");
    table.at_mut(1, 1).specs = SpecificCell::ExpressionCell(ExpressionCell {
        value: Some(num(40)),
        evaluated: EvalutedType::Done,
    });
    let before = table.clone();
    assert_eq!(evaluate(1, 1, &mut table, &col_index), Ok(num(40)));
    assert_eq!(evaluate(1, 1, &mut table, &col_index), Ok(num(40)));
    assert_eq!(table, before);
}

#[test]
fn formula_referencing_itself_is_cyclic() {
    let (mut table, col_index) = load("A\n=A1");
    assert_eq!(
        evaluate(0, 1, &mut table, &col_index),
        Err(EvalError::CyclicReference { x: 0, y: 1 })
    );
    assert_eq!(formula_state(&table, 0, 1).evaluated, EvalutedType::Failed);
    assert_eq!(formula_state(&table, 0, 1).value, None);
}

#[test]
fn two_formulas_referencing_each_other_are_cyclic_first_one_first() {
    let (mut table, col_index) = load("A|B\n=B1|=A1");
    assert_eq!(
        evaluate(0, 1, &mut table, &col_index),
        Err(EvalError::CyclicReference { x: 0, y: 1 })
    );
    assert_eq!(formula_state(&table, 0, 1).evaluated, EvalutedType::Failed);
    assert_eq!(formula_state(&table, 1, 1).evaluated, EvalutedType::Failed);
    assert_eq!(evaluate(1, 1, &mut table, &col_index), Err(EvalError::AlreadyFailed));
}

#[test]
fn two_formulas_referencing_each_other_are_cyclic_second_one_first() {
    let (mut table, col_index) = load("A|B\n=B1|=A1");
    assert_eq!(
        evaluate(1, 1, &mut table, &col_index),
        Err(EvalError::CyclicReference { x: 1, y: 1 })
    );
    assert_eq!(formula_state(&table, 0, 1).evaluated, EvalutedType::Failed);
    assert_eq!(formula_state(&table, 1, 1).evaluated, EvalutedType::Failed);
    assert_eq!(evaluate(0, 1, &mut table, &col_index), Err(EvalError::AlreadyFailed));
}

#[test]
fn sum_of_two_numeric_cells() {
    let (mut table, col_index) = load("A|B|C\n2|3|=A1+B1");
    assert_eq!(evaluate(2, 1, &mut table, &col_index), Ok(num(5)));
}

#[test]
fn sum_of_number_and_text_is_a_type_mismatch() {
    let (mut table, col_index) = load("A|B|C\n2|x|=A1+B1");
    assert_eq!(evaluate(2, 1, &mut table, &col_index), Err(EvalError::TypeMismatch));
    assert_eq!(formula_state(&table, 2, 1).evaluated, EvalutedType::Failed);
    assert_eq!(formula_state(&table, 2, 1).value, None);
}

#[test]
fn sum_of_text_and_number_is_a_type_mismatch() {
    let (mut table, col_index) = load("A|B|C\nx|2|=A1+B1");
    assert_eq!(evaluate(2, 1, &mut table, &col_index), Err(EvalError::TypeMismatch));
}

#[test]
fn quoted_strings_concatenate_without_any_reference() {
    let (mut table, _) = load("A\n=\"foo\"+\"bar\"");
    let no_columns: HashMap<u8, usize> = HashMap::new();
    assert_eq!(evaluate(0, 1, &mut table, &no_columns), Ok(text("foobar")));
    assert_eq!(formula_state(&table, 0, 1).value, Some(text("foobar")));
}

#[test]
fn quoted_digits_are_text_and_bare_digits_are_a_number() {
    let (mut table, col_index) = load("A|B|C\n=\"5\"+\"6\"|=5+6|=\"5\"+6");
    assert_eq!(evaluate(0, 1, &mut table, &col_index), Ok(text("56")));
    assert_eq!(evaluate(1, 1, &mut table, &col_index), Ok(num(11)));
    assert_eq!(evaluate(2, 1, &mut table, &col_index), Err(EvalError::TypeMismatch));
}

#[test]
fn negative_literals_are_numbers() {
    let (mut table, col_index) = load("A|B\n10|=A1+-3+-7");
    assert_eq!(evaluate(1, 1, &mut table, &col_index), Ok(num(0)));
}

#[test]
fn formula_of_one_term() {
    let (mut table, col_index) = load("A|B\nabc|=A1");
    assert_eq!(evaluate(1, 1, &mut table, &col_index), Ok(text("abc")));
}

#[test]
fn empty_formula_is_an_invalid_reference() {
    let (mut table, col_index) = load("A\n=");
    assert_eq!(evaluate(0, 1, &mut table, &col_index), Err(EvalError::InvalidReference));
}

#[test]
fn trailing_plus_is_an_invalid_reference() {
    let (mut table, col_index) = load("A|B\n1|=A1+");
    assert_eq!(evaluate(1, 1, &mut table, &col_index), Err(EvalError::InvalidReference));
}

#[test]
fn blank_inside_a_term_is_an_invalid_reference() {
    let (mut table, col_index) = load("A|B|C\n1|2|=A1 + B1");
    assert_eq!(evaluate(2, 1, &mut table, &col_index), Err(EvalError::InvalidReference));
}

#[test]
fn reference_to_unknown_column_is_invalid() {
    let (mut table, col_index) = load("A|B\n1|=Q1");
    assert_eq!(evaluate(1, 1, &mut table, &col_index), Err(EvalError::InvalidReference));
}

#[test]
fn reference_below_the_table_is_invalid() {
    let (mut table, col_index) = load("A|B\n1|=A2");
    assert_eq!(evaluate(1, 1, &mut table, &col_index), Err(EvalError::InvalidReference));
    assert_eq!(formula_state(&table, 1, 1).evaluated, EvalutedType::Failed);
}

#[test]
fn reference_to_a_column_outside_the_table_is_invalid() {
    let (mut table, _) = load("A|B\n1|=C1");
    let mut col_index: HashMap<u8, usize> = HashMap::new();
    col_index.insert(b'C', 2);
    assert_eq!(evaluate(1, 1, &mut table, &col_index), Err(EvalError::InvalidReference));
}

#[test]
fn reference_to_empty_cell_is_a_non_value_cell() {
    let (mut table, col_index) = load("A|B\n|=A1");
    assert_eq!(evaluate(1, 1, &mut table, &col_index), Err(EvalError::NonValueCell));
    assert_eq!(formula_state(&table, 1, 1).evaluated, EvalutedType::Failed);
}

#[test]
fn reference_to_failed_formula_is_already_failed() {
    let (mut table, col_index) = load("A|B|C\n|=A1|=B1");
    assert_eq!(evaluate(1, 1, &mut table, &col_index), Err(EvalError::NonValueCell));
    assert_eq!(evaluate(2, 1, &mut table, &col_index), Err(EvalError::AlreadyFailed));
    assert_eq!(formula_state(&table, 2, 1).evaluated, EvalutedType::Failed);
}

#[test]
fn failure_of_a_dependency_fails_the_dependent_at_once() {
    let (mut table, col_index) = load("A|B|C\n|=A1|=B1");
    assert_eq!(evaluate(2, 1, &mut table, &col_index), Err(EvalError::NonValueCell));
    assert_eq!(formula_state(&table, 1, 1).evaluated, EvalutedType::Failed);
    assert_eq!(formula_state(&table, 2, 1).evaluated, EvalutedType::Failed);
}

#[test]
fn sum_past_the_largest_number_overflows() {
    let (mut table, col_index) = load("A|B\n2147483647|=A1+1");
    assert_eq!(evaluate(1, 1, &mut table, &col_index), Err(EvalError::Overflow));
    assert_eq!(formula_state(&table, 1, 1).evaluated, EvalutedType::Failed);
}

#[test]
fn sum_past_the_smallest_number_overflows() {
    let (mut table, col_index) = load("A|B\n-2147483648|=A1+-1");
    assert_eq!(evaluate(1, 1, &mut table, &col_index), Err(EvalError::Overflow));
}

#[test]
fn sum_is_folded_from_the_left() {
    // From the left the first addition overflows; from the right it would not.
    let (mut table, col_index) = load("A\n=2147483647+1+-1");
    assert_eq!(evaluate(0, 1, &mut table, &col_index), Err(EvalError::Overflow));
    let (mut table, col_index) = load("A\n=2147483647+-1+1");
    assert_eq!(evaluate(0, 1, &mut table, &col_index), Ok(num(2147483647)));
}

#[test]
fn first_failure_ends_the_fold() {
    // The mismatch comes before the reference to the empty cell is read.
    let (mut table, col_index) = load("A|B|C\n|=1+\"a\"+C1|=A1");
    assert_eq!(evaluate(1, 1, &mut table, &col_index), Err(EvalError::TypeMismatch));
    assert_eq!(formula_state(&table, 2, 1).evaluated, EvalutedType::ToEvaluate);
}

#[test]
fn dependencies_are_evaluated_and_cached_on_the_way() {
    let (mut table, col_index) = load("A|B|C|D\n1|=A1+1|=B1+1|=C1+B1");
    assert_eq!(evaluate(3, 1, &mut table, &col_index), Ok(num(5)));
    assert_eq!(formula_state(&table, 1, 1).value, Some(num(2)));
    assert_eq!(formula_state(&table, 2, 1).value, Some(num(3)));
    assert_eq!(formula_state(&table, 3, 1).value, Some(num(5)));
    assert_eq!(formula_state(&table, 1, 1).evaluated, EvalutedType::Done);
}

#[test]
fn lower_case_column_letters_resolve() {
    let (mut table, col_index) = load("A|B|C\n2|3|=a1+b1");
    assert_eq!(evaluate(2, 1, &mut table, &col_index), Ok(num(5)));
}

#[test]
fn formula_in_progress_is_reported_as_cyclic_and_left_alone() {
    let (mut table, col_index) = load("A|B\n1|=A1");
    table.at_mut(1, 1).specs = SpecificCell::ExpressionCell(ExpressionCell {
        value: None,
        evaluated: EvalutedType::InProgress,
    });
    let before = table.clone();
    assert_eq!(
        evaluate(1, 1, &mut table, &col_index),
        Err(EvalError::CyclicReference { x: 1, y: 1 })
    );
    assert_eq!(table, before);
}

#[test]
fn failed_formula_is_not_tried_again() {
    let (mut table, col_index) = load("A|B\n|=A1");
    assert_eq!(evaluate(1, 1, &mut table, &col_index), Err(EvalError::NonValueCell));
    let before = table.clone();
    assert_eq!(evaluate(1, 1, &mut table, &col_index), Err(EvalError::AlreadyFailed));
    assert_eq!(table, before);
}

#[test]
fn eval_string_cell_reads_literals_and_references() {
    let (mut table, col_index) = load("A|B\n4|=A1+1");
    assert_eq!(eval_string_cell("\"hi\"", &mut table, &col_index), Ok(text("hi")));
    assert_eq!(eval_string_cell("12", &mut table, &col_index), Ok(num(12)));
    assert_eq!(eval_string_cell("A1", &mut table, &col_index), Ok(num(4)));
    assert_eq!(eval_string_cell("B1", &mut table, &col_index), Ok(num(5)));
    assert_eq!(formula_state(&table, 1, 1).evaluated, EvalutedType::Done);
    assert_eq!(eval_string_cell("B7", &mut table, &col_index), Err(EvalError::InvalidReference));
    assert_eq!(eval_string_cell("", &mut table, &col_index), Err(EvalError::InvalidReference));
}

#[test]
fn eval_string_expr_folds_terms() {
    let (mut table, col_index) = load("A|B\n4|=A1+1");
    assert_eq!(eval_string_expr("A1+B1+10", &mut table, &col_index), Ok(num(19)));
    assert_eq!(eval_string_expr("\"a\"+\"\"+\"b\"", &mut table, &col_index), Ok(text("ab")));
    assert_eq!(eval_string_expr("7", &mut table, &col_index), Ok(num(7)));
    assert_eq!(
        eval_string_expr("A1+\"b\"", &mut table, &col_index),
        Err(EvalError::TypeMismatch)
    );
}

#[test]
fn evaluate_table_settles_every_formula() {
    let content = "A|B|C\n1|=A1+C1|=A1+1\n=B1+B1|=A9|=\"n\"+\"=\"\n=C3|=A3|x";
    let (mut table, col_index) = load(content);
    evaluate_table(&mut table, &col_index);
    assert_eq!(formula_state(&table, 1, 1).value, Some(num(3)));
    assert_eq!(formula_state(&table, 2, 1).value, Some(num(2)));
    assert_eq!(formula_state(&table, 0, 2).value, Some(num(6)));
    assert_eq!(formula_state(&table, 1, 2).evaluated, EvalutedType::Failed);
    assert_eq!(formula_state(&table, 2, 2).value, Some(text("n=")));
    assert_eq!(formula_state(&table, 0, 3).value, Some(text("x")));
    assert_eq!(formula_state(&table, 1, 3).value, Some(text("x")));
    for y in 0..table.size_y {
        for x in 0..table.size_x {
            if let SpecificCell::ExpressionCell(formula) = &table.at(x, y).specs {
                assert!(matches!(
                    formula.evaluated,
                    EvalutedType::Done | EvalutedType::Failed
                ));
                assert_eq!(formula.value.is_some(), formula.evaluated == EvalutedType::Done);
            }
        }
    }
}

#[test]
fn evaluate_table_leaves_literal_cells_alone() {
    let (mut table, col_index) = load("A|B\n1|two\n|4");
    let before = table.clone();
    evaluate_table(&mut table, &col_index);
    assert_eq!(table, before);
}

#[test]
fn order_of_evaluation_does_not_matter() {
    let content = "A|B|C|D\n=B1+1|=C1+1|=D1+1|1\n=A1+B2|=C2|=B2+\"x\"|=A2\n=D3|5|=B3+A1|=C3+Z1";
    let (fresh, col_index) = load(content);
    let mut places = Vec::new();
    for y in 0..fresh.size_y {
        for x in 0..fresh.size_x {
            places.push((x, y));
        }
    }
    let mut ascending = fresh.clone();
    for &(x, y) in places.iter() {
        let _ = evaluate(x, y, &mut ascending, &col_index);
    }
    let mut descending = fresh.clone();
    for &(x, y) in places.iter().rev() {
        let _ = evaluate(x, y, &mut descending, &col_index);
    }
    let mut by_columns = fresh.clone();
    evaluate_table(&mut by_columns, &col_index);
    assert_eq!(ascending, descending);
    assert_eq!(ascending, by_columns);
    assert_eq!(formula_state(&ascending, 0, 1).value, Some(num(4)));
    assert_eq!(formula_state(&ascending, 0, 2).evaluated, EvalutedType::Failed);
    assert_eq!(formula_state(&ascending, 2, 3).value, Some(num(9)));
    assert_eq!(formula_state(&ascending, 3, 3).evaluated, EvalutedType::Failed);
}

#[test]
fn order_of_evaluation_does_not_matter_for_a_cycle_and_its_dependents() {
    let (fresh, col_index) = load("A|B|C|D\n=B1|=C1|=A1|=A1+1\n=D1|7|=B2+1|=C2");
    let mut forward = fresh.clone();
    let mut backward = fresh.clone();
    for y in 0..fresh.size_y {
        for x in 0..fresh.size_x {
            let _ = evaluate(x, y, &mut forward, &col_index);
        }
    }
    for y in (0..fresh.size_y).rev() {
        for x in (0..fresh.size_x).rev() {
            let _ = evaluate(x, y, &mut backward, &col_index);
        }
    }
    assert_eq!(forward, backward);
    for x in 0..4 {
        assert_eq!(formula_state(&forward, x, 1).evaluated, EvalutedType::Failed);
    }
    assert_eq!(formula_state(&forward, 0, 2).evaluated, EvalutedType::Failed);
    assert_eq!(formula_state(&forward, 2, 2).value, Some(num(8)));
    assert_eq!(formula_state(&forward, 3, 2).value, Some(num(8)));
}
