use gridcalc::eval::evaluate_table;
use gridcalc::ingest::get_table_from_content;
use gridcalc::structs::{
    new_empty_cell, new_expression_cell, new_numeric_cell, new_text_cell, CellType, EvalutedType,
    ExpressionCell, ExpressionCellValueType, SpecificCell, TableExt,
};

#[test]
fn cell_types_have_short_names() {
    assert_eq!(CellType::Numeric.to_string(), "Num");
    assert_eq!(CellType::Text.to_string(), "Text");
    assert_eq!(CellType::Expression.to_string(), "Expr");
    assert_eq!(CellType::Empty.to_string(), "Empty");
}

#[test]
fn values_are_labelled_with_their_kind() {
    assert_eq!(ExpressionCellValueType::Numeric(42).to_string(), "42(Numeric)");
    assert_eq!(ExpressionCellValueType::Numeric(0).to_string(), "0(Numeric)");
    assert_eq!(ExpressionCellValueType::Numeric(-7).to_string(), "-7(Numeric)");
    assert_eq!(ExpressionCellValueType::Numeric(i32::MAX).to_string(), "2147483647(Numeric)");
    assert_eq!(ExpressionCellValueType::Numeric(i32::MIN).to_string(), "-2147483648(Numeric)");
    assert_eq!(ExpressionCellValueType::Str("abc".to_string()).to_string(), "abc(String)");
    assert_eq!(ExpressionCellValueType::Str(String::new()).to_string(), "(String)");
}

#[test]
fn numbers_are_written_as_std_writes_them() {
    for n in [0, 1, 9, 10, 11, 99, 100, 101, 1000, 65535, 1234567890, -1, -10, -999, i32::MIN] {
        assert_eq!(
            ExpressionCellValueType::Numeric(n).to_string(),
            format!("{n}(Numeric)")
        );
    }
}

#[test]
fn literal_cells_show_kind_and_text() {
    assert_eq!(new_empty_cell(0, 0).to_string(), "Empty()");
    assert_eq!(new_numeric_cell(0, 0, "12".to_string(), 12).to_string(), "Num(12)");
    assert_eq!(new_text_cell(0, 0, "two words".to_string()).to_string(), "Text(two words)");
}

#[test]
fn formula_cells_show_their_value_or_a_question_mark() {
    let mut cell = new_expression_cell(0, 0, "=A1+B1".to_string());
    assert_eq!(cell.to_string(), "Expr(=A1+B1)=?");
    cell.specs = SpecificCell::ExpressionCell(ExpressionCell {
        value: Some(ExpressionCellValueType::Numeric(-5)),
        evaluated: EvalutedType::Done,
    });
    assert_eq!(cell.to_string(), "Expr(=A1+B1)=-5");
    cell.specs = SpecificCell::ExpressionCell(ExpressionCell {
        value: Some(ExpressionCellValueType::Str("foobar".to_string())),
        evaluated: EvalutedType::Done,
    });
    assert_eq!(cell.to_string(), "Expr(=A1+B1)=foobar");
    cell.specs = SpecificCell::ExpressionCell(ExpressionCell {
        value: None,
        evaluated: EvalutedType::Failed,
    });
    assert_eq!(cell.to_string(), "Expr(=A1+B1)=?");
}

#[test]
fn table_is_dumped_row_by_row() {
    let (mut table, col_index) = get_table_from_content("A|B\n2|=A1+40\n|=A2").unwrap();
    evaluate_table(&mut table, &col_index);
    assert_eq!(
        table.dump(),
        "Text(A)\t\t\tText(B)\t\t\t\n\n\
         Num(2)\t\t\tExpr(=A1+40)=42\t\t\t\n\n\
         Empty()\t\t\tExpr(=A2)=?\t\t\t\n\n"
    );
    assert_eq!(table.to_string(), "Dumped the content of a table 2x3");
    assert_eq!(table.at(1, 1).to_string(), "Expr(=A1+40)=42");
}
