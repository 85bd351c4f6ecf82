use gridcalc::ingest::{get_table_from_content, get_table_size, make_cell, TableError};
use gridcalc::structs::{
    new_empty_cell, new_expression_cell, new_numeric_cell, new_text_cell, BaseCells, Cell,
    CellType, EvalutedType, ExpressionCell, GenericFields, NumericCell, SpecificCell, TableExt,
};
use gridcalc::utils::to_chars;

#[test]
fn size_counts_lines_and_the_widest_line() {
    assert_eq!(get_table_size("A|B|C\n1|2|3"), (3, 2));
    assert_eq!(get_table_size("A\n1|2|3|4\n5"), (4, 3));
    assert_eq!(get_table_size("A|B\n"), (2, 2));
    assert_eq!(get_table_size(""), (1, 1));
    assert_eq!(get_table_size("\n\n"), (1, 3));
    assert_eq!(get_table_size("||"), (3, 1));
}

#[test]
fn constructors_fill_every_field() {
    assert_eq!(
        new_empty_cell(3, 4),
        Cell {
            specs: SpecificCell::EmptyCell(),
            generics: GenericFields {
                pos_x: 3,
                pos_y: 4,
                string_content: String::new(),
                cell_type: CellType::Empty,
            },
        }
    );
    assert_eq!(
        new_numeric_cell(1, 2, "12".to_string(), 12),
        Cell {
            specs: SpecificCell::BaseCells(BaseCells::NumericCell(NumericCell { value: 12 })),
            generics: GenericFields {
                pos_x: 1,
                pos_y: 2,
                string_content: "12".to_string(),
                cell_type: CellType::Numeric,
            },
        }
    );
    assert_eq!(
        new_text_cell(0, 9, "words".to_string()),
        Cell {
            specs: SpecificCell::BaseCells(BaseCells::TextCell()),
            generics: GenericFields {
                pos_x: 0,
                pos_y: 9,
                string_content: "words".to_string(),
                cell_type: CellType::Text,
            },
        }
    );
    assert_eq!(
        new_expression_cell(5, 6, "=A1+B1".to_string()),
        Cell {
            specs: SpecificCell::ExpressionCell(ExpressionCell {
                value: None,
                evaluated: EvalutedType::ToEvaluate,
            }),
            generics: GenericFields {
                pos_x: 5,
                pos_y: 6,
                string_content: "=A1+B1".to_string(),
                cell_type: CellType::Expression,
            },
        }
    );
}

#[test]
fn make_cell_classifies_by_text() {
    assert_eq!(make_cell(1, 2, &to_chars("")), new_empty_cell(1, 2));
    assert_eq!(make_cell(1, 2, &to_chars("=A1")), new_expression_cell(1, 2, "=A1".to_string()));
    assert_eq!(make_cell(1, 2, &to_chars("=")), new_expression_cell(1, 2, "=".to_string()));
    assert_eq!(make_cell(1, 2, &to_chars("-40")), new_numeric_cell(1, 2, "-40".to_string(), -40));
    assert_eq!(make_cell(1, 2, &to_chars("+40")), new_numeric_cell(1, 2, "+40".to_string(), 40));
    assert_eq!(make_cell(1, 2, &to_chars("4 0")), new_text_cell(1, 2, "4 0".to_string()));
    assert_eq!(
        make_cell(1, 2, &to_chars("2147483648")),
        new_text_cell(1, 2, "2147483648".to_string())
    );
}

#[test]
fn table_is_built_cell_by_cell() {
    let (table, col_index) =
        get_table_from_content("a | B|c\n 1 |  two   words |=A1+1\n\n-3").unwrap();
    assert_eq!(table.size_x, 3);
    assert_eq!(table.size_y, 4);
    assert_eq!(table.cells.len(), 4);
    let expected = vec![
        vec![
            new_text_cell(0, 0, "A".to_string()),
            new_text_cell(1, 0, "B".to_string()),
            new_text_cell(2, 0, "C".to_string()),
        ],
        vec![
            new_numeric_cell(0, 1, "1".to_string(), 1),
            new_text_cell(1, 1, "two words".to_string()),
            new_expression_cell(2, 1, "=A1+1".to_string()),
        ],
        vec![new_empty_cell(0, 2), new_empty_cell(1, 2), new_empty_cell(2, 2)],
        vec![
            new_numeric_cell(0, 3, "-3".to_string(), -3),
            new_empty_cell(1, 3),
            new_empty_cell(2, 3),
        ],
    ];
    assert_eq!(table.cells, expected);
    assert_eq!(col_index.len(), 3);
    assert_eq!(col_index.get(&b'A'), Some(&0));
    assert_eq!(col_index.get(&b'B'), Some(&1));
    assert_eq!(col_index.get(&b'C'), Some(&2));
}

#[test]
fn every_cell_records_its_own_place() {
    let (table, _) = get_table_from_content("A|B|C|D\n1\n1|2\n1|2|3|4\n").unwrap();
    assert_eq!((table.size_x, table.size_y), (4, 5));
    for y in 0..table.size_y {
        assert_eq!(table.cells[y].len(), table.size_x);
        for x in 0..table.size_x {
            assert_eq!(table.at(x, y).generics.pos_x, x);
            assert_eq!(table.at(x, y).generics.pos_y, y);
        }
    }
    assert_eq!(table.at(3, 1).generics.cell_type, CellType::Empty);
    assert_eq!(table.at(3, 3).generics.cell_type, CellType::Numeric);
}

#[test]
fn rows_longer_than_the_header_widen_the_table() {
    let (table, col_index) = get_table_from_content("A\n1|2|3").unwrap();
    assert_eq!((table.size_x, table.size_y), (3, 2));
    assert_eq!(table.at(1, 0).generics.cell_type, CellType::Empty);
    assert_eq!(table.at(2, 1).generics.string_content, "3");
    assert_eq!(col_index.len(), 1);
}

#[test]
fn of_two_equal_column_letters_the_right_one_counts() {
    let (_, col_index) = get_table_from_content("A|b|a\n1|2|3").unwrap();
    assert_eq!(col_index.len(), 2);
    assert_eq!(col_index.get(&b'A'), Some(&2));
    assert_eq!(col_index.get(&b'B'), Some(&1));
}

#[test]
fn last_letter_of_the_alphabet_is_a_column_letter() {
    let (_, col_index) = get_table_from_content("Z|z\n1").unwrap();
    assert_eq!(col_index.get(&b'Z'), Some(&1));
}

#[test]
fn empty_content_is_refused() {
    assert_eq!(get_table_from_content("").err(), Some(TableError::EmptyContent));
}

#[test]
fn empty_header_field_is_refused() {
    assert_eq!(
        get_table_from_content("A||C\n1").err(),
        Some(TableError::EmptyHeader { column: 1 })
    );
    assert_eq!(
        get_table_from_content("\nA").err(),
        Some(TableError::EmptyHeader { column: 0 })
    );
    assert_eq!(
        get_table_from_content("A|  \t ").err(),
        Some(TableError::EmptyHeader { column: 1 })
    );
}

#[test]
fn header_field_that_is_no_letter_is_refused() {
    assert_eq!(
        get_table_from_content("A|B|1\n1").err(),
        Some(TableError::InvalidHeader { column: 2 })
    );
    assert_eq!(
        get_table_from_content("AB|C").err(),
        Some(TableError::InvalidHeader { column: 0 })
    );
    assert_eq!(
        get_table_from_content("A|é").err(),
        Some(TableError::InvalidHeader { column: 1 })
    );
    assert_eq!(
        get_table_from_content("A|=B").err(),
        Some(TableError::InvalidHeader { column: 1 })
    );
}

#[test]
fn leftmost_bad_header_field_is_named() {
    assert_eq!(
        get_table_from_content("A|12||C").err(),
        Some(TableError::InvalidHeader { column: 1 })
    );
    assert_eq!(
        get_table_from_content("A||12|C").err(),
        Some(TableError::EmptyHeader { column: 1 })
    );
}

#[test]
fn built_tables_are_valid() {
    let (table, _) = get_table_from_content("A|B\n1|=A1\n\nx|y|z").unwrap();
    assert!(table.is_valid());
    for row in table.cells.iter() {
        for cell in row.iter() {
            assert!(cell.is_valid());
        }
    }
}

#[test]
fn misplaced_or_mistyped_cells_are_not_valid() {
    let (table, _) = get_table_from_content("A|B\n1|=A1").unwrap();
    let mut moved = table.clone();
    moved.at_mut(0, 1).generics.pos_x = 1;
    assert!(!moved.is_valid());
    let mut short = table.clone();
    short.cells[1].pop();
    assert!(!short.is_valid());
    let mut missing_row = table.clone();
    missing_row.cells.pop();
    assert!(!missing_row.is_valid());
    let mut mistyped = table.clone();
    mistyped.at_mut(0, 1).generics.cell_type = CellType::Text;
    assert!(!mistyped.is_valid());
    assert!(!mistyped.at(0, 1).is_valid());
    let mut no_marker = table.clone();
    no_marker.at_mut(1, 1).generics.string_content = "A1".to_string();
    assert!(!no_marker.is_valid());
    let mut no_text = table.clone();
    no_text.at_mut(1, 1).generics.string_content = String::new();
    assert!(!no_text.is_valid());
    let mut cached_but_pending = table.clone();
    cached_but_pending.at_mut(1, 1).specs = SpecificCell::ExpressionCell(ExpressionCell {
        value: Some(gridcalc::structs::ExpressionCellValueType::Numeric(1)),
        evaluated: EvalutedType::ToEvaluate,
    });
    assert!(!cached_but_pending.is_valid());
    let mut done_without_value = table.clone();
    done_without_value.at_mut(1, 1).specs = SpecificCell::ExpressionCell(ExpressionCell {
        value: None,
        evaluated: EvalutedType::Done,
    });
    assert!(!done_without_value.is_valid());
}
