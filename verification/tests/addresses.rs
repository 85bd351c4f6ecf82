use gridcalc::address::{key_of, resolve};
use gridcalc::ingest::get_table_from_content;
use gridcalc::structs::{CellType, EvalError, TableExt};
use std::collections::HashMap;

fn columns() -> HashMap<u8, usize> {
    let mut col_index = HashMap::new();
    col_index.insert(b'A', 0);
    col_index.insert(b'B', 1);
    col_index.insert(b'C', 2);
    col_index
}

#[test]
fn address_without_row_digits_is_invalid() {
    assert_eq!(resolve("Z", &columns()), Err(EvalError::InvalidReference));
    let mut with_z = columns();
    with_z.insert(b'Z', 25);
    assert_eq!(resolve("Z", &with_z), Err(EvalError::InvalidReference));
}

#[test]
fn address_with_digits_before_the_letter_is_invalid() {
    assert_eq!(resolve("9A", &columns()), Err(EvalError::InvalidReference));
}

#[test]
fn address_resolves_to_column_and_row() {
    assert_eq!(resolve("C3", &columns()), Ok((2, 3)));
    assert_eq!(resolve("B12", &columns()), Ok((1, 12)));
    assert_eq!(resolve("A0", &columns()), Ok((0, 0)));
    assert_eq!(resolve("A007", &columns()), Ok((0, 7)));
}

#[test]
fn column_letter_is_case_insensitive() {
    assert_eq!(resolve("b4", &columns()), Ok((1, 4)));
    assert_eq!(key_of('b'), Some(b'B'));
    assert_eq!(key_of('B'), Some(b'B'));
    assert_eq!(key_of('z'), Some(b'Z'));
    assert_eq!(key_of('a'), Some(b'A'));
}

#[test]
fn only_letters_have_a_column_key() {
    assert_eq!(key_of('1'), None);
    assert_eq!(key_of('@'), None);
    assert_eq!(key_of('['), None);
    assert_eq!(key_of('`'), None);
    assert_eq!(key_of('{'), None);
    assert_eq!(key_of('é'), None);
    assert_eq!(key_of('ſ'), None);
}

#[test]
fn unknown_column_is_invalid() {
    assert_eq!(resolve("D1", &columns()), Err(EvalError::InvalidReference));
}

#[test]
fn leading_character_must_be_a_letter() {
    let mut odd = columns();
    odd.insert(b'1', 5);
    assert_eq!(resolve("11", &odd), Err(EvalError::InvalidReference));
    assert_eq!(resolve("é1", &columns()), Err(EvalError::InvalidReference));
}

#[test]
fn short_addresses_are_invalid() {
    assert_eq!(resolve("", &columns()), Err(EvalError::InvalidReference));
    assert_eq!(resolve("A", &columns()), Err(EvalError::InvalidReference));
    assert_eq!(resolve("1", &columns()), Err(EvalError::InvalidReference));
}

#[test]
fn row_must_be_a_number_that_fits() {
    assert_eq!(resolve("A-1", &columns()), Err(EvalError::InvalidReference));
    assert_eq!(resolve("A1x", &columns()), Err(EvalError::InvalidReference));
    assert_eq!(resolve("A 1", &columns()), Err(EvalError::InvalidReference));
    assert_eq!(resolve("AB1", &columns()), Err(EvalError::InvalidReference));
    assert_eq!(resolve("A1.5", &columns()), Err(EvalError::InvalidReference));
    assert_eq!(
        resolve("A99999999999999999999999999", &columns()),
        Err(EvalError::InvalidReference)
    );
    assert_eq!(
        resolve(&format!("A{}", usize::MAX), &columns()),
        Ok((0, usize::MAX))
    );
}

#[test]
fn row_carries_no_sign() {
    assert_eq!(resolve("A+3", &columns()), Err(EvalError::InvalidReference));
    assert_eq!(resolve("A+", &columns()), Err(EvalError::InvalidReference));
    assert_eq!(resolve("A-0", &columns()), Err(EvalError::InvalidReference));
}

#[test]
fn get_cell_by_str_ref_finds_the_cell() {
    let (mut table, col_index) = get_table_from_content("A|B\n1|two").unwrap();
    let cell = table.get_cell_by_str_ref("B1", &col_index).unwrap();
    assert_eq!(cell.generics.pos_x, 1);
    assert_eq!(cell.generics.pos_y, 1);
    assert_eq!(cell.generics.string_content, "two");
    assert_eq!(cell.generics.cell_type, CellType::Text);
    cell.generics.string_content = "three".to_string();
    assert_eq!(table.at(1, 1).generics.string_content, "three");
}

#[test]
fn get_cell_by_str_ref_rejects_what_is_not_in_the_table() {
    let (mut table, col_index) = get_table_from_content("A|B\n1|two").unwrap();
    let before = table.clone();
    assert_eq!(
        table.get_cell_by_str_ref("B2", &col_index).err(),
        Some(EvalError::InvalidReference)
    );
    assert_eq!(
        table.get_cell_by_str_ref("C1", &col_index).err(),
        Some(EvalError::InvalidReference)
    );
    assert_eq!(
        table.get_cell_by_str_ref("B", &col_index).err(),
        Some(EvalError::InvalidReference)
    );
    assert_eq!(table, before);
}

#[test]
fn at_and_at_mut_reach_the_same_cell() {
    let (mut table, _) = get_table_from_content("A|B\n1|two\n3|4").unwrap();
    assert_eq!(table.at(0, 2).generics.string_content, "3");
    assert_eq!(table.at(1, 1).generics.pos_x, 1);
    assert_eq!(table.at(1, 1).generics.pos_y, 1);
    table.at_mut(0, 2).generics.string_content = "33".to_string();
    assert_eq!(table.at(0, 2).generics.string_content, "33");
    assert_eq!(table.at(1, 2).generics.string_content, "4");
}
