//! Address tokens: a column letter followed by a row number, such as `B12`.

use crate::structs::EvalError;
use crate::utils::{parse_usize, parse_usize_spec, to_chars};
use std::collections::HashMap;
use vstd::prelude::*;
use vstd::slice::*;

verus! {

/// The key under which a column index files the letter `c`: the ASCII code of
/// its upper-case form. Only the letters `A` to `Z` and `a` to `z` have one.
pub open spec fn column_key(c: char) -> Option<u8> {
    if 'A' <= c && c <= 'Z' {
        Some(c as u8)
    } else if 'a' <= c && c <= 'z' {
        Some((c as u8 - 32) as u8)
    } else {
        None
    }
}

/// The coordinates (column, row) that the address `token` names under the
/// column index `col_index`, if it names any.
///
/// The token must hold at least two characters: a letter that the index knows,
/// in either case, and then a row number, written with digits alone.
pub open spec fn resolve_spec(token: Seq<char>, col_index: Map<u8, usize>) -> Option<
    (usize, usize),
> {
    if token.len() < 2 {
        None
    } else {
        match (column_key(token[0]), parse_usize_spec(token.skip(1))) {
            (Some(key), Some(row)) => if col_index.contains_key(key) {
                Some((col_index[key], row))
            } else {
                None
            },
            _ => None,
        }
    }
}

/// Computes `column_key`.
pub fn key_of(c: char) -> (key: Option<u8>)
    ensures
        key == column_key(c),
{
    if 'A' <= c && c <= 'Z' {
        Some(c as u8)
    } else if 'a' <= c && c <= 'z' {
        Some(c as u8 - 32)
    } else {
        None
    }
}

/// Resolves the address `token` to coordinates (column, row), or fails with
/// `InvalidReference`. Whether the coordinates lie inside a table is not
/// looked at here.
pub fn resolve(token: &str, col_index: &HashMap<u8, usize>) -> (res: Result<
    (usize, usize),
    EvalError,
>)
    ensures
        match resolve_spec(token@, col_index@) {
            Some(place) => res == Ok::<(usize, usize), EvalError>(place),
            None => res == Err::<(usize, usize), EvalError>(EvalError::InvalidReference),
        },
{
    let chars = to_chars(token);
    if chars.len() < 2 {
        return Err(EvalError::InvalidReference);
    }
    let key = match key_of(chars[0]) {
        Some(key) => key,
        None => {
            return Err(EvalError::InvalidReference);
        },
    };
    let column = match col_index.get(&key) {
        Some(column) => *column,
        None => {
            return Err(EvalError::InvalidReference);
        },
    };
    let digits = slice_subrange(chars.as_slice(), 1, chars.len());
    assert(digits@ =~= token@.skip(1));
    match parse_usize(digits) {
        Some(row) => Ok((column, row)),
        None => Err(EvalError::InvalidReference),
    }
}

} // verus!
