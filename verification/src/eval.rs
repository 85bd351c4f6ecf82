//! The evaluator: literals, terms, formulas and cells.

use crate::address::resolve;
use crate::laws::{
    law_order_independence_from_any_consistent_state, lemma_eval_sequence_sound,
    lemma_evaluation_laws, lemma_scan_order_covers,
};
use crate::meaning::cell_agrees;
use crate::model::{
    eval_cell, eval_sequence, eval_term, eval_terms, is_pending, lemma_fold_stops_at_failure,
    lemma_pending_with_content, lemma_same_frame_reflexive, lemma_same_frame_transitive,
    lemma_with_content_wf, literal, scan_order, settled, started, terms_of, Outcome,
};
use crate::progress::{lemma_eval_sequence_structure, lemma_evolves_transitive};
use crate::structs::{
    cached_view, result_view, AddAssign, BaseCells, EvalError, EvalutedType, ExpressionCell,
    ExpressionCellValueType, SpecificCell, Table, TableExt,
};
use crate::utils::{
    lemma_split_nonempty, parse_i32, piece_views, split, split_chars, string_of, to_chars,
};
use std::collections::HashMap;
use vstd::arithmetic::div_mod::lemma_fundamental_div_mod_converse;
use vstd::prelude::*;
use vstd::slice::*;
use vstd::string::*;

verus! {

/// The value of `cell_str` where it is a literal: the text between the quotes
/// of a quoted string, or the number that a bare integer writes.
pub fn is_string_cell_static(cell_str: &str) -> (res: Option<ExpressionCellValueType>)
    ensures
        cached_view(res) == literal(cell_str@),
{
    let chars = to_chars(cell_str);
    let n: usize = chars.len();
    if n >= 2 && chars[0] == '"' && chars[n - 1] == '"' {
        let content = string_of(slice_subrange(chars.as_slice(), 1, n - 1));
        return Some(ExpressionCellValueType::Str(content));
    }
    match parse_i32(chars.as_slice()) {
        Some(number) => Some(ExpressionCellValueType::Numeric(number)),
        None => None,
    }
}

/// Replaces the content of the cell at column `x`, row `y`.
fn set_specs(table: &mut Table, x: usize, y: usize, specs: SpecificCell)
    requires
        old(table).has_cell(x, y),
    ensures
        final(table)@ =~~= old(table)@.with_content(x as nat, y as nat, specs@),
{
    table.cells[y][x].specs = specs;
}

/// Evaluates one term: a literal, or the address of a cell of `table`.
///
/// Fails with `InvalidReference` where the term is neither a literal nor an
/// address that resolves to a cell inside the table; otherwise the outcome is
/// that of evaluating the cell. The result and the table left behind are
/// those of `eval_term`.
pub fn eval_string_cell(left: &str, table: &mut Table, col_index: &HashMap<u8, usize>) -> (res:
    Result<ExpressionCellValueType, EvalError>)
    requires
        old(table).wf(),
    ensures
        final(table).wf(),
        forall|fuel: nat|
            fuel >= old(table)@.pending() ==> #[trigger] eval_term(
                old(table)@,
                col_index@,
                left@,
                fuel,
            ) == (Outcome { result: result_view(res), table: final(table)@ }),
        old(table)@.evolves_to(final(table)@),
        final(table)@.pending() <= old(table)@.pending(),
    decreases old(table)@.pending(), 1nat,
{
    let ghost t0 = table@;
    if let Some(value) = is_string_cell_static(left) {
        assert(literal(left@) == Some(value@));
        return Ok(value);
    }
    assert(literal(left@) is None);
    match resolve(left, col_index) {
        Ok((x, y)) => {
            if x < table.size_x && y < table.size_y {
                let res = evaluate(x, y, table, col_index);
                proof {
                    assert forall|fuel: nat| fuel >= t0.pending() implies #[trigger] eval_term(
                        t0,
                        col_index@,
                        left@,
                        fuel,
                    ) == (Outcome { result: result_view(res), table: table@ }) by {
                        assert(eval_cell(t0, col_index@, x as nat, y as nat, fuel) == (Outcome {
                            result: result_view(res),
                            table: table@,
                        }));
                    }
                }
                res
            } else {
                Err(EvalError::InvalidReference)
            }
        },
        Err(e) => Err(e),
    }
}

/// Evaluates the expression `expr`, a `+`-joined list of terms, from left to
/// right. Each term is evaluated on the table as the terms before it left it,
/// and the first failure ends the evaluation. The result and the table left
/// behind are those of `eval_terms` on the terms of `expr`.
pub fn eval_string_expr(expr: &str, table: &mut Table, col_index: &HashMap<u8, usize>) -> (res:
    Result<ExpressionCellValueType, EvalError>)
    requires
        old(table).wf(),
    ensures
        final(table).wf(),
        forall|fuel: nat|
            fuel >= old(table)@.pending() ==> #[trigger] eval_terms(
                old(table)@,
                col_index@,
                split(expr@, '+'),
                fuel,
            ) == (Outcome { result: result_view(res), table: final(table)@ }),
        old(table)@.evolves_to(final(table)@),
        final(table)@.pending() <= old(table)@.pending(),
    decreases old(table)@.pending(), 2nat,
{
    let chars = to_chars(expr);
    let pieces = split_chars(chars.as_slice(), '+');
    let ghost terms = split(expr@, '+');
    let ghost t0 = table@;
    assert(terms.len() == pieces@.len());
    assert(pieces@.len() >= 1) by {
        lemma_split_nonempty(expr@, '+');
    }
    let first = string_of(pieces[0].as_slice());
    assert(first@ == terms[0]);
    let mut acc = match eval_string_cell(first.as_str(), table, col_index) {
        Ok(value) => value,
        Err(e) => {
            proof {
                assert forall|fuel: nat| fuel >= t0.pending() implies #[trigger] eval_terms(
                    t0,
                    col_index@,
                    terms,
                    fuel,
                ) == (Outcome { result: Err(e), table: table@ }) by {
                    assert(terms.take(1) =~= seq![terms[0]]);
                    assert(eval_term(t0, col_index@, terms[0], fuel).result is Err);
                    lemma_fold_stops_at_failure(t0, col_index@, terms, 1, fuel);
                }
            }
            return Err(e);
        },
    };
    proof {
        assert forall|fuel: nat| fuel >= t0.pending() implies #[trigger] eval_terms(
            t0,
            col_index@,
            terms.take(1),
            fuel,
        ) == (Outcome { result: Ok(acc@), table: table@ }) by {
            assert(terms.take(1) =~= seq![terms[0]]);
            assert(eval_term(t0, col_index@, terms[0], fuel) == (Outcome {
                result: Ok(acc@),
                table: table@,
            }));
        }
    }
    let mut i: usize = 1;
    while i < pieces.len()
        invariant
            1 <= i <= pieces@.len(),
            t0 == old(table)@,
            terms == split(expr@, '+'),
            piece_views(pieces@) == terms,
            t0.wf(),
            table.wf(),
            t0.evolves_to(table@),
            table@.pending() <= t0.pending(),
            forall|fuel: nat|
                fuel >= t0.pending() ==> #[trigger] eval_terms(
                    t0,
                    col_index@,
                    terms.take(i as int),
                    fuel,
                ) == (Outcome { result: Ok(acc@), table: table@ }),
        decreases pieces@.len() - i,
    {
        let ghost before = table@;
        let ghost sum = acc@;
        let term = string_of(pieces[i].as_slice());
        assert(term@ == terms[i as int]);
        assert(terms.take(i + 1).drop_last() =~= terms.take(i as int));
        let next = eval_string_cell(term.as_str(), table, col_index);
        proof {
            lemma_evolves_transitive(t0, before, table@);
        }
        let failure = match next {
            Ok(value) => match acc.add_assign(value) {
                Ok(()) => None,
                Err(e) => Some(e),
            },
            Err(e) => Some(e),
        };
        if let Some(e) = failure {
            proof {
                assert forall|fuel: nat| fuel >= t0.pending() implies #[trigger] eval_terms(
                    t0,
                    col_index@,
                    terms,
                    fuel,
                ) == (Outcome { result: Err(e), table: table@ }) by {
                    let prefix = terms.take(i + 1);
                    assert(prefix.last() == terms[i as int]);
                    assert(eval_terms(t0, col_index@, prefix.drop_last(), fuel) == (Outcome {
                        result: Ok(sum),
                        table: before,
                    }));
                    assert(eval_term(before, col_index@, terms[i as int], fuel) == (Outcome {
                        result: result_view(next),
                        table: table@,
                    }));
                    assert(eval_terms(t0, col_index@, prefix, fuel) == (Outcome {
                        result: Err(e),
                        table: table@,
                    }));
                    lemma_fold_stops_at_failure(t0, col_index@, terms, i + 1, fuel);
                }
            }
            return Err(e);
        }
        proof {
            assert forall|fuel: nat| fuel >= t0.pending() implies #[trigger] eval_terms(
                t0,
                col_index@,
                terms.take(i + 1),
                fuel,
            ) == (Outcome { result: Ok(acc@), table: table@ }) by {
                let prefix = terms.take(i + 1);
                assert(prefix.last() == terms[i as int]);
                assert(eval_terms(t0, col_index@, prefix.drop_last(), fuel) == (Outcome {
                    result: Ok(sum),
                    table: before,
                }));
                assert(eval_term(before, col_index@, terms[i as int], fuel) == (Outcome {
                    result: result_view(next),
                    table: table@,
                }));
            }
        }
        i = i + 1;
    }
    assert(terms.take(i as int) =~= terms);
    Ok(acc)
}

/// Evaluates the cell at column `cell_x`, row `cell_y`.
///
/// A number or a text gives its value and an empty cell fails with
/// `NonValueCell`. A formula that is done gives its cached value; one whose
/// evaluation is in progress fails with `CyclicReference`, and one that
/// failed before with `AlreadyFailed`. In all these cases the table stays as
/// it is. A pending formula is evaluated: its value is cached on the cell, or
/// the cell is marked as failed and the failure is handed on.
///
/// The result and the table left behind are those of `eval_cell`, whatever
/// fuel it is given that covers the pending formulas. Formulas only move
/// forward, and where the table was at rest and consistent the result is
/// `Ok(v)` exactly when the cell is worth `v`.
pub fn evaluate(
    cell_x: usize,
    cell_y: usize,
    table: &mut Table,
    col_index: &HashMap<u8, usize>,
) -> (res: Result<ExpressionCellValueType, EvalError>)
    requires
        old(table).wf(),
        old(table)@.contains(cell_x as nat, cell_y as nat),
    ensures
        final(table).wf(),
        forall|fuel: nat|
            fuel >= old(table)@.pending() ==> #[trigger] eval_cell(
                old(table)@,
                col_index@,
                cell_x as nat,
                cell_y as nat,
                fuel,
            ) == (Outcome { result: result_view(res), table: final(table)@ }),
        old(table)@.evolves_to(final(table)@),
        final(table)@.pending() <= old(table)@.pending(),
        !is_pending(old(table)@.cell(cell_x as nat, cell_y as nat).content) ==> final(table)@
            == old(table)@,
        is_pending(old(table)@.cell(cell_x as nat, cell_y as nat).content) ==> final(table)@.cell(
            cell_x as nat,
            cell_y as nat,
        ).content == settled(result_view(res)),
        old(table)@.at_rest() && old(table)@.consistent(col_index@) ==> {
            &&& cell_agrees(old(table)@, col_index@, cell_x as nat, cell_y as nat, result_view(res))
            &&& final(table)@.at_rest()
            &&& final(table)@.consistent(col_index@)
        },
    decreases old(table)@.pending(), 0nat,
{
    let ghost t0 = table@;
    let ghost x = cell_x as nat;
    let ghost y = cell_y as nat;
    proof {
        assert(t0.cell(x, y).wf());
        assert(t0.rows[y as int].len() == t0.size_x);
        lemma_evaluation_laws(t0, col_index@, x, y);
    }
    let cell = table.at(cell_x, cell_y);
    let text: String = match &cell.specs {
        SpecificCell::BaseCells(BaseCells::NumericCell(number)) => {
            return Ok(ExpressionCellValueType::Numeric(number.value));
        },
        SpecificCell::BaseCells(BaseCells::TextCell()) => {
            return Ok(ExpressionCellValueType::Str(cell.generics.string_content.clone()));
        },
        SpecificCell::EmptyCell() => {
            return Err(EvalError::NonValueCell);
        },
        SpecificCell::ExpressionCell(formula) => match &formula.value {
            Some(value) => {
                return Ok(value.clone());
            },
            None => match formula.evaluated {
                EvalutedType::ToEvaluate => cell.generics.string_content.clone(),
                EvalutedType::InProgress => {
                    return Err(EvalError::CyclicReference { x: cell_x, y: cell_y });
                },
                _ => {
                    return Err(EvalError::AlreadyFailed);
                },
            },
        },
    };
    set_specs(
        table,
        cell_x,
        cell_y,
        SpecificCell::ExpressionCell(
            ExpressionCell { value: None, evaluated: EvalutedType::InProgress },
        ),
    );
    let ghost t1 = table@;
    proof {
        lemma_with_content_wf(t0, x, y, started());
        lemma_pending_with_content(t0, x, y, started());
    }
    let chars = to_chars(text.as_str());
    let expr = string_of(slice_subrange(chars.as_slice(), 1, chars.len()));
    assert(split(expr@, '+') == terms_of(text@)) by {
        assert(expr@ =~= text@.skip(1));
    }
    let folded = eval_string_expr(expr.as_str(), table, col_index);
    let ghost t2 = table@;
    assert(t2.rows[y as int].len() == t2.size_x);
    assert(t2.cell(x, y).wf());
    let (specs, res) = match folded {
        Ok(value) => (
            SpecificCell::ExpressionCell(
                ExpressionCell { value: Some(value.clone()), evaluated: EvalutedType::Done },
            ),
            Ok(value),
        ),
        Err(e) => (
            SpecificCell::ExpressionCell(
                ExpressionCell { value: None, evaluated: EvalutedType::Failed },
            ),
            Err(e),
        ),
    };
    assert(specs@ == settled(result_view(res)));
    set_specs(table, cell_x, cell_y, specs);
    proof {
        lemma_with_content_wf(t2, x, y, settled(result_view(res)));
        lemma_pending_with_content(t2, x, y, settled(result_view(res)));
        lemma_same_frame_transitive(t0, t1, t2);
        lemma_same_frame_transitive(t0, t2, table@);
        assert forall|fuel: nat| fuel >= t0.pending() implies #[trigger] eval_cell(
            t0,
            col_index@,
            x,
            y,
            fuel,
        ) == (Outcome { result: result_view(res), table: table@ }) by {
            assert(eval_terms(t1, col_index@, terms_of(text@), (fuel - 1) as nat) == (Outcome {
                result: result_view(res),
                table: t2,
            }));
        }
        assert(eval_cell(t0, col_index@, x, y, t0.pending()) == (Outcome {
            result: result_view(res),
            table: table@,
        }));
    }
    res
}

/// Evaluates every formula of the table, column by column and from the first
/// row down within each column. Failures stay on their cells as the status
/// `Failed` and do not stop the evaluation of the other cells.
///
/// Where the table was at rest and consistent, as a table is that has just
/// been built, every formula ends up done, caching what the cell is worth, or
/// failed, where the cell is worth nothing.
pub fn evaluate_table(table: &mut Table, col_index: &HashMap<u8, usize>)
    requires
        old(table).wf(),
    ensures
        final(table).wf(),
        final(table)@ == eval_sequence(
            old(table)@,
            col_index@,
            scan_order(old(table)@.size_x, old(table)@.size_y),
        ),
        old(table)@.evolves_to(final(table)@),
        old(table)@.at_rest() && old(table)@.consistent(col_index@) ==> {
            &&& final(table)@.all_settled()
            &&& final(table)@.consistent(col_index@)
        },
{
    let ghost t0 = table@;
    let ghost order = scan_order(t0.size_x, t0.size_y);
    let size_x: usize = table.size_x;
    let size_y: usize = table.size_y;
    let mut x: usize = 0;
    proof {
        lemma_same_frame_reflexive(t0);
        assert(order.take(0) =~= Seq::<(nat, nat)>::empty());
    }
    while x < size_x
        invariant
            x <= size_x,
            size_x == t0.size_x,
            size_y == t0.size_y,
            order == scan_order(t0.size_x, t0.size_y),
            table.wf(),
            t0.same_frame(table@),
            table@ == eval_sequence(t0, col_index@, order.take(x * size_y)),
        decreases size_x - x,
    {
        let mut y: usize = 0;
        while y < size_y
            invariant
                x < size_x,
                y <= size_y,
                size_x == t0.size_x,
                size_y == t0.size_y,
                order == scan_order(t0.size_x, t0.size_y),
                table.wf(),
                t0.same_frame(table@),
                table@ == eval_sequence(t0, col_index@, order.take(x * size_y + y)),
            decreases size_y - y,
        {
            let ghost before = table@;
            let ghost k: int = x * size_y + y;
            proof {
                assert(before.contains(x as nat, y as nat));
                assert(before.cell(x as nat, y as nat).wf());
                assert(before.rows[y as int].len() == before.size_x);
                assert(0 <= k < size_x * size_y) by (nonlinear_arith)
                    requires
                        k == x * size_y + y,
                        0 <= x < size_x,
                        0 <= y < size_y,
                ;
                lemma_fundamental_div_mod_converse(k, size_y as int, x as int, y as int);
                assert(order[k] == (x as nat, y as nat));
                assert(order.take(k + 1).drop_last() =~= order.take(k));
                assert(order.take(k + 1).last() == order[k]);
            }
            let is_formula = match &table.at(x, y).specs {
                SpecificCell::ExpressionCell(_) => true,
                _ => false,
            };
            if is_formula {
                let _ = evaluate(x, y, table, col_index);
                proof {
                    lemma_same_frame_transitive(t0, before, table@);
                }
            }
            assert(table@ == eval_cell(
                before,
                col_index@,
                x as nat,
                y as nat,
                before.pending(),
            ).table);
            y = y + 1;
        }
        assert(x * size_y + size_y == (x + 1) * size_y) by (nonlinear_arith);
        x = x + 1;
    }
    assert(order.take(size_x * size_y) =~= order);
    proof {
        lemma_eval_sequence_structure(t0, col_index@, order);
        if t0.at_rest() && t0.consistent(col_index@) {
            lemma_scan_order_covers(t0);
            law_order_independence_from_any_consistent_state(t0, col_index@, order, order);
            lemma_eval_sequence_sound(t0, col_index@, order);
        }
    }
}

} // verus!
