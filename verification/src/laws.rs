//! What holds of evaluation as a whole: literal cells and settled formulas
//! are left alone, results agree with what the cells are worth, and the
//! order in which the formulas of a table are evaluated does not matter.

use crate::address::resolve_spec;
use crate::meaning::{
    cell_agrees, cell_has_no_value, cell_has_value, denote_cell, is_settled,
    lemma_cell_value_unique, lemma_eval_cell_sound, lemma_worth_transfer,
};
use crate::model::{
    eval_cell, eval_sequence, eval_term, eval_terms, is_pending, lemma_fold_stops_at_failure,
    lemma_with_content_wf, literal, scan_order, settled, started, terms_of, Outcome,
};
use crate::progress::{
    is_in_progress, lemma_eval_cell_structure, lemma_evolves_reflexive, lemma_evolves_transitive,
};
use crate::structs::{Content, EvalError, EvalutedType, TableView, Value};
use crate::utils::lemma_split_nonempty;
use vstd::arithmetic::div_mod::lemma_fundamental_div_mod_converse;
use vstd::prelude::*;

verus! {

impl TableView {
    /// Whether every formula of this table is still to be evaluated.
    pub open spec fn fresh(self) -> bool {
        forall|x: nat, y: nat|
            self.contains(x, y) && (#[trigger] self.cell(x, y)).content is Formula ==> is_pending(
                self.cell(x, y).content,
            )
    }

    /// Whether every formula of this table is done or has failed.
    pub open spec fn all_settled(self) -> bool {
        forall|x: nat, y: nat|
            self.contains(x, y) && (#[trigger] self.cell(x, y)).content is Formula ==> is_settled(
                self.cell(x, y).content,
            )
    }
}

/// Whether `places` names every formula of `t`.
pub open spec fn covers_formulas(t: TableView, places: Seq<(nat, nat)>) -> bool {
    forall|x: nat, y: nat|
        t.contains(x, y) && (#[trigger] t.cell(x, y)).content is Formula ==> places.contains(
            (x, y),
        )
}

/// A table whose formulas are all still to be evaluated is at rest and
/// consistent.
pub proof fn lemma_fresh_is_consistent(t: TableView, col_index: Map<u8, usize>)
    requires
        t.fresh(),
    ensures
        t.at_rest(),
        t.consistent(col_index),
{
}

/// Evaluating a cell that is no formula gives what the cell holds, or fails
/// for an empty cell, and leaves the table as it is.
pub proof fn law_literal_cells_are_read(
    t: TableView,
    col_index: Map<u8, usize>,
    x: nat,
    y: nat,
    fuel: nat,
)
    requires
        t.cell(x, y).content !is Formula,
    ensures
        eval_cell(t, col_index, x, y, fuel).table == t,
        eval_cell(t, col_index, x, y, fuel).result == match t.cell(x, y).content {
            Content::Numeric(n) => Ok::<Value, EvalError>(Value::Numeric(n)),
            Content::Text => Ok(Value::Text(t.cell(x, y).text)),
            _ => Err(EvalError::NonValueCell),
        },
{
}

/// Evaluating a formula that is done gives its cached value and leaves the
/// table as it is, so that a second evaluation gives the same value again.
pub proof fn law_done_formula_is_not_evaluated_again(
    t: TableView,
    col_index: Map<u8, usize>,
    x: nat,
    y: nat,
    value: Value,
    fuel: nat,
    later_fuel: nat,
)
    requires
        t.cell(x, y).content == (Content::Formula {
            status: EvalutedType::Done,
            cached: Some(value),
        }),
    ensures
        eval_cell(t, col_index, x, y, fuel) == (Outcome { result: Ok(value), table: t }),
        eval_cell(eval_cell(t, col_index, x, y, fuel).table, col_index, x, y, later_fuel) == (
        Outcome { result: Ok(value), table: t }),
{
}

/// A pending formula whose first term is its own address fails with
/// `CyclicReference`, and the error names the cell.
pub proof fn law_self_reference_is_cyclic(
    t: TableView,
    col_index: Map<u8, usize>,
    x: usize,
    y: usize,
    fuel: nat,
)
    requires
        t.wf(),
        t.contains(x as nat, y as nat),
        is_pending(t.cell(x as nat, y as nat).content),
        literal(terms_of(t.cell(x as nat, y as nat).text)[0]) is None,
        resolve_spec(terms_of(t.cell(x as nat, y as nat).text)[0], col_index) == Some((x, y)),
        fuel >= 1,
    ensures
        eval_cell(t, col_index, x as nat, y as nat, fuel).result == Err::<Value, EvalError>(
            EvalError::CyclicReference { x, y },
        ),
{
    let terms = terms_of(t.cell(x as nat, y as nat).text);
    let t1 = t.with_content(x as nat, y as nat, started());
    let rest = (fuel - 1) as nat;
    lemma_with_content_wf(t, x as nat, y as nat, started());
    lemma_split_nonempty(t.cell(x as nat, y as nat).text.skip(1), '+');
    assert(eval_cell(t1, col_index, x as nat, y as nat, rest).result == Err::<Value, EvalError>(
        EvalError::CyclicReference { x, y },
    ));
    assert(terms.take(1) =~= seq![terms[0]]);
    assert(eval_terms(t1, col_index, terms.take(1), rest) == eval_term(
        t1,
        col_index,
        terms[0],
        rest,
    ));
    lemma_fold_stops_at_failure(t1, col_index, terms, 1, rest);
}

/// Of two pending formulas whose first terms are each other's addresses, the
/// one that is evaluated first fails with `CyclicReference`, and the error
/// names it.
pub proof fn law_mutual_reference_is_cyclic(
    t: TableView,
    col_index: Map<u8, usize>,
    x: usize,
    y: usize,
    other_x: usize,
    other_y: usize,
    fuel: nat,
)
    requires
        t.wf(),
        t.contains(x as nat, y as nat),
        t.contains(other_x as nat, other_y as nat),
        (x, y) != (other_x, other_y),
        is_pending(t.cell(x as nat, y as nat).content),
        is_pending(t.cell(other_x as nat, other_y as nat).content),
        literal(terms_of(t.cell(x as nat, y as nat).text)[0]) is None,
        resolve_spec(terms_of(t.cell(x as nat, y as nat).text)[0], col_index) == Some(
            (other_x, other_y),
        ),
        literal(terms_of(t.cell(other_x as nat, other_y as nat).text)[0]) is None,
        resolve_spec(terms_of(t.cell(other_x as nat, other_y as nat).text)[0], col_index) == Some(
            (x, y),
        ),
        fuel >= 2,
    ensures
        eval_cell(t, col_index, x as nat, y as nat, fuel).result == Err::<Value, EvalError>(
            EvalError::CyclicReference { x, y },
        ),
{
    let cyclic = Err::<Value, EvalError>(EvalError::CyclicReference { x, y });
    let (ax, ay) = (x as nat, y as nat);
    let (bx, by) = (other_x as nat, other_y as nat);
    let terms = terms_of(t.cell(ax, ay).text);
    let other_terms = terms_of(t.cell(bx, by).text);
    let t1 = t.with_content(ax, ay, started());
    let t2 = t1.with_content(bx, by, started());
    let rest = (fuel - 1) as nat;
    let least = (fuel - 2) as nat;
    lemma_with_content_wf(t, ax, ay, started());
    assert(t1.cell(bx, by) == t.cell(bx, by));
    lemma_with_content_wf(t1, bx, by, started());
    assert(t2.cell(ax, ay) == t1.cell(ax, ay));
    lemma_split_nonempty(t.cell(ax, ay).text.skip(1), '+');
    lemma_split_nonempty(t.cell(bx, by).text.skip(1), '+');
    // The second formula reaches the first, which is in progress.
    assert(eval_cell(t2, col_index, ax, ay, least).result == cyclic);
    assert(other_terms.take(1) =~= seq![other_terms[0]]);
    assert(eval_terms(t2, col_index, other_terms.take(1), least) == eval_term(
        t2,
        col_index,
        other_terms[0],
        least,
    ));
    lemma_fold_stops_at_failure(t2, col_index, other_terms, 1, least);
    assert(eval_cell(t1, col_index, bx, by, rest).result == cyclic);
    // So the fold of the first formula fails on its first term.
    assert(terms.take(1) =~= seq![terms[0]]);
    assert(eval_terms(t1, col_index, terms.take(1), rest) == eval_term(
        t1,
        col_index,
        terms[0],
        rest,
    ));
    lemma_fold_stops_at_failure(t1, col_index, terms, 1, rest);
}

/// Evaluating a formula settles it: a value is cached on the cell, so that a
/// second evaluation returns it without touching the table, and a failure
/// marks the cell as failed, so that a second evaluation fails with
/// `AlreadyFailed`, again without touching the table.
pub proof fn law_formula_is_evaluated_once(
    t: TableView,
    col_index: Map<u8, usize>,
    x: nat,
    y: nat,
    fuel: nat,
    later_fuel: nat,
)
    requires
        t.wf(),
        t.contains(x, y),
        t.cell(x, y).content is Formula,
        !is_in_progress(t.cell(x, y).content),
        fuel >= t.pending(),
    ensures
        ({
            let first = eval_cell(t, col_index, x, y, fuel);
            let second = eval_cell(first.table, col_index, x, y, later_fuel);
            &&& second.table == first.table
            &&& first.result is Ok ==> second.result == first.result
            &&& first.result is Err ==> second.result == Err::<Value, EvalError>(
                EvalError::AlreadyFailed,
            )
        }),
{
    lemma_eval_cell_structure(t, col_index, x, y, fuel, fuel);
    assert(t.cell(x, y).wf());
}

/// On a table at rest and consistent, the result of evaluating a cell agrees
/// with what the cell is worth: it is `Ok(v)` exactly when the cell is worth
/// `v`, and an error exactly when the cell is worth nothing. The table stays
/// at rest and consistent.
pub proof fn law_evaluation_agrees_with_worth(
    t: TableView,
    col_index: Map<u8, usize>,
    x: nat,
    y: nat,
    fuel: nat,
)
    requires
        t.wf(),
        t.contains(x, y),
        t.at_rest(),
        t.consistent(col_index),
        fuel >= t.pending(),
    ensures
        cell_agrees(t, col_index, x, y, eval_cell(t, col_index, x, y, fuel).result),
        forall|v: Value|
            cell_has_value(t, col_index, x, y, v) <==> eval_cell(t, col_index, x, y, fuel).result
                == Ok::<Value, EvalError>(v),
        cell_has_no_value(t, col_index, x, y) <==> eval_cell(t, col_index, x, y, fuel).result
            is Err,
        eval_cell(t, col_index, x, y, fuel).table.wf(),
        eval_cell(t, col_index, x, y, fuel).table.at_rest(),
        eval_cell(t, col_index, x, y, fuel).table.consistent(col_index),
        t.evolves_to(eval_cell(t, col_index, x, y, fuel).table),
{
    lemma_eval_cell_structure(t, col_index, x, y, fuel, fuel);
    lemma_eval_cell_sound(t, col_index, x, y, fuel);
    let o = eval_cell(t, col_index, x, y, fuel);
    lemma_at_rest_is_kept(t, o.table);
    match o.result {
        Ok(w) => {
            assert forall|v: Value| cell_has_value(t, col_index, x, y, v) implies o.result == Ok::<
                Value,
                EvalError,
            >(v) by {
                lemma_cell_value_unique(t, col_index, x, y, v, w);
            }
            let d = choose|depth: nat| #[trigger] denote_cell(t, col_index, x, y, depth) == Some(w);
            assert(denote_cell(t, col_index, x, y, d) is Some);
        },
        Err(_) => {
            assert forall|v: Value| !cell_has_value(t, col_index, x, y, v) by {
                if cell_has_value(t, col_index, x, y, v) {
                    let d = choose|depth: nat| #[trigger]
                        denote_cell(t, col_index, x, y, depth) == Some(v);
                    assert(denote_cell(t, col_index, x, y, d) is None);
                }
            }
        },
    }
}

/// What the contract of `evaluate` adds to the outcome itself: formulas only
/// move forward, a cell that is no pending formula leaves the table as it
/// is, a pending formula is settled with the result, and on a table at rest
/// and consistent the result agrees with what the cell is worth.
pub proof fn lemma_evaluation_laws(t: TableView, col_index: Map<u8, usize>, x: nat, y: nat)
    requires
        t.wf(),
        t.contains(x, y),
    ensures
        ({
            let o = eval_cell(t, col_index, x, y, t.pending());
            &&& o.table.wf()
            &&& t.evolves_to(o.table)
            &&& !is_pending(t.cell(x, y).content) ==> o.table == t
            &&& is_pending(t.cell(x, y).content) ==> o.table.cell(x, y).content
                == settled(o.result)
            &&& t.at_rest() && t.consistent(col_index) ==> {
                &&& cell_agrees(t, col_index, x, y, o.result)
                &&& o.table.at_rest()
                &&& o.table.consistent(col_index)
            }
        }),
{
    lemma_eval_cell_structure(t, col_index, x, y, t.pending(), t.pending());
    if t.at_rest() && t.consistent(col_index) {
        law_evaluation_agrees_with_worth(t, col_index, x, y, t.pending());
    }
}

/// A later state of a table at rest is at rest.
pub proof fn lemma_at_rest_is_kept(t: TableView, u: TableView)
    requires
        t.at_rest(),
        t.evolves_to(u),
    ensures
        u.at_rest(),
{
    assert forall|x: nat, y: nat| u.contains(x, y) implies !is_in_progress(
        (#[trigger] u.cell(x, y)).content,
    ) by {
        assert(t.contains(x, y));
        assert(!is_in_progress(t.cell(x, y).content));
    }
}

/// Evaluating cells one after the other keeps a table well formed, at rest
/// and consistent, and settles every formula among them.
pub proof fn lemma_eval_sequence_sound(
    t: TableView,
    col_index: Map<u8, usize>,
    places: Seq<(nat, nat)>,
)
    requires
        t.wf(),
        t.at_rest(),
        t.consistent(col_index),
    ensures
        eval_sequence(t, col_index, places).wf(),
        eval_sequence(t, col_index, places).at_rest(),
        eval_sequence(t, col_index, places).consistent(col_index),
        t.evolves_to(eval_sequence(t, col_index, places)),
        forall|x: nat, y: nat|
            t.contains(x, y) && places.contains((x, y)) ==> !is_pending(
                (#[trigger] eval_sequence(t, col_index, places).cell(x, y)).content,
            ),
    decreases places.len(),
{
    if places.len() == 0 {
        lemma_evolves_reflexive(t);
    } else {
        let front = places.drop_last();
        lemma_eval_sequence_sound(t, col_index, front);
        let before = eval_sequence(t, col_index, front);
        let after = eval_sequence(t, col_index, places);
        let (px, py) = places.last();
        if before.contains(px, py) {
            law_evaluation_agrees_with_worth(before, col_index, px, py, before.pending());
            let fuel = before.pending();
            lemma_eval_cell_structure(before, col_index, px, py, fuel, fuel);
            lemma_evolves_transitive(t, before, after);
        }
        assert forall|x: nat, y: nat|
            t.contains(x, y) && places.contains((x, y)) implies !is_pending(
            (#[trigger] after.cell(x, y)).content,
        ) by {
            assert(before.contains(x, y));
            let i = choose|i: int| 0 <= i < places.len() && places[i] == (x, y);
            if i < places.len() - 1 {
                assert(front[i] == (x, y));
                assert(front.contains((x, y)));
                assert(!is_pending(before.cell(x, y).content));
            } else {
                assert(px == x && py == y);
                assert(before.cell(x, y).wf());
            }
        }
    }
}

/// The order in which the formulas of a table are evaluated does not matter:
/// starting from a table whose formulas are all still to be evaluated, two
/// sequences of places that both name every formula leave the same table
/// behind, with the same status and the same cached value on every cell.
pub proof fn law_order_independence(
    t: TableView,
    col_index: Map<u8, usize>,
    first: Seq<(nat, nat)>,
    second: Seq<(nat, nat)>,
)
    requires
        t.wf(),
        t.fresh(),
        covers_formulas(t, first),
        covers_formulas(t, second),
    ensures
        eval_sequence(t, col_index, first) == eval_sequence(t, col_index, second),
        eval_sequence(t, col_index, first).all_settled(),
{
    lemma_fresh_is_consistent(t, col_index);
    law_order_independence_from_any_consistent_state(t, col_index, first, second);
}

/// The same holds from any state that evaluation can have left behind: a
/// table at rest and consistent, some of whose formulas may be settled
/// already.
pub proof fn law_order_independence_from_any_consistent_state(
    t: TableView,
    col_index: Map<u8, usize>,
    first: Seq<(nat, nat)>,
    second: Seq<(nat, nat)>,
)
    requires
        t.wf(),
        t.at_rest(),
        t.consistent(col_index),
        covers_formulas(t, first),
        covers_formulas(t, second),
    ensures
        eval_sequence(t, col_index, first) == eval_sequence(t, col_index, second),
        eval_sequence(t, col_index, first).all_settled(),
{
    let a = eval_sequence(t, col_index, first);
    let b = eval_sequence(t, col_index, second);
    lemma_eval_sequence_sound(t, col_index, first);
    lemma_eval_sequence_sound(t, col_index, second);
    assert forall|x: nat, y: nat| t.contains(x, y) implies a.cell(x, y) == b.cell(x, y) by {
        let ca = a.cell(x, y);
        let cb = b.cell(x, y);
        assert(ca.wf() && cb.wf());
        assert(t.cell(x, y).wf());
        if t.cell(x, y).content is Formula {
            assert(first.contains((x, y)) && second.contains((x, y)));
            assert(!is_pending(ca.content) && !is_pending(cb.content));
            assert(!is_in_progress(ca.content) && !is_in_progress(cb.content));
            lemma_worth_transfer(t, a, col_index, x, y);
            lemma_worth_transfer(t, b, col_index, x, y);
            lemma_settled_content_is_determined(t, col_index, x, y, ca.content, cb.content);
        }
    }
    assert forall|y: int| 0 <= y < a.rows.len() implies a.rows[y] =~= b.rows[y] by {
        assert(a.rows[y].len() == a.size_x);
        assert(b.rows[y].len() == b.size_x);
        assert forall|x: int| 0 <= x < a.rows[y].len() implies a.rows[y][x] == b.rows[y][x] by {
            assert(t.contains(x as nat, y as nat));
            assert(a.cell(x as nat, y as nat) == b.cell(x as nat, y as nat));
        }
    }
    assert(a.rows =~= b.rows);
    assert(a =~= b);
    assert forall|x: nat, y: nat|
        a.contains(x, y) && (#[trigger] a.cell(x, y)).content is Formula implies is_settled(
        a.cell(x, y).content,
    ) by {
        assert(t.contains(x, y));
        assert(first.contains((x, y)));
        assert(!is_pending(a.cell(x, y).content));
        assert(!is_in_progress(a.cell(x, y).content));
    }
}

/// Two settled states of one formula that both agree with what the cell is
/// worth are the same state.
pub proof fn lemma_settled_content_is_determined(
    t: TableView,
    col_index: Map<u8, usize>,
    x: nat,
    y: nat,
    a: Content,
    b: Content,
)
    requires
        a.wf(),
        b.wf(),
        is_settled(a),
        is_settled(b),
        a matches Content::Formula { status: EvalutedType::Done, cached } ==> cell_has_value(
            t,
            col_index,
            x,
            y,
            cached->0,
        ),
        b matches Content::Formula { status: EvalutedType::Done, cached } ==> cell_has_value(
            t,
            col_index,
            x,
            y,
            cached->0,
        ),
        a matches Content::Formula { status: EvalutedType::Failed, .. } ==> cell_has_no_value(
            t,
            col_index,
            x,
            y,
        ),
        b matches Content::Formula { status: EvalutedType::Failed, .. } ==> cell_has_no_value(
            t,
            col_index,
            x,
            y,
        ),
    ensures
        a == b,
{
    match (a, b) {
        (
            Content::Formula { status: EvalutedType::Done, cached: ca },
            Content::Formula { status: EvalutedType::Done, cached: cb },
        ) => {
            lemma_cell_value_unique(t, col_index, x, y, ca->0, cb->0);
        },
        (
            Content::Formula { status: EvalutedType::Done, cached: ca },
            Content::Formula { status: EvalutedType::Failed, .. },
        ) => {
            let d = choose|depth: nat| #[trigger]
                denote_cell(t, col_index, x, y, depth) == Some(ca->0);
            assert(denote_cell(t, col_index, x, y, d) is None);
        },
        (
            Content::Formula { status: EvalutedType::Failed, .. },
            Content::Formula { status: EvalutedType::Done, cached: cb },
        ) => {
            let d = choose|depth: nat| #[trigger]
                denote_cell(t, col_index, x, y, depth) == Some(cb->0);
            assert(denote_cell(t, col_index, x, y, d) is None);
        },
        _ => {},
    }
}

/// The scan order of a table names every place of it.
pub proof fn lemma_scan_order_covers(t: TableView)
    requires
        t.wf(),
    ensures
        forall|x: nat, y: nat| t.contains(x, y) ==> #[trigger] scan_order(
            t.size_x,
            t.size_y,
        ).contains((x, y)),
        covers_formulas(t, scan_order(t.size_x, t.size_y)),
{
    let order = scan_order(t.size_x, t.size_y);
    assert forall|x: nat, y: nat| t.contains(x, y) implies #[trigger] order.contains((x, y)) by {
        let k: int = (x * t.size_y + y) as int;
        assert(0 <= k < t.size_x * t.size_y) by (nonlinear_arith)
            requires
                k == x * t.size_y + y,
                0 <= x < t.size_x,
                0 <= y < t.size_y,
        ;
        lemma_fundamental_div_mod_converse(k, t.size_y as int, x as int, y as int);
        assert(order[k] == (x, y));
    }
}

} // verus!
