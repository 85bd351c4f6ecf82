//! What a cell is worth, apart from any order of evaluation, and the proof
//! that evaluation computes it.

use crate::address::resolve_spec;
use crate::model::{
    eval_cell, eval_term, eval_terms, is_pending, lemma_pending_with_content,
    lemma_same_frame_transitive, lemma_with_content_wf, literal, settled, started, terms_of,
};
use crate::progress::{is_in_progress, lemma_eval_terms_structure};
use crate::structs::{combine, Content, EvalError, EvalutedType, TableView, Value};
use vstd::prelude::*;

verus! {

/// The sum of two values, if they have one.
pub open spec fn sum(acc: Value, next: Value) -> Option<Value> {
    match combine(acc, next) {
        Ok(v) => Some(v),
        Err(_) => None,
    }
}

/// The worth of the cell at column `x`, row `y`, looking through at most
/// `depth` formulas in a row.
///
/// A number or a text is worth itself and an empty cell is worth nothing. A
/// formula is worth the sum of its terms. The state of the formulas plays no
/// part: only the frame of the table is read.
pub open spec fn denote_cell(
    t: TableView,
    col_index: Map<u8, usize>,
    x: nat,
    y: nat,
    depth: nat,
) -> Option<Value>
    decreases depth, 0nat, 0nat,
{
    let cell = t.cell(x, y);
    match cell.content {
        Content::Numeric(n) => Some(Value::Numeric(n)),
        Content::Text => Some(Value::Text(cell.text)),
        Content::Empty => None,
        Content::Formula { .. } => if depth == 0 {
            None
        } else {
            denote_terms(t, col_index, terms_of(cell.text), (depth - 1) as nat)
        },
    }
}

/// The worth of one term: a literal is worth itself, and the address of a
/// cell inside the table is worth that cell.
pub open spec fn denote_term(
    t: TableView,
    col_index: Map<u8, usize>,
    term: Seq<char>,
    depth: nat,
) -> Option<Value>
    decreases depth, 1nat, 0nat,
{
    match literal(term) {
        Some(v) => Some(v),
        None => match resolve_spec(term, col_index) {
            Some((x, y)) => if t.contains(x as nat, y as nat) {
                denote_cell(t, col_index, x as nat, y as nat, depth)
            } else {
                None
            },
            None => None,
        },
    }
}

/// The worth of a list of terms: their sum from left to right, if every term
/// is worth something and every addition has a result.
pub open spec fn denote_terms(
    t: TableView,
    col_index: Map<u8, usize>,
    terms: Seq<Seq<char>>,
    depth: nat,
) -> Option<Value>
    decreases depth, 2nat, terms.len(),
{
    if terms.len() == 0 {
        None
    } else if terms.len() == 1 {
        denote_term(t, col_index, terms[0], depth)
    } else {
        match denote_terms(t, col_index, terms.drop_last(), depth) {
            None => None,
            Some(acc) => match denote_term(t, col_index, terms.last(), depth) {
                None => None,
                Some(v) => sum(acc, v),
            },
        }
    }
}

/// The cell at column `x`, row `y` is worth `v`.
pub open spec fn cell_has_value(
    t: TableView,
    col_index: Map<u8, usize>,
    x: nat,
    y: nat,
    v: Value,
) -> bool {
    exists|depth: nat| #[trigger] denote_cell(t, col_index, x, y, depth) == Some(v)
}

/// The cell at column `x`, row `y` is worth nothing, however deep one looks:
/// it is empty, or a formula that holds a bad term or a bad sum, or leads
/// back to itself.
pub open spec fn cell_has_no_value(
    t: TableView,
    col_index: Map<u8, usize>,
    x: nat,
    y: nat,
) -> bool {
    forall|depth: nat| (#[trigger] denote_cell(t, col_index, x, y, depth)) is None
}

impl TableView {
    /// Whether no formula of this table is being evaluated.
    pub open spec fn at_rest(self) -> bool {
        forall|x: nat, y: nat|
            self.contains(x, y) ==> !is_in_progress((#[trigger] self.cell(x, y)).content)
    }

    /// Whether the state of the formulas agrees with what the cells are
    /// worth: a formula that is done caches its worth, and a formula that
    /// failed is worth nothing.
    pub open spec fn consistent(self, col_index: Map<u8, usize>) -> bool {
        forall|x: nat, y: nat|
            self.contains(x, y) ==> match (#[trigger] self.cell(x, y)).content {
                Content::Formula { status: EvalutedType::Done, cached } => cell_has_value(
                    self,
                    col_index,
                    x,
                    y,
                    cached->0,
                ),
                Content::Formula { status: EvalutedType::Failed, .. } => cell_has_no_value(
                    self,
                    col_index,
                    x,
                    y,
                ),
                _ => true,
            }
    }
}

/// Every formula in progress waits for `target`: it can be worth something
/// at some depth only if `target` is worth something one level less deep.
pub open spec fn awaits(
    t: TableView,
    col_index: Map<u8, usize>,
    target: spec_fn(nat) -> Option<Value>,
) -> bool {
    forall|x: nat, y: nat, depth: nat|
        t.contains(x, y) && is_in_progress(t.cell(x, y).content) && (#[trigger] denote_cell(
            t,
            col_index,
            x,
            y,
            depth,
        )) is Some ==> depth >= 1 && target((depth - 1) as nat) is Some
}

/// What a cell is worth depends on the frame of the table alone.
pub proof fn lemma_denote_cell_frame(
    t: TableView,
    u: TableView,
    col_index: Map<u8, usize>,
    x: nat,
    y: nat,
    depth: nat,
)
    requires
        t.same_frame(u),
        t.contains(x, y),
    ensures
        denote_cell(t, col_index, x, y, depth) == denote_cell(u, col_index, x, y, depth),
    decreases depth, 0nat, 0nat,
{
    assert(u.cell(x, y).text == t.cell(x, y).text);
    if t.cell(x, y).content is Formula && depth > 0 {
        lemma_denote_terms_frame(t, u, col_index, terms_of(t.cell(x, y).text), (depth - 1) as nat);
    }
}

/// What a term is worth depends on the frame of the table alone.
pub proof fn lemma_denote_term_frame(
    t: TableView,
    u: TableView,
    col_index: Map<u8, usize>,
    term: Seq<char>,
    depth: nat,
)
    requires
        t.same_frame(u),
    ensures
        denote_term(t, col_index, term, depth) == denote_term(u, col_index, term, depth),
    decreases depth, 1nat, 0nat,
{
    if literal(term) is None {
        if let Some((x, y)) = resolve_spec(term, col_index) {
            if t.contains(x as nat, y as nat) {
                lemma_denote_cell_frame(t, u, col_index, x as nat, y as nat, depth);
            }
        }
    }
}

/// What a list of terms is worth depends on the frame of the table alone.
pub proof fn lemma_denote_terms_frame(
    t: TableView,
    u: TableView,
    col_index: Map<u8, usize>,
    terms: Seq<Seq<char>>,
    depth: nat,
)
    requires
        t.same_frame(u),
    ensures
        denote_terms(t, col_index, terms, depth) == denote_terms(u, col_index, terms, depth),
    decreases depth, 2nat, terms.len(),
{
    if terms.len() == 1 {
        lemma_denote_term_frame(t, u, col_index, terms[0], depth);
    } else if terms.len() >= 2 {
        lemma_denote_terms_frame(t, u, col_index, terms.drop_last(), depth);
        lemma_denote_term_frame(t, u, col_index, terms.last(), depth);
    }
}

/// Looking deeper does not change what a cell is worth, once it is worth
/// something.
pub proof fn lemma_denote_cell_monotone(
    t: TableView,
    col_index: Map<u8, usize>,
    x: nat,
    y: nat,
    depth: nat,
    deeper: nat,
)
    requires
        depth <= deeper,
        denote_cell(t, col_index, x, y, depth) is Some,
    ensures
        denote_cell(t, col_index, x, y, deeper) == denote_cell(t, col_index, x, y, depth),
    decreases depth, 0nat, 0nat,
{
    if t.cell(x, y).content is Formula {
        lemma_denote_terms_monotone(
            t,
            col_index,
            terms_of(t.cell(x, y).text),
            (depth - 1) as nat,
            (deeper - 1) as nat,
        );
    }
}

/// Looking deeper does not change what a term is worth, once it is worth
/// something.
pub proof fn lemma_denote_term_monotone(
    t: TableView,
    col_index: Map<u8, usize>,
    term: Seq<char>,
    depth: nat,
    deeper: nat,
)
    requires
        depth <= deeper,
        denote_term(t, col_index, term, depth) is Some,
    ensures
        denote_term(t, col_index, term, deeper) == denote_term(t, col_index, term, depth),
    decreases depth, 1nat, 0nat,
{
    if literal(term) is None {
        if let Some((x, y)) = resolve_spec(term, col_index) {
            if t.contains(x as nat, y as nat) {
                lemma_denote_cell_monotone(t, col_index, x as nat, y as nat, depth, deeper);
            }
        }
    }
}

/// Looking deeper does not change what a list of terms is worth, once it is
/// worth something.
pub proof fn lemma_denote_terms_monotone(
    t: TableView,
    col_index: Map<u8, usize>,
    terms: Seq<Seq<char>>,
    depth: nat,
    deeper: nat,
)
    requires
        depth <= deeper,
        denote_terms(t, col_index, terms, depth) is Some,
    ensures
        denote_terms(t, col_index, terms, deeper) == denote_terms(t, col_index, terms, depth),
    decreases depth, 2nat, terms.len(),
{
    if terms.len() == 1 {
        lemma_denote_term_monotone(t, col_index, terms[0], depth, deeper);
    } else if terms.len() >= 2 {
        lemma_denote_terms_monotone(t, col_index, terms.drop_last(), depth, deeper);
        lemma_denote_term_monotone(t, col_index, terms.last(), depth, deeper);
    }
}

/// A cell is worth at most one value.
pub proof fn lemma_cell_value_unique(
    t: TableView,
    col_index: Map<u8, usize>,
    x: nat,
    y: nat,
    v: Value,
    w: Value,
)
    requires
        cell_has_value(t, col_index, x, y, v),
        cell_has_value(t, col_index, x, y, w),
    ensures
        v == w,
{
    let d1 = choose|depth: nat| #[trigger] denote_cell(t, col_index, x, y, depth) == Some(v);
    let d2 = choose|depth: nat| #[trigger] denote_cell(t, col_index, x, y, depth) == Some(w);
    if d1 <= d2 {
        lemma_denote_cell_monotone(t, col_index, x, y, d1, d2);
    } else {
        lemma_denote_cell_monotone(t, col_index, x, y, d2, d1);
    }
}

/// A formula in progress that waits for itself is worth nothing.
pub proof fn lemma_cycle_has_no_value(
    t: TableView,
    col_index: Map<u8, usize>,
    x: nat,
    y: nat,
    depth: nat,
)
    requires
        t.contains(x, y),
        is_in_progress(t.cell(x, y).content),
        awaits(t, col_index, |d: nat| denote_cell(t, col_index, x, y, d)),
    ensures
        denote_cell(t, col_index, x, y, depth) is None,
    decreases depth,
{
    if denote_cell(t, col_index, x, y, depth) is Some {
        lemma_cycle_has_no_value(t, col_index, x, y, (depth - 1) as nat);
    }
}

/// The result of evaluating a cell agrees with what the cell is worth: the
/// value is its worth, and a failure means that it is worth nothing.
pub open spec fn cell_agrees(
    t: TableView,
    col_index: Map<u8, usize>,
    x: nat,
    y: nat,
    result: Result<Value, EvalError>,
) -> bool {
    match result {
        Ok(v) => cell_has_value(t, col_index, x, y, v),
        Err(_) => cell_has_no_value(t, col_index, x, y),
    }
}

/// The result of evaluating a term agrees with what the term is worth.
pub open spec fn term_agrees(
    t: TableView,
    col_index: Map<u8, usize>,
    term: Seq<char>,
    result: Result<Value, EvalError>,
) -> bool {
    match result {
        Ok(v) => exists|depth: nat| #[trigger] denote_term(t, col_index, term, depth) == Some(v),
        Err(_) => forall|depth: nat| (#[trigger] denote_term(t, col_index, term, depth)) is None,
    }
}

/// The result of folding a list of terms agrees with what the list is worth.
pub open spec fn terms_agree(
    t: TableView,
    col_index: Map<u8, usize>,
    terms: Seq<Seq<char>>,
    result: Result<Value, EvalError>,
) -> bool {
    match result {
        Ok(v) => exists|depth: nat| #[trigger]
            denote_terms(t, col_index, terms, depth) == Some(v),
        Err(_) => forall|depth: nat| (#[trigger] denote_terms(t, col_index, terms, depth)) is None,
    }
}

/// Whether a formula with this content is done or has failed.
pub open spec fn is_settled(content: Content) -> bool {
    ||| content matches Content::Formula { status: EvalutedType::Done, .. }
    ||| content matches Content::Formula { status: EvalutedType::Failed, .. }
}

/// A cell is worth the same in two tables with the same frame.
pub proof fn lemma_worth_transfer(
    t: TableView,
    u: TableView,
    col_index: Map<u8, usize>,
    x: nat,
    y: nat,
)
    requires
        t.same_frame(u),
        t.contains(x, y),
    ensures
        forall|v: Value|
            cell_has_value(t, col_index, x, y, v) <==> cell_has_value(u, col_index, x, y, v),
        cell_has_no_value(t, col_index, x, y) <==> cell_has_no_value(u, col_index, x, y),
{
    assert forall|depth: nat| #[trigger]
        denote_cell(t, col_index, x, y, depth) == denote_cell(u, col_index, x, y, depth) by {
        lemma_denote_cell_frame(t, u, col_index, x, y, depth);
    }
    assert forall|v: Value| cell_has_value(t, col_index, x, y, v) implies cell_has_value(
        u,
        col_index,
        x,
        y,
        v,
    ) by {
        let d = choose|depth: nat| #[trigger] denote_cell(t, col_index, x, y, depth) == Some(v);
        assert(denote_cell(u, col_index, x, y, d) == Some(v));
    }
    assert forall|v: Value| cell_has_value(u, col_index, x, y, v) implies cell_has_value(
        t,
        col_index,
        x,
        y,
        v,
    ) by {
        let d = choose|depth: nat| #[trigger] denote_cell(u, col_index, x, y, depth) == Some(v);
        assert(denote_cell(t, col_index, x, y, d) == Some(v));
    }
    if cell_has_no_value(t, col_index, x, y) {
        assert forall|depth: nat| (#[trigger] denote_cell(u, col_index, x, y, depth)) is None by {
            assert(denote_cell(t, col_index, x, y, depth) is None);
        }
    }
    if cell_has_no_value(u, col_index, x, y) {
        assert forall|depth: nat| (#[trigger] denote_cell(t, col_index, x, y, depth)) is None by {
            assert(denote_cell(u, col_index, x, y, depth) is None);
        }
    }
}

/// Changing the state of one formula keeps the table consistent, provided
/// that the new state agrees with what the cell is worth.
pub proof fn lemma_with_content_consistent(
    t: TableView,
    col_index: Map<u8, usize>,
    x: nat,
    y: nat,
    content: Content,
)
    requires
        t.wf(),
        t.contains(x, y),
        t.consistent(col_index),
        t.cell(x, y).content is Formula,
        content is Formula,
        content.wf(),
        content matches Content::Formula { status: EvalutedType::Done, cached }
            ==> cell_has_value(t, col_index, x, y, cached->0),
        content matches Content::Formula { status: EvalutedType::Failed, .. } ==> cell_has_no_value(
            t,
            col_index,
            x,
            y,
        ),
    ensures
        t.with_content(x, y, content).consistent(col_index),
{
    let u = t.with_content(x, y, content);
    lemma_with_content_wf(t, x, y, content);
    assert forall|a: nat, b: nat| u.contains(a, b) implies match (#[trigger] u.cell(
        a,
        b,
    )).content {
        Content::Formula { status: EvalutedType::Done, cached } => cell_has_value(
            u,
            col_index,
            a,
            b,
            cached->0,
        ),
        Content::Formula { status: EvalutedType::Failed, .. } => cell_has_no_value(
            u,
            col_index,
            a,
            b,
        ),
        _ => true,
    } by {
        assert(t.contains(a, b));
        lemma_worth_transfer(t, u, col_index, a, b);
        if a != x || b != y {
            assert(u.cell(a, b) == t.cell(a, b));
        }
    }
}

/// Evaluating a cell keeps the table consistent, and its result agrees with
/// what the cell is worth.
pub proof fn lemma_eval_cell_sound(
    t: TableView,
    col_index: Map<u8, usize>,
    x: nat,
    y: nat,
    fuel: nat,
)
    requires
        t.wf(),
        t.contains(x, y),
        fuel >= t.pending(),
        t.consistent(col_index),
        awaits(t, col_index, |d: nat| denote_cell(t, col_index, x, y, d)),
    ensures
        eval_cell(t, col_index, x, y, fuel).table.consistent(col_index),
        cell_agrees(t, col_index, x, y, eval_cell(t, col_index, x, y, fuel).result),
    decreases fuel, 0nat, 0nat,
{
    let cell = t.cell(x, y);
    assert(cell.wf());
    match cell.content {
        Content::Numeric(n) => {
            assert(denote_cell(t, col_index, x, y, 0) == Some(Value::Numeric(n)));
        },
        Content::Text => {
            assert(denote_cell(t, col_index, x, y, 0) == Some(Value::Text(cell.text)));
        },
        Content::Empty => {},
        Content::Formula { status, cached } => match status {
            EvalutedType::Done => {},
            EvalutedType::Failed => {},
            EvalutedType::InProgress => {
                assert forall|depth: nat| (#[trigger] denote_cell(
                    t,
                    col_index,
                    x,
                    y,
                    depth,
                )) is None by {
                    lemma_cycle_has_no_value(t, col_index, x, y, depth);
                }
            },
            EvalutedType::ToEvaluate => {
                let terms = terms_of(cell.text);
                let t1 = t.with_content(x, y, started());
                lemma_with_content_wf(t, x, y, started());
                lemma_pending_with_content(t, x, y, started());
                lemma_with_content_consistent(t, col_index, x, y, started());
                assert forall|a: nat, b: nat, depth: nat|
                    t1.contains(a, b) && is_in_progress(t1.cell(a, b).content)
                        && (#[trigger] denote_cell(t1, col_index, a, b, depth))
                        is Some implies depth >= 1 && denote_terms(
                        t1,
                        col_index,
                        terms,
                        (depth - 1) as nat,
                    ) is Some by {
                    if a != x || b != y {
                        assert(t1.cell(a, b) == t.cell(a, b));
                        lemma_denote_cell_frame(t, t1, col_index, a, b, depth);
                        assert(denote_cell(t, col_index, a, b, depth) is Some);
                        assert(denote_cell(t, col_index, x, y, (depth - 1) as nat) is Some);
                        lemma_denote_terms_monotone(
                            t,
                            col_index,
                            terms,
                            (depth - 2) as nat,
                            (depth - 1) as nat,
                        );
                        lemma_denote_terms_frame(t, t1, col_index, terms, (depth - 1) as nat);
                    }
                }
                lemma_eval_terms_sound(t1, col_index, terms, (fuel - 1) as nat);
                lemma_eval_terms_structure(
                    t1,
                    col_index,
                    terms,
                    (fuel - 1) as nat,
                    (fuel - 1) as nat,
                );
                let folded = eval_terms(t1, col_index, terms, (fuel - 1) as nat);
                let t2 = folded.table;
                assert(t2.contains(x, y));
                assert(t2.cell(x, y).content is Formula);
                lemma_same_frame_transitive(t, t1, t2);
                assert(t2.cell(x, y).text == cell.text);
                match folded.result {
                    Ok(v) => {
                        let d = choose|depth: nat| #[trigger]
                            denote_terms(t1, col_index, terms, depth) == Some(v);
                        lemma_denote_terms_frame(t, t1, col_index, terms, d);
                        lemma_denote_terms_frame(t, t2, col_index, terms, d);
                        assert(denote_cell(t, col_index, x, y, d + 1) == Some(v));
                        assert(denote_cell(t2, col_index, x, y, d + 1) == Some(v));
                    },
                    Err(_) => {
                        assert forall|depth: nat| (#[trigger] denote_cell(
                            t,
                            col_index,
                            x,
                            y,
                            depth,
                        )) is None by {
                            if depth > 0 {
                                lemma_denote_terms_frame(
                                    t,
                                    t1,
                                    col_index,
                                    terms,
                                    (depth - 1) as nat,
                                );
                                assert(denote_terms(t1, col_index, terms, (depth - 1) as nat)
                                    is None);
                            }
                        }
                        lemma_worth_transfer(t, t2, col_index, x, y);
                    },
                }
                lemma_with_content_consistent(t2, col_index, x, y, settled(folded.result));
            },
        },
    }
}

/// Evaluating a term keeps the table consistent, and its result agrees with
/// what the term is worth.
pub proof fn lemma_eval_term_sound(
    t: TableView,
    col_index: Map<u8, usize>,
    term: Seq<char>,
    fuel: nat,
)
    requires
        t.wf(),
        fuel >= t.pending(),
        t.consistent(col_index),
        awaits(t, col_index, |d: nat| denote_term(t, col_index, term, d)),
    ensures
        eval_term(t, col_index, term, fuel).table.consistent(col_index),
        term_agrees(t, col_index, term, eval_term(t, col_index, term, fuel).result),
    decreases fuel, 1nat, 0nat,
{
    match literal(term) {
        Some(v) => {
            assert(denote_term(t, col_index, term, 0) == Some(v));
        },
        None => {
            match resolve_spec(term, col_index) {
                Some((cx, cy)) => {
                    let x = cx as nat;
                    let y = cy as nat;
                    if t.contains(x, y) {
                        assert forall|a: nat, b: nat, depth: nat|
                            t.contains(a, b) && is_in_progress(t.cell(a, b).content)
                                && (#[trigger] denote_cell(
                                t,
                                col_index,
                                a,
                                b,
                                depth,
                            )) is Some implies depth >= 1 && denote_cell(
                            t,
                            col_index,
                            x,
                            y,
                            (depth - 1) as nat,
                        ) is Some by {
                            assert(denote_term(t, col_index, term, (depth - 1) as nat) is Some);
                        }
                        lemma_eval_cell_sound(t, col_index, x, y, fuel);
                        match eval_cell(t, col_index, x, y, fuel).result {
                            Ok(v) => {
                                let d = choose|depth: nat| #[trigger]
                                    denote_cell(t, col_index, x, y, depth) == Some(v);
                                assert(denote_term(t, col_index, term, d) == Some(v));
                            },
                            Err(_) => {
                                assert forall|depth: nat| (#[trigger] denote_term(
                                    t,
                                    col_index,
                                    term,
                                    depth,
                                )) is None by {
                                    assert(denote_cell(t, col_index, x, y, depth) is None);
                                }
                            },
                        }
                    }
                },
                None => {},
            }
        },
    }
}

/// Folding a list of terms keeps the table consistent, and its result agrees
/// with what the list is worth.
pub proof fn lemma_eval_terms_sound(
    t: TableView,
    col_index: Map<u8, usize>,
    terms: Seq<Seq<char>>,
    fuel: nat,
)
    requires
        t.wf(),
        fuel >= t.pending(),
        t.consistent(col_index),
        awaits(t, col_index, |d: nat| denote_terms(t, col_index, terms, d)),
    ensures
        eval_terms(t, col_index, terms, fuel).table.consistent(col_index),
        terms_agree(t, col_index, terms, eval_terms(t, col_index, terms, fuel).result),
    decreases fuel, 2nat, terms.len(),
{
    if terms.len() == 1 {
        assert forall|a: nat, b: nat, depth: nat|
            t.contains(a, b) && is_in_progress(t.cell(a, b).content) && (#[trigger] denote_cell(
                t,
                col_index,
                a,
                b,
                depth,
            )) is Some implies depth >= 1 && denote_term(
            t,
            col_index,
            terms[0],
            (depth - 1) as nat,
        ) is Some by {
            assert(denote_terms(t, col_index, terms, (depth - 1) as nat) is Some);
        }
        lemma_eval_term_sound(t, col_index, terms[0], fuel);
        match eval_term(t, col_index, terms[0], fuel).result {
            Ok(v) => {
                let d = choose|depth: nat| #[trigger]
                    denote_term(t, col_index, terms[0], depth) == Some(v);
                assert(denote_terms(t, col_index, terms, d) == Some(v));
            },
            Err(_) => {
                assert forall|depth: nat| (#[trigger] denote_terms(
                    t,
                    col_index,
                    terms,
                    depth,
                )) is None by {
                    assert(denote_term(t, col_index, terms[0], depth) is None);
                }
            },
        }
    } else if terms.len() >= 2 {
        let front = terms.drop_last();
        let last = terms.last();
        assert forall|a: nat, b: nat, depth: nat|
            t.contains(a, b) && is_in_progress(t.cell(a, b).content) && (#[trigger] denote_cell(
                t,
                col_index,
                a,
                b,
                depth,
            )) is Some implies depth >= 1 && denote_terms(
            t,
            col_index,
            front,
            (depth - 1) as nat,
        ) is Some by {
            assert(denote_terms(t, col_index, terms, (depth - 1) as nat) is Some);
        }
        lemma_eval_terms_sound(t, col_index, front, fuel);
        lemma_eval_terms_structure(t, col_index, front, fuel, fuel);
        let before = eval_terms(t, col_index, front, fuel);
        match before.result {
            Err(_) => {
                assert forall|depth: nat| (#[trigger] denote_terms(
                    t,
                    col_index,
                    terms,
                    depth,
                )) is None by {
                    assert(denote_terms(t, col_index, front, depth) is None);
                }
            },
            Ok(acc) => {
                let u = before.table;
                let d1 = choose|depth: nat| #[trigger]
                    denote_terms(t, col_index, front, depth) == Some(acc);
                assert forall|a: nat, b: nat, depth: nat|
                    u.contains(a, b) && is_in_progress(u.cell(a, b).content)
                        && (#[trigger] denote_cell(u, col_index, a, b, depth)) is Some implies depth
                    >= 1 && denote_term(u, col_index, last, (depth - 1) as nat) is Some by {
                    assert(t.contains(a, b));
                    assert(is_in_progress(t.cell(a, b).content)) by {
                        if is_pending(t.cell(a, b).content) {
                            assert(!is_in_progress(u.cell(a, b).content));
                        }
                    }
                    lemma_denote_cell_frame(t, u, col_index, a, b, depth);
                    assert(denote_cell(t, col_index, a, b, depth) is Some);
                    assert(denote_terms(t, col_index, terms, (depth - 1) as nat) is Some);
                    lemma_denote_term_frame(t, u, col_index, last, (depth - 1) as nat);
                }
                lemma_eval_term_sound(u, col_index, last, fuel);
                match eval_term(u, col_index, last, fuel).result {
                    Err(_) => {
                        assert forall|depth: nat| (#[trigger] denote_terms(
                            t,
                            col_index,
                            terms,
                            depth,
                        )) is None by {
                            lemma_denote_term_frame(t, u, col_index, last, depth);
                            assert(denote_term(u, col_index, last, depth) is None);
                        }
                    },
                    Ok(v) => {
                        let d2 = choose|depth: nat| #[trigger]
                            denote_term(u, col_index, last, depth) == Some(v);
                        lemma_denote_term_frame(t, u, col_index, last, d2);
                        match combine(acc, v) {
                            Ok(total) => {
                                let d = if d1 <= d2 {
                                    d2
                                } else {
                                    d1
                                };
                                lemma_denote_terms_monotone(t, col_index, front, d1, d);
                                lemma_denote_term_monotone(t, col_index, last, d2, d);
                                assert(denote_terms(t, col_index, terms, d) == Some(total));
                            },
                            Err(_) => {
                                assert forall|depth: nat| (#[trigger] denote_terms(
                                    t,
                                    col_index,
                                    terms,
                                    depth,
                                )) is None by {
                                    if denote_terms(t, col_index, front, depth) is Some
                                        && denote_term(t, col_index, last, depth) is Some {
                                        let d = if depth <= d1 {
                                            if d1 <= d2 {
                                                d2
                                            } else {
                                                d1
                                            }
                                        } else if depth <= d2 {
                                            d2
                                        } else {
                                            depth
                                        };
                                        lemma_denote_terms_monotone(t, col_index, front, d1, d);
                                        lemma_denote_terms_monotone(t, col_index, front, depth, d);
                                        lemma_denote_term_monotone(t, col_index, last, d2, d);
                                        lemma_denote_term_monotone(t, col_index, last, depth, d);
                                    }
                                }
                            },
                        }
                    },
                }
            },
        }
    }
}

} // verus!
