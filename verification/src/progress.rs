//! How evaluation moves a table: the frame stays, formulas only settle, and
//! the outcome does not depend on the fuel.

use crate::address::resolve_spec;
use crate::model::{
    eval_cell, eval_sequence, eval_term, eval_terms, is_pending, lemma_pending_with_content,
    lemma_same_frame_transitive, lemma_with_content_wf, literal, settled, started, terms_of,
};
use crate::structs::{Content, EvalutedType, TableView};
use vstd::prelude::*;

verus! {

/// Whether a formula with this content is being evaluated.
pub open spec fn is_in_progress(content: Content) -> bool {
    content matches Content::Formula { status: EvalutedType::InProgress, .. }
}

impl TableView {
    /// Whether `other` is a later state of this table: the frame is the same,
    /// every cell that is not a pending formula is as it was, and no pending
    /// formula is left in progress.
    pub open spec fn evolves_to(self, other: TableView) -> bool {
        &&& self.same_frame(other)
        &&& forall|x: nat, y: nat|
            self.contains(x, y) ==> {
                &&& !is_pending(self.cell(x, y).content) ==> (#[trigger] other.cell(x, y)).content
                    == self.cell(x, y).content
                &&& is_pending(self.cell(x, y).content) ==> !is_in_progress(
                    other.cell(x, y).content,
                )
            }
    }
}

/// A later state of a later state is a later state.
pub proof fn lemma_evolves_transitive(a: TableView, b: TableView, c: TableView)
    requires
        a.evolves_to(b),
        b.evolves_to(c),
    ensures
        a.evolves_to(c),
{
    lemma_same_frame_transitive(a, b, c);
    assert forall|x: nat, y: nat| a.contains(x, y) implies {
        &&& !is_pending(a.cell(x, y).content) ==> (#[trigger] c.cell(x, y)).content == a.cell(
            x,
            y,
        ).content
        &&& is_pending(a.cell(x, y).content) ==> !is_in_progress(c.cell(x, y).content)
    } by {
        assert(b.contains(x, y));
        let mid = b.cell(x, y).content;
        assert(!is_pending(a.cell(x, y).content) ==> mid == a.cell(x, y).content);
    }
}

/// Every table is a later state of itself.
pub proof fn lemma_evolves_reflexive(t: TableView)
    ensures
        t.evolves_to(t),
{
}

/// Evaluating a cell of a well-formed table leaves a well-formed later state
/// with no more pending formulas than before, and any two amounts of fuel that
/// cover the pending formulas give the same outcome.
pub proof fn lemma_eval_cell_structure(
    t: TableView,
    col_index: Map<u8, usize>,
    x: nat,
    y: nat,
    fuel: nat,
    other_fuel: nat,
)
    requires
        t.wf(),
        t.contains(x, y),
        fuel >= t.pending(),
        other_fuel >= t.pending(),
    ensures
        eval_cell(t, col_index, x, y, fuel).table.wf(),
        t.evolves_to(eval_cell(t, col_index, x, y, fuel).table),
        eval_cell(t, col_index, x, y, fuel).table.pending() <= t.pending(),
        eval_cell(t, col_index, x, y, fuel) == eval_cell(t, col_index, x, y, other_fuel),
        t.cell(x, y).content is Formula ==> {
            let after = eval_cell(t, col_index, x, y, fuel).table.cell(x, y).content;
            !is_pending(after) && (is_in_progress(after) ==> is_in_progress(t.cell(x, y).content))
        },
        is_pending(t.cell(x, y).content) ==> eval_cell(t, col_index, x, y, fuel).table.cell(
            x,
            y,
        ).content == settled(eval_cell(t, col_index, x, y, fuel).result),
    decreases fuel, 0nat, 0nat,
{
    let cell = t.cell(x, y);
    assert(cell.wf());
    if is_pending(cell.content) {
        let t1 = t.with_content(x, y, started());
        lemma_with_content_wf(t, x, y, started());
        lemma_pending_with_content(t, x, y, started());
        let terms = terms_of(cell.text);
        lemma_eval_terms_structure(
            t1,
            col_index,
            terms,
            (fuel - 1) as nat,
            (other_fuel - 1) as nat,
        );
        let folded = eval_terms(t1, col_index, terms, (fuel - 1) as nat);
        let t2 = folded.table;
        let t3 = t2.with_content(x, y, settled(folded.result));
        assert(t2.contains(x, y));
        assert(t2.cell(x, y).content is Formula);
        lemma_with_content_wf(t2, x, y, settled(folded.result));
        lemma_pending_with_content(t2, x, y, settled(folded.result));
        lemma_same_frame_transitive(t, t1, t2);
        lemma_same_frame_transitive(t, t2, t3);
        assert(eval_cell(t, col_index, x, y, fuel).table == t3);
        assert forall|a: nat, b: nat| t.contains(a, b) implies {
            &&& !is_pending(t.cell(a, b).content) ==> (#[trigger] t3.cell(a, b)).content == t.cell(
                a,
                b,
            ).content
            &&& is_pending(t.cell(a, b).content) ==> !is_in_progress(t3.cell(a, b).content)
        } by {
            if a != x || b != y {
                assert(t1.cell(a, b) == t.cell(a, b));
                assert(t1.contains(a, b));
                assert(t2.contains(a, b));
                assert(t3.cell(a, b) == t2.cell(a, b));
                let mid = t2.cell(a, b).content;
                assert(!is_pending(t1.cell(a, b).content) ==> mid == t1.cell(a, b).content);
            }
        }
    } else {
        lemma_evolves_reflexive(t);
    }
}

/// The same for one term.
pub proof fn lemma_eval_term_structure(
    t: TableView,
    col_index: Map<u8, usize>,
    term: Seq<char>,
    fuel: nat,
    other_fuel: nat,
)
    requires
        t.wf(),
        fuel >= t.pending(),
        other_fuel >= t.pending(),
    ensures
        eval_term(t, col_index, term, fuel).table.wf(),
        t.evolves_to(eval_term(t, col_index, term, fuel).table),
        eval_term(t, col_index, term, fuel).table.pending() <= t.pending(),
        eval_term(t, col_index, term, fuel) == eval_term(t, col_index, term, other_fuel),
    decreases fuel, 1nat, 0nat,
{
    lemma_evolves_reflexive(t);
    if literal(term) is None {
        if let Some((x, y)) = resolve_spec(term, col_index) {
            if t.contains(x as nat, y as nat) {
                lemma_eval_cell_structure(t, col_index, x as nat, y as nat, fuel, other_fuel);
            }
        }
    }
}

/// The same for a fold over terms.
pub proof fn lemma_eval_terms_structure(
    t: TableView,
    col_index: Map<u8, usize>,
    terms: Seq<Seq<char>>,
    fuel: nat,
    other_fuel: nat,
)
    requires
        t.wf(),
        fuel >= t.pending(),
        other_fuel >= t.pending(),
    ensures
        eval_terms(t, col_index, terms, fuel).table.wf(),
        t.evolves_to(eval_terms(t, col_index, terms, fuel).table),
        eval_terms(t, col_index, terms, fuel).table.pending() <= t.pending(),
        eval_terms(t, col_index, terms, fuel) == eval_terms(t, col_index, terms, other_fuel),
    decreases fuel, 2nat, terms.len(),
{
    lemma_evolves_reflexive(t);
    if terms.len() == 1 {
        lemma_eval_term_structure(t, col_index, terms[0], fuel, other_fuel);
    } else if terms.len() >= 2 {
        lemma_eval_terms_structure(t, col_index, terms.drop_last(), fuel, other_fuel);
        let before = eval_terms(t, col_index, terms.drop_last(), fuel);
        if before.result is Ok {
            lemma_eval_term_structure(before.table, col_index, terms.last(), fuel, other_fuel);
            let last = eval_term(before.table, col_index, terms.last(), fuel);
            lemma_evolves_transitive(t, before.table, last.table);
        }
    }
}

/// The outcome of evaluating a cell is the same for every fuel that covers
/// the pending formulas of the table.
pub proof fn lemma_fuel_is_irrelevant(
    t: TableView,
    col_index: Map<u8, usize>,
    x: nat,
    y: nat,
    fuel: nat,
)
    requires
        t.wf(),
        t.contains(x, y),
        fuel >= t.pending(),
    ensures
        eval_cell(t, col_index, x, y, fuel) == eval_cell(t, col_index, x, y, t.pending()),
{
    lemma_eval_cell_structure(t, col_index, x, y, fuel, t.pending());
}

/// Evaluating cells one after the other leaves a well-formed later state
/// with no more pending formulas than before.
pub proof fn lemma_eval_sequence_structure(
    t: TableView,
    col_index: Map<u8, usize>,
    places: Seq<(nat, nat)>,
)
    requires
        t.wf(),
    ensures
        eval_sequence(t, col_index, places).wf(),
        t.evolves_to(eval_sequence(t, col_index, places)),
        eval_sequence(t, col_index, places).pending() <= t.pending(),
    decreases places.len(),
{
    lemma_evolves_reflexive(t);
    if places.len() > 0 {
        lemma_eval_sequence_structure(t, col_index, places.drop_last());
        let before = eval_sequence(t, col_index, places.drop_last());
        let (x, y) = places.last();
        if before.contains(x, y) {
            lemma_eval_cell_structure(before, col_index, x, y, before.pending(), before.pending());
            lemma_evolves_transitive(t, before, eval_sequence(t, col_index, places));
        }
    }
}

} // verus!
