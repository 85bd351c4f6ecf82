//! What evaluation means: formulas as sequences of terms, literals, and the
//! step-by-step effect of evaluating a cell on a table.

use crate::address::resolve_spec;
use crate::structs::{combine, CellView, Content, EvalError, EvalutedType, TableView, Value};
use crate::utils::{parse_i32_spec, split};
use vstd::prelude::*;

verus! {

/// The terms of the formula `text`: what follows its first character, split
/// at every `+`.
pub open spec fn terms_of(text: Seq<char>) -> Seq<Seq<char>> {
    split(text.skip(1), '+')
}

/// The value that `term` denotes by itself, if it is a literal.
///
/// A term of two or more characters that begins and ends with `"` is the text
/// between the two quotes. Any other term that reads as a signed 32-bit
/// number is that number.
pub open spec fn literal(term: Seq<char>) -> Option<Value> {
    if term.len() >= 2 && term[0] == '"' && term.last() == '"' {
        Some(Value::Text(term.subrange(1, term.len() - 1)))
    } else {
        match parse_i32_spec(term) {
            Some(n) => Some(Value::Numeric(n as int)),
            None => None,
        }
    }
}

/// Whether a cell with this content is a formula that nobody has started to
/// evaluate.
pub open spec fn is_pending(content: Content) -> bool {
    content matches Content::Formula { status: EvalutedType::ToEvaluate, .. }
}

/// 1 for a pending formula, 0 for anything else.
pub open spec fn pending_weight(content: Content) -> nat {
    if is_pending(content) {
        1
    } else {
        0
    }
}

/// The number of pending formulas in `row`.
pub open spec fn pending_in_row(row: Seq<CellView>) -> nat
    decreases row.len(),
{
    if row.len() == 0 {
        0
    } else {
        pending_in_row(row.drop_last()) + pending_weight(row.last().content)
    }
}

/// The number of pending formulas in `rows`.
pub open spec fn pending_in_rows(rows: Seq<Seq<CellView>>) -> nat
    decreases rows.len(),
{
    if rows.len() == 0 {
        0
    } else {
        pending_in_rows(rows.drop_last()) + pending_in_row(rows.last())
    }
}

impl TableView {
    /// The number of formulas of this table that nobody has started to
    /// evaluate.
    pub open spec fn pending(self) -> nat {
        pending_in_rows(self.rows)
    }

    /// Whether `other` is this table up to the state of its formulas: the
    /// same size, and in every place the same position, text and kind, and
    /// the same content where the cell is no formula.
    pub open spec fn same_frame(self, other: TableView) -> bool {
        &&& self.size_x == other.size_x
        &&& self.size_y == other.size_y
        &&& forall|x: nat, y: nat|
            self.contains(x, y) ==> {
                &&& (#[trigger] other.cell(x, y)).x == self.cell(x, y).x
                &&& other.cell(x, y).y == self.cell(x, y).y
                &&& other.cell(x, y).text == self.cell(x, y).text
                &&& other.cell(x, y).cell_type == self.cell(x, y).cell_type
                &&& other.cell(x, y).content is Formula <==> self.cell(x, y).content is Formula
                &&& self.cell(x, y).content !is Formula ==> other.cell(x, y).content
                    == self.cell(x, y).content
            }
    }
}

/// What an evaluation returns, and the table that it leaves behind.
pub struct Outcome {
    pub result: Result<Value, EvalError>,
    pub table: TableView,
}

/// The content of a formula cell once the fold over its terms has ended with
/// `result`.
pub open spec fn settled(result: Result<Value, EvalError>) -> Content {
    match result {
        Ok(v) => Content::Formula { status: EvalutedType::Done, cached: Some(v) },
        Err(_) => Content::Formula { status: EvalutedType::Failed, cached: None },
    }
}

/// The content of a formula cell while its terms are being evaluated.
pub open spec fn started() -> Content {
    Content::Formula { status: EvalutedType::InProgress, cached: None }
}

/// Evaluating the cell at column `x`, row `y` of `t`.
///
/// A number or a text is its own value and an empty cell has none. A formula
/// that is done gives its cached value; one in progress is a circular
/// reference; one that failed fails again. None of these changes the table.
/// A pending formula is marked in progress, its terms are folded from left to
/// right, and the cell is settled with the result of the fold.
///
/// `fuel` bounds how deeply formulas may nest; a pending formula met with no
/// fuel left is given up. That cannot happen where `fuel` is at least
/// `t.pending()`, and the outcome is the same for every such `fuel`; see
/// `lemma_fuel_is_irrelevant`.
pub open spec fn eval_cell(
    t: TableView,
    col_index: Map<u8, usize>,
    x: nat,
    y: nat,
    fuel: nat,
) -> Outcome
    decreases fuel, 0nat, 0nat,
{
    let cell = t.cell(x, y);
    match cell.content {
        Content::Numeric(n) => Outcome { result: Ok(Value::Numeric(n)), table: t },
        Content::Text => Outcome { result: Ok(Value::Text(cell.text)), table: t },
        Content::Empty => Outcome { result: Err(EvalError::NonValueCell), table: t },
        Content::Formula { status, cached } => match status {
            EvalutedType::Done => Outcome { result: Ok(cached->0), table: t },
            EvalutedType::InProgress => Outcome {
                result: Err(EvalError::CyclicReference { x: x as usize, y: y as usize }),
                table: t,
            },
            EvalutedType::Failed => Outcome { result: Err(EvalError::AlreadyFailed), table: t },
            EvalutedType::ToEvaluate => if fuel == 0 {
                Outcome { result: Err(EvalError::AlreadyFailed), table: t }
            } else {
                let folded = eval_terms(
                    t.with_content(x, y, started()),
                    col_index,
                    terms_of(cell.text),
                    (fuel - 1) as nat,
                );
                Outcome {
                    result: folded.result,
                    table: folded.table.with_content(x, y, settled(folded.result)),
                }
            },
        },
    }
}

/// Evaluating one term against `t`: a literal is its own value; anything else
/// must be the address of a cell inside the table, which is evaluated.
pub open spec fn eval_term(
    t: TableView,
    col_index: Map<u8, usize>,
    term: Seq<char>,
    fuel: nat,
) -> Outcome
    decreases fuel, 1nat, 0nat,
{
    match literal(term) {
        Some(v) => Outcome { result: Ok(v), table: t },
        None => match resolve_spec(term, col_index) {
            Some((x, y)) => if t.contains(x as nat, y as nat) {
                eval_cell(t, col_index, x as nat, y as nat, fuel)
            } else {
                Outcome { result: Err(EvalError::InvalidReference), table: t }
            },
            None => Outcome { result: Err(EvalError::InvalidReference), table: t },
        },
    }
}

/// Folding `terms` from left to right against `t`: each term is evaluated on
/// the table that the terms before it left behind, and its value is added to
/// the sum so far. The first failure ends the fold.
pub open spec fn eval_terms(
    t: TableView,
    col_index: Map<u8, usize>,
    terms: Seq<Seq<char>>,
    fuel: nat,
) -> Outcome
    decreases fuel, 2nat, terms.len(),
{
    if terms.len() == 0 {
        Outcome { result: Err(EvalError::InvalidReference), table: t }
    } else if terms.len() == 1 {
        eval_term(t, col_index, terms[0], fuel)
    } else {
        let before = eval_terms(t, col_index, terms.drop_last(), fuel);
        match before.result {
            Err(_) => before,
            Ok(acc) => {
                let last = eval_term(before.table, col_index, terms.last(), fuel);
                match last.result {
                    Err(_) => last,
                    Ok(v) => Outcome { result: combine(acc, v), table: last.table },
                }
            },
        }
    }
}

/// The table that is left when the cells at `places` have been evaluated one
/// after the other. A place outside the table is passed over.
pub open spec fn eval_sequence(
    t: TableView,
    col_index: Map<u8, usize>,
    places: Seq<(nat, nat)>,
) -> TableView
    decreases places.len(),
{
    if places.len() == 0 {
        t
    } else {
        let before = eval_sequence(t, col_index, places.drop_last());
        let (x, y) = places.last();
        if before.contains(x, y) {
            eval_cell(before, col_index, x, y, before.pending()).table
        } else {
            before
        }
    }
}

/// The places (column, row) of a table of the given size, column by column
/// and from the first row down within each column.
pub open spec fn scan_order(size_x: nat, size_y: nat) -> Seq<(nat, nat)> {
    Seq::new(size_x * size_y, |k: int| ((k / size_y as int) as nat, (k % size_y as int) as nat))
}

/// Replacing one cell of a row changes the row's count of pending formulas by
/// the difference between the two cells.
pub proof fn lemma_pending_in_row_update(row: Seq<CellView>, x: int, cell: CellView)
    requires
        0 <= x < row.len(),
    ensures
        pending_in_row(row.update(x, cell)) + pending_weight(row[x].content) == pending_in_row(
            row,
        ) + pending_weight(cell.content),
    decreases row.len(),
{
    let updated = row.update(x, cell);
    if x == row.len() - 1 {
        assert(updated.drop_last() =~= row.drop_last());
    } else {
        lemma_pending_in_row_update(row.drop_last(), x, cell);
        assert(updated.drop_last() =~= row.drop_last().update(x, cell));
    }
}

/// Replacing one row changes the count of pending formulas by the difference
/// between the two rows.
pub proof fn lemma_pending_in_rows_update(rows: Seq<Seq<CellView>>, y: int, row: Seq<CellView>)
    requires
        0 <= y < rows.len(),
    ensures
        pending_in_rows(rows.update(y, row)) + pending_in_row(rows[y]) == pending_in_rows(rows)
            + pending_in_row(row),
    decreases rows.len(),
{
    let updated = rows.update(y, row);
    if y == rows.len() - 1 {
        assert(updated.drop_last() =~= rows.drop_last());
    } else {
        lemma_pending_in_rows_update(rows.drop_last(), y, row);
        assert(updated.drop_last() =~= rows.drop_last().update(y, row));
    }
}

/// Replacing the content of one cell changes the table's count of pending
/// formulas by the difference between the old content and the new.
pub proof fn lemma_pending_with_content(t: TableView, x: nat, y: nat, content: Content)
    requires
        t.wf(),
        t.contains(x, y),
    ensures
        t.with_content(x, y, content).pending() + pending_weight(t.cell(x, y).content)
            == t.pending() + pending_weight(content),
{
    let row = t.rows[y as int];
    let cell = CellView { content, ..t.cell(x, y) };
    lemma_pending_in_row_update(row, x as int, cell);
    lemma_pending_in_rows_update(t.rows, y as int, row.update(x as int, cell));
}

/// Replacing the state of one formula keeps a well-formed table well formed
/// and leaves its frame alone.
pub proof fn lemma_with_content_wf(t: TableView, x: nat, y: nat, content: Content)
    requires
        t.wf(),
        t.contains(x, y),
        content.wf(),
        content is Formula,
        t.cell(x, y).content is Formula,
    ensures
        t.with_content(x, y, content).wf(),
        t.same_frame(t.with_content(x, y, content)),
        t.with_content(x, y, content).cell(x, y).content == content,
        forall|a: nat, b: nat|
            t.contains(a, b) && (a != x || b != y) ==> #[trigger] t.with_content(
                x,
                y,
                content,
            ).cell(a, b) == t.cell(a, b),
{
    let u = t.with_content(x, y, content);
    assert forall|b: int| 0 <= b < u.size_y implies (#[trigger] u.rows[b]).len() == u.size_x by {
        assert(t.rows[b].len() == t.size_x);
    }
    assert forall|a: nat, b: nat| u.contains(a, b) implies {
        &&& (#[trigger] u.cell(a, b)).wf()
        &&& u.cell(a, b).x == a
        &&& u.cell(a, b).y == b
    } by {
        assert(t.cell(a, b).wf());
        assert(t.rows[b as int].len() == t.size_x);
    }
    assert forall|a: nat, b: nat| t.contains(a, b) implies {
        &&& (#[trigger] u.cell(a, b)).x == t.cell(a, b).x
        &&& u.cell(a, b).y == t.cell(a, b).y
        &&& u.cell(a, b).text == t.cell(a, b).text
        &&& u.cell(a, b).cell_type == t.cell(a, b).cell_type
        &&& u.cell(a, b).content is Formula <==> t.cell(a, b).content is Formula
        &&& t.cell(a, b).content !is Formula ==> u.cell(a, b).content == t.cell(a, b).content
    } by {
        assert(t.rows[b as int].len() == t.size_x);
    }
    assert forall|a: nat, b: nat| t.contains(a, b) && (a != x || b != y) implies #[trigger] u.cell(
        a,
        b,
    ) == t.cell(a, b) by {
        assert(t.rows[b as int].len() == t.size_x);
    }
    assert(t.rows[y as int].len() == t.size_x);
}

/// The frame relation passes through an intermediate table.
pub proof fn lemma_same_frame_transitive(a: TableView, b: TableView, c: TableView)
    requires
        a.same_frame(b),
        b.same_frame(c),
    ensures
        a.same_frame(c),
{
    assert forall|x: nat, y: nat| a.contains(x, y) implies {
        &&& (#[trigger] c.cell(x, y)).x == a.cell(x, y).x
        &&& c.cell(x, y).y == a.cell(x, y).y
        &&& c.cell(x, y).text == a.cell(x, y).text
        &&& c.cell(x, y).cell_type == a.cell(x, y).cell_type
        &&& c.cell(x, y).content is Formula <==> a.cell(x, y).content is Formula
        &&& a.cell(x, y).content !is Formula ==> c.cell(x, y).content == a.cell(x, y).content
    } by {
        assert(b.cell(x, y).x == a.cell(x, y).x);
        assert(b.contains(x, y));
    }
}

/// Where the fold over a prefix of `terms` has failed, the fold over all of
/// them has the same outcome.
pub proof fn lemma_fold_stops_at_failure(
    t: TableView,
    col_index: Map<u8, usize>,
    terms: Seq<Seq<char>>,
    k: int,
    fuel: nat,
)
    requires
        1 <= k <= terms.len(),
        eval_terms(t, col_index, terms.take(k), fuel).result is Err,
    ensures
        eval_terms(t, col_index, terms, fuel) == eval_terms(t, col_index, terms.take(k), fuel),
    decreases terms.len() - k,
{
    if k == terms.len() {
        assert(terms.take(k) =~= terms);
    } else {
        assert(terms.drop_last().take(k) =~= terms.take(k));
        lemma_fold_stops_at_failure(t, col_index, terms.drop_last(), k, fuel);
    }
}

/// Every table has its own frame.
pub proof fn lemma_same_frame_reflexive(t: TableView)
    ensures
        t.same_frame(t),
{
}

} // verus!
