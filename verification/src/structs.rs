//! The cell and table model, the values that formulas produce, and the
//! mathematical views that the contracts of this crate speak of.

use crate::address::{resolve, resolve_spec};
use std::collections::HashMap;
use vstd::prelude::*;
use vstd::string::*;

verus! {

/// The declared kind of a cell.
#[derive(Clone, Copy, Debug, PartialEq, Eq, Structural)]
pub enum CellType {
    Numeric,
    Text,
    Expression,
    Empty,
}

/// The evaluation status of a formula cell.
///
/// A cell starts as `ToEvaluate`, becomes `InProgress` while its terms are
/// being evaluated, and ends as `Done` (value cached) or `Failed` (for good).
#[derive(Clone, Copy, Debug, PartialEq, Eq, Structural)]
pub enum EvalutedType {
    Done,
    Failed,
    InProgress,
    ToEvaluate,
}

/// Why the evaluation of a cell or of a term failed.
#[derive(Clone, Copy, Debug, PartialEq, Eq, Structural)]
pub enum EvalError {
    /// An address token is malformed, names an unknown column, or points
    /// outside the table.
    InvalidReference,
    /// A number and a text were added.
    TypeMismatch,
    /// The formula cell at column `x`, row `y` was reached again while its own
    /// evaluation was still in progress.
    CyclicReference { x: usize, y: usize },
    /// A term points at a cell that holds no value.
    NonValueCell,
    /// A term points at a formula cell whose evaluation failed earlier.
    AlreadyFailed,
    /// A sum of two numbers does not fit in 32 signed bits.
    Overflow,
}

/// What a numeric cell holds.
#[derive(Clone, Copy, Debug, PartialEq, Eq)]
pub struct NumericCell {
    pub value: i32,
}

/// What a literal cell holds: a text, which is the source text of the cell,
/// or a number.
#[derive(Clone, Copy, Debug, PartialEq, Eq)]
pub enum BaseCells {
    TextCell(),
    NumericCell(NumericCell),
}

/// The value of a term or of a formula: a number or a text. The two kinds
/// never combine.
#[derive(Debug, PartialEq, Eq)]
pub enum ExpressionCellValueType {
    Numeric(i32),
    Str(String),
}

/// The state of a formula cell.
#[derive(Clone, Debug, PartialEq, Eq)]
pub struct ExpressionCell {
    /// The cached value; present exactly when `evaluated` is `Done`.
    pub value: Option<ExpressionCellValueType>,
    pub evaluated: EvalutedType,
}

/// What every cell records, whatever it holds.
#[derive(Clone, Debug, PartialEq, Eq)]
pub struct GenericFields {
    /// Zero-based column.
    pub pos_x: usize,
    /// Zero-based row.
    pub pos_y: usize,
    /// The source text of the cell, with its white space normalised.
    pub string_content: String,
    /// The kind of the cell; it goes with what `specs` holds.
    pub cell_type: CellType,
}

/// What a cell holds.
#[derive(Clone, Debug, PartialEq, Eq)]
pub enum SpecificCell {
    BaseCells(BaseCells),
    ExpressionCell(ExpressionCell),
    EmptyCell(),
}

/// One cell of a table.
#[derive(Clone, Debug, PartialEq, Eq)]
pub struct Cell {
    pub specs: SpecificCell,
    pub generics: GenericFields,
}

/// A rectangular grid of cells; `cells[y][x]` is the cell at column `x`, row `y`.
#[derive(Clone, Debug, PartialEq, Eq)]
pub struct Table {
    pub cells: Vec<Vec<Cell>>,
    pub size_x: usize,
    pub size_y: usize,
}

/// A value as a mathematical object.
pub enum Value {
    Numeric(int),
    Text(Seq<char>),
}

/// What a cell holds, as a mathematical object.
pub enum Content {
    Empty,
    Text,
    Numeric(int),
    Formula { status: EvalutedType, cached: Option<Value> },
}

/// A cell as a mathematical object.
pub struct CellView {
    pub x: nat,
    pub y: nat,
    pub text: Seq<char>,
    pub cell_type: CellType,
    pub content: Content,
}

/// A table as a mathematical object; `rows[y][x]` is the cell at column `x`, row `y`.
#[verifier::ext_equal]
pub struct TableView {
    pub rows: Seq<Seq<CellView>>,
    pub size_x: nat,
    pub size_y: nat,
}

impl View for ExpressionCellValueType {
    type V = Value;

    open spec fn view(&self) -> Value {
        match self {
            ExpressionCellValueType::Numeric(n) => Value::Numeric(*n as int),
            ExpressionCellValueType::Str(s) => Value::Text(s@),
        }
    }
}

impl Clone for ExpressionCellValueType {
    fn clone(&self) -> (res: Self)
        ensures
            res@ == self@,
    {
        match self {
            ExpressionCellValueType::Numeric(n) => ExpressionCellValueType::Numeric(*n),
            ExpressionCellValueType::Str(s) => ExpressionCellValueType::Str(s.clone()),
        }
    }
}

/// The sum of two values: numbers add, texts concatenate, and a number and a
/// text do not combine. A sum outside the 32-bit signed range is an error.
pub open spec fn combine(acc: Value, next: Value) -> Result<Value, EvalError> {
    match (acc, next) {
        (Value::Numeric(a), Value::Numeric(b)) => if i32::MIN <= a + b <= i32::MAX {
            Ok(Value::Numeric(a + b))
        } else {
            Err(EvalError::Overflow)
        },
        (Value::Text(a), Value::Text(b)) => Ok(Value::Text(a + b)),
        _ => Err(EvalError::TypeMismatch),
    }
}

/// The view of the result of an evaluation.
pub open spec fn result_view(res: Result<ExpressionCellValueType, EvalError>) -> Result<
    Value,
    EvalError,
> {
    match res {
        Ok(v) => Ok(v@),
        Err(e) => Err(e),
    }
}

/// The view of an optional value.
pub open spec fn cached_view(value: Option<ExpressionCellValueType>) -> Option<Value> {
    match value {
        Some(v) => Some(v@),
        None => None,
    }
}

impl View for SpecificCell {
    type V = Content;

    open spec fn view(&self) -> Content {
        match self {
            SpecificCell::EmptyCell() => Content::Empty,
            SpecificCell::BaseCells(BaseCells::TextCell()) => Content::Text,
            SpecificCell::BaseCells(BaseCells::NumericCell(n)) => Content::Numeric(n.value as int),
            SpecificCell::ExpressionCell(e) => Content::Formula {
                status: e.evaluated,
                cached: cached_view(e.value),
            },
        }
    }
}

impl View for Cell {
    type V = CellView;

    open spec fn view(&self) -> CellView {
        CellView {
            x: self.generics.pos_x as nat,
            y: self.generics.pos_y as nat,
            text: self.generics.string_content@,
            cell_type: self.generics.cell_type,
            content: self.specs@,
        }
    }
}

impl View for Table {
    type V = TableView;

    open spec fn view(&self) -> TableView {
        TableView {
            rows: Seq::new(
                self.cells@.len(),
                |y: int| Seq::new(self.cells@[y]@.len(), |x: int| self.cells@[y]@[x]@),
            ),
            size_x: self.size_x as nat,
            size_y: self.size_y as nat,
        }
    }
}

impl Content {
    /// The declared kind that goes with this content.
    pub open spec fn cell_type(self) -> CellType {
        match self {
            Content::Empty => CellType::Empty,
            Content::Text => CellType::Text,
            Content::Numeric(_) => CellType::Numeric,
            Content::Formula { .. } => CellType::Expression,
        }
    }

    /// A formula caches a value exactly when its status is `Done`.
    pub open spec fn wf(self) -> bool {
        match self {
            Content::Formula { status, cached } => cached is Some <==> status == EvalutedType::Done,
            _ => true,
        }
    }
}

impl CellView {
    /// The declared kind matches the content, the content is well formed, and
    /// the text of a formula begins with `=`.
    pub open spec fn wf(self) -> bool {
        &&& self.cell_type == self.content.cell_type()
        &&& self.content.wf()
        &&& self.content is Formula ==> self.text.len() > 0 && self.text[0] == '='
    }
}

impl TableView {
    /// Whether column `x`, row `y` lies inside the table.
    pub open spec fn contains(self, x: nat, y: nat) -> bool {
        x < self.size_x && y < self.size_y
    }

    /// The cell at column `x`, row `y`.
    pub open spec fn cell(self, x: nat, y: nat) -> CellView {
        self.rows[y as int][x as int]
    }

    /// The table is rectangular, every cell is well formed and records its
    /// own place in the grid.
    pub open spec fn wf(self) -> bool {
        &&& self.rows.len() == self.size_y
        &&& forall|y: int| 0 <= y < self.size_y ==> (#[trigger] self.rows[y]).len() == self.size_x
        &&& forall|x: nat, y: nat|
            self.contains(x, y) ==> {
                &&& (#[trigger] self.cell(x, y)).wf()
                &&& self.cell(x, y).x == x
                &&& self.cell(x, y).y == y
            }
    }

    /// This table with the cell at column `x`, row `y` replaced.
    pub open spec fn with_cell(self, x: nat, y: nat, cell: CellView) -> TableView {
        TableView {
            rows: self.rows.update(y as int, self.rows[y as int].update(x as int, cell)),
            ..self
        }
    }

    /// This table with the content of the cell at column `x`, row `y` replaced.
    pub open spec fn with_content(self, x: nat, y: nat, content: Content) -> TableView {
        self.with_cell(x, y, CellView { content, ..self.cell(x, y) })
    }
}

impl Cell {
    /// Whether this cell is well formed: see `CellView::wf`.
    pub open spec fn wf(&self) -> bool {
        self@.wf()
    }

    /// Tells whether this cell is well formed.
    pub fn is_valid(&self) -> (ok: bool)
        ensures
            ok == self.wf(),
    {
        match &self.specs {
            SpecificCell::EmptyCell() => self.generics.cell_type == CellType::Empty,
            SpecificCell::BaseCells(BaseCells::TextCell()) => self.generics.cell_type
                == CellType::Text,
            SpecificCell::BaseCells(BaseCells::NumericCell(_)) => self.generics.cell_type
                == CellType::Numeric,
            SpecificCell::ExpressionCell(formula) => {
                let text = self.generics.string_content.as_str();
                let cached = formula.value.is_some();
                let done = formula.evaluated == EvalutedType::Done;
                self.generics.cell_type == CellType::Expression && cached == done
                    && text.unicode_len() > 0 && text.get_char(0) == '='
            },
        }
    }
}

impl Table {
    /// Whether this table is well formed: see `TableView::wf`.
    pub open spec fn wf(&self) -> bool {
        self@.wf()
    }

    /// Tells whether this table is well formed.
    pub fn is_valid(&self) -> (ok: bool)
        ensures
            ok == self.wf(),
    {
        if self.cells.len() != self.size_y {
            return false;
        }
        let mut y: usize = 0;
        while y < self.size_y
            invariant
                y <= self.size_y,
                self.cells@.len() == self.size_y,
                forall|b: int| 0 <= b < y ==> (#[trigger] self.cells@[b])@.len() == self.size_x,
            decreases self.size_y - y,
        {
            if self.cells[y].len() != self.size_x {
                assert(self@.rows[y as int].len() != self@.size_x);
                return false;
            }
            y = y + 1;
        }
        let mut y: usize = 0;
        while y < self.size_y
            invariant
                y <= self.size_y,
                self.cells@.len() == self.size_y,
                forall|b: int|
                    0 <= b < self.size_y ==> (#[trigger] self.cells@[b])@.len() == self.size_x,
                forall|a: nat, b: nat|
                    a < self.size_x && b < y ==> {
                        &&& (#[trigger] self@.cell(a, b)).wf()
                        &&& self@.cell(a, b).x == a
                        &&& self@.cell(a, b).y == b
                    },
            decreases self.size_y - y,
        {
            let mut x: usize = 0;
            while x < self.size_x
                invariant
                    y < self.size_y,
                    x <= self.size_x,
                    self.cells@.len() == self.size_y,
                    forall|b: int|
                        0 <= b < self.size_y ==> (#[trigger] self.cells@[b])@.len() == self.size_x,
                    forall|a: nat|
                        a < x ==> {
                            &&& (#[trigger] self@.cell(a, y as nat)).wf()
                            &&& self@.cell(a, y as nat).x == a
                            &&& self@.cell(a, y as nat).y == y
                        },
                decreases self.size_x - x,
            {
                assert(self.cells@[y as int]@.len() == self.size_x);
                let cell = &self.cells[y][x];
                assert(cell@ == self@.cell(x as nat, y as nat));
                if !cell.is_valid() || cell.generics.pos_x != x || cell.generics.pos_y != y {
                    assert(self@.contains(x as nat, y as nat));
                    return false;
                }
                x = x + 1;
            }
            y = y + 1;
        }
        assert forall|b: int| 0 <= b < self@.size_y implies (#[trigger] self@.rows[b]).len()
            == self@.size_x by {
            assert(self.cells@[b]@.len() == self.size_x);
        }
        true
    }
}

/// An empty cell at column `x`, row `y`.
pub fn new_empty_cell(x: usize, y: usize) -> (cell: Cell)
    ensures
        cell@ == (CellView {
            x: x as nat,
            y: y as nat,
            text: Seq::<char>::empty(),
            cell_type: CellType::Empty,
            content: Content::Empty,
        }),
        cell.wf(),
{
    Cell {
        generics: GenericFields {
            string_content: String::new(),
            pos_x: x,
            pos_y: y,
            cell_type: CellType::Empty,
        },
        specs: SpecificCell::EmptyCell(),
    }
}

/// A cell at column `x`, row `y` that holds the number `n`, written as
/// `string_content` in the source.
pub fn new_numeric_cell(x: usize, y: usize, string_content: String, n: i32) -> (cell: Cell)
    ensures
        cell@ == (CellView {
            x: x as nat,
            y: y as nat,
            text: string_content@,
            cell_type: CellType::Numeric,
            content: Content::Numeric(n as int),
        }),
        cell.wf(),
{
    Cell {
        generics: GenericFields {
            string_content,
            pos_x: x,
            pos_y: y,
            cell_type: CellType::Numeric,
        },
        specs: SpecificCell::BaseCells(BaseCells::NumericCell(NumericCell { value: n })),
    }
}

/// A cell at column `x`, row `y` that holds the text `string_content`.
pub fn new_text_cell(x: usize, y: usize, string_content: String) -> (cell: Cell)
    ensures
        cell@ == (CellView {
            x: x as nat,
            y: y as nat,
            text: string_content@,
            cell_type: CellType::Text,
            content: Content::Text,
        }),
        cell.wf(),
{
    Cell {
        generics: GenericFields {
            string_content,
            pos_x: x,
            pos_y: y,
            cell_type: CellType::Text,
        },
        specs: SpecificCell::BaseCells(BaseCells::TextCell()),
    }
}

/// A formula cell at column `x`, row `y`, not yet evaluated. Its text is the
/// formula, `=` included.
pub fn new_expression_cell(x: usize, y: usize, string_content: String) -> (cell: Cell)
    requires
        string_content@.len() > 0,
        string_content@[0] == '=',
    ensures
        cell@ == (CellView {
            x: x as nat,
            y: y as nat,
            text: string_content@,
            cell_type: CellType::Expression,
            content: Content::Formula { status: EvalutedType::ToEvaluate, cached: None },
        }),
        cell.wf(),
{
    Cell {
        generics: GenericFields {
            string_content,
            pos_x: x,
            pos_y: y,
            cell_type: CellType::Expression,
        },
        specs: SpecificCell::ExpressionCell(
            ExpressionCell { evaluated: EvalutedType::ToEvaluate, value: None },
        ),
    }
}

/// Access to the cells of a table by coordinates and by address.
pub trait TableExt {
    /// Whether the table holds a cell at column `x`, row `y`.
    spec fn has_cell(&self, x: usize, y: usize) -> bool;

    /// The cell at column `x`, row `y`.
    fn at(&self, x: usize, y: usize) -> (cell: &Cell)
        requires
            self.has_cell(x, y),
    ;

    /// The cell at column `x`, row `y`, for writing.
    fn at_mut(&mut self, x: usize, y: usize) -> (cell: &mut Cell)
        requires
            old(self).has_cell(x, y),
    ;

    /// The cell that the address `str_ref` names under the column index
    /// `col_index`, for writing.
    fn get_cell_by_str_ref(&mut self, str_ref: &str, col_index: &HashMap<u8, usize>) -> (res:
        Result<&mut Cell, EvalError>)
    ;
}

impl TableExt for Table {
    open spec fn has_cell(&self, x: usize, y: usize) -> bool {
        y < self.cells@.len() && x < self.cells@[y as int]@.len()
    }

    fn at(&self, x: usize, y: usize) -> (cell: &Cell)
        ensures
            *cell == self.cells@[y as int]@[x as int],
            cell@ == self@.cell(x as nat, y as nat),
    {
        &self.cells[y][x]
    }

    fn at_mut(&mut self, x: usize, y: usize) -> (cell: &mut Cell)
        ensures
            *cell == old(self).cells@[y as int]@[x as int],
            final(self)@ =~~= old(self)@.with_cell(x as nat, y as nat, final(cell)@),
    {
        &mut self.cells[y][x]
    }

    /// Fails with `InvalidReference` where `str_ref` resolves to nothing and
    /// where it resolves to a place at which the table holds no cell.
    fn get_cell_by_str_ref(&mut self, str_ref: &str, col_index: &HashMap<u8, usize>) -> (res:
        Result<&mut Cell, EvalError>)
        ensures
            match resolve_spec(str_ref@, col_index@) {
                Some((x, y)) if old(self).has_cell(x, y) => {
                    &&& res matches Ok(cell)
                    &&& *cell == old(self).cells@[y as int]@[x as int]
                    &&& final(self)@ == old(self)@.with_cell(x as nat, y as nat, final(cell)@)
                },
                _ => {
                    &&& res matches Err(EvalError::InvalidReference)
                    &&& *final(self) == *old(self)
                },
            },
    {
        match resolve(str_ref, col_index) {
            Ok((x, y)) => {
                if y < self.cells.len() && x < self.cells[y].len() {
                    Ok(self.at_mut(x, y))
                } else {
                    Err(EvalError::InvalidReference)
                }
            },
            Err(_) => Err(EvalError::InvalidReference),
        }
    }
}

/// Addition of a value to the value at hand.
pub trait AddAssign {
    /// Adds `rhs` to `self`, or fails and leaves `self` as it is.
    fn add_assign(&mut self, rhs: ExpressionCellValueType) -> Result<(), EvalError>;
}

impl AddAssign for ExpressionCellValueType {
    /// Adds `rhs` to `self` as `combine` says. On an error `self` keeps its
    /// value.
    fn add_assign(&mut self, rhs: ExpressionCellValueType) -> (res: Result<(), EvalError>)
        ensures
            match combine(old(self)@, rhs@) {
                Ok(sum) => res is Ok && final(self)@ == sum,
                Err(e) => res == Err::<(), EvalError>(e) && final(self)@ == old(self)@,
            },
    {
        match self {
            ExpressionCellValueType::Numeric(a) => match rhs {
                ExpressionCellValueType::Numeric(b) => match a.checked_add(b) {
                    Some(sum) => {
                        *a = sum;
                        Ok(())
                    },
                    None => Err(EvalError::Overflow),
                },
                ExpressionCellValueType::Str(_) => Err(EvalError::TypeMismatch),
            },
            ExpressionCellValueType::Str(a) => match rhs {
                ExpressionCellValueType::Str(b) => {
                    a.append(b.as_str());
                    Ok(())
                },
                ExpressionCellValueType::Numeric(_) => Err(EvalError::TypeMismatch),
            },
        }
    }
}

} // verus!
