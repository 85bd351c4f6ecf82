//! Cells, values and tables as text.

use crate::structs::{
    Cell, CellType, CellView, Content, ExpressionCellValueType, SpecificCell, Table, TableExt,
    TableView, Value,
};
use vstd::prelude::*;
use vstd::string::*;

verus! {

/// The character that writes the digit `d`.
pub open spec fn digit_char(d: nat) -> char {
    (('0' as u8) + (d as u8)) as char
}

/// The digits that write `n` in base ten, without leading zeros.
pub open spec fn digits_of(n: nat) -> Seq<char>
    decreases n,
{
    if n < 10 {
        seq![digit_char(n)]
    } else {
        digits_of(n / 10).push(digit_char(n % 10))
    }
}

/// The text that writes `i` in base ten, with `-` in front of a negative
/// number.
pub open spec fn int_text(i: int) -> Seq<char> {
    if i < 0 {
        seq!['-'] + digits_of((-i) as nat)
    } else {
        digits_of(i as nat)
    }
}

/// The short name of a kind of cell.
pub open spec fn cell_type_name(cell_type: CellType) -> Seq<char> {
    match cell_type {
        CellType::Numeric => "Num"@,
        CellType::Text => "Text"@,
        CellType::Expression => "Expr"@,
        CellType::Empty => "Empty"@,
    }
}

/// The text of a value: a number in base ten, a text as it is.
pub open spec fn value_text(v: Value) -> Seq<char> {
    match v {
        Value::Numeric(n) => int_text(n),
        Value::Text(s) => s,
    }
}

/// The text of a value followed by its kind in brackets.
pub open spec fn value_label(v: Value) -> Seq<char> {
    match v {
        Value::Numeric(n) => int_text(n) + "(Numeric)"@,
        Value::Text(s) => s + "(String)"@,
    }
}

/// The text of a cell: the name of its kind and, in brackets, its source
/// text; for a formula then `=` and its cached value, or `=?` where it has
/// none.
pub open spec fn cell_text(cell: CellView) -> Seq<char> {
    let head = cell_type_name(cell.cell_type) + "("@ + cell.text + ")"@;
    match cell.content {
        Content::Formula { cached: Some(v), .. } => head + "="@ + value_text(v),
        Content::Formula { cached: None, .. } => head + "=?"@,
        _ => head,
    }
}

/// The text of the first `count` cells of a row, each followed by three tabs.
pub open spec fn row_text(row: Seq<CellView>, count: nat) -> Seq<char>
    decreases count,
{
    if count == 0 {
        Seq::empty()
    } else {
        row_text(row, (count - 1) as nat) + cell_text(row[count - 1]) + "\t\t\t"@
    }
}

/// The text of the first `count` rows of a table, each followed by an empty
/// line.
pub open spec fn rows_text(t: TableView, count: nat) -> Seq<char>
    decreases count,
{
    if count == 0 {
        Seq::empty()
    } else {
        rows_text(t, (count - 1) as nat) + row_text(t.rows[count - 1], t.size_x) + "\n\n"@
    }
}

/// The closing line of the text of a table, which gives its size.
pub open spec fn size_text(t: TableView) -> Seq<char> {
    "Dumped the content of a table "@ + int_text(t.size_x as int) + "x"@ + int_text(
        t.size_y as int,
    )
}

/// Appends the digits of `n` to `out`.
fn push_digits(out: &mut String, n: u64)
    ensures
        final(out)@ == old(out)@ + digits_of(n as nat),
    decreases n,
{
    if n >= 10 {
        push_digits(out, n / 10);
    }
    let digit: u8 = (n % 10) as u8;
    out.push((48u8 + digit) as char);
    assert(final(out)@ =~= old(out)@ + digits_of(n as nat));
}

/// Appends the text of `i` to `out`.
fn push_int(out: &mut String, i: i64)
    ensures
        final(out)@ == old(out)@ + int_text(i as int),
{
    if i < 0 {
        out.push('-');
        let magnitude: u64 = if i == i64::MIN {
            0x8000_0000_0000_0000
        } else {
            (-i) as u64
        };
        push_digits(out, magnitude);
        assert(final(out)@ =~= old(out)@ + (seq!['-'] + digits_of((-i) as nat)));
    } else {
        push_digits(out, i as u64);
    }
}

/// Appends `text` to `out`.
fn push_str(out: &mut String, text: &str)
    ensures
        final(out)@ == old(out)@ + text@,
{
    out.append(text);
}

impl CellType {
    /// The short name of this kind of cell.
    pub fn to_string(&self) -> (res: String)
        ensures
            res@ == cell_type_name(*self),
    {
        match self {
            CellType::Numeric => String::from_str("Num"),
            CellType::Text => String::from_str("Text"),
            CellType::Expression => String::from_str("Expr"),
            CellType::Empty => String::from_str("Empty"),
        }
    }
}

impl ExpressionCellValueType {
    /// Appends the text of this value to `out`.
    fn push_text(&self, out: &mut String)
        ensures
            final(out)@ == old(out)@ + value_text(self@),
    {
        match self {
            ExpressionCellValueType::Numeric(n) => push_int(out, *n as i64),
            ExpressionCellValueType::Str(s) => push_str(out, s.as_str()),
        }
    }

    /// The text of this value followed by its kind in brackets.
    pub fn to_string(&self) -> (res: String)
        ensures
            res@ == value_label(self@),
    {
        let mut res = String::new();
        self.push_text(&mut res);
        match self {
            ExpressionCellValueType::Numeric(_) => push_str(&mut res, "(Numeric)"),
            ExpressionCellValueType::Str(_) => push_str(&mut res, "(String)"),
        }
        assert(res@ =~= value_label(self@));
        res
    }
}

impl Cell {
    /// Appends the text of this cell to `out`.
    fn push_text(&self, out: &mut String)
        ensures
            final(out)@ == old(out)@ + cell_text(self@),
    {
        let name = self.generics.cell_type.to_string();
        push_str(out, name.as_str());
        push_str(out, "(");
        push_str(out, self.generics.string_content.as_str());
        push_str(out, ")");
        let ghost head = cell_type_name(self@.cell_type) + "("@ + self@.text + ")"@;
        assert(out@ =~= old(out)@ + head);
        if let SpecificCell::ExpressionCell(formula) = &self.specs {
            match &formula.value {
                Some(value) => {
                    push_str(out, "=");
                    value.push_text(out);
                    assert(out@ =~= old(out)@ + (head + "="@ + value_text(value@)));
                },
                None => {
                    push_str(out, "=?");
                    assert(out@ =~= old(out)@ + (head + "=?"@));
                },
            }
        }
    }

    /// The text of this cell.
    pub fn to_string(&self) -> (res: String)
        ensures
            res@ == cell_text(self@),
    {
        let mut res = String::new();
        self.push_text(&mut res);
        assert(res@ =~= cell_text(self@));
        res
    }
}

impl Table {
    /// The text of the cells of this table, row by row.
    pub fn dump(&self) -> (res: String)
        requires
            self.wf(),
        ensures
            res@ == rows_text(self@, self@.size_y),
    {
        let mut res = String::new();
        let mut y: usize = 0;
        assert(res@ =~= rows_text(self@, 0));
        while y < self.size_y
            invariant
                self.wf(),
                y <= self.size_y,
                res@ == rows_text(self@, y as nat),
            decreases self.size_y - y,
        {
            let ghost before = res@;
            let mut x: usize = 0;
            assert(self@.rows[y as int].len() == self@.size_x);
            assert(res@ =~= before + row_text(self@.rows[y as int], 0));
            while x < self.size_x
                invariant
                    self.wf(),
                    y < self.size_y,
                    x <= self.size_x,
                    self@.rows[y as int].len() == self@.size_x,
                    res@ == before + row_text(self@.rows[y as int], x as nat),
                decreases self.size_x - x,
            {
                let ghost so_far = res@;
                let cell = self.at(x, y);
                cell.push_text(&mut res);
                push_str(&mut res, "\t\t\t");
                assert(cell@ == self@.rows[y as int][x as int]);
                assert(res@ =~= before + row_text(self@.rows[y as int], (x + 1) as nat));
                x = x + 1;
            }
            push_str(&mut res, "\n\n");
            assert(res@ =~= rows_text(self@, (y + 1) as nat));
            y = y + 1;
        }
        res
    }

    /// The closing line of the text of this table, which gives its size.
    pub fn to_string(&self) -> (res: String)
        ensures
            res@ == size_text(self@),
    {
        let mut res = String::from_str("Dumped the content of a table ");
        push_digits(&mut res, self.size_x as u64);
        push_str(&mut res, "x");
        push_digits(&mut res, self.size_y as u64);
        assert(res@ =~= size_text(self@));
        res
    }
}

} // verus!
