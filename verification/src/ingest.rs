//! Building a table from delimited text: one line per row, fields separated
//! by `|`, and a first row of column letters.

use crate::address::{column_key, key_of};
use crate::structs::{
    new_empty_cell, new_expression_cell, new_numeric_cell, new_text_cell, Cell, CellView, Content,
    EvalutedType, Table, TableView,
};
use crate::model::is_pending;
use crate::utils::{
    lemma_split_nonempty, parse_i32, parse_i32_spec, piece_views, split, split_chars, squeeze,
    squeezed, string_of, to_chars, to_upper, upper,
};
use std::collections::HashMap;
use vstd::prelude::*;

verus! {

/// Why no table could be built.
#[derive(Clone, Copy, Debug, PartialEq, Eq, Structural)]
pub enum TableError {
    /// The text is empty.
    EmptyContent,
    /// The field at `column` of the first row is empty.
    EmptyHeader { column: usize },
    /// The field at `column` of the first row is not a single letter from `A`
    /// to `Z`, in either case.
    InvalidHeader { column: usize },
}

/// The larger of two numbers.
pub open spec fn larger(a: nat, b: nat) -> nat {
    if a >= b {
        a
    } else {
        b
    }
}

/// The largest number of fields among `lines`, and at least 1.
pub open spec fn widest(lines: Seq<Seq<char>>) -> nat
    decreases lines.len(),
{
    if lines.len() == 0 {
        1
    } else {
        larger(widest(lines.drop_last()), split(lines.last(), '|').len())
    }
}

/// The size (columns, rows) of the table that `content` describes: the
/// largest number of fields on a line, and the number of lines.
pub open spec fn table_size(content: Seq<char>) -> (nat, nat) {
    let lines = split(content, '\n');
    (widest(lines), lines.len())
}

/// The text that the table keeps of `field` in row `y`: its white space is
/// normalised, and in the first row its letters are put in upper case.
pub open spec fn field_text(field: Seq<char>, y: nat) -> Seq<char> {
    if y == 0 {
        upper(squeezed(field))
    } else {
        squeezed(field)
    }
}

/// What a cell with the text `text` holds: nothing where the text is empty,
/// a formula where it begins with `=`, a number where it reads as one, and
/// text in every other case.
pub open spec fn classify(text: Seq<char>) -> Content {
    if text.len() == 0 {
        Content::Empty
    } else if text[0] == '=' {
        Content::Formula { status: EvalutedType::ToEvaluate, cached: None }
    } else {
        match parse_i32_spec(text) {
            Some(n) => Content::Numeric(n as int),
            None => Content::Text,
        }
    }
}

/// The cell with the text `text` at column `x`, row `y`.
pub open spec fn cell_of(text: Seq<char>, x: nat, y: nat) -> CellView {
    CellView { x, y, text, cell_type: classify(text).cell_type(), content: classify(text) }
}

/// The cell at column `x` of the row that `line` describes: the cell of its
/// field `x`, or an empty cell where the line has fewer fields.
pub open spec fn parsed_cell(line: Seq<char>, x: nat, y: nat) -> CellView {
    let fields = split(line, '|');
    if x < fields.len() {
        cell_of(field_text(fields[x as int], y), x, y)
    } else {
        cell_of(Seq::empty(), x, y)
    }
}

/// The table that `content` describes.
pub open spec fn parsed_table(content: Seq<char>) -> TableView {
    let lines = split(content, '\n');
    TableView {
        rows: Seq::new(
            lines.len(),
            |y: int| Seq::new(widest(lines), |x: int| parsed_cell(lines[y], x as nat, y as nat)),
        ),
        size_x: widest(lines),
        size_y: lines.len(),
    }
}

/// Whether `text` is a column letter: one letter from `A` to `Z`, in either
/// case.
pub open spec fn is_column_letter(text: Seq<char>) -> bool {
    text.len() == 1 && column_key(text[0]) is Some
}

/// What is wrong with the field `field` at `column` of the first row, if
/// anything.
pub open spec fn header_field_error(field: Seq<char>, column: nat) -> Option<TableError> {
    if squeezed(field).len() == 0 {
        Some(TableError::EmptyHeader { column: column as usize })
    } else if !is_column_letter(squeezed(field)) {
        Some(TableError::InvalidHeader { column: column as usize })
    } else {
        None
    }
}

/// What is wrong with the leftmost bad field among `fields`, the fields of
/// the first row; `None` where every field is a column letter.
pub open spec fn header_error(fields: Seq<Seq<char>>) -> Option<TableError>
    decreases fields.len(),
{
    if fields.len() == 0 {
        None
    } else {
        match header_error(fields.drop_last()) {
            Some(e) => Some(e),
            None => header_field_error(fields.last(), (fields.len() - 1) as nat),
        }
    }
}

/// The column index that `fields`, the fields of the first row, describe:
/// each letter is filed under its key with the column in which it stands,
/// and of two equal letters the right one counts.
pub open spec fn header_index(fields: Seq<Seq<char>>) -> Map<u8, usize>
    decreases fields.len(),
{
    if fields.len() == 0 {
        Map::empty()
    } else {
        header_index(fields.drop_last()).insert(
            column_key(squeezed(fields.last())[0])->0,
            (fields.len() - 1) as usize,
        )
    }
}

/// No line has more fields than `widest` says, and `widest` is at least 1.
pub proof fn lemma_widest_bounds(lines: Seq<Seq<char>>, i: int)
    requires
        0 <= i < lines.len(),
    ensures
        split(lines[i], '|').len() <= widest(lines),
        widest(lines) >= 1,
    decreases lines.len(),
{
    lemma_widest_positive(lines.drop_last());
    if i < lines.len() - 1 {
        lemma_widest_bounds(lines.drop_last(), i);
    }
}

/// `widest` is at least 1.
pub proof fn lemma_widest_positive(lines: Seq<Seq<char>>)
    ensures
        widest(lines) >= 1,
    decreases lines.len(),
{
    if lines.len() > 0 {
        lemma_widest_positive(lines.drop_last());
    }
}

/// Where a prefix of the first row holds a bad field, the whole row has the
/// same error.
pub proof fn lemma_header_error_stays(fields: Seq<Seq<char>>, k: int)
    requires
        0 <= k <= fields.len(),
        header_error(fields.take(k)) is Some,
    ensures
        header_error(fields) == header_error(fields.take(k)),
    decreases fields.len() - k,
{
    if k == fields.len() {
        assert(fields.take(k) =~= fields);
    } else {
        assert(fields.drop_last().take(k) =~= fields.take(k));
        lemma_header_error_stays(fields.drop_last(), k);
    }
}

/// The size (columns, rows) of the table that `content` describes.
pub fn get_table_size(content: &str) -> (size: (usize, usize))
    ensures
        (size.0 as nat, size.1 as nat) == table_size(content@),
{
    let chars = to_chars(content);
    let lines = split_chars(chars.as_slice(), '\n');
    let ghost views = piece_views(lines@);
    let mut x: usize = 1;
    let mut i: usize = 0;
    assert(views.take(0) =~= Seq::<Seq<char>>::empty());
    while i < lines.len()
        invariant
            i <= lines@.len(),
            views == piece_views(lines@),
            x == widest(views.take(i as int)),
        decreases lines@.len() - i,
    {
        let fields = split_chars(lines[i].as_slice(), '|');
        proof {
            let prefix = views.take(i + 1);
            assert(prefix.drop_last() =~= views.take(i as int));
            assert(prefix.last() == lines@[i as int]@);
        }
        if fields.len() > x {
            x = fields.len();
        }
        i = i + 1;
    }
    assert(views.take(lines@.len() as int) =~= views);
    (x, lines.len())
}

/// The cell with the text `text` at column `x`, row `y`.
pub fn make_cell(x: usize, y: usize, text: &[char]) -> (cell: Cell)
    ensures
        cell@ == cell_of(text@, x as nat, y as nat),
        cell.wf(),
{
    if text.len() == 0 {
        assert(text@ =~= Seq::<char>::empty());
        new_empty_cell(x, y)
    } else if text[0] == '=' {
        new_expression_cell(x, y, string_of(text))
    } else {
        match parse_i32(text) {
            Some(n) => new_numeric_cell(x, y, string_of(text), n),
            None => new_text_cell(x, y, string_of(text)),
        }
    }
}

/// Builds the table that `content` describes, and its column index.
///
/// Fails where `content` is empty and where the first row holds a field that
/// is no column letter; the error names the leftmost such field.
pub fn get_table_from_content(content: &str) -> (res: Result<
    (Table, HashMap<u8, usize>),
    TableError,
>)
    ensures
        match res {
            Ok((table, column_index)) => {
                &&& content@.len() > 0
                &&& header_error(split(split(content@, '\n')[0], '|')) is None
                &&& table@ == parsed_table(content@)
                &&& column_index@ == header_index(split(split(content@, '\n')[0], '|'))
                &&& table.wf()
                &&& table@.fresh()
            },
            Err(e) => if content@.len() == 0 {
                e == TableError::EmptyContent
            } else {
                header_error(split(split(content@, '\n')[0], '|')) == Some(e)
            },
        },
{
    let chars = to_chars(content);
    if chars.len() == 0 {
        return Err(TableError::EmptyContent);
    }
    let (size_x, size_y) = get_table_size(content);
    let lines = split_chars(chars.as_slice(), '\n');
    let ghost views = piece_views(lines@);
    let ghost header = split(views[0], '|');
    let mut column_index: HashMap<u8, usize> = HashMap::new();
    let mut cells: Vec<Vec<Cell>> = Vec::new();
    let mut row: usize = 0;
    proof {
        lemma_split_nonempty(content@, '\n');
        assert(header.take(0) =~= Seq::<Seq<char>>::empty());
    }
    while row < lines.len()
        invariant
            row <= lines@.len(),
            lines@.len() == size_y,
            lines@.len() >= 1,
            content@.len() > 0,
            views == piece_views(lines@),
            views == split(content@, '\n'),
            header == split(views[0], '|'),
            size_x == widest(views),
            cells@.len() == row,
            row == 0 ==> column_index@ == Map::<u8, usize>::empty(),
            row > 0 ==> header_error(header) is None && column_index@ == header_index(header),
            forall|r: int| 0 <= r < row ==> (#[trigger] cells@[r])@.len() == size_x,
            forall|r: int, c: int|
                0 <= r < row && 0 <= c < size_x ==> {
                    &&& (#[trigger] cells@[r]@[c])@ == parsed_cell(views[r], c as nat, r as nat)
                    &&& cells@[r]@[c].wf()
                },
        decreases lines@.len() - row,
    {
        let fields = split_chars(lines[row].as_slice(), '|');
        let ghost texts = piece_views(fields@);
        proof {
            assert(texts == split(views[row as int], '|'));
            lemma_widest_bounds(views, row as int);
            assert(texts.take(0) =~= Seq::<Seq<char>>::empty());
        }
        let mut row_cells: Vec<Cell> = Vec::new();
        let mut col: usize = 0;
        while col < fields.len()
            invariant
                col <= fields@.len(),
                fields@.len() <= size_x,
                row < lines@.len(),
                content@.len() > 0,
                views == piece_views(lines@),
                views == split(content@, '\n'),
                texts == piece_views(fields@),
                texts == split(views[row as int], '|'),
                header == split(views[0], '|'),
                row_cells@.len() == col,
                row == 0 ==> header_error(texts.take(col as int)) is None && column_index@
                    == header_index(texts.take(col as int)),
                row > 0 ==> header_error(header) is None && column_index@ == header_index(header),
                forall|c: int|
                    0 <= c < col ==> {
                        &&& (#[trigger] row_cells@[c])@ == parsed_cell(
                            views[row as int],
                            c as nat,
                            row as nat,
                        )
                        &&& row_cells@[c].wf()
                    },
            decreases fields@.len() - col,
        {
            let mut text = squeeze(fields[col].as_slice());
            assert(text@ == squeezed(texts[col as int]));
            if row == 0 {
                proof {
                    let prefix = texts.take(col + 1);
                    assert(prefix.drop_last() =~= texts.take(col as int));
                    assert(prefix.last() == texts[col as int]);
                }
                if text.len() == 0 {
                    proof {
                        lemma_header_error_stays(texts, col + 1);
                    }
                    return Err(TableError::EmptyHeader { column: col });
                }
                let key = if text.len() == 1 {
                    key_of(text[0])
                } else {
                    None
                };
                match key {
                    Some(key) => {
                        column_index.insert(key, col);
                    },
                    None => {
                        proof {
                            lemma_header_error_stays(texts, col + 1);
                        }
                        return Err(TableError::InvalidHeader { column: col });
                    },
                }
                text = to_upper(text.as_slice());
            }
            let cell = make_cell(col, row, text.as_slice());
            row_cells.push(cell);
            col = col + 1;
        }
        proof {
            assert(texts.take(fields@.len() as int) =~= texts);
        }
        while row_cells.len() < size_x
            invariant
                fields@.len() <= row_cells@.len() <= size_x,
                row < lines@.len(),
                views == piece_views(lines@),
                texts == split(views[row as int], '|'),
                texts.len() == fields@.len(),
                forall|c: int|
                    0 <= c < row_cells@.len() ==> {
                        &&& (#[trigger] row_cells@[c])@ == parsed_cell(
                            views[row as int],
                            c as nat,
                            row as nat,
                        )
                        &&& row_cells@[c].wf()
                    },
            decreases size_x - row_cells@.len(),
        {
            let cell = new_empty_cell(row_cells.len(), row);
            assert(classify(Seq::<char>::empty()) == Content::Empty);
            row_cells.push(cell);
        }
        cells.push(row_cells);
        row = row + 1;
    }
    let table = Table { cells, size_x, size_y };
    proof {
        let expected = parsed_table(content@);
        assert forall|y: int| 0 <= y < expected.rows.len() implies table@.rows[y]
            =~= expected.rows[y] by {
            assert(cells@[y]@.len() == size_x);
            assert forall|x: int| 0 <= x < size_x implies table@.rows[y][x]
                == expected.rows[y][x] by {
                assert(cells@[y]@[x]@ == parsed_cell(views[y], x as nat, y as nat));
            }
        }
        assert(table@.rows =~= expected.rows);
        assert(table@ =~= expected);
        assert forall|x: nat, y: nat| table@.contains(x, y) implies {
            &&& (#[trigger] table@.cell(x, y)).wf()
            &&& table@.cell(x, y).x == x
            &&& table@.cell(x, y).y == y
        } by {
            assert(cells@[y as int]@[x as int].wf());
            assert(cells@[y as int]@[x as int]@ == parsed_cell(views[y as int], x, y));
        }
        assert forall|y: int| 0 <= y < table@.size_y implies (#[trigger] table@.rows[y]).len()
            == table@.size_x by {
            assert(cells@[y]@.len() == size_x);
        }
        assert forall|x: nat, y: nat|
            table@.contains(x, y) && (#[trigger] table@.cell(x, y)).content
                is Formula implies is_pending(table@.cell(x, y).content) by {
            assert(cells@[y as int]@[x as int]@ == parsed_cell(views[y as int], x, y));
        }
    }
    Ok((table, column_index))
}

} // verus!
