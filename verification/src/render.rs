//! How a table is shown: a line of column names, then a line for each row,
//! every cell right-aligned in the width of its column's type.

use vstd::prelude::*;
use crate::model::{ColView, DataType, Table, TableView, Value, WordType};
use crate::storage::table_storable;
use crate::text::{all_digits, chars_of, digits_value, int_literal, is_digit, literal_digits};

verus! {

/// The width of a shown integer or type name.
pub const NARROW: usize = 5;

/// The width of a shown text.
pub const WIDE: usize = 20;

/// The width of the cells of a column of type `t`.
pub open spec fn cell_width(t: DataType) -> nat {
    match t {
        DataType::Int => 5,
        DataType::Str => 20,
        DataType::Type => 5,
    }
}

/// The character that writes the digit `d`.
pub open spec fn digit_char(d: nat) -> char {
    (d + '0' as u32) as char
}

/// The decimal digits of `n`, most significant first, without leading zero.
pub open spec fn digits_of(n: nat) -> Seq<char>
    decreases n,
{
    if n < 10 {
        seq![digit_char(n)]
    } else {
        digits_of(n / 10).push(digit_char(n % 10))
    }
}

/// The decimal form of an integer: a minus sign where it is negative, then
/// its digits.
pub open spec fn int_text(x: int) -> Seq<char> {
    if x < 0 {
        seq!['-'] + digits_of((-x) as nat)
    } else {
        digits_of(x as nat)
    }
}

/// `s` with spaces before it up to the width `width`; `s` itself where it
/// is as wide or wider.
pub open spec fn padded(s: Seq<char>, width: nat) -> Seq<char> {
    if s.len() >= width {
        s
    } else {
        Seq::new((width - s.len()) as nat, |i: int| ' ') + s
    }
}

/// A value as its cell shows it.
pub open spec fn cell_text(v: Value) -> Seq<char> {
    match v {
        Value::Int(x) => padded(int_text(x as int), 5),
        Value::Text(s) => padded(s, 20),
        Value::Type(_) => Seq::empty(),
    }
}

/// The head line up to column `n`.
pub open spec fn head_cells(cols: Seq<ColView>, n: int) -> Seq<char>
    decreases n,
{
    if n <= 0 {
        Seq::empty()
    } else {
        head_cells(cols, n - 1) + padded(cols[n - 1].name, cell_width(cols[n - 1].data_type))
    }
}

/// The first `n` cells of a row.
pub open spec fn row_cells(row: Seq<Value>, n: int) -> Seq<char>
    decreases n,
{
    if n <= 0 {
        Seq::empty()
    } else {
        row_cells(row, n - 1) + cell_text(row[n - 1])
    }
}

/// The lines of the first `n` rows.
pub open spec fn row_lines(rows: Seq<Seq<Value>>, n: int) -> Seq<char>
    decreases n,
{
    if n <= 0 {
        Seq::empty()
    } else {
        row_lines(rows, n - 1) + row_cells(rows[n - 1], rows[n - 1].len() as int) + seq!['\n']
    }
}

/// A table as it is shown.
pub open spec fn table_text(table: TableView) -> Seq<char> {
    head_cells(table.schema.cols, table.schema.cols.len() as int) + seq!['\n'] + row_lines(
        table.rows,
        table.rows.len() as int,
    )
}

/// The digits of a number are digits, and they write the number.
pub proof fn lemma_digits_of(n: nat)
    ensures
        digits_of(n).len() > 0,
        all_digits(digits_of(n)),
        digits_value(digits_of(n)) == n,
    decreases n,
{
    let d = if n < 10 {
        n
    } else {
        n % 10
    };
    assert(is_digit(digit_char(d)) && digit_char(d) as u32 - '0' as u32 == d) by {
        let c = (d + '0' as u32) as char;
        assert('0' as u32 == 48);
        assert(c as u32 == d + 48);
        assert('9' as u32 == 57);
    }
    let whole = digits_of(n);
    assert(whole.last() == digit_char(d));
    assert(digits_value(whole) == digits_value(whole.drop_last()) * 10 + (whole.last() as u32
        - '0' as u32));
    if n < 10 {
        assert(whole.drop_last() =~= Seq::<char>::empty());
        assert(digits_value(Seq::<char>::empty()) == 0);
    } else {
        lemma_digits_of(n / 10);
        let shorter = digits_of(n / 10);
        assert(whole.drop_last() =~= shorter);
        assert forall|i: int| 0 <= i < whole.len() implies is_digit(#[trigger] whole[i]) by {
            if i < shorter.len() {
                assert(whole[i] == shorter[i]);
            }
        }
    }
}

/// The decimal form of a 32-bit integer reads as that integer.
pub proof fn lemma_int_text_reads(x: i32)
    ensures
        int_literal(int_text(x as int)) == Some(x),
{
    let s = int_text(x as int);
    if x < 0 {
        let n = (-(x as int)) as nat;
        lemma_digits_of(n);
        assert(s[0] == '-');
        assert(literal_digits(s) =~= digits_of(n));
    } else {
        let n = x as nat;
        lemma_digits_of(n);
        assert(s[0] != '-' && s[0] != '+') by {
            assert(is_digit(s[0]));
        }
        assert(literal_digits(s) =~= s);
    }
}

/// Appends the digits of `n` to `out`.
fn put_digits(out: &mut Vec<char>, n: u32)
    ensures
        final(out)@ == old(out)@ + digits_of(n as nat),
    decreases n,
{
    if n >= 10 {
        put_digits(out, n / 10);
    }
    let d: u32 = n % 10;
    let c: char = match d {
        0 => '0',
        1 => '1',
        2 => '2',
        3 => '3',
        4 => '4',
        5 => '5',
        6 => '6',
        7 => '7',
        8 => '8',
        _ => '9',
    };
    assert(c == digit_char(d as nat)) by {
        assert(c as u32 == d + 48);
        assert('0' as u32 == 48);
    }
    out.push(c);
    assert(out@ =~= old(out)@ + digits_of(n as nat));
}

/// Writes an integer in decimal.
pub fn int_chars(x: i32) -> (out: Vec<char>)
    ensures
        out@ == int_text(x as int),
{
    let mut out: Vec<char> = Vec::new();
    if x < 0 {
        out.push('-');
        let n: u32 = (-(x as i64)) as u32;
        put_digits(&mut out, n);
    } else {
        put_digits(&mut out, x as u32);
    }
    assert(out@ =~= int_text(x as int));
    out
}

/// Appends `cell` to `out`, right-aligned in `width`.
fn put_padded(out: &mut String, cell: &Vec<char>, width: usize)
    ensures
        final(out)@ == old(out)@ + padded(cell@, width as nat),
{
    let ghost before = out@;
    let ghost fill: int = if cell.len() >= width {
        0
    } else {
        width - cell.len()
    };
    let mut n: usize = cell.len();
    while n < width
        invariant
            cell.len() <= n,
            fill > 0 ==> n <= width,
            fill == 0 ==> n == cell.len(),
            fill == (if cell.len() >= width { 0 } else { width - cell.len() }),
            out@ == before + Seq::new((n - cell.len()) as nat, |i: int| ' '),
        decreases width - n,
    {
        out.push(' ');
        n += 1;
        assert(out@ =~= before + Seq::new((n - cell.len()) as nat, |i: int| ' '));
    }
    let ghost spaced = out@;
    let mut i: usize = 0;
    assert(out@ =~= spaced + cell@.take(0));
    while i < cell.len()
        invariant
            i <= cell.len(),
            out@ == spaced + cell@.take(i as int),
        decreases cell.len() - i,
    {
        out.push(cell[i]);
        i += 1;
        assert(out@ =~= spaced + cell@.take(i as int));
    }
    assert(cell@.take(cell.len() as int) =~= cell@);
    assert(out@ =~= before + padded(cell@, width as nat));
}

/// Shows a table: its column names in one line, then its rows, a line
/// each, every cell right-aligned — integers in 5 characters, texts in 20
/// — and wider where its content is wider.
pub fn format_table(table: &Table) -> (text: String)
    requires
        table_storable(table@),
    ensures
        text@ == table_text(table@),
{
    let mut text = String::new();
    let ghost cols = table@.schema.cols;
    let ghost rows = table@.rows;
    let mut c: usize = 0;
    assert(text@ =~= head_cells(cols, 0));
    while c < table.schema.cols.len()
        invariant
            c <= table.schema.cols.len(),
            cols == table@.schema.cols,
            text@ == head_cells(cols, c as int),
        decreases table.schema.cols.len() - c,
    {
        let col = &table.schema.cols[c];
        assert(cols[c as int] == col@);
        let name = chars_of(col.name.as_str());
        let width: usize = match col.data_type {
            DataType::Str => WIDE,
            _ => NARROW,
        };
        put_padded(&mut text, &name, width);
        c += 1;
    }
    text.push('\n');
    let ghost head = text@;
    let mut r: usize = 0;
    assert(text@ =~= head + row_lines(rows, 0));
    while r < table.rows.len()
        invariant
            r <= table.rows.len(),
            rows == table@.rows,
            table_storable(table@),
            text@ == head + row_lines(rows, r as int),
        decreases table.rows.len() - r,
    {
        let row = &table.rows[r];
        let ghost values = row.deep_view();
        assert(rows[r as int] == values);
        let ghost before = text@;
        let mut i: usize = 0;
        assert(text@ =~= before + row_cells(values, 0));
        while i < row.len()
            invariant
                i <= row.len(),
                values == row.deep_view(),
                text@ == before + row_cells(values, i as int),
            decreases row.len() - i,
        {
            assert(values[i as int] == row[i as int]@);
            let ghost so_far = text@;
            match &row[i] {
                WordType::Int(x) => {
                    let cell = int_chars(*x);
                    put_padded(&mut text, &cell, NARROW);
                },
                WordType::Str(s) => {
                    let cell = chars_of(s.as_str());
                    put_padded(&mut text, &cell, WIDE);
                },
                WordType::Type(_) => {},
            }
            assert(text@ =~= before + row_cells(values, i + 1));
            i += 1;
        }
        text.push('\n');
        assert(text@ =~= head + row_lines(rows, r + 1));
        r += 1;
    }
    text
}

} // verus!
