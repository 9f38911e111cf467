//! The binary form of rows: fields of fixed width, one after the other, with
//! no header. An integer takes 4 bytes in the byte order that the caller
//! names; a text takes 50 bytes, its UTF-8 bytes first and zero bytes after.

use vstd::prelude::*;
use vstd::slice::slice_subrange;
use vstd::utf8::{decode_utf8, encode_utf8, valid_utf8};
use crate::model::{row_fits, ColView, DataType, Row, TableSchema, Value, WordType};

verus! {

/// The order in which the bytes of an integer are stored.
#[derive(Debug, Clone, Copy, PartialEq, Eq, Structural)]
pub enum ByteOrder {
    /// Least significant byte first.
    Little,
    /// Most significant byte first.
    Big,
}

/// Why stored rows were refused.
#[derive(Debug, Clone, Copy, PartialEq, Eq, Structural)]
pub enum CodecError {
    /// The bytes are not a whole number of rows.
    TruncatedFile,
}

/// The width of a stored integer, in bytes.
pub const INT_WIDTH: usize = 4;

/// The width of a stored text, in bytes.
pub const TEXT_WIDTH: usize = 50;

/// The four bytes of the two's complement form of `x`, least significant first.
pub open spec fn le_bytes(x: i32) -> Seq<u8> {
    let u = x as u32;
    seq![
        (u & 0xff) as u8,
        ((u >> 8) & 0xff) as u8,
        ((u >> 16) & 0xff) as u8,
        ((u >> 24) & 0xff) as u8,
    ]
}

/// The stored form of an integer.
pub open spec fn int_bytes(x: i32, order: ByteOrder) -> Seq<u8> {
    let le = le_bytes(x);
    match order {
        ByteOrder::Little => le,
        ByteOrder::Big => seq![le[3], le[2], le[1], le[0]],
    }
}

/// The integer whose two's complement form is the four bytes, least
/// significant first.
pub open spec fn int_from_le(b0: u8, b1: u8, b2: u8, b3: u8) -> i32 {
    ((b0 as u32) | ((b1 as u32) << 8) | ((b2 as u32) << 16) | ((b3 as u32) << 24)) as i32
}

/// The integer that four stored bytes hold.
pub open spec fn int_from_bytes(b: Seq<u8>, order: ByteOrder) -> i32 {
    match order {
        ByteOrder::Little => int_from_le(b[0], b[1], b[2], b[3]),
        ByteOrder::Big => int_from_le(b[3], b[2], b[1], b[0]),
    }
}

/// Reading the stored form of an integer gives the integer back.
pub proof fn lemma_int_round_trip(x: i32, order: ByteOrder)
    ensures
        int_bytes(x, order).len() == 4,
        int_from_bytes(int_bytes(x, order), order) == x,
{
    let u = x as u32;
    let b0 = (u & 0xff) as u8;
    let b1 = ((u >> 8) & 0xff) as u8;
    let b2 = ((u >> 16) & 0xff) as u8;
    let b3 = ((u >> 24) & 0xff) as u8;
    assert(((b0 as u32) | ((b1 as u32) << 8) | ((b2 as u32) << 16) | ((b3 as u32) << 24)) == u)
        by (bit_vector)
        requires
            b0 == (u & 0xff) as u8,
            b1 == ((u >> 8) & 0xff) as u8,
            b2 == ((u >> 16) & 0xff) as u8,
            b3 == ((u >> 24) & 0xff) as u8,
    ;
    assert((u as i32) == x) by (bit_vector)
        requires
            u == x as u32,
    ;
}

/// Storing the integer that four bytes hold gives the four bytes back.
pub proof fn lemma_bytes_round_trip(b: Seq<u8>, order: ByteOrder)
    requires
        b.len() == 4,
    ensures
        int_bytes(int_from_bytes(b, order), order) == b,
{
    let (b0, b1, b2, b3) = match order {
        ByteOrder::Little => (b[0], b[1], b[2], b[3]),
        ByteOrder::Big => (b[3], b[2], b[1], b[0]),
    };
    let w = (b0 as u32) | ((b1 as u32) << 8) | ((b2 as u32) << 16) | ((b3 as u32) << 24);
    let x = w as i32;
    let u = x as u32;
    assert(u == w) by (bit_vector)
        requires
            x == w as i32,
            u == x as u32,
    ;
    assert((u & 0xff) as u8 == b0 && ((u >> 8) & 0xff) as u8 == b1 && ((u >> 16) & 0xff) as u8
        == b2 && ((u >> 24) & 0xff) as u8 == b3) by (bit_vector)
        requires
            u == (b0 as u32) | ((b1 as u32) << 8) | ((b2 as u32) << 16) | ((b3 as u32) << 24),
    ;
    assert(int_bytes(x, order) =~= b);
}

/// Appends the stored form of `x` to `out`.
fn put_int(out: &mut Vec<u8>, x: i32, order: ByteOrder)
    ensures
        final(out)@ == old(out)@ + int_bytes(x, order),
{
    let u: u32 = #[verifier::truncate] (x as u32);
    let b0: u8 = #[verifier::truncate] ((u & 0xff) as u8);
    let b1: u8 = #[verifier::truncate] (((u >> 8) & 0xff) as u8);
    let b2: u8 = #[verifier::truncate] (((u >> 16) & 0xff) as u8);
    let b3: u8 = #[verifier::truncate] (((u >> 24) & 0xff) as u8);
    match order {
        ByteOrder::Little => {
            out.push(b0);
            out.push(b1);
            out.push(b2);
            out.push(b3);
        },
        ByteOrder::Big => {
            out.push(b3);
            out.push(b2);
            out.push(b1);
            out.push(b0);
        },
    }
    assert(out@ =~= old(out)@ + int_bytes(x, order));
}

/// Reads the integer stored in `bytes[at..at + 4]`.
fn get_int(bytes: &[u8], at: usize, order: ByteOrder) -> (x: i32)
    requires
        at + 4 <= bytes.len(),
    ensures
        x == int_from_bytes(bytes@.subrange(at as int, at + 4), order),
{
    let ghost field = bytes@.subrange(at as int, at + 4);
    assert(field[0] == bytes[at as int] && field[1] == bytes[at + 1] && field[2] == bytes[at + 2]
        && field[3] == bytes[at + 3]);
    let (b0, b1, b2, b3) = match order {
        ByteOrder::Little => (bytes[at], bytes[at + 1], bytes[at + 2], bytes[at + 3]),
        ByteOrder::Big => (bytes[at + 3], bytes[at + 2], bytes[at + 1], bytes[at]),
    };
    let u: u32 = (b0 as u32) | ((b1 as u32) << 8) | ((b2 as u32) << 16) | ((b3 as u32) << 24);
    #[verifier::truncate]
    (u as i32)
}

/// The stored form of a text: the first 50 bytes of its UTF-8 form, then
/// zero bytes up to the width of 50.
pub open spec fn text_field(s: Seq<char>) -> Seq<u8> {
    let bytes = encode_utf8(s);
    let n = if bytes.len() < 50 {
        bytes.len() as int
    } else {
        50
    };
    bytes.take(n) + Seq::new((50 - n) as nat, |i: int| 0u8)
}

/// Tells whether storing `text` cuts it: whether it takes more than 50 bytes.
pub fn text_is_cut(text: &String) -> (cut: bool)
    ensures
        cut == (encode_utf8(text@).len() > 50),
{
    text.as_str().as_bytes().len() > TEXT_WIDTH
}

/// Appends the stored form of `s` to `out`.
fn put_text(out: &mut Vec<u8>, s: &String)
    ensures
        final(out)@ == old(out)@ + text_field(s@),
{
    let bytes = s.as_str().as_bytes();
    let n: usize = if bytes.len() < TEXT_WIDTH {
        bytes.len()
    } else {
        TEXT_WIDTH
    };
    let ghost before = out@;
    let mut i: usize = 0;
    while i < TEXT_WIDTH
        invariant
            i <= TEXT_WIDTH,
            n <= TEXT_WIDTH,
            n <= bytes.len(),
            bytes@ == encode_utf8(s@),
            out@.len() == before.len() + i,
            forall|k: int| 0 <= k < before.len() ==> out@[k] == before[k],
            forall|k: int| 0 <= k < i ==> out@[before.len() + k] == text_field(s@)[k],
            n == if bytes@.len() < 50 { bytes@.len() as int } else { 50 },
        decreases TEXT_WIDTH - i,
    {
        if i < n {
            out.push(bytes[i]);
        } else {
            out.push(0);
        }
        i += 1;
    }
    assert(out@ =~= before + text_field(s@));
}

/// What `String::from_utf8_lossy` makes of bytes that are no UTF-8: the
/// text in which each ill-formed run is replaced by U+FFFD.
pub uninterp spec fn lossy_text(bytes: Seq<u8>) -> Seq<char>;

/// The text that stored bytes are read as: the text they encode where they
/// are UTF-8, else the text with replacement characters.
pub open spec fn text_of_bytes(bytes: Seq<u8>) -> Seq<char> {
    if valid_utf8(bytes) {
        decode_utf8(bytes)
    } else {
        lossy_text(bytes)
    }
}

/// `String::from_utf8_lossy`: bytes that are UTF-8 come back as the text
/// they encode; of other bytes the result is a function of the bytes alone.
#[verifier::external_body]
fn string_from_utf8_lossy(bytes: &[u8]) -> (s: String)
    ensures
        valid_utf8(bytes@) ==> s@ == decode_utf8(bytes@),
        !valid_utf8(bytes@) ==> s@ == lossy_text(bytes@),
{
    String::from_utf8_lossy(bytes).into_owned()
}

/// The first position at or after `i` that holds a zero byte, or the length.
pub open spec fn zero_position(field: Seq<u8>, i: int) -> int
    decreases field.len() - i,
{
    if 0 <= i < field.len() && field[i] != 0 {
        zero_position(field, i + 1)
    } else {
        i
    }
}

/// The bytes of a stored text: those before its first zero byte.
pub open spec fn text_bytes(field: Seq<u8>) -> Seq<u8> {
    field.take(zero_position(field, 0))
}

/// Where a search for a zero byte ends.
pub proof fn lemma_zero_position(field: Seq<u8>, i: int)
    requires
        0 <= i <= field.len(),
    ensures
        i <= zero_position(field, i) <= field.len(),
        zero_position(field, i) < field.len() ==> field[zero_position(field, i)] == 0,
        forall|k: int| i <= k < zero_position(field, i) ==> field[k] != 0,
    decreases field.len() - i,
{
    if i < field.len() && field[i] != 0 {
        lemma_zero_position(field, i + 1);
    }
}

/// Reads the text stored in `bytes[at..at + 50]`.
fn get_text(bytes: &[u8], at: usize) -> (s: String)
    requires
        at + 50 <= bytes.len(),
    ensures
        s@ == text_of_bytes(text_bytes(bytes@.subrange(at as int, at + 50))),
{
    let ghost field = bytes@.subrange(at as int, at + 50);
    let mut end: usize = at;
    while end < at + TEXT_WIDTH && bytes[end] != 0
        invariant
            at <= end <= at + 50 <= bytes.len(),
            field == bytes@.subrange(at as int, at + 50),
            zero_position(field, 0) == zero_position(field, end - at),
        decreases at + 50 - end,
    {
        assert(field[end - at] == bytes[end as int]);
        end += 1;
    }
    proof {
        if end < at + 50 {
            assert(field[end - at] == bytes[end as int]);
        }
        assert(bytes@.subrange(at as int, end as int) =~= field.take(end - at));
    }
    string_from_utf8_lossy(slice_subrange(bytes, at, end))
}

/// The stored form of a value. A type name has none.
pub open spec fn value_bytes(v: Value, order: ByteOrder) -> Seq<u8> {
    match v {
        Value::Int(x) => int_bytes(x, order),
        Value::Text(s) => text_field(s),
        Value::Type(_) => Seq::empty(),
    }
}

/// The stored form of the first `n` values of a row.
pub open spec fn fields_bytes(row: Seq<Value>, n: int, order: ByteOrder) -> Seq<u8>
    decreases n,
{
    if n <= 0 {
        Seq::empty()
    } else {
        fields_bytes(row, n - 1, order) + value_bytes(row[n - 1], order)
    }
}

/// The stored form of a row: its fields, one after the other.
pub open spec fn row_bytes(row: Seq<Value>, order: ByteOrder) -> Seq<u8> {
    fields_bytes(row, row.len() as int, order)
}

/// The stored form of the first `n` rows.
pub open spec fn rows_bytes(rows: Seq<Seq<Value>>, n: int, order: ByteOrder) -> Seq<u8>
    decreases n,
{
    if n <= 0 {
        Seq::empty()
    } else {
        rows_bytes(rows, n - 1, order) + row_bytes(rows[n - 1], order)
    }
}

/// The stored form of a table's rows: the rows, one after the other.
pub open spec fn table_bytes(rows: Seq<Seq<Value>>, order: ByteOrder) -> Seq<u8> {
    rows_bytes(rows, rows.len() as int, order)
}

/// A row that can be stored: it holds integers and texts only.
pub open spec fn row_storable(row: Seq<Value>) -> bool {
    forall|i: int| 0 <= i < row.len() ==> !(#[trigger] row[i] is Type)
}

/// Appends the stored form of `row` to `out`.
fn put_row(out: &mut Vec<u8>, row: &Row, order: ByteOrder)
    requires
        row_storable(row.deep_view()),
    ensures
        final(out)@ == old(out)@ + row_bytes(row.deep_view(), order),
{
    let ghost before = out@;
    let ghost values = row.deep_view();
    let mut i: usize = 0;
    assert(out@ =~= before + fields_bytes(values, 0, order));
    while i < row.len()
        invariant
            i <= row.len(),
            values == row.deep_view(),
            row_storable(values),
            out@ == before + fields_bytes(values, i as int, order),
        decreases row.len() - i,
    {
        assert(values[i as int] == row[i as int]@);
        let ghost so_far = out@;
        match &row[i] {
            WordType::Int(x) => put_int(out, *x, order),
            WordType::Str(s) => put_text(out, s),
            WordType::Type(_) => {},
        }
        assert(out@ =~= before + fields_bytes(values, i + 1, order));
        i += 1;
    }
}

/// Encodes a row in its stored form. A text longer than 50 bytes is cut
/// after its 50th byte.
pub fn encode_row(row: &Row, order: ByteOrder) -> (bytes: Vec<u8>)
    requires
        row_storable(row.deep_view()),
    ensures
        bytes@ == row_bytes(row.deep_view(), order),
{
    let mut bytes: Vec<u8> = Vec::new();
    put_row(&mut bytes, row, order);
    assert(bytes@ =~= row_bytes(row.deep_view(), order));
    bytes
}

/// Encodes the rows of a table, in their order, as the table's row file
/// holds them.
pub fn encode_rows(rows: &Vec<Row>, order: ByteOrder) -> (bytes: Vec<u8>)
    requires
        forall|r: int| 0 <= r < rows.len() ==> row_storable(#[trigger] rows.deep_view()[r]),
    ensures
        bytes@ == table_bytes(rows.deep_view(), order),
{
    let mut bytes: Vec<u8> = Vec::new();
    let ghost all = rows.deep_view();
    let mut r: usize = 0;
    assert(bytes@ =~= rows_bytes(all, 0, order));
    while r < rows.len()
        invariant
            r <= rows.len(),
            all == rows.deep_view(),
            forall|k: int| 0 <= k < rows.len() ==> row_storable(#[trigger] all[k]),
            bytes@ == rows_bytes(all, r as int, order),
        decreases rows.len() - r,
    {
        assert(all[r as int] == rows[r as int].deep_view());
        put_row(&mut bytes, &rows[r], order);
        r += 1;
    }
    bytes
}

/// The number of bytes that a stored field of type `t` takes. Type names
/// are not stored.
pub open spec fn field_width(t: DataType) -> int {
    match t {
        DataType::Int => 4,
        DataType::Str => 50,
        DataType::Type => 0,
    }
}

/// The number of bytes that the first `n` fields of a row take.
pub open spec fn fields_width(cols: Seq<ColView>, n: int) -> int
    decreases n,
{
    if n <= 0 {
        0
    } else {
        fields_width(cols, n - 1) + field_width(cols[n - 1].data_type)
    }
}

/// The number of bytes that a stored row takes.
pub open spec fn row_width(cols: Seq<ColView>) -> int {
    fields_width(cols, cols.len() as int)
}

/// Columns whose rows can be stored: at least one column, and none that
/// holds type names.
pub open spec fn storable(cols: Seq<ColView>) -> bool {
    &&& cols.len() > 0
    &&& forall|i: int| 0 <= i < cols.len() ==> (#[trigger] cols[i]).data_type != DataType::Type
}

/// The value that a stored field of type `t` holds.
pub open spec fn decoded_value(t: DataType, field: Seq<u8>, order: ByteOrder) -> Value {
    match t {
        DataType::Int => Value::Int(int_from_bytes(field, order)),
        DataType::Str => Value::Text(text_of_bytes(text_bytes(field))),
        DataType::Type => Value::Type(DataType::Type),
    }
}

/// The bytes of field `i` in a stored row.
pub open spec fn field_of(cols: Seq<ColView>, row: Seq<u8>, i: int) -> Seq<u8> {
    row.subrange(fields_width(cols, i), fields_width(cols, i + 1))
}

/// The row that the bytes of one stored row hold.
pub open spec fn decoded_row(cols: Seq<ColView>, row: Seq<u8>, order: ByteOrder) -> Seq<Value> {
    Seq::new(cols.len(), |i: int| decoded_value(cols[i].data_type, field_of(cols, row, i), order))
}

/// The rows that stored bytes hold, one for each full row width.
pub open spec fn decoded_rows(bytes: Seq<u8>, cols: Seq<ColView>, order: ByteOrder) -> Seq<
    Seq<Value>,
> {
    let w = row_width(cols);
    Seq::new((bytes.len() as int / w) as nat, |r: int| decoded_row(cols, bytes.subrange(r * w, r * w + w), order))
}

/// Widths grow with the number of fields, by at most 50 a field.
pub proof fn lemma_fields_width(cols: Seq<ColView>, n: int, m: int)
    requires
        0 <= n <= m <= cols.len(),
    ensures
        0 <= fields_width(cols, n) <= fields_width(cols, m) <= 50 * m,
        storable(cols) ==> fields_width(cols, m) >= 4 * m,
    decreases m,
{
    if m > 0 {
        if n < m {
            lemma_fields_width(cols, n, m - 1);
        } else {
            lemma_fields_width(cols, n - 1, m - 1);
        }
    }
}

/// Computes the number of bytes that a stored row takes.
pub fn row_width_of(schema: &TableSchema) -> (w: usize)
    requires
        row_width(schema@.cols) <= usize::MAX,
    ensures
        w == row_width(schema@.cols),
{
    let ghost cols = schema@.cols;
    let mut w: usize = 0;
    let mut i: usize = 0;
    while i < schema.cols.len()
        invariant
            i <= schema.cols.len(),
            cols == schema@.cols,
            row_width(cols) <= usize::MAX,
            w == fields_width(cols, i as int),
        decreases schema.cols.len() - i,
    {
        assert(cols[i as int] == schema.cols[i as int]@);
        proof {
            lemma_fields_width(cols, i + 1, cols.len() as int);
        }
        let width: usize = match schema.cols[i].data_type {
            DataType::Int => INT_WIDTH,
            DataType::Str => TEXT_WIDTH,
            DataType::Type => 0,
        };
        w = w + width;
        i += 1;
    }
    w
}

/// Reads the row stored in `bytes[at..at + w]`, where `w` is the row width.
fn get_row(bytes: &[u8], at: usize, schema: &TableSchema, order: ByteOrder) -> (row: Row)
    requires
        storable(schema@.cols),
        at + row_width(schema@.cols) <= bytes.len(),
    ensures
        row.deep_view() == decoded_row(
            schema@.cols,
            bytes@.subrange(at as int, at + row_width(schema@.cols)),
            order,
        ),
        row_fits(row.deep_view(), schema@.cols),
{
    let ghost cols = schema@.cols;
    let ghost stored = bytes@.subrange(at as int, at + row_width(cols));
    let mut row: Row = Vec::new();
    let mut off: usize = at;
    let mut i: usize = 0;
    while i < schema.cols.len()
        invariant
            i <= schema.cols.len(),
            cols == schema@.cols,
            storable(cols),
            at + row_width(cols) <= bytes.len(),
            stored == bytes@.subrange(at as int, at + row_width(cols)),
            off == at + fields_width(cols, i as int),
            row.len() == i,
            forall|k: int|
                0 <= k < i ==> #[trigger] row.deep_view()[k] == decoded_value(
                    cols[k].data_type,
                    field_of(cols, stored, k),
                    order,
                ),
        decreases schema.cols.len() - i,
    {
        assert(cols[i as int] == schema.cols[i as int]@);
        proof {
            lemma_fields_width(cols, i + 1, cols.len() as int);
            lemma_fields_width(cols, i as int, i + 1);
        }
        let ghost before = row.deep_view();
        let ghost field = field_of(cols, stored, i as int);
        let value = match schema.cols[i].data_type {
            DataType::Int => {
                assert(bytes@.subrange(off as int, off + 4) =~= field);
                let x = get_int(bytes, off, order);
                off = off + INT_WIDTH;
                WordType::Int(x)
            },
            DataType::Str => {
                assert(bytes@.subrange(off as int, off + 50) =~= field);
                let s = get_text(bytes, off);
                off = off + TEXT_WIDTH;
                WordType::Str(s)
            },
            DataType::Type => WordType::Type(DataType::Type),
        };
        let ghost view = value@;
        row.push(value);
        proof {
            assert(row.deep_view() =~= before.push(view));
            assert forall|k: int| 0 <= k < i + 1 implies #[trigger] row.deep_view()[k]
                == decoded_value(cols[k].data_type, field_of(cols, stored, k), order) by {
                if k < i {
                    assert(row.deep_view()[k] == before[k]);
                }
            }
        }
        i += 1;
    }
    proof {
        assert(row.deep_view() =~= decoded_row(cols, stored, order));
        assert forall|k: int| 0 <= k < row.len() implies crate::model::value_matches_type(
            row.deep_view()[k],
            #[trigger] cols[k].data_type,
        ) by {
            assert(row.deep_view()[k] == decoded_value(
                cols[k].data_type,
                field_of(cols, stored, k),
                order,
            ));
        }
    }
    row
}

/// Decodes the rows that a table's row file holds.
///
/// Fails, with `TruncatedFile`, exactly when the number of bytes is no
/// multiple of the row width. The schema must be one whose rows can be
/// stored, so that the row width is not zero.
#[verifier::spinoff_prover]
pub fn decode_rows(bytes: &[u8], schema: &TableSchema, order: ByteOrder) -> (r: Result<
    Vec<Row>,
    CodecError,
>)
    requires
        storable(schema@.cols),
        row_width(schema@.cols) <= usize::MAX,
    ensures
        bytes.len() as int % row_width(schema@.cols) != 0 ==> r == Err::<Vec<Row>, CodecError>(
            CodecError::TruncatedFile,
        ),
        bytes.len() as int % row_width(schema@.cols) == 0 ==> r is Ok,
        r matches Ok(rows) ==> rows.deep_view() == decoded_rows(bytes@, schema@.cols, order),
        r matches Ok(rows) ==> forall|k: int|
            0 <= k < rows.len() ==> row_fits(#[trigger] rows.deep_view()[k], schema@.cols),
{
    let ghost cols = schema@.cols;
    proof {
        lemma_fields_width(cols, 0, cols.len() as int);
    }
    let w = row_width_of(schema);
    if bytes.len() % w != 0 {
        return Err(CodecError::TruncatedFile);
    }
    let count: usize = bytes.len() / w;
    proof {
        vstd::arithmetic::div_mod::lemma_fundamental_div_mod(bytes.len() as int, w as int);
    }
    let mut rows: Vec<Row> = Vec::new();
    let mut at: usize = 0;
    let mut r: usize = 0;
    while r < count
        invariant
            r <= count,
            cols == schema@.cols,
            storable(cols),
            w == row_width(cols),
            w > 0,
            bytes.len() == w * count,
            at == r * w,
            rows.len() == r,
            forall|k: int|
                0 <= k < r ==> #[trigger] rows.deep_view()[k] == decoded_row(
                    cols,
                    bytes@.subrange(k * w, k * w + w),
                    order,
                ) && row_fits(rows.deep_view()[k], cols),
        decreases count - r,
    {
        proof {
            assert(r * w + w <= w * count) by (nonlinear_arith)
                requires
                    r < count,
                    w > 0,
            ;
        }
        let ghost before = rows.deep_view();
        let row = get_row(bytes, at, schema, order);
        let ghost view = row.deep_view();
        rows.push(row);
        proof {
            assert(rows.deep_view() =~= before.push(view));
            assert forall|k: int| 0 <= k < r + 1 implies #[trigger] rows.deep_view()[k]
                == decoded_row(cols, bytes@.subrange(k * w, k * w + w), order) && row_fits(
                rows.deep_view()[k],
                cols,
            ) by {
                if k < r {
                    assert(rows.deep_view()[k] == before[k]);
                }
            }
            assert((r + 1) * w == r * w + w) by (nonlinear_arith);
        }
        at = at + w;
        r += 1;
    }
    proof {
        assert(bytes.len() as int / (w as int) == count) by (nonlinear_arith)
            requires
                bytes.len() == w * count,
                w > 0,
        ;
        assert(rows.deep_view() =~= decoded_rows(bytes@, cols, order));
    }
    Ok(rows)
}

/// A text that its stored form gives back: at most 50 bytes of UTF-8, none
/// of them zero.
pub open spec fn text_storable(s: Seq<char>) -> bool {
    &&& encode_utf8(s).len() <= 50
    &&& forall|k: int| 0 <= k < encode_utf8(s).len() ==> encode_utf8(s)[k] != 0
}

/// A row that its stored form gives back: integers, and texts that their
/// stored form gives back.
pub open spec fn row_restorable(row: Seq<Value>) -> bool {
    forall|i: int|
        0 <= i < row.len() ==> match #[trigger] row[i] {
            Value::Int(_) => true,
            Value::Text(s) => text_storable(s),
            Value::Type(_) => false,
        }
}

/// Reading the stored form of a text gives the text back.
pub proof fn lemma_text_round_trip(s: Seq<char>)
    requires
        text_storable(s),
    ensures
        text_field(s).len() == 50,
        text_of_bytes(text_bytes(text_field(s))) == s,
{
    let bytes = encode_utf8(s);
    let field = text_field(s);
    let n = bytes.len() as int;
    assert(bytes.take(n) =~= bytes);
    lemma_zero_position(field, 0);
    let z = zero_position(field, 0);
    assert(z == n) by {
        if z < n {
            assert(field[z] == bytes[z]);
        }
        if z > n {
            assert(field[n] == 0);
        }
    }
    assert(text_bytes(field) =~= bytes);
    vstd::utf8::encode_utf8_valid_utf8(s);
    vstd::utf8::encode_utf8_decode_utf8(s);
}

/// Reading the stored form of a value as its own type gives the value back.
pub proof fn lemma_value_round_trip(v: Value, order: ByteOrder)
    requires
        v matches Value::Text(s) ==> text_storable(s),
        !(v is Type),
    ensures
        value_bytes(v, order).len() == field_width(crate::model::value_type(v)),
        decoded_value(crate::model::value_type(v), value_bytes(v, order), order) == v,
{
    match v {
        Value::Int(x) => {
            lemma_int_round_trip(x, order);
        },
        Value::Text(s) => {
            lemma_text_round_trip(s);
        },
        Value::Type(_) => {},
    }
}

/// Where the fields of a stored row lie: field `i` holds the stored form
/// of the row's value `i`.
#[verifier::spinoff_prover]
pub proof fn lemma_fields_layout(row: Seq<Value>, cols: Seq<ColView>, order: ByteOrder, n: int)
    requires
        row_fits(row, cols),
        row_restorable(row),
        0 <= n <= row.len(),
    ensures
        fields_bytes(row, n, order).len() == fields_width(cols, n),
        forall|i: int|
            0 <= i < n ==> #[trigger] field_of(cols, fields_bytes(row, n, order), i) == value_bytes(
                row[i],
                order,
            ),
    decreases n,
{
    if n > 0 {
        lemma_fields_layout(row, cols, order, n - 1);
        let shorter = fields_bytes(row, n - 1, order);
        let whole = fields_bytes(row, n, order);
        let v = row[n - 1];
        assert(crate::model::value_matches_type(v, cols[n - 1].data_type));
        lemma_value_round_trip(v, order);
        assert forall|i: int| 0 <= i < n implies #[trigger] field_of(cols, whole, i) == value_bytes(
            row[i],
            order,
        ) by {
            lemma_fields_width(cols, i, i + 1);
            lemma_fields_width(cols, i + 1, n);
            if i < n - 1 {
                lemma_fields_width(cols, i + 1, n - 1);
                assert(field_of(cols, whole, i) =~= field_of(cols, shorter, i));
            } else {
                assert(field_of(cols, whole, i) =~= value_bytes(v, order));
            }
        }
    }
}

/// Reading the stored form of a row gives the row back.
pub proof fn lemma_stored_row(row: Seq<Value>, cols: Seq<ColView>, order: ByteOrder)
    requires
        row_fits(row, cols),
        row_restorable(row),
    ensures
        row_bytes(row, order).len() == row_width(cols),
        decoded_row(cols, row_bytes(row, order), order) == row,
{
    lemma_fields_layout(row, cols, order, row.len() as int);
    let stored = row_bytes(row, order);
    assert forall|i: int| 0 <= i < row.len() implies decoded_row(cols, stored, order)[i]
        == row[i] by {
        assert(field_of(cols, stored, i) == value_bytes(row[i], order));
        assert(crate::model::value_matches_type(row[i], cols[i].data_type));
        lemma_value_round_trip(row[i], order);
    }
    assert(decoded_row(cols, stored, order) =~= row);
}

/// Where row `r` of `n` rows of width `w` starts and ends.
proof fn lemma_row_bounds(r: int, n: int, w: int)
    requires
        0 <= r < n,
        0 <= w,
    ensures
        0 <= r * w,
        r * w + w == (r + 1) * w,
        (r + 1) * w <= n * w,
{
    assert(0 <= r * w && r * w + w == (r + 1) * w && (r + 1) * w <= n * w) by (nonlinear_arith)
        requires
            0 <= r < n,
            0 <= w,
    ;
}

/// Where the rows of a stored table lie: row `r` takes the bytes from
/// `r * w` on, where `w` is the row width.
#[verifier::spinoff_prover]
pub proof fn lemma_rows_layout(rows: Seq<Seq<Value>>, cols: Seq<ColView>, order: ByteOrder, n: int)
    requires
        forall|r: int| 0 <= r < rows.len() ==> row_fits(#[trigger] rows[r], cols),
        forall|r: int| 0 <= r < rows.len() ==> row_restorable(#[trigger] rows[r]),
        0 <= n <= rows.len(),
    ensures
        rows_bytes(rows, n, order).len() == n * row_width(cols),
        forall|r: int|
            0 <= r < n ==> #[trigger] rows_bytes(rows, n, order).subrange(
                r * row_width(cols),
                r * row_width(cols) + row_width(cols),
            ) == row_bytes(rows[r], order),
    decreases n,
{
    let w = row_width(cols);
    lemma_fields_width(cols, 0, cols.len() as int);
    if n > 0 {
        lemma_rows_layout(rows, cols, order, n - 1);
        let shorter = rows_bytes(rows, n - 1, order);
        let last = row_bytes(rows[n - 1], order);
        let whole = rows_bytes(rows, n, order);
        lemma_stored_row(rows[n - 1], cols, order);
        lemma_row_bounds(n - 1, n, w);
        assert(whole == shorter + last);
        assert(shorter.len() == (n - 1) * w);
        assert(last.len() == w);
        assert forall|r: int| 0 <= r < n implies #[trigger] whole.subrange(r * w, r * w + w)
            == row_bytes(rows[r], order) by {
            let from = r * w;
            if r < n - 1 {
                lemma_row_bounds(r, n - 1, w);
                assert(0 <= from && from + w <= shorter.len());
                assert(whole.subrange(from, from + w) =~= shorter.subrange(from, from + w));
            } else {
                assert(from == shorter.len());
                assert(whole.subrange(from, from + w) =~= last);
            }
        }
    } else {
        assert(0 * w == 0);
    }
}

/// Decoding the stored form of rows gives the rows back: for all rows that
/// fit storable columns and whose texts take at most 50 bytes and hold no
/// zero byte, the stored form is a whole number of row widths and decodes
/// to the same rows in the same order.
#[verifier::spinoff_prover]
pub proof fn lemma_rows_round_trip(rows: Seq<Seq<Value>>, cols: Seq<ColView>, order: ByteOrder)
    requires
        storable(cols),
        forall|r: int| 0 <= r < rows.len() ==> row_fits(#[trigger] rows[r], cols),
        forall|r: int| 0 <= r < rows.len() ==> row_restorable(#[trigger] rows[r]),
    ensures
        table_bytes(rows, order).len() == rows.len() * row_width(cols),
        table_bytes(rows, order).len() as int % row_width(cols) == 0,
        decoded_rows(table_bytes(rows, order), cols, order) == rows,
{
    let w = row_width(cols);
    let n = rows.len() as int;
    let stored = table_bytes(rows, order);
    lemma_rows_layout(rows, cols, order, n);
    lemma_fields_width(cols, 0, cols.len() as int);
    assert(w > 0);
    assert((n * w) / w == n && (n * w) % w == 0) by (nonlinear_arith)
        requires
            w > 0,
            n >= 0,
    ;
    assert forall|r: int| 0 <= r < n implies decoded_rows(stored, cols, order)[r] == rows[r] by {
        assert(stored.subrange(r * w, r * w + w) == row_bytes(rows[r], order));
        lemma_stored_row(rows[r], cols, order);
    }
    assert(decoded_rows(stored, cols, order) =~= rows);
}

/// Decoding one encoded row gives that row, and no other.
pub proof fn lemma_row_round_trip(row: Seq<Value>, cols: Seq<ColView>, order: ByteOrder)
    requires
        storable(cols),
        row_fits(row, cols),
        row_restorable(row),
    ensures
        row_bytes(row, order).len() as int % row_width(cols) == 0,
        decoded_rows(row_bytes(row, order), cols, order) == seq![row],
{
    let rows = seq![row];
    assert(rows[0] == row);
    lemma_rows_round_trip(rows, cols, order);
    assert(rows_bytes(rows, 0, order) + row_bytes(row, order) =~= row_bytes(row, order));
    assert(table_bytes(rows, order) == rows_bytes(rows, 0, order) + row_bytes(rows[0], order));
}

/// A stored text that encoding gives back: UTF-8 before its first zero
/// byte, and only zero bytes from there on.
pub open spec fn field_stable(field: Seq<u8>) -> bool {
    &&& field.len() == 50
    &&& valid_utf8(text_bytes(field))
    &&& forall|k: int| zero_position(field, 0) <= k < field.len() ==> field[k] == 0
}

/// Stored rows that encoding gives back: a whole number of rows, and every
/// stored text stable.
pub open spec fn bytes_stable(bytes: Seq<u8>, cols: Seq<ColView>) -> bool {
    let w = row_width(cols);
    &&& bytes.len() as int % w == 0
    &&& forall|r: int, i: int|
        0 <= r < bytes.len() as int / w && 0 <= i < cols.len() && cols[i].data_type
            == DataType::Str ==> field_stable(
            #[trigger] field_of(cols, bytes.subrange(r * w, r * w + w), i),
        )
}

/// Storing the text that a stable field holds gives the field back.
pub proof fn lemma_field_stable(field: Seq<u8>)
    requires
        field_stable(field),
    ensures
        text_field(text_of_bytes(text_bytes(field))) == field,
{
    lemma_zero_position(field, 0);
    let bytes = text_bytes(field);
    vstd::utf8::decode_utf8_encode_utf8(bytes);
    assert(bytes.take(bytes.len() as int) =~= bytes);
    assert(text_field(decode_utf8(bytes)) =~= field);
}

#[verifier::spinoff_prover]
proof fn lemma_decoded_fields(cols: Seq<ColView>, row: Seq<u8>, order: ByteOrder, n: int)
    requires
        storable(cols),
        row.len() == row_width(cols),
        0 <= n <= cols.len(),
        forall|i: int|
            0 <= i < cols.len() && cols[i].data_type == DataType::Str ==> field_stable(
                #[trigger] field_of(cols, row, i),
            ),
    ensures
        fields_bytes(decoded_row(cols, row, order), n, order) == row.take(fields_width(cols, n)),
    decreases n,
{
    lemma_fields_width(cols, n, cols.len() as int);
    if n == 0 {
        assert(row.take(0) =~= Seq::<u8>::empty());
    } else {
        lemma_decoded_fields(cols, row, order, n - 1);
        lemma_fields_width(cols, n - 1, n);
        let field = field_of(cols, row, n - 1);
        let value = decoded_row(cols, row, order)[n - 1];
        assert(value == decoded_value(cols[n - 1].data_type, field, order));
        match cols[n - 1].data_type {
            DataType::Int => {
                lemma_bytes_round_trip(field, order);
            },
            DataType::Str => {
                lemma_field_stable(field);
            },
            DataType::Type => {},
        }
        assert(value_bytes(value, order) == field);
        assert(row.take(fields_width(cols, n - 1)) + field =~= row.take(fields_width(cols, n)));
    }
}

#[verifier::spinoff_prover]
proof fn lemma_decoded_rows(bytes: Seq<u8>, cols: Seq<ColView>, order: ByteOrder, n: int)
    requires
        storable(cols),
        bytes_stable(bytes, cols),
        0 <= n <= bytes.len() as int / row_width(cols),
    ensures
        n * row_width(cols) <= bytes.len(),
        rows_bytes(decoded_rows(bytes, cols, order), n, order) == bytes.take(n * row_width(cols)),
    decreases n,
{
    let w = row_width(cols);
    lemma_fields_width(cols, 0, cols.len() as int);
    vstd::arithmetic::div_mod::lemma_fundamental_div_mod(bytes.len() as int, w);
    let count = bytes.len() as int / w;
    if n == 0 {
        assert(0 * w == 0);
        assert(bytes.take(0) =~= Seq::<u8>::empty());
    } else {
        lemma_decoded_rows(bytes, cols, order, n - 1);
        lemma_row_bounds(n - 1, count, w);
        assert(count * w == w * count) by (nonlinear_arith);
        let from = (n - 1) * w;
        assert(from + w == n * w);
        assert(n * w <= bytes.len());
        let stored = bytes.subrange(from, from + w);
        assert forall|i: int|
            0 <= i < cols.len() && cols[i].data_type == DataType::Str implies field_stable(
            #[trigger] field_of(cols, stored, i),
        ) by {
            assert(field_stable(field_of(cols, bytes.subrange((n - 1) * w, (n - 1) * w + w), i)));
        }
        lemma_decoded_fields(cols, stored, order, cols.len() as int);
        assert(stored.take(w) =~= stored);
        assert(decoded_rows(bytes, cols, order)[n - 1] == decoded_row(cols, stored, order));
        assert(bytes.take(from) + stored =~= bytes.take(from + w));
    }
}

/// Encoding is stable: the rows decoded from stable bytes encode to the
/// same bytes.
#[verifier::spinoff_prover]
pub proof fn lemma_bytes_stable(bytes: Seq<u8>, cols: Seq<ColView>, order: ByteOrder)
    requires
        storable(cols),
        bytes_stable(bytes, cols),
    ensures
        table_bytes(decoded_rows(bytes, cols, order), order) == bytes,
{
    let w = row_width(cols);
    let count = bytes.len() as int / w;
    lemma_fields_width(cols, 0, cols.len() as int);
    vstd::arithmetic::div_mod::lemma_fundamental_div_mod(bytes.len() as int, w);
    assert(count >= 0) by (nonlinear_arith)
        requires
            bytes.len() == w * count,
            w > 0,
            bytes.len() >= 0,
    ;
    lemma_decoded_rows(bytes, cols, order, count);
    assert(count * w == w * count) by (nonlinear_arith);
    assert(bytes.take(count * w) =~= bytes);
}

} // verus!
