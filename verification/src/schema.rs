//! The text form of a table schema: the table's name on the first line, then
//! one line `name:Type` for each column, in column order.

use vstd::prelude::*;
use crate::conditions::{col_index, find_col, lemma_col_index_from};
use crate::model::{
    data_type_to_string, parse_data_type_chars, spelled_type, type_spelling, Col, ColView,
    SchemaView, TableSchema,
};
use crate::text::{chars_of, is_space, skip_spaces, string_of, trim, trim_end_pos, trimmed};

verus! {

/// Why a schema text was refused.
#[derive(Debug, Clone, Copy, PartialEq, Eq, Structural)]
pub enum SchemaError {
    /// The table's name or a column's name is missing or blank.
    EmptyName,
    /// Two columns have the same name.
    DuplicateColumn,
    /// A column line holds no colon.
    MalformedLine,
    /// A column's type is none of the known type names.
    UnknownType,
}

/// The first position at or after `i` that holds `c`, or the length of `s`.
pub open spec fn position_of(s: Seq<char>, c: char, i: int) -> int
    decreases s.len() - i,
{
    if 0 <= i < s.len() && s[i] != c {
        position_of(s, c, i + 1)
    } else {
        i
    }
}

/// Where a search from `i` ends: at the first `c`, or at the end.
pub proof fn lemma_position_of(s: Seq<char>, c: char, i: int)
    requires
        0 <= i <= s.len(),
    ensures
        i <= position_of(s, c, i) <= s.len(),
        position_of(s, c, i) < s.len() ==> s[position_of(s, c, i)] == c,
        forall|k: int| i <= k < position_of(s, c, i) ==> s[k] != c,
    decreases s.len() - i,
{
    if i < s.len() && s[i] != c {
        lemma_position_of(s, c, i + 1);
    }
}

/// The lines of a text: the runs between line feeds. A line feed at the very
/// end opens no further line.
pub open spec fn lines(s: Seq<char>) -> Seq<Seq<char>>
    decreases s.len(),
{
    if s.len() == 0 {
        Seq::empty()
    } else {
        let end = position_of(s, '\n', 0);
        if end >= s.len() {
            seq![s]
        } else {
            proof {
                lemma_position_of(s, '\n', 0);
            }
            seq![s.take(end)] + lines(s.skip(end + 1))
        }
    }
}

/// The column that a line declares after the columns `earlier`: the line
/// splits at its first colon into a name and a type name, both trimmed.
pub open spec fn column_of(line: Seq<char>, earlier: Seq<ColView>) -> Result<ColView, SchemaError> {
    let colon = position_of(line, ':', 0);
    if colon >= line.len() {
        Err(SchemaError::MalformedLine)
    } else {
        let name = trim(line.take(colon));
        let spelling = trim(line.skip(colon + 1));
        if name.len() == 0 {
            Err(SchemaError::EmptyName)
        } else if col_index(earlier, name) is Some {
            Err(SchemaError::DuplicateColumn)
        } else {
            match spelled_type(spelling) {
                None => Err(SchemaError::UnknownType),
                Some(data_type) => Ok(ColView { name, data_type }),
            }
        }
    }
}

/// The columns that the first `n` lines declare; the first line that
/// declares none gives the error.
pub open spec fn columns_of(lines: Seq<Seq<char>>, n: int) -> Result<Seq<ColView>, SchemaError>
    decreases n,
{
    if n <= 0 {
        Ok(Seq::empty())
    } else {
        match columns_of(lines, n - 1) {
            Err(e) => Err(e),
            Ok(cols) => match column_of(lines[n - 1], cols) {
                Err(e) => Err(e),
                Ok(col) => Ok(cols.push(col)),
            },
        }
    }
}

/// The schema that a text declares.
pub open spec fn parse_schema(text: Seq<char>) -> Result<SchemaView, SchemaError> {
    let all = lines(text);
    if all.len() == 0 {
        Err(SchemaError::EmptyName)
    } else {
        let name = trim(all[0]);
        if name.len() == 0 {
            Err(SchemaError::EmptyName)
        } else {
            match columns_of(all.skip(1), all.len() - 1) {
                Err(e) => Err(e),
                Ok(cols) => Ok(SchemaView { name, cols }),
            }
        }
    }
}

/// The characters that a vector of lines holds.
pub open spec fn lines_view(v: Seq<Vec<char>>) -> Seq<Seq<char>> {
    Seq::new(v.len(), |i: int| v[i]@)
}

fn scan_for(v: &Vec<char>, c: char, i: usize) -> (r: usize)
    requires
        i <= v.len(),
    ensures
        r == position_of(v@, c, i as int),
        i <= r <= v.len(),
{
    let mut r: usize = i;
    while r < v.len() && v[r] != c
        invariant
            i <= r <= v.len(),
            position_of(v@, c, i as int) == position_of(v@, c, r as int),
        decreases v.len() - r,
    {
        r += 1;
    }
    r
}

fn copy_range(v: &Vec<char>, from: usize, to: usize) -> (out: Vec<char>)
    requires
        from <= to <= v.len(),
    ensures
        out@ == v@.subrange(from as int, to as int),
{
    let mut out: Vec<char> = Vec::new();
    let mut i: usize = from;
    while i < to
        invariant
            from <= i <= to <= v.len(),
            out@ == v@.subrange(from as int, i as int),
        decreases to - i,
    {
        out.push(v[i]);
        i += 1;
        assert(out@ =~= v@.subrange(from as int, i as int));
    }
    out
}

/// A search in what follows position `pos` finds what a search from `pos` finds.
proof fn lemma_position_of_skip(s: Seq<char>, c: char, pos: int, i: int)
    requires
        0 <= pos <= s.len(),
        0 <= i <= s.len() - pos,
    ensures
        position_of(s.skip(pos), c, i) + pos == position_of(s, c, pos + i),
    decreases s.len() - pos - i,
{
    if i < s.len() - pos && s[pos + i] != c {
        lemma_position_of_skip(s, c, pos, i + 1);
    }
}

fn split_lines(text: &Vec<char>) -> (out: Vec<Vec<char>>)
    ensures
        lines_view(out@) == lines(text@),
{
    let ghost s = text@;
    let mut out: Vec<Vec<char>> = Vec::new();
    let mut pos: usize = 0;
    assert(s.skip(0) =~= s);
    assert(lines_view(out@) + lines(s.skip(0)) =~= lines(s));
    while pos < text.len()
        invariant
            pos <= text.len(),
            s == text@,
            lines(s) == lines_view(out@) + lines(s.skip(pos as int)),
        decreases text.len() - pos,
    {
        let end = scan_for(text, '\n', pos);
        let line = copy_range(text, pos, end);
        let ghost before = lines_view(out@);
        let ghost rest = s.skip(pos as int);
        proof {
            lemma_position_of_skip(s, '\n', pos as int, 0);
            lemma_position_of(rest, '\n', 0);
            assert(line@ =~= rest.take(end - pos));
        }
        out.push(line);
        assert(lines_view(out@) =~= before.push(line@));
        if end >= text.len() {
            assert(rest.take(end - pos) =~= rest);
            assert(s.skip(text.len() as int) =~= Seq::<char>::empty());
            assert(before + seq![rest] =~= before.push(rest) + lines(Seq::<char>::empty()));
            pos = text.len();
        } else {
            assert(rest.skip(end - pos + 1) =~= s.skip(end + 1));
            assert(before + (seq![line@] + lines(s.skip(end + 1))) =~= before.push(line@) + lines(
                s.skip(end + 1),
            ));
            pos = end + 1;
        }
    }
    assert(s.skip(pos as int) =~= Seq::<char>::empty());
    assert(lines_view(out@) + Seq::<Seq<char>>::empty() =~= lines_view(out@));
    out
}

/// Once a line declared no column, its error is that of all the lines.
pub proof fn lemma_columns_error_stays(lines: Seq<Seq<char>>, n: int)
    requires
        0 <= n <= lines.len(),
        columns_of(lines, n) is Err,
    ensures
        columns_of(lines, lines.len() as int) == columns_of(lines, n),
    decreases lines.len() - n,
{
    if n < lines.len() {
        lemma_columns_error_stays(lines, n + 1);
    }
}

/// Reads a schema from its text.
///
/// The first line is the table's name; each further line declares a column.
/// The first fault, reading from the top, decides the error: a line without
/// a colon is `MalformedLine`, a blank name `EmptyName`, a name that an
/// earlier line declared `DuplicateColumn`, and a type that is none of
/// `Int`, `Str`, `Type` is `UnknownType`, tested in that order on each line.
pub fn parse_table_schema(content: &str) -> (r: Result<TableSchema, SchemaError>)
    ensures
        r matches Ok(schema) ==> parse_schema(content@) == Ok::<SchemaView, SchemaError>(schema@),
        r matches Err(e) ==> parse_schema(content@) == Err::<SchemaView, SchemaError>(e),
{
    let text = chars_of(content);
    let all = split_lines(&text);
    if all.len() == 0 {
        return Err(SchemaError::EmptyName);
    }
    let ghost all_lines = lines(content@);
    let ghost rest = all_lines.skip(1);
    assert(all_lines[0] == all[0]@);
    assert(all[0]@.subrange(0, all[0]@.len() as int) =~= all[0]@);
    let name_chars = trimmed(&all[0], 0, all[0].len());
    if name_chars.len() == 0 {
        return Err(SchemaError::EmptyName);
    }
    let name = string_of(&name_chars, 0, name_chars.len());
    assert(name@ =~= name_chars@);
    let mut cols: Vec<Col> = Vec::new();
    let mut i: usize = 1;
    assert(cols.deep_view() =~= Seq::empty());
    while i < all.len()
        invariant
            1 <= i <= all.len(),
            all_lines == lines(content@),
            all_lines == lines_view(all@),
            rest == all_lines.skip(1),
            all_lines.len() == all.len(),
            name@ == trim(all_lines[0]),
            name@.len() > 0,
            columns_of(rest, i - 1) == Ok::<Seq<ColView>, SchemaError>(cols.deep_view()),
        decreases all.len() - i,
    {
        let line = &all[i];
        let ghost earlier = cols.deep_view();
        assert(rest[i - 1] == line@);
        proof {
            lemma_position_of(line@, ':', 0);
        }
        let colon = scan_for(line, ':', 0);
        if colon >= line.len() {
            proof {
                lemma_columns_error_stays(rest, i as int);
            }
            return Err(SchemaError::MalformedLine);
        }
        assert(line@.subrange(0, colon as int) =~= line@.take(colon as int));
        assert(line@.subrange(colon + 1, line@.len() as int) =~= line@.skip(colon + 1));
        let col_chars = trimmed(line, 0, colon);
        let type_chars = trimmed(line, colon + 1, line.len());
        if col_chars.len() == 0 {
            proof {
                lemma_columns_error_stays(rest, i as int);
            }
            return Err(SchemaError::EmptyName);
        }
        let col_name = string_of(&col_chars, 0, col_chars.len());
        assert(col_name@ =~= col_chars@);
        if find_col(&cols, &col_name).is_some() {
            proof {
                lemma_columns_error_stays(rest, i as int);
            }
            return Err(SchemaError::DuplicateColumn);
        }
        assert(type_chars@.subrange(0, type_chars@.len() as int) =~= type_chars@);
        let data_type = match parse_data_type_chars(&type_chars, 0, type_chars.len()) {
            Some(data_type) => data_type,
            None => {
                proof {
                    lemma_columns_error_stays(rest, i as int);
                }
                return Err(SchemaError::UnknownType);
            },
        };
        let col = Col { name: col_name, data_type };
        let ghost view = col@;
        cols.push(col);
        assert(cols.deep_view() =~= earlier.push(view));
        i += 1;
    }
    Ok(TableSchema { name, cols })
}

/// The line that declares a column, with its line feed.
pub open spec fn column_line(col: ColView) -> Seq<char> {
    col.name + seq![':'] + type_spelling(col.data_type) + seq!['\n']
}

/// The lines that declare the first `n` columns.
pub open spec fn column_lines(cols: Seq<ColView>, n: int) -> Seq<char>
    decreases n,
{
    if n <= 0 {
        Seq::empty()
    } else {
        column_lines(cols, n - 1) + column_line(cols[n - 1])
    }
}

/// The text of a schema: the table's name, then one line for each column,
/// every line closed by a line feed.
pub open spec fn schema_text(schema: SchemaView) -> Seq<char> {
    schema.name + seq!['\n'] + column_lines(schema.cols, schema.cols.len() as int)
}

/// Writes a schema as text.
pub fn write_schema(schema: &TableSchema) -> (text: String)
    ensures
        text@ == schema_text(schema@),
{
    let mut text = schema.name.clone();
    text.push('\n');
    let ghost head = schema@.name + seq!['\n'];
    assert(text@ =~= head + column_lines(schema@.cols, 0));
    let mut i: usize = 0;
    while i < schema.cols.len()
        invariant
            i <= schema.cols.len(),
            head == schema@.name + seq!['\n'],
            text@ == head + column_lines(schema@.cols, i as int),
        decreases schema.cols.len() - i,
    {
        let col = &schema.cols[i];
        assert(schema@.cols[i as int] == col@);
        let ghost before = text@;
        let spelling = data_type_to_string(col.data_type);
        text.append(col.name.as_str());
        text.push(':');
        text.append(spelling.as_str());
        text.push('\n');
        assert(text@ =~= before + column_line(col@));
        assert(text@ =~= head + column_lines(schema@.cols, i + 1));
        i += 1;
    }
    text
}

/// A name that the text form keeps as it is: not empty, no white space at
/// either end, no line feed.
pub open spec fn plain_name(name: Seq<char>) -> bool {
    &&& name.len() > 0
    &&& !is_space(name[0])
    &&& !is_space(name.last())
    &&& forall|k: int| 0 <= k < name.len() ==> name[k] != '\n'
}

/// Columns that the text form gives back: plain names without a colon, and
/// no two columns of one name.
pub open spec fn columns_writable(cols: Seq<ColView>) -> bool {
    &&& forall|i: int| 0 <= i < cols.len() ==> plain_name(#[trigger] cols[i].name)
    &&& forall|i: int, k: int|
        0 <= i < cols.len() && 0 <= k < cols[i].name.len() ==> (#[trigger] cols[i].name[k]) != ':'
    &&& forall|i: int, j: int|
        0 <= i < j < cols.len() ==> (#[trigger] cols[i]).name != (#[trigger] cols[j]).name
}

/// A schema that its text form gives back.
pub open spec fn writable(schema: SchemaView) -> bool {
    plain_name(schema.name) && columns_writable(schema.cols)
}

/// Trimming a text with no white space at either end changes nothing.
pub proof fn lemma_trim_plain(s: Seq<char>)
    requires
        s.len() > 0,
        !is_space(s[0]),
        !is_space(s.last()),
    ensures
        trim(s) == s,
{
    assert(s.subrange(0, s.len() as int) =~= s);
}

/// A search in a text that holds `c` is not changed by what follows it.
proof fn lemma_position_of_prefix(x: Seq<char>, y: Seq<char>, c: char, i: int)
    requires
        0 <= i <= x.len(),
        position_of(x, c, i) < x.len(),
    ensures
        position_of(x + y, c, i) == position_of(x, c, i),
    decreases x.len() - i,
{
    if i < x.len() && x[i] != c {
        assert((x + y)[i] == x[i]);
        lemma_position_of_prefix(x, y, c, i + 1);
    } else {
        assert((x + y)[i] == x[i]);
    }
}

/// A search for a character that `s` does not hold ends at its end.
proof fn lemma_position_of_absent(s: Seq<char>, c: char, i: int)
    requires
        0 <= i <= s.len(),
        forall|k: int| i <= k < s.len() ==> s[k] != c,
    ensures
        position_of(s, c, i) == s.len(),
    decreases s.len() - i,
{
    if i < s.len() {
        lemma_position_of_absent(s, c, i + 1);
    }
}

/// The lines of a text that follows closed lines follow their lines.
pub proof fn lemma_lines_concat(x: Seq<char>, y: Seq<char>)
    requires
        x.len() == 0 || x.last() == '\n',
    ensures
        lines(x + y) == lines(x) + lines(y),
    decreases x.len(),
{
    if x.len() == 0 {
        assert(x + y =~= y);
        assert(lines(x) + lines(y) =~= lines(y));
    } else {
        lemma_position_of(x, '\n', 0);
        let end = position_of(x, '\n', 0);
        assert(end < x.len()) by {
            if end == x.len() {
                assert(x[x.len() - 1] != '\n');
            }
        }
        lemma_position_of_prefix(x, y, '\n', 0);
        let tail = x.skip(end + 1);
        assert((x + y).take(end) =~= x.take(end));
        assert((x + y).skip(end + 1) =~= tail + y);
        if tail.len() > 0 {
            assert(tail.last() == x.last());
        }
        lemma_lines_concat(tail, y);
        assert(seq![x.take(end)] + (lines(tail) + lines(y)) =~= (seq![x.take(end)] + lines(tail))
            + lines(y));
    }
}

/// A text without line feed, closed by one, is one line.
proof fn lemma_lines_single(line: Seq<char>)
    requires
        forall|k: int| 0 <= k < line.len() ==> line[k] != '\n',
    ensures
        lines(line + seq!['\n']) == seq![line],
{
    let s = line + seq!['\n'];
    lemma_position_of(s, '\n', 0);
    let end = position_of(s, '\n', 0);
    assert(end == line.len()) by {
        if end < line.len() {
            assert(s[end] == line[end]);
        }
        if end > line.len() {
            assert(s[line.len() as int] == '\n');
        }
    }
    assert(s.take(end) =~= line);
    assert(s.skip(end + 1) =~= Seq::<char>::empty());
    assert(seq![line] + lines(Seq::<char>::empty()) =~= seq![line]);
}

/// The line that declares a column, without its line feed.
pub open spec fn column_declaration(col: ColView) -> Seq<char> {
    col.name + seq![':'] + type_spelling(col.data_type)
}

/// The declarations of the first `n` columns.
pub open spec fn declarations(cols: Seq<ColView>, n: int) -> Seq<Seq<char>> {
    Seq::new(n as nat, |i: int| column_declaration(cols[i]))
}

proof fn lemma_column_lines(cols: Seq<ColView>, n: int)
    requires
        0 <= n <= cols.len(),
        forall|i: int| 0 <= i < cols.len() ==> plain_name(#[trigger] cols[i].name),
    ensures
        lines(column_lines(cols, n)) == declarations(cols, n),
        n > 0 ==> column_lines(cols, n).last() == '\n',
        n == 0 ==> column_lines(cols, n).len() == 0,
    decreases n,
{
    if n == 0 {
        assert(lines(column_lines(cols, 0)) =~= declarations(cols, 0));
    } else {
        lemma_column_lines(cols, n - 1);
        let col = cols[n - 1];
        let line = column_declaration(col);
        assert(plain_name(col.name));
        assert(column_line(col) =~= line + seq!['\n']);
        assert forall|k: int| 0 <= k < line.len() implies line[k] != '\n' by {
            let spelling = type_spelling(col.data_type);
            if k < col.name.len() {
                assert(line[k] == col.name[k]);
            } else if k > col.name.len() {
                assert(line[k] == spelling[k - col.name.len() - 1]);
            }
        }
        lemma_lines_single(line);
        lemma_lines_concat(column_lines(cols, n - 1), column_line(col));
        assert(declarations(cols, n - 1) + seq![line] =~= declarations(cols, n));
    }
}

proof fn lemma_declaration_parses(col: ColView, earlier: Seq<ColView>)
    requires
        plain_name(col.name),
        forall|k: int| 0 <= k < col.name.len() ==> col.name[k] != ':',
        forall|j: int| 0 <= j < earlier.len() ==> (#[trigger] earlier[j]).name != col.name,
    ensures
        column_of(column_declaration(col), earlier) == Ok::<ColView, SchemaError>(col),
{
    let line = column_declaration(col);
    let spelling = type_spelling(col.data_type);
    let n = col.name.len() as int;
    lemma_position_of(line, ':', 0);
    let colon = position_of(line, ':', 0);
    assert(line[n] == ':');
    assert(colon == n) by {
        if colon < n {
            assert(line[colon] == col.name[colon]);
        }
    }
    assert(line.take(colon) =~= col.name);
    assert(line.skip(colon + 1) =~= spelling);
    lemma_trim_plain(col.name);
    lemma_trim_plain(spelling);
    crate::model::lemma_type_spelling_round_trip(col.data_type);
    lemma_col_index_from(earlier, col.name, 0);
}

proof fn lemma_declarations_parse(cols: Seq<ColView>, n: int)
    requires
        0 <= n <= cols.len(),
        columns_writable(cols),
    ensures
        columns_of(declarations(cols, cols.len() as int), n) == Ok::<Seq<ColView>, SchemaError>(
            cols.take(n),
        ),
    decreases n,
{
    if n == 0 {
        assert(cols.take(0) =~= Seq::empty());
    } else {
        lemma_declarations_parse(cols, n - 1);
        let earlier = cols.take(n - 1);
        let col = cols[n - 1];
        assert(plain_name(cols[n - 1].name));
        assert forall|k: int| 0 <= k < col.name.len() implies col.name[k] != ':' by {
            assert(cols[n - 1].name[k] != ':');
        }
        assert forall|j: int| 0 <= j < earlier.len() implies (#[trigger] earlier[j]).name
            != col.name by {
            assert(cols[j].name != cols[n - 1].name);
        }
        lemma_declaration_parses(col, earlier);
        assert(earlier.push(col) =~= cols.take(n));
    }
}

/// Reading the text of a writable schema gives the schema back.
pub proof fn lemma_schema_round_trip(schema: SchemaView)
    requires
        writable(schema),
    ensures
        parse_schema(schema_text(schema)) == Ok::<SchemaView, SchemaError>(schema),
{
    let cols = schema.cols;
    let n = cols.len() as int;
    let head = schema.name + seq!['\n'];
    lemma_lines_single(schema.name);
    lemma_column_lines(cols, n);
    lemma_lines_concat(head, column_lines(cols, n));
    let all = lines(schema_text(schema));
    assert(all == seq![schema.name] + declarations(cols, n));
    assert(all.skip(1) =~= declarations(cols, n));
    lemma_trim_plain(schema.name);
    lemma_declarations_parse(cols, n);
    assert(cols.take(n) =~= cols);
}

/// What trimming leaves is empty or has no white space at either end, and
/// every character of it is a character of the text.
pub proof fn lemma_trim_ends(s: Seq<char>)
    ensures
        trim(s).len() > 0 ==> !is_space(trim(s)[0]) && !is_space(trim(s).last()),
        forall|k: int| 0 <= k < trim(s).len() ==> s.contains(#[trigger] trim(s)[k]),
{
    lemma_skip_spaces_stops(s, 0);
    lemma_trim_end_stops(s, s.len() as int);
    let start = skip_spaces(s, 0);
    assert forall|k: int| 0 <= k < trim(s).len() implies s.contains(#[trigger] trim(s)[k]) by {
        assert(trim(s)[k] == s[start + k]);
    }
}

proof fn lemma_skip_spaces_stops(s: Seq<char>, i: int)
    requires
        0 <= i <= s.len(),
    ensures
        i <= skip_spaces(s, i) <= s.len(),
        skip_spaces(s, i) < s.len() ==> !is_space(s[skip_spaces(s, i)]),
    decreases s.len() - i,
{
    if i < s.len() && is_space(s[i]) {
        lemma_skip_spaces_stops(s, i + 1);
    }
}

proof fn lemma_trim_end_stops(s: Seq<char>, n: int)
    requires
        0 <= n <= s.len(),
    ensures
        0 <= trim_end_pos(s, n) <= n,
        trim_end_pos(s, n) > 0 ==> !is_space(s[trim_end_pos(s, n) - 1]),
    decreases n,
{
    if n > 0 && is_space(s[n - 1]) {
        lemma_trim_end_stops(s, n - 1);
    }
}

/// No line holds a line feed.
pub proof fn lemma_lines_hold_no_feed(s: Seq<char>)
    ensures
        forall|i: int, k: int|
            0 <= i < lines(s).len() && 0 <= k < lines(s)[i].len() ==> (#[trigger] lines(
                s,
            )[i][k]) != '\n',
    decreases s.len(),
{
    if s.len() > 0 {
        lemma_position_of(s, '\n', 0);
        let end = position_of(s, '\n', 0);
        if end < s.len() {
            let rest = s.skip(end + 1);
            lemma_lines_hold_no_feed(rest);
            assert forall|i: int, k: int|
                0 <= i < lines(s).len() && 0 <= k < lines(s)[i].len() implies (#[trigger] lines(
                s,
            )[i][k]) != '\n' by {
                if i == 0 {
                    assert(lines(s)[0][k] == s[k]);
                } else {
                    assert(lines(s)[i] == lines(rest)[i - 1]);
                    assert(lines(rest)[i - 1][k] != '\n');
                }
            }
        }
    }
}

proof fn lemma_parsed_name_plain(line: Seq<char>)
    requires
        forall|k: int| 0 <= k < line.len() ==> line[k] != '\n',
        trim(line).len() > 0,
    ensures
        plain_name(trim(line)),
{
    lemma_trim_ends(line);
    assert forall|k: int| 0 <= k < trim(line).len() implies trim(line)[k] != '\n' by {
        assert(line.contains(trim(line)[k]));
    }
}

proof fn lemma_parsed_columns_writable(lines: Seq<Seq<char>>, n: int)
    requires
        0 <= n <= lines.len(),
        forall|i: int, k: int|
            0 <= i < lines.len() && 0 <= k < lines[i].len() ==> (#[trigger] lines[i][k]) != '\n',
    ensures
        columns_of(lines, n) matches Ok(cols) ==> columns_writable(cols) && cols.len() == n,
    decreases n,
{
    if n > 0 {
        lemma_parsed_columns_writable(lines, n - 1);
        if let Ok(cols) = columns_of(lines, n) {
            let earlier = columns_of(lines, n - 1)->Ok_0;
            let line = lines[n - 1];
            let col = column_of(line, earlier)->Ok_0;
            assert(cols == earlier.push(col));
            lemma_position_of(line, ':', 0);
            let colon = position_of(line, ':', 0);
            let left = line.take(colon);
            assert forall|k: int| 0 <= k < left.len() implies left[k] != '\n' by {
                assert(left[k] == line[k]);
                assert(lines[n - 1][k] != '\n');
            }
            lemma_parsed_name_plain(left);
            lemma_trim_ends(left);
            lemma_col_index_from(earlier, col.name, 0);
            assert forall|i: int| 0 <= i < cols.len() implies plain_name(
                #[trigger] cols[i].name,
            ) by {
                if i < n - 1 {
                    assert(cols[i] == earlier[i]);
                }
            }
            assert forall|i: int, k: int|
                0 <= i < cols.len() && 0 <= k < cols[i].name.len() implies (
            #[trigger] cols[i].name[k]) != ':' by {
                if i < n - 1 {
                    assert(cols[i] == earlier[i]);
                    assert(earlier[i].name[k] != ':');
                } else {
                    assert(left.contains(col.name[k]));
                    let at = choose|at: int| 0 <= at < left.len() && left[at] == col.name[k];
                    assert(left[at] == line[at]);
                }
            }
            assert forall|i: int, j: int| 0 <= i < j < cols.len() implies (#[trigger] cols[i]).name
                != (#[trigger] cols[j]).name by {
                if j < n - 1 {
                    assert(cols[i] == earlier[i] && cols[j] == earlier[j]);
                } else {
                    assert(cols[i] == earlier[i]);
                }
            }
        }
    }
}

/// Every schema that a text declares is writable, so that writing it and
/// reading it again gives the same schema.
pub proof fn lemma_parsed_schema_round_trip(text: Seq<char>)
    ensures
        parse_schema(text) matches Ok(schema) ==> writable(schema) && parse_schema(
            schema_text(schema),
        ) == Ok::<SchemaView, SchemaError>(schema),
{
    if let Ok(schema) = parse_schema(text) {
        let all = lines(text);
        lemma_lines_hold_no_feed(text);
        assert forall|k: int| 0 <= k < all[0].len() implies all[0][k] != '\n' by {
            assert(lines(text)[0][k] != '\n');
        }
        lemma_parsed_name_plain(all[0]);
        let rest = all.skip(1);
        assert forall|i: int, k: int| 0 <= i < rest.len() && 0 <= k < rest[i].len() implies (
        #[trigger] rest[i][k]) != '\n' by {
            assert(rest[i] == all[i + 1]);
            assert(lines(text)[i + 1][k] != '\n');
        }
        lemma_parsed_columns_writable(rest, rest.len() as int);
        lemma_schema_round_trip(schema);
    }
}

} // verus!
