//! What the catalog keeps on disk: for each table a schema file
//! `<table>.tbls` and a row file `<table>.tbl` in the catalog's directory.
//! This module names the files and computes and reads their contents; it
//! opens none of them.

use vstd::prelude::*;
use crate::codec::{
    decode_rows, decoded_rows, encode_rows, lemma_rows_round_trip, row_restorable, row_storable,
    row_width, storable, table_bytes, ByteOrder, CodecError,
};
use crate::model::{spells, DataType, Database, Table, TableSchema, TableView};
use crate::schema::{
    lemma_schema_round_trip, parse_schema, schema_text, writable, write_schema, SchemaError,
};
use crate::model::SchemaView;
use crate::text::chars_of;

verus! {

/// The ending of a schema file's name.
pub open spec fn schema_suffix() -> Seq<char> {
    seq!['.', 't', 'b', 'l', 's']
}

/// The ending of a row file's name.
pub open spec fn rows_suffix() -> Seq<char> {
    seq!['.', 't', 'b', 'l']
}

/// The path of the file in `dir` that is named `name` with the ending `suffix`.
pub open spec fn path_in(dir: Seq<char>, name: Seq<char>, suffix: Seq<char>) -> Seq<char> {
    dir + seq!['/'] + name + suffix
}

/// The path of the schema file of the table `name` in the directory `dir`.
pub fn schema_file_path(dir: &str, name: &str) -> (path: String)
    ensures
        path@ == path_in(dir@, name@, schema_suffix()),
{
    proof {
        reveal_strlit(".tbls");
        assert(".tbls"@ =~= schema_suffix());
    }
    let mut path = dir.to_owned();
    path.push('/');
    path.append(name);
    path.append(".tbls");
    path
}

/// The path of the row file of the table `name` in the directory `dir`.
pub fn table_file_path(dir: &str, name: &str) -> (path: String)
    ensures
        path@ == path_in(dir@, name@, rows_suffix()),
{
    proof {
        reveal_strlit(".tbl");
        assert(".tbl"@ =~= rows_suffix());
    }
    let mut path = dir.to_owned();
    path.push('/');
    path.append(name);
    path.append(".tbl");
    path
}

/// `s` ends with `suffix`.
pub open spec fn ends_with(s: Seq<char>, suffix: Seq<char>) -> bool {
    s.len() >= suffix.len() && s.subrange(s.len() - suffix.len(), s.len() as int) == suffix
}

/// Tells whether a file of this name or path is a schema file.
pub fn is_schema_file(path: &str) -> (r: bool)
    ensures
        r == ends_with(path@, schema_suffix()),
{
    proof {
        reveal_strlit(".tbls");
        assert(".tbls"@ =~= schema_suffix());
    }
    let word = chars_of(path);
    if word.len() < 5 {
        return false;
    }
    spells(&word, word.len() - 5, word.len(), ".tbls")
}

/// The two files of one table: where they lie and what they hold.
#[derive(Debug, PartialEq)]
pub struct TableFiles {
    pub schema_path: String,
    pub schema_text: String,
    pub rows_path: String,
    pub rows: Vec<u8>,
}

/// What a [`TableFiles`] stands for.
pub ghost struct TableFilesView {
    pub schema_path: Seq<char>,
    pub schema_text: Seq<char>,
    pub rows_path: Seq<char>,
    pub rows: Seq<u8>,
}

impl View for TableFiles {
    type V = TableFilesView;

    open spec fn view(&self) -> TableFilesView {
        TableFilesView {
            schema_path: self.schema_path@,
            schema_text: self.schema_text@,
            rows_path: self.rows_path@,
            rows: self.rows@,
        }
    }
}

impl DeepView for TableFiles {
    type V = TableFilesView;

    open spec fn deep_view(&self) -> TableFilesView {
        self@
    }
}

/// The files that hold `table` in the directory `dir`.
pub open spec fn stored_table(dir: Seq<char>, table: TableView, order: ByteOrder) -> TableFilesView {
    TableFilesView {
        schema_path: path_in(dir, table.schema.name, schema_suffix()),
        schema_text: schema_text(table.schema),
        rows_path: path_in(dir, table.schema.name, rows_suffix()),
        rows: table_bytes(table.rows, order),
    }
}

/// A table whose rows can be stored: they hold integers and texts only.
pub open spec fn table_storable(table: TableView) -> bool {
    forall|r: int| 0 <= r < table.rows.len() ==> row_storable(#[trigger] table.rows[r])
}

/// Tells whether the rows of `table` can be stored.
pub fn is_table_storable(table: &Table) -> (ok: bool)
    ensures
        ok == table_storable(table@),
{
    let mut r: usize = 0;
    while r < table.rows.len()
        invariant
            r <= table.rows.len(),
            forall|k: int| 0 <= k < r ==> row_storable(#[trigger] table@.rows[k]),
        decreases table.rows.len() - r,
    {
        let row = &table.rows[r];
        assert(table@.rows[r as int] == row.deep_view());
        let mut i: usize = 0;
        while i < row.len()
            invariant
                i <= row.len(),
                r < table.rows.len(),
                table@.rows[r as int] == row.deep_view(),
                forall|k: int| 0 <= k < i ==> !(#[trigger] row.deep_view()[k] is Type),
            decreases row.len() - i,
        {
            if row[i].data_type() == DataType::Type {
                assert(row.deep_view()[i as int] is Type);
                assert(!row_storable(table@.rows[r as int]));
                return false;
            }
            i += 1;
        }
        r += 1;
    }
    true
}

/// Computes the files that hold the tables of the catalog in the directory
/// `path`: for each table, in catalog order, its schema file and its row
/// file. Writing them, schema first, saves the catalog.
pub fn save_database_to(path: &str, database: &Database, order: ByteOrder) -> (files: Vec<TableFiles>)
    requires
        forall|t: int| 0 <= t < database@.tables.len() ==> table_storable(#[trigger] database@.tables[t]),
    ensures
        files.len() == database.tables.len(),
        forall|t: int|
            0 <= t < files.len() ==> #[trigger] files.deep_view()[t] == stored_table(
                path@,
                database@.tables[t],
                order,
            ),
{
    let mut files: Vec<TableFiles> = Vec::new();
    let mut t: usize = 0;
    while t < database.tables.len()
        invariant
            t <= database.tables.len(),
            files.len() == t,
            forall|k: int|
                0 <= k < database@.tables.len() ==> table_storable(#[trigger] database@.tables[k]),
            forall|k: int|
                0 <= k < t ==> #[trigger] files.deep_view()[k] == stored_table(
                    path@,
                    database@.tables[k],
                    order,
                ),
        decreases database.tables.len() - t,
    {
        let table = &database.tables[t];
        assert(database@.tables[t as int] == table@);
        assert(table_storable(table@));
        assert forall|r: int| 0 <= r < table.rows.len() implies row_storable(
            #[trigger] table.rows.deep_view()[r],
        ) by {
            assert(row_storable(table@.rows[r]));
        }
        let ghost before = files.deep_view();
        let stored = TableFiles {
            schema_path: schema_file_path(path, table.schema.name.as_str()),
            schema_text: write_schema(&table.schema),
            rows_path: table_file_path(path, table.schema.name.as_str()),
            rows: encode_rows(&table.rows, order),
        };
        let ghost view = stored@;
        files.push(stored);
        proof {
            assert(files.deep_view() =~= before.push(view));
            assert forall|k: int| 0 <= k < t + 1 implies #[trigger] files.deep_view()[k]
                == stored_table(path@, database@.tables[k], order) by {
                if k < t {
                    assert(files.deep_view()[k] == before[k]);
                }
            }
        }
        t += 1;
    }
    files
}

/// Tells whether rows under this schema can be stored: it has a column,
/// and no column of type names.
pub fn is_storable(schema: &TableSchema) -> (ok: bool)
    ensures
        ok == storable(schema@.cols),
{
    if schema.cols.len() == 0 {
        return false;
    }
    let mut i: usize = 0;
    while i < schema.cols.len()
        invariant
            i <= schema.cols.len(),
            forall|k: int| 0 <= k < i ==> (#[trigger] schema@.cols[k]).data_type != DataType::Type,
        decreases schema.cols.len() - i,
    {
        assert(schema@.cols[i as int] == schema.cols[i as int]@);
        if schema.cols[i].data_type == DataType::Type {
            return false;
        }
        i += 1;
    }
    true
}

/// Builds the table that a schema and the bytes of its row file make. Bytes
/// that are not a whole number of rows are refused.
pub fn load_table(schema: TableSchema, bytes: &[u8], order: ByteOrder) -> (r: Result<
    Table,
    CodecError,
>)
    requires
        storable(schema@.cols),
        row_width(schema@.cols) <= usize::MAX,
    ensures
        bytes.len() as int % row_width(schema@.cols) != 0 ==> r == Err::<Table, CodecError>(
            CodecError::TruncatedFile,
        ),
        bytes.len() as int % row_width(schema@.cols) == 0 ==> r is Ok,
        r matches Ok(table) ==> table@ == (TableView {
            schema: schema@,
            rows: decoded_rows(bytes@, schema@.cols, order),
        }) && table@.wf(),
{
    match decode_rows(bytes, &schema, order) {
        Ok(rows) => Ok(Table { schema, rows }),
        Err(e) => Err(e),
    }
}

/// What was saved loads again: the files of a well-formed table with a
/// writable schema, storable columns and rows whose texts take at most 50
/// bytes and hold no zero byte give the same table back.
pub proof fn lemma_saved_table_loads(dir: Seq<char>, table: TableView, order: ByteOrder)
    requires
        table.wf(),
        writable(table.schema),
        storable(table.schema.cols),
        forall|r: int| 0 <= r < table.rows.len() ==> row_restorable(#[trigger] table.rows[r]),
    ensures
        parse_schema(stored_table(dir, table, order).schema_text) == Ok::<SchemaView, SchemaError>(
            table.schema,
        ),
        stored_table(dir, table, order).rows.len() as int % row_width(table.schema.cols) == 0,
        decoded_rows(stored_table(dir, table, order).rows, table.schema.cols, order) == table.rows,
{
    lemma_schema_round_trip(table.schema);
    lemma_rows_round_trip(table.rows, table.schema.cols, order);
}

} // verus!
