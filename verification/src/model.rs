//! The vocabulary shared by every part of the store: values, column types,
//! schemas, tables, the catalog, compiled operations and conditions, each with
//! the mathematical value that contracts speak of.

use vstd::prelude::*;
use crate::text::chars_of;

verus! {

/// The kind of data a column holds, and the kind of a literal in a query.
#[derive(Debug, Clone, Copy, PartialEq, Eq, Structural)]
pub enum DataType {
    Int,
    Str,
    Type,
}

/// A value on the operand stack or in a row.
#[derive(Debug, PartialEq)]
pub enum WordType {
    Int(i32),
    Str(String),
    Type(DataType),
}

/// What a [`WordType`] stands for.
pub ghost enum Value {
    Int(i32),
    Text(Seq<char>),
    Type(DataType),
}

impl View for WordType {
    type V = Value;

    open spec fn view(&self) -> Value {
        match *self {
            WordType::Int(value) => Value::Int(value),
            WordType::Str(value) => Value::Text(value@),
            WordType::Type(data_type) => Value::Type(data_type),
        }
    }
}

impl DeepView for WordType {
    type V = Value;

    open spec fn deep_view(&self) -> Value {
        self@
    }
}

impl Clone for WordType {
    fn clone(&self) -> (res: Self)
        ensures
            res == *self,
    {
        match self {
            WordType::Int(value) => WordType::Int(*value),
            WordType::Str(value) => WordType::Str(value.clone()),
            WordType::Type(data_type) => WordType::Type(*data_type),
        }
    }
}

/// The column type that holds values of the variant of `v`.
pub open spec fn value_type(v: Value) -> DataType {
    match v {
        Value::Int(_) => DataType::Int,
        Value::Text(_) => DataType::Str,
        Value::Type(_) => DataType::Type,
    }
}

/// True when a value's variant is the one that a column of type `t` holds.
pub open spec fn value_matches_type(v: Value, t: DataType) -> bool {
    value_type(v) == t
}

impl WordType {
    /// The column type that holds values of this variant.
    pub fn data_type(&self) -> (t: DataType)
        ensures
            t == value_type(self@),
    {
        match self {
            WordType::Int(_) => DataType::Int,
            WordType::Str(_) => DataType::Str,
            WordType::Type(_) => DataType::Type,
        }
    }

    /// Tells whether this value may be stored in a column of type `t`.
    pub fn matches_type(&self, t: DataType) -> (r: bool)
        ensures
            r == value_matches_type(self@, t),
    {
        self.data_type() == t
    }
}

/// A named, typed column.
#[derive(Debug, PartialEq)]
pub struct Col {
    pub name: String,
    pub data_type: DataType,
}

/// What a [`Col`] stands for.
pub ghost struct ColView {
    pub name: Seq<char>,
    pub data_type: DataType,
}

impl View for Col {
    type V = ColView;

    open spec fn view(&self) -> ColView {
        ColView { name: self.name@, data_type: self.data_type }
    }
}

impl DeepView for Col {
    type V = ColView;

    open spec fn deep_view(&self) -> ColView {
        self@
    }
}

impl Clone for Col {
    fn clone(&self) -> (res: Self)
        ensures
            res == *self,
    {
        Col { name: self.name.clone(), data_type: self.data_type }
    }
}

/// A table's name and its columns, in declaration order.
#[derive(Debug, PartialEq)]
pub struct TableSchema {
    pub name: String,
    pub cols: Vec<Col>,
}

/// What a [`TableSchema`] stands for.
pub ghost struct SchemaView {
    pub name: Seq<char>,
    pub cols: Seq<ColView>,
}

impl View for TableSchema {
    type V = SchemaView;

    open spec fn view(&self) -> SchemaView {
        SchemaView { name: self.name@, cols: self.cols.deep_view() }
    }
}

impl Clone for TableSchema {
    fn clone(&self) -> (res: Self)
        ensures
            res@ == self@,
    {
        let mut cols: Vec<Col> = Vec::new();
        let mut i: usize = 0;
        while i < self.cols.len()
            invariant
                i <= self.cols.len(),
                cols.len() == i,
                forall|k: int| 0 <= k < i ==> #[trigger] cols[k]@ == self.cols[k]@,
            decreases self.cols.len() - i,
        {
            cols.push(self.cols[i].clone());
            i += 1;
        }
        assert(cols.deep_view() =~= self.cols.deep_view());
        TableSchema { name: self.name.clone(), cols }
    }
}

/// One value per column, in column order.
pub type Row = Vec<WordType>;

/// A schema and the rows stored under it, in insertion order.
#[derive(Debug, PartialEq)]
pub struct Table {
    pub schema: TableSchema,
    pub rows: Vec<Row>,
}

/// What a [`Table`] stands for.
pub ghost struct TableView {
    pub schema: SchemaView,
    pub rows: Seq<Seq<Value>>,
}

impl View for Table {
    type V = TableView;

    open spec fn view(&self) -> TableView {
        TableView { schema: self.schema@, rows: self.rows.deep_view() }
    }
}

impl DeepView for Table {
    type V = TableView;

    open spec fn deep_view(&self) -> TableView {
        self@
    }
}

/// The catalog: every table known to the running process.
#[derive(Debug, PartialEq)]
pub struct Database {
    pub name: String,
    pub path: String,
    pub tables: Vec<Table>,
}

/// What a [`Database`] stands for.
pub ghost struct DatabaseView {
    pub name: Seq<char>,
    pub path: Seq<char>,
    pub tables: Seq<TableView>,
}

impl View for Database {
    type V = DatabaseView;

    open spec fn view(&self) -> DatabaseView {
        DatabaseView { name: self.name@, path: self.path@, tables: self.tables.deep_view() }
    }
}

/// A row fits a column list when it has one value per column and each value
/// has the variant of its column's type.
pub open spec fn row_fits(row: Seq<Value>, cols: Seq<ColView>) -> bool {
    &&& row.len() == cols.len()
    &&& forall|i: int| 0 <= i < row.len() ==> value_matches_type(row[i], #[trigger] cols[i].data_type)
}

impl TableView {
    /// Every stored row fits the schema.
    pub open spec fn wf(self) -> bool {
        forall|r: int| 0 <= r < self.rows.len() ==> row_fits(#[trigger] self.rows[r], self.schema.cols)
    }
}

impl DatabaseView {
    /// Every table is well formed.
    pub open spec fn wf(self) -> bool {
        forall|t: int| 0 <= t < self.tables.len() ==> (#[trigger] self.tables[t]).wf()
    }
}

/// Tells whether `row` has one value per column, each of its column's type.
pub fn row_fits_cols(row: &Row, cols: &Vec<Col>) -> (r: bool)
    ensures
        r == row_fits(row.deep_view(), cols.deep_view()),
{
    if row.len() != cols.len() {
        return false;
    }
    let mut i: usize = 0;
    while i < row.len()
        invariant
            row.len() == cols.len(),
            i <= row.len(),
            forall|k: int|
                0 <= k < i ==> value_matches_type(
                    row.deep_view()[k],
                    #[trigger] cols.deep_view()[k].data_type,
                ),
        decreases row.len() - i,
    {
        if !row[i].matches_type(cols[i].data_type) {
            assert(!value_matches_type(row.deep_view()[i as int], cols.deep_view()[i as int].data_type));
            return false;
        }
        i += 1;
    }
    true
}

impl Table {
    /// Tells whether every stored row fits the schema.
    pub fn is_well_formed(&self) -> (r: bool)
        ensures
            r == self@.wf(),
    {
        let mut i: usize = 0;
        while i < self.rows.len()
            invariant
                i <= self.rows.len(),
                forall|k: int| 0 <= k < i ==> row_fits(#[trigger] self@.rows[k], self@.schema.cols),
            decreases self.rows.len() - i,
        {
            if !row_fits_cols(&self.rows[i], &self.schema.cols) {
                assert(!row_fits(self@.rows[i as int], self@.schema.cols));
                return false;
            }
            i += 1;
        }
        true
    }
}

impl Database {
    /// Tells whether every table is well formed.
    pub fn is_well_formed(&self) -> (r: bool)
        ensures
            r == self@.wf(),
    {
        let mut i: usize = 0;
        while i < self.tables.len()
            invariant
                i <= self.tables.len(),
                forall|k: int| 0 <= k < i ==> (#[trigger] self@.tables[k]).wf(),
            decreases self.tables.len() - i,
        {
            if !self.tables[i].is_well_formed() {
                assert(!self@.tables[i as int].wf());
                return false;
            }
            i += 1;
        }
        true
    }
}

/// One compiled unit of a query: the push of a literal, or a named operator.
///
/// In a push, `data_type` records the kind of the literal; in compiled
/// queries it is always the type of `word_type`.
#[derive(Debug, PartialEq)]
pub enum Op {
    PushWord { data_type: DataType, word_type: WordType },
    Select,
    Insert,
    Delete,
    Filter,
    Or,
    And,
    Equal,
    NotEqual,
    Less,
    More,
    Create,
    Drop,
}

/// What an [`Op`] stands for.
pub ghost enum OpView {
    PushWord { data_type: DataType, word: Value },
    Select,
    Insert,
    Delete,
    Filter,
    Or,
    And,
    Equal,
    NotEqual,
    Less,
    More,
    Create,
    Drop,
}

impl View for Op {
    type V = OpView;

    open spec fn view(&self) -> OpView {
        match *self {
            Op::PushWord { data_type, word_type } => OpView::PushWord { data_type, word: word_type@ },
            Op::Select => OpView::Select,
            Op::Insert => OpView::Insert,
            Op::Delete => OpView::Delete,
            Op::Filter => OpView::Filter,
            Op::Or => OpView::Or,
            Op::And => OpView::And,
            Op::Equal => OpView::Equal,
            Op::NotEqual => OpView::NotEqual,
            Op::Less => OpView::Less,
            Op::More => OpView::More,
            Op::Create => OpView::Create,
            Op::Drop => OpView::Drop,
        }
    }
}

impl DeepView for Op {
    type V = OpView;

    open spec fn deep_view(&self) -> OpView {
        self@
    }
}

impl Clone for Op {
    fn clone(&self) -> (res: Self)
        ensures
            res == *self,
    {
        match self {
            Op::PushWord { data_type, word_type } => Op::PushWord {
                data_type: *data_type,
                word_type: word_type.clone(),
            },
            Op::Select => Op::Select,
            Op::Insert => Op::Insert,
            Op::Delete => Op::Delete,
            Op::Filter => Op::Filter,
            Op::Or => Op::Or,
            Op::And => Op::And,
            Op::Equal => Op::Equal,
            Op::NotEqual => Op::NotEqual,
            Op::Less => Op::Less,
            Op::More => Op::More,
            Op::Create => Op::Create,
            Op::Drop => Op::Drop,
        }
    }
}

impl OpView {
    /// One of the four comparison operators.
    pub open spec fn is_comparison(self) -> bool {
        self is Equal || self is NotEqual || self is Less || self is More
    }

    /// One of the two combinators of conditions.
    pub open spec fn is_combinator(self) -> bool {
        self is And || self is Or
    }
}

impl Op {
    pub fn is_comparison(&self) -> (r: bool)
        ensures
            r == self@.is_comparison(),
    {
        match self {
            Op::Equal | Op::NotEqual | Op::Less | Op::More => true,
            _ => false,
        }
    }

    pub fn is_combinator(&self) -> (r: bool)
        ensures
            r == self@.is_combinator(),
    {
        match self {
            Op::And | Op::Or => true,
            _ => false,
        }
    }
}

/// A comparison of one column with a value, or a combinator of the results
/// of the entries before it. A combinator holds index 0 and the integer 0.
#[derive(Debug, PartialEq)]
pub struct Condition {
    pub idx: usize,
    pub value: WordType,
    pub op: Op,
}

/// What a [`Condition`] stands for.
pub ghost struct ConditionView {
    pub idx: int,
    pub value: Value,
    pub op: OpView,
}

impl View for Condition {
    type V = ConditionView;

    open spec fn view(&self) -> ConditionView {
        ConditionView { idx: self.idx as int, value: self.value@, op: self.op@ }
    }
}

impl DeepView for Condition {
    type V = ConditionView;

    open spec fn deep_view(&self) -> ConditionView {
        self@
    }
}

/// The spelling of a column type in schema text and in queries.
pub open spec fn type_spelling(t: DataType) -> Seq<char> {
    match t {
        DataType::Int => seq!['I', 'n', 't'],
        DataType::Str => seq!['S', 't', 'r'],
        DataType::Type => seq!['T', 'y', 'p', 'e'],
    }
}

/// The column type that `s` spells, if it spells one.
pub open spec fn spelled_type(s: Seq<char>) -> Option<DataType> {
    if s == type_spelling(DataType::Int) {
        Some(DataType::Int)
    } else if s == type_spelling(DataType::Str) {
        Some(DataType::Str)
    } else if s == type_spelling(DataType::Type) {
        Some(DataType::Type)
    } else {
        None
    }
}

/// Reading the spelling of a column type gives that type back.
pub proof fn lemma_type_spelling_round_trip(t: DataType)
    ensures
        spelled_type(type_spelling(t)) == Some(t),
{
    assert(type_spelling(DataType::Int)[0] == 'I');
    assert(type_spelling(DataType::Str)[0] == 'S');
    assert(type_spelling(DataType::Type)[0] == 'T');
}

/// A spelling that reads as a column type is the spelling of that type.
pub proof fn lemma_spelled_type_spelling(s: Seq<char>)
    ensures
        spelled_type(s) matches Some(t) ==> s == type_spelling(t),
{
}

/// Tells whether `word[from..to]` spells the characters `name`.
pub fn spells(word: &Vec<char>, from: usize, to: usize, name: &str) -> (r: bool)
    requires
        from <= to <= word.len(),
    ensures
        r == (word@.subrange(from as int, to as int) == name@),
{
    let expected = chars_of(name);
    if expected.len() != to - from {
        return false;
    }
    let mut i: usize = 0;
    while i < expected.len()
        invariant
            from <= to <= word.len(),
            expected.len() == to - from,
            expected@ == name@,
            i <= expected.len(),
            forall|k: int| 0 <= k < i ==> word@[from + k] == expected@[k],
        decreases expected.len() - i,
    {
        if word[from + i] != expected[i] {
            assert(word@.subrange(from as int, to as int)[i as int] != name@[i as int]);
            return false;
        }
        i += 1;
    }
    assert(word@.subrange(from as int, to as int) =~= name@);
    true
}

/// Reads the characters `word[from..to]` as the name of a column type.
pub fn parse_data_type_chars(word: &Vec<char>, from: usize, to: usize) -> (r: Option<DataType>)
    requires
        from <= to <= word.len(),
    ensures
        r == spelled_type(word@.subrange(from as int, to as int)),
{
    proof {
        reveal_strlit("Int");
        reveal_strlit("Str");
        reveal_strlit("Type");
        assert("Int"@ =~= type_spelling(DataType::Int));
        assert("Str"@ =~= type_spelling(DataType::Str));
        assert("Type"@ =~= type_spelling(DataType::Type));
    }
    if spells(word, from, to, "Int") {
        Some(DataType::Int)
    } else if spells(word, from, to, "Str") {
        Some(DataType::Str)
    } else if spells(word, from, to, "Type") {
        Some(DataType::Type)
    } else {
        None
    }
}

/// Reads the name of a column type: `Int`, `Str` or `Type`.
pub fn try_parse_data_type(col_type: &str) -> (r: Option<DataType>)
    ensures
        r == spelled_type(col_type@),
{
    let word = chars_of(col_type);
    assert(word@.subrange(0, word@.len() as int) =~= col_type@);
    parse_data_type_chars(&word, 0, word.len())
}

/// Spells a column type as schema text and queries write it.
pub fn data_type_to_string(data_type: DataType) -> (s: String)
    ensures
        s@ == type_spelling(data_type),
{
    proof {
        reveal_strlit("Int");
        reveal_strlit("Str");
        reveal_strlit("Type");
        assert("Int"@ =~= type_spelling(DataType::Int));
        assert("Str"@ =~= type_spelling(DataType::Str));
        assert("Type"@ =~= type_spelling(DataType::Type));
    }
    match data_type {
        DataType::Int => "Int".to_owned(),
        DataType::Str => "Str".to_owned(),
        DataType::Type => "Type".to_owned(),
    }
}

} // verus!
