//! What a query means: the state of the stack machine, and each operation as
//! a function from state and catalog to the next state and catalog.

use vstd::prelude::*;
use crate::conditions::{
    chain_well_formed, col_index, conditions_fit_cols, lemma_col_index_from, resolve_comparison,
    row_decision, ExecutionError,
};
use crate::model::{
    row_fits, value_matches_type, value_type, ColView, ConditionView, DatabaseView, OpView,
    SchemaView, TableView, Value,
};

verus! {

/// A condition that waits for the table it will be applied to: a comparison
/// of the column that `col` names with `value`, or a combinator.
pub ghost enum PendingView {
    Compare { col: Value, value: Value, op: OpView },
    And,
    Or,
}

/// The state of the machine between two operations of one query: the
/// operand stack, the latest push last; the pending conditions, in the order
/// the query gave them; and the table that the latest `select` produced.
pub ghost struct StateView {
    pub words: Seq<Value>,
    pub conditions: Seq<PendingView>,
    pub temp: Option<TableView>,
}

impl StateView {
    /// The state at the start of a query.
    pub open spec fn initial() -> StateView {
        StateView { words: Seq::empty(), conditions: Seq::empty(), temp: None }
    }

    /// Every pending comparison holds a comparison operator, and the table
    /// selected so far is well formed.
    pub open spec fn wf(self) -> bool {
        &&& pending_wf(self.conditions)
        &&& self.temp matches Some(table) ==> table.wf()
    }
}

/// The name of every table that `select` produces.
pub open spec fn temp_name() -> Seq<char> {
    seq!['t', 'e', 'm', 'p']
}

/// The column name that stands for every column.
pub open spec fn star() -> Seq<char> {
    seq!['*']
}

/// The index of the first table at or after `from` that is called `name`.
pub open spec fn table_index_from(tables: Seq<TableView>, name: Seq<char>, from: int) -> Option<int>
    decreases tables.len() - from,
{
    if from >= tables.len() {
        None
    } else if from >= 0 && tables[from].schema.name == name {
        Some(from)
    } else {
        table_index_from(tables, name, from + 1)
    }
}

/// The index of the first table called `name`.
pub open spec fn table_index(tables: Seq<TableView>, name: Seq<char>) -> Option<int> {
    table_index_from(tables, name, 0)
}

/// The table that the operand `name` names: it must be a text and the name
/// of a table.
pub open spec fn named_table(name: Value, tables: Seq<TableView>) -> Result<int, ExecutionError> {
    match name {
        Value::Text(n) => match table_index(tables, n) {
            Some(i) => Ok(i),
            None => Err(ExecutionError::UnknownTable),
        },
        _ => Err(ExecutionError::UnknownTable),
    }
}

/// The table that the top of the operand stack names.
pub open spec fn target_table(words: Seq<Value>, tables: Seq<TableView>) -> Result<
    int,
    ExecutionError,
> {
    if words.len() == 0 {
        Err(ExecutionError::StackUnderflow)
    } else {
        named_table(words.last(), tables)
    }
}

/// The columns that the texts on top of `words` select, as indices into
/// `cols`, in the order the query named them. The run of names ends at the
/// first operand that is no text; `*` stands for every column in schema
/// order; a name that is no column is an error.
pub open spec fn selected_columns(words: Seq<Value>, cols: Seq<ColView>) -> Result<
    Seq<int>,
    ExecutionError,
>
    decreases words.len(),
{
    if words.len() == 0 {
        Ok(Seq::empty())
    } else {
        match words.last() {
            Value::Text(name) => {
                if name == star() {
                    match selected_columns(words.drop_last(), cols) {
                        Ok(idxs) => Ok(idxs + Seq::new(cols.len(), |i: int| i)),
                        Err(e) => Err(e),
                    }
                } else {
                    match col_index(cols, name) {
                        None => Err(ExecutionError::UnknownColumn),
                        Some(i) => match selected_columns(words.drop_last(), cols) {
                            Ok(idxs) => Ok(idxs.push(i)),
                            Err(e) => Err(e),
                        },
                    }
                }
            },
            _ => Ok(Seq::empty()),
        }
    }
}

/// The values of `row` at the positions `idxs`.
pub open spec fn project_row(row: Seq<Value>, idxs: Seq<int>) -> Seq<Value> {
    Seq::new(idxs.len(), |k: int| row[idxs[k]])
}

/// The columns of `cols` at the positions `idxs`.
pub open spec fn project_cols(cols: Seq<ColView>, idxs: Seq<int>) -> Seq<ColView> {
    Seq::new(idxs.len(), |k: int| cols[idxs[k]])
}

/// Each row of `rows` reduced to the positions `idxs`.
pub open spec fn project_rows(rows: Seq<Seq<Value>>, idxs: Seq<int>) -> Seq<Seq<Value>> {
    Seq::new(rows.len(), |r: int| project_row(rows[r], idxs))
}

/// What one pending condition becomes against the columns `cols`.
pub open spec fn resolve_pending(p: PendingView, cols: Seq<ColView>) -> Result<
    ConditionView,
    ExecutionError,
> {
    match p {
        PendingView::Compare { col, value, op } => resolve_comparison(op, col, value, cols),
        PendingView::And => Ok(ConditionView { idx: 0, value: Value::Int(0), op: OpView::And }),
        PendingView::Or => Ok(ConditionView { idx: 0, value: Value::Int(0), op: OpView::Or }),
    }
}

/// The first `n` pending conditions resolved in order against `cols`; the
/// first one that cannot be resolved gives the error.
pub open spec fn resolve_conditions(pending: Seq<PendingView>, cols: Seq<ColView>, n: int) -> Result<
    Seq<ConditionView>,
    ExecutionError,
>
    decreases n,
{
    if n <= 0 {
        Ok(Seq::empty())
    } else {
        match resolve_conditions(pending, cols, n - 1) {
            Err(e) => Err(e),
            Ok(conds) => match resolve_pending(pending[n - 1], cols) {
                Err(e) => Err(e),
                Ok(c) => Ok(conds.push(c)),
            },
        }
    }
}

/// The rows of which the chain `conds` decides `wanted`.
pub open spec fn decided(conds: Seq<ConditionView>, wanted: bool) -> spec_fn(Seq<Value>) -> bool {
    |row: Seq<Value>| row_decision(conds, row) == Some(wanted)
}

/// The rows of `table` of which the pending conditions decide `wanted`;
/// every row where none is pending. The conditions are resolved against the
/// table's own columns. A malformed chain is an error as soon as there is a
/// row to decide.
pub open spec fn decided_rows(pending: Seq<PendingView>, table: TableView, wanted: bool) -> Result<
    Seq<Seq<Value>>,
    ExecutionError,
> {
    if pending.len() == 0 {
        Ok(table.rows)
    } else {
        match resolve_conditions(pending, table.schema.cols, pending.len() as int) {
            Err(e) => Err(e),
            Ok(conds) => if table.rows.len() > 0 && !chain_well_formed(conds) {
                Err(ExecutionError::MalformedConditionChain)
            } else {
                Ok(table.rows.filter(decided(conds, wanted)))
            },
        }
    }
}

/// The rows of `table` on which the pending conditions hold.
pub open spec fn matching_rows(pending: Seq<PendingView>, table: TableView) -> Result<
    Seq<Seq<Value>>,
    ExecutionError,
> {
    decided_rows(pending, table, true)
}

/// The rows of `table` that stay when those on which the pending conditions
/// hold are deleted.
pub open spec fn remaining_rows(pending: Seq<PendingView>, table: TableView) -> Result<
    Seq<Seq<Value>>,
    ExecutionError,
> {
    decided_rows(pending, table, false)
}

/// The operand `k` places below the top of `words` does not have the type
/// of the column `k` places before the last of `cols`.
pub open spec fn operand_mismatch(words: Seq<Value>, cols: Seq<ColView>, k: int) -> bool {
    !value_matches_type(words[words.len() - 1 - k], cols[cols.len() - 1 - k].data_type)
}

/// The row that `insert` takes from `words`: one operand per column, the
/// topmost for the last column. Operands are checked from the top down, so
/// a mismatch among the operands present is reported before a shortage.
pub open spec fn inserted_row(words: Seq<Value>, cols: Seq<ColView>) -> Result<
    Seq<Value>,
    ExecutionError,
> {
    if exists|k: int| 0 <= k < cols.len() && k < words.len() && operand_mismatch(words, cols, k) {
        Err(ExecutionError::TypeMismatch)
    } else if words.len() < cols.len() {
        Err(ExecutionError::StackUnderflow)
    } else {
        Ok(words.subrange(words.len() - cols.len(), words.len() as int))
    }
}

/// The columns that `create` declares, in declaration order, and the
/// operands it leaves.
pub ghost struct Declared {
    pub cols: Seq<ColView>,
    pub rest: Seq<Value>,
}

/// The columns declared on top of `words`: pairs of a name and a type, the
/// type above its name, read from the top down until the top is no type.
/// A type without an operand below it, or above one that is no text, is an
/// error.
pub open spec fn declared_columns(words: Seq<Value>) -> Result<Declared, ExecutionError>
    decreases words.len(),
{
    if words.len() == 0 {
        Ok(Declared { cols: Seq::empty(), rest: words })
    } else {
        match words.last() {
            Value::Type(data_type) => {
                if words.len() < 2 {
                    Err(ExecutionError::StackUnderflow)
                } else {
                    match words[words.len() - 2] {
                        Value::Text(name) => match declared_columns(
                            words.subrange(0, words.len() - 2),
                        ) {
                            Ok(below) => Ok(
                                Declared {
                                    cols: below.cols.push(ColView { name, data_type }),
                                    rest: below.rest,
                                },
                            ),
                            Err(e) => Err(e),
                        },
                        _ => Err(ExecutionError::TypeMismatch),
                    }
                }
            },
            _ => Ok(Declared { cols: Seq::empty(), rest: words }),
        }
    }
}

/// The outcome of one operation: the next state and catalog, and the name
/// of the table whose files are to be removed, if one was dropped.
pub ghost struct StepView {
    pub state: StateView,
    pub db: DatabaseView,
    pub dropped: Option<Seq<char>>,
}

/// `select`: the table named on top of the stack, reduced to the columns
/// named below it and to the rows on which the pending conditions hold,
/// becomes the selected table. Operands and conditions are cleared.
pub open spec fn select_step(st: StateView, db: DatabaseView) -> Result<StepView, ExecutionError> {
    match target_table(st.words, db.tables) {
        Err(e) => Err(e),
        Ok(t) => {
            let source = db.tables[t];
            match selected_columns(st.words.drop_last(), source.schema.cols) {
                Err(e) => Err(e),
                Ok(idxs) => if idxs.len() == 0 {
                    Err(ExecutionError::MissingArguments)
                } else {
                    match matching_rows(st.conditions, source) {
                        Err(e) => Err(e),
                        Ok(rows) => Ok(
                            StepView {
                                state: StateView {
                                    words: Seq::empty(),
                                    conditions: Seq::empty(),
                                    temp: Some(
                                        TableView {
                                            schema: SchemaView {
                                                name: temp_name(),
                                                cols: project_cols(source.schema.cols, idxs),
                                            },
                                            rows: project_rows(rows, idxs),
                                        },
                                    ),
                                },
                                db,
                                dropped: None,
                            },
                        ),
                    }
                },
            }
        },
    }
}

/// `insert`: the operands below the table name become a new last row of
/// that table. Operands are cleared.
pub open spec fn insert_step(st: StateView, db: DatabaseView) -> Result<StepView, ExecutionError> {
    match target_table(st.words, db.tables) {
        Err(e) => Err(e),
        Ok(t) => {
            let table = db.tables[t];
            match inserted_row(st.words.drop_last(), table.schema.cols) {
                Err(e) => Err(e),
                Ok(row) => Ok(
                    StepView {
                        state: StateView { words: Seq::empty(), ..st },
                        db: DatabaseView {
                            tables: db.tables.update(
                                t,
                                TableView { rows: table.rows.push(row), ..table },
                            ),
                            ..db
                        },
                        dropped: None,
                    },
                ),
            }
        },
    }
}

/// `delete`: the rows of the named table on which the pending conditions
/// hold are removed; the others keep their order. Conditions are cleared.
pub open spec fn delete_step(st: StateView, db: DatabaseView) -> Result<StepView, ExecutionError> {
    match target_table(st.words, db.tables) {
        Err(e) => Err(e),
        Ok(t) => {
            let table = db.tables[t];
            match remaining_rows(st.conditions, table) {
                Err(e) => Err(e),
                Ok(rows) => Ok(
                    StepView {
                        state: StateView {
                            words: st.words.drop_last(),
                            conditions: Seq::empty(),
                            ..st
                        },
                        db: DatabaseView {
                            tables: db.tables.update(t, TableView { rows, ..table }),
                            ..db
                        },
                        dropped: None,
                    },
                ),
            }
        },
    }
}

/// `filter`: the selected table keeps the rows on which the pending
/// conditions hold. Conditions are cleared.
pub open spec fn filter_step(st: StateView, db: DatabaseView) -> Result<StepView, ExecutionError> {
    match st.temp {
        None => Err(ExecutionError::MissingArguments),
        Some(table) => match matching_rows(st.conditions, table) {
            Err(e) => Err(e),
            Ok(rows) => Ok(
                StepView {
                    state: StateView {
                        conditions: Seq::empty(),
                        temp: Some(TableView { rows, ..table }),
                        ..st
                    },
                    db,
                    dropped: None,
                },
            ),
        },
    }
}

/// A comparison operator: the two topmost operands, column below value,
/// leave the stack and become a pending condition.
pub open spec fn compare_step(op: OpView, st: StateView, db: DatabaseView) -> Result<
    StepView,
    ExecutionError,
> {
    if st.words.len() < 2 {
        Err(ExecutionError::StackUnderflow)
    } else {
        let n = st.words.len();
        Ok(
            StepView {
                state: StateView {
                    words: st.words.subrange(0, n - 2),
                    conditions: st.conditions.push(
                        PendingView::Compare { col: st.words[n - 2], value: st.words[n - 1], op },
                    ),
                    ..st
                },
                db,
                dropped: None,
            },
        )
    }
}

/// `create`: a new table without rows, named by the top of the stack, with
/// the columns declared below the name, joins the catalog as its last table.
pub open spec fn create_step(st: StateView, db: DatabaseView) -> Result<StepView, ExecutionError> {
    if st.words.len() == 0 {
        Err(ExecutionError::StackUnderflow)
    } else {
        match st.words.last() {
            Value::Text(name) => match declared_columns(st.words.drop_last()) {
                Err(e) => Err(e),
                Ok(declared) => Ok(
                    StepView {
                        state: StateView { words: declared.rest, ..st },
                        db: DatabaseView {
                            tables: db.tables.push(
                                TableView {
                                    schema: SchemaView { name, cols: declared.cols },
                                    rows: Seq::empty(),
                                },
                            ),
                            ..db
                        },
                        dropped: None,
                    },
                ),
            },
            _ => Err(ExecutionError::TypeMismatch),
        }
    }
}

/// `drop`: the named table leaves the catalog, and its files are to be
/// removed.
pub open spec fn drop_step(st: StateView, db: DatabaseView) -> Result<StepView, ExecutionError> {
    match target_table(st.words, db.tables) {
        Err(e) => Err(e),
        Ok(t) => Ok(
            StepView {
                state: StateView { words: st.words.drop_last(), ..st },
                db: DatabaseView { tables: db.tables.remove(t), ..db },
                dropped: Some(db.tables[t].schema.name),
            },
        ),
    }
}

/// What one operation does to the state and the catalog.
pub open spec fn step(op: OpView, st: StateView, db: DatabaseView) -> Result<StepView, ExecutionError> {
    match op {
        OpView::PushWord { word, .. } => Ok(
            StepView { state: StateView { words: st.words.push(word), ..st }, db, dropped: None },
        ),
        OpView::Select => select_step(st, db),
        OpView::Insert => insert_step(st, db),
        OpView::Delete => delete_step(st, db),
        OpView::Filter => filter_step(st, db),
        OpView::And => Ok(
            StepView {
                state: StateView { conditions: st.conditions.push(PendingView::And), ..st },
                db,
                dropped: None,
            },
        ),
        OpView::Or => Ok(
            StepView {
                state: StateView { conditions: st.conditions.push(PendingView::Or), ..st },
                db,
                dropped: None,
            },
        ),
        OpView::Equal | OpView::NotEqual | OpView::Less | OpView::More => compare_step(op, st, db),
        OpView::Create => create_step(st, db),
        OpView::Drop => drop_step(st, db),
    }
}

/// How a whole query ends: the catalog it leaves, the table it selected or
/// the error that stopped it, the names of the tables it dropped, in the
/// order it dropped them, and how many operands and pending conditions a
/// query that ran to its end left unused.
pub ghost struct OutcomeView {
    pub db: DatabaseView,
    pub result: Result<Option<TableView>, ExecutionError>,
    pub dropped: Seq<Seq<char>>,
    pub unused_words: nat,
    pub unused_conditions: nat,
}

/// The outcome of the operations from position `i` on, started in state
/// `st` on the catalog `db` after the tables in `dropped` were dropped. The
/// first operation that fails ends the query; the catalog stays as the
/// operations before it left it.
pub open spec fn run_from(
    ops: Seq<OpView>,
    i: int,
    st: StateView,
    db: DatabaseView,
    dropped: Seq<Seq<char>>,
) -> OutcomeView
    decreases ops.len() - i,
{
    if i < 0 || i >= ops.len() {
        OutcomeView {
            db,
            result: Ok(st.temp),
            dropped,
            unused_words: st.words.len(),
            unused_conditions: st.conditions.len(),
        }
    } else {
        match step(ops[i], st, db) {
            Err(e) => OutcomeView {
                db,
                result: Err(e),
                dropped,
                unused_words: 0,
                unused_conditions: 0,
            },
            Ok(next) => run_from(
                ops,
                i + 1,
                next.state,
                next.db,
                match next.dropped {
                    Some(name) => dropped.push(name),
                    None => dropped,
                },
            ),
        }
    }
}

/// The outcome of the query `ops` on the catalog `db`.
pub open spec fn run(ops: Seq<OpView>, db: DatabaseView) -> OutcomeView {
    run_from(ops, 0, StateView::initial(), db, Seq::empty())
}

/// Deleting while no condition is pending removes no row: the catalog
/// stays as it is.
pub proof fn lemma_delete_without_conditions(st: StateView, db: DatabaseView)
    requires
        st.conditions.len() == 0,
    ensures
        delete_step(st, db) matches Ok(next) ==> next.db == db,
        delete_step(st, db) is Ok <==> target_table(st.words, db.tables) is Ok,
{
    if let Ok(next) = delete_step(st, db) {
        let t = target_table(st.words, db.tables)->Ok_0;
        lemma_table_index_from(db.tables, st.words.last()->Text_0, 0);
        assert(next.db.tables =~= db.tables);
    }
}

/// What a search for a table from `from` finds: an index of the catalog.
pub proof fn lemma_table_index_from(tables: Seq<TableView>, name: Seq<char>, from: int)
    requires
        0 <= from,
    ensures
        table_index_from(tables, name, from) matches Some(i) ==> from <= i < tables.len()
            && tables[i].schema.name == name,
    decreases tables.len() - from,
{
    if from < tables.len() && tables[from].schema.name != name {
        lemma_table_index_from(tables, name, from + 1);
    }
}

/// A chain that does not leave exactly one decision stops `delete` with
/// `MalformedConditionChain` as soon as the table has a row.
pub proof fn lemma_delete_malformed_chain(st: StateView, db: DatabaseView)
    requires
        st.conditions.len() > 0,
        target_table(st.words, db.tables) is Ok,
        db.tables[target_table(st.words, db.tables)->Ok_0].rows.len() > 0,
        resolve_conditions(
            st.conditions,
            db.tables[target_table(st.words, db.tables)->Ok_0].schema.cols,
            st.conditions.len() as int,
        ) matches Ok(conds) && !chain_well_formed(conds),
    ensures
        delete_step(st, db) == Err::<StepView, ExecutionError>(
            ExecutionError::MalformedConditionChain,
        ),
{
}

/// Every pending comparison holds a comparison operator.
pub open spec fn pending_wf(pending: Seq<PendingView>) -> bool {
    forall|i: int|
        0 <= i < pending.len() ==> (#[trigger] pending[i] matches PendingView::Compare { op, .. }
            ==> op.is_comparison())
}

/// Resolved conditions name columns of the table and hold values of their types.
pub proof fn lemma_resolved_fit(pending: Seq<PendingView>, cols: Seq<ColView>, n: int)
    requires
        pending_wf(pending),
        0 <= n <= pending.len(),
    ensures
        resolve_conditions(pending, cols, n) matches Ok(conds) ==> conds.len() == n
            && conditions_fit_cols(conds, cols),
    decreases n,
{
    if n > 0 {
        lemma_resolved_fit(pending, cols, n - 1);
        if let Ok(conds) = resolve_conditions(pending, cols, n) {
            let before = resolve_conditions(pending, cols, n - 1)->Ok_0;
            let c = resolve_pending(pending[n - 1], cols)->Ok_0;
            assert(conds == before.push(c));
            if let PendingView::Compare { col, value, op } = pending[n - 1] {
                if let Value::Text(name) = col {
                    lemma_col_index_from(cols, name, 0);
                }
            }
            assert forall|i: int| 0 <= i < conds.len() implies {
                let k = #[trigger] conds[i];
                ||| k.op.is_combinator()
                ||| (k.op.is_comparison() && 0 <= k.idx < cols.len() && value_type(k.value) == cols[k.idx].data_type)
            } by {
                if i < n - 1 {
                    assert(conds[i] == before[i]);
                }
            }
        }
    }
}

/// Once a condition could not be resolved, its error is that of the whole list.
pub proof fn lemma_resolve_error_stays(pending: Seq<PendingView>, cols: Seq<ColView>, n: int)
    requires
        0 <= n <= pending.len(),
        resolve_conditions(pending, cols, n) is Err,
    ensures
        resolve_conditions(pending, cols, pending.len() as int) == resolve_conditions(
            pending,
            cols,
            n,
        ),
    decreases pending.len() - n,
{
    if n < pending.len() {
        lemma_resolve_error_stays(pending, cols, n + 1);
    }
}

/// Rows picked out of rows that fit a column list fit it too.
pub proof fn lemma_filter_keeps_fit(
    rows: Seq<Seq<Value>>,
    pred: spec_fn(Seq<Value>) -> bool,
    cols: Seq<ColView>,
)
    requires
        forall|r: int| 0 <= r < rows.len() ==> row_fits(#[trigger] rows[r], cols),
    ensures
        forall|r: int| 0 <= r < rows.filter(pred).len() ==> row_fits(#[trigger] rows.filter(pred)[r], cols),
{
    assert forall|r: int| 0 <= r < rows.filter(pred).len() implies row_fits(
        #[trigger] rows.filter(pred)[r],
        cols,
    ) by {
        let row = rows.filter(pred)[r];
        assert(rows.filter(pred).contains(row));
        rows.lemma_filter_contains_rev(pred, row);
        let k = choose|k: int| 0 <= k < rows.len() && rows[k] == row;
        assert(row_fits(rows[k], cols));
    }
}

/// A row that fits a column list, reduced to some of its positions, fits
/// the columns at those positions.
pub proof fn lemma_projection_fits(row: Seq<Value>, cols: Seq<ColView>, idxs: Seq<int>)
    requires
        row_fits(row, cols),
        forall|k: int| 0 <= k < idxs.len() ==> 0 <= #[trigger] idxs[k] < cols.len(),
    ensures
        row_fits(project_row(row, idxs), project_cols(cols, idxs)),
{
    let out = project_row(row, idxs);
    let picked = project_cols(cols, idxs);
    assert forall|k: int| 0 <= k < out.len() implies value_matches_type(
        out[k],
        #[trigger] picked[k].data_type,
    ) by {
        assert(0 <= idxs[k] < cols.len());
        assert(value_matches_type(row[idxs[k]], cols[idxs[k]].data_type));
    }
}

} // verus!
