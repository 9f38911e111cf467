//! The stack machine that runs a compiled query against the catalog: one
//! handler per operator, each proved to compute what the operator means.

use vstd::prelude::*;
use crate::conditions::{
    chain_well_formed, conditions_fit_cols, conditions_fit_row, evaluate_row, logical_op_check,
    ExecutionError,
};
use crate::model::{
    row_fits, value_matches_type, Col, ColView, Condition, ConditionView, Database, Op, Row,
    Table, TableSchema, TableView, Value, WordType,
};
use crate::semantics::{
    create_step, declared_columns, decided, decided_rows, delete_step, drop_step, insert_step,
    lemma_filter_keeps_fit, lemma_projection_fits, lemma_resolve_error_stays, lemma_resolved_fit,
    matching_rows, named_table, operand_mismatch, pending_wf, project_cols, project_row,
    project_rows, remaining_rows, resolve_conditions, run, run_from, select_step,
    selected_columns, star, step, table_index, table_index_from, target_table, temp_name,
    Declared, PendingView, StateView,
};

verus! {

/// A condition that waits for the table it will be applied to.
#[derive(Debug)]
enum Pending {
    Compare { col: WordType, value: WordType, op: Op },
    And,
    Or,
}

impl View for Pending {
    type V = PendingView;

    closed spec fn view(&self) -> PendingView {
        match *self {
            Pending::Compare { col, value, op } => PendingView::Compare {
                col: col@,
                value: value@,
                op: op@,
            },
            Pending::And => PendingView::And,
            Pending::Or => PendingView::Or,
        }
    }
}

impl DeepView for Pending {
    type V = PendingView;

    closed spec fn deep_view(&self) -> PendingView {
        self@
    }
}

/// The state of the machine between two operations of one query. Only the
/// operations of this module change it.
#[derive(Debug)]
pub struct QueryState {
    words: Vec<WordType>,
    conditions: Vec<Pending>,
    temp_table: Option<Table>,
}

impl View for QueryState {
    type V = StateView;

    closed spec fn view(&self) -> StateView {
        StateView {
            words: self.words.deep_view(),
            conditions: self.conditions.deep_view(),
            temp: match self.temp_table {
                Some(table) => Some(table@),
                None => None,
            },
        }
    }
}

impl QueryState {
    /// The state at the start of a query: nothing pushed, nothing pending,
    /// nothing selected.
    pub fn new() -> (state: QueryState)
        ensures
            state@ == StateView::initial(),
            state@.wf(),
    {
        let state = QueryState { words: Vec::new(), conditions: Vec::new(), temp_table: None };
        assert(state@.words =~= Seq::empty());
        assert(state@.conditions =~= Seq::empty());
        state
    }

    /// The operand stack, the latest push last.
    pub fn words(&self) -> (words: &Vec<WordType>)
        ensures
            words.deep_view() == self@.words,
    {
        &self.words
    }

    /// The number of pending conditions.
    pub fn pending(&self) -> (n: usize)
        ensures
            n == self@.conditions.len(),
    {
        self.conditions.len()
    }

    /// The table that the latest `select` produced, as filtered since.
    pub fn selected(&self) -> (table: &Option<Table>)
        ensures
            table matches Some(found) ==> self@.temp == Some(found@),
            table is None ==> self@.temp is None,
    {
        &self.temp_table
    }

    /// Ends the query: gives up the table that it selected.
    pub fn finish(self) -> (table: Option<Table>)
        ensures
            table matches Some(found) ==> self@.temp == Some(found@),
            table is None ==> self@.temp is None,
    {
        self.temp_table
    }
}

/// Finds the table that the operand `name` names.
pub fn table_name_check(name: WordType, database: &Database) -> (r: Result<usize, ExecutionError>)
    ensures
        r matches Ok(i) ==> i < database.tables.len() && named_table(name@, database@.tables)
            == Ok::<int, ExecutionError>(i as int),
        r matches Err(e) ==> named_table(name@, database@.tables) == Err::<int, ExecutionError>(e),
{
    let table_name = match name {
        WordType::Str(name) => name,
        _ => {
            return Err(ExecutionError::UnknownTable);
        },
    };
    let mut i: usize = 0;
    while i < database.tables.len()
        invariant
            i <= database.tables.len(),
            name@ == Value::Text(table_name@),
            table_index(database@.tables, table_name@) == table_index_from(
                database@.tables,
                table_name@,
                i as int,
            ),
        decreases database.tables.len() - i,
    {
        assert(database@.tables[i as int] == database.tables[i as int]@);
        if table_name == database.tables[i].schema.name {
            return Ok(i);
        }
        i += 1;
    }
    Err(ExecutionError::UnknownTable)
}

/// Takes the table name from the top of the operand stack and finds its table.
fn pop_table(state: &mut QueryState, database: &Database) -> (r: Result<usize, ExecutionError>)
    ensures
        r matches Ok(i) ==> i < database.tables.len() && target_table(
            old(state)@.words,
            database@.tables,
        ) == Ok::<int, ExecutionError>(i as int),
        r matches Err(e) ==> target_table(old(state)@.words, database@.tables) == Err::<
            int,
            ExecutionError,
        >(e),
        r is Ok ==> final(state)@.words == old(state)@.words.drop_last(),
        final(state)@.conditions == old(state)@.conditions,
        final(state)@.temp == old(state)@.temp,
{
    match state.words.pop() {
        None => Err(ExecutionError::StackUnderflow),
        Some(name) => {
            assert(state@.words =~= old(state)@.words.drop_last());
            assert(old(state)@.words.last() == name@);
            table_name_check(name, database)
        },
    }
}

/// Runs a comparison operator: moves the two topmost operands into a new
/// pending condition.
fn push_comparison(op: &Op, state: &mut QueryState) -> (r: Result<(), ExecutionError>)
    requires
        op@.is_comparison(),
        old(state)@.wf(),
    ensures
        old(state)@.words.len() < 2 ==> r == Err::<(), ExecutionError>(
            ExecutionError::StackUnderflow,
        ) && final(state)@ == old(state)@,
        old(state)@.words.len() >= 2 ==> r is Ok && final(state)@ == (StateView {
            words: old(state)@.words.subrange(0, old(state)@.words.len() - 2),
            conditions: old(state)@.conditions.push(
                PendingView::Compare {
                    col: old(state)@.words[old(state)@.words.len() - 2],
                    value: old(state)@.words[old(state)@.words.len() - 1],
                    op: op@,
                },
            ),
            ..old(state)@
        }),
        final(state)@.wf(),
{
    if state.words.len() < 2 {
        return Err(ExecutionError::StackUnderflow);
    }
    let value = state.words.pop().unwrap();
    let col = state.words.pop().unwrap();
    let ghost pending = PendingView::Compare { col: col@, value: value@, op: op@ };
    state.conditions.push(Pending::Compare { col, value, op: op.clone() });
    proof {
        let n = old(state)@.words.len();
        assert(state@.words =~= old(state)@.words.subrange(0, n - 2));
        assert(state@.conditions =~= old(state)@.conditions.push(pending));
    }
    Ok(())
}

/// Appends a combinator to the pending conditions.
fn push_combinator(marker: Pending, state: &mut QueryState)
    requires
        marker is And || marker is Or,
        old(state)@.wf(),
    ensures
        final(state)@ == (StateView {
            conditions: old(state)@.conditions.push(marker@),
            ..old(state)@
        }),
        final(state)@.wf(),
{
    let ghost view = marker@;
    state.conditions.push(marker);
    assert(state@.conditions =~= old(state)@.conditions.push(view));
}

/// Pushes a literal on the operand stack.
fn push_word(word: &WordType, state: &mut QueryState)
    requires
        old(state)@.wf(),
    ensures
        final(state)@ == (StateView { words: old(state)@.words.push(word@), ..old(state)@ }),
        final(state)@.wf(),
{
    state.words.push(word.clone());
    assert(state@.words =~= old(state)@.words.push(word@));
}

/// Resolves every pending condition against the columns of `table`.
fn resolve_all(pending: &Vec<Pending>, table: &Table) -> (r: Result<Vec<Condition>, ExecutionError>)
    requires
        pending_wf(pending.deep_view()),
    ensures
        r matches Ok(conds) ==> resolve_conditions(
            pending.deep_view(),
            table@.schema.cols,
            pending.len() as int,
        ) == Ok::<Seq<ConditionView>, ExecutionError>(conds.deep_view()) && conditions_fit_cols(
            conds.deep_view(),
            table@.schema.cols,
        ),
        r matches Err(e) ==> resolve_conditions(
            pending.deep_view(),
            table@.schema.cols,
            pending.len() as int,
        ) == Err::<Seq<ConditionView>, ExecutionError>(e),
{
    let mut conds: Vec<Condition> = Vec::new();
    let mut i: usize = 0;
    assert(conds.deep_view() =~= Seq::empty());
    while i < pending.len()
        invariant
            i <= pending.len(),
            pending_wf(pending.deep_view()),
            resolve_conditions(pending.deep_view(), table@.schema.cols, i as int) == Ok::<
                Seq<ConditionView>,
                ExecutionError,
            >(conds.deep_view()),
        decreases pending.len() - i,
    {
        assert(pending.deep_view()[i as int] == pending[i as int]@);
        let ghost before = conds.deep_view();
        let resolved = match &pending[i] {
            Pending::Compare { col, value, op } => {
                match logical_op_check(op.clone(), col.clone(), value.clone(), table) {
                    Ok(cond) => cond,
                    Err(e) => {
                        proof {
                            lemma_resolve_error_stays(
                                pending.deep_view(),
                                table@.schema.cols,
                                i as int + 1,
                            );
                        }
                        return Err(e);
                    },
                }
            },
            Pending::And => Condition { idx: 0, value: WordType::Int(0), op: Op::And },
            Pending::Or => Condition { idx: 0, value: WordType::Int(0), op: Op::Or },
        };
        let ghost view = resolved@;
        conds.push(resolved);
        assert(conds.deep_view() =~= before.push(view));
        i += 1;
    }
    proof {
        lemma_resolved_fit(pending.deep_view(), table@.schema.cols, pending.len() as int);
    }
    Ok(conds)
}

/// Keeps, in their order, the rows of which the chain decides `wanted`.
fn retain_rows(rows: &mut Vec<Row>, conds: &Vec<Condition>, wanted: bool)
    requires
        chain_well_formed(conds.deep_view()),
        forall|r: int|
            0 <= r < old(rows).len() ==> conditions_fit_row(
                conds.deep_view(),
                #[trigger] old(rows).deep_view()[r],
            ),
    ensures
        final(rows).deep_view() == old(rows).deep_view().filter(decided(conds.deep_view(), wanted)),
{
    let ghost orig = rows.deep_view();
    let ghost pred = decided(conds.deep_view(), wanted);
    let ghost mut j: int = 0;
    let mut i: usize = 0;
    assert(orig.take(0) =~= Seq::empty());
    assert(rows.deep_view() =~= orig.take(0).filter(pred) + orig.skip(0));
    while i < rows.len()
        invariant
            0 <= j <= orig.len(),
            i <= rows.len(),
            rows.len() - i == orig.len() - j,
            i == orig.take(j).filter(pred).len(),
            rows.deep_view() == orig.take(j).filter(pred) + orig.skip(j),
            pred == decided(conds.deep_view(), wanted),
            chain_well_formed(conds.deep_view()),
            forall|r: int|
                0 <= r < orig.len() ==> conditions_fit_row(conds.deep_view(), #[trigger] orig[r]),
        decreases rows.len() - i,
    {
        let ghost before = rows.deep_view();
        let ghost before_rows = rows@;
        assert(before[i as int] == orig[j]);
        assert(rows[i as int].deep_view() == orig[j]);
        proof {
            crate::conditions::lemma_row_decision_exists(conds.deep_view(), orig[j]);
            assert(orig.take(j + 1) =~= orig.take(j).push(orig[j]));
            orig.take(j).lemma_filter_push(orig[j], pred);
        }
        let keep = match evaluate_row(conds, &rows[i]) {
            Ok(holds) => holds == wanted,
            Err(_) => true,
        };
        assert(keep == pred(orig[j]));
        let ghost kept = orig.take(j).filter(pred);
        assert(orig.skip(j) =~= seq![orig[j]] + orig.skip(j + 1));
        if keep {
            i += 1;
            assert(rows.deep_view() =~= kept.push(orig[j]) + orig.skip(j + 1));
        } else {
            rows.remove(i);
            assert(rows.deep_view() =~= kept + orig.skip(j + 1)) by {
                assert(rows@ =~= before_rows.remove(i as int));
                assert forall|k: int| 0 <= k < rows.len() implies #[trigger] rows.deep_view()[k] == (
                kept + orig.skip(j + 1))[k] by {
                    if k < i {
                        assert(rows@[k] == before_rows[k]);
                        assert(before[k] == before_rows[k].deep_view());
                    } else {
                        assert(rows@[k] == before_rows[k + 1]);
                        assert(before[k + 1] == before_rows[k + 1].deep_view());
                    }
                }
            }
        }
        proof {
            j = j + 1;
        }
    }
    assert(orig.take(j) =~= orig);
    assert(rows.deep_view() =~= orig.filter(pred));
}

/// Reduces `table` to the rows of which the pending conditions decide
/// `wanted`. On an error the table is left as it was.
fn apply_conditions(pending: &Vec<Pending>, table: &mut Table, wanted: bool) -> (r: Result<
    (),
    ExecutionError,
>)
    requires
        pending_wf(pending.deep_view()),
        old(table)@.wf(),
    ensures
        match decided_rows(pending.deep_view(), old(table)@, wanted) {
            Ok(rows) => r is Ok && final(table)@ == (TableView { rows, ..old(table)@ }),
            Err(e) => r == Err::<(), ExecutionError>(e) && final(table)@ == old(table)@,
        },
        final(table)@.wf(),
{
    if pending.len() == 0 {
        return Ok(());
    }
    let conds = match resolve_all(pending, table) {
        Ok(conds) => conds,
        Err(e) => {
            return Err(e);
        },
    };
    if table.rows.len() == 0 {
        assert(table@.rows.filter(decided(conds.deep_view(), wanted)) =~= table@.rows) by {
            table@.rows.lemma_filter_len(decided(conds.deep_view(), wanted));
        }
        return Ok(());
    }
    proof {
        crate::conditions::lemma_conditions_fit(
            conds.deep_view(),
            table@.schema.cols,
            table@.rows[0],
        );
        crate::conditions::lemma_row_decision_exists(conds.deep_view(), table@.rows[0]);
    }
    match evaluate_row(&conds, &table.rows[0]) {
        Ok(_) => {},
        Err(e) => {
            return Err(e);
        },
    }
    proof {
        assert forall|r: int| 0 <= r < table.rows.len() implies conditions_fit_row(
            conds.deep_view(),
            #[trigger] table.rows.deep_view()[r],
        ) by {
            crate::conditions::lemma_conditions_fit(
                conds.deep_view(),
                table@.schema.cols,
                table@.rows[r],
            );
        }
        lemma_filter_keeps_fit(
            table@.rows,
            decided(conds.deep_view(), wanted),
            table@.schema.cols,
        );
    }
    retain_rows(&mut table.rows, &conds, wanted);
    Ok(())
}

/// Runs `filter` on the selected table.
fn run_filter(state: &mut QueryState) -> (r: Result<(), ExecutionError>)
    requires
        old(state)@.wf(),
    ensures
        match old(state)@.temp {
            None => r == Err::<(), ExecutionError>(ExecutionError::MissingArguments),
            Some(table) => match matching_rows(old(state)@.conditions, table) {
                Err(e) => r == Err::<(), ExecutionError>(e),
                Ok(rows) => r is Ok && final(state)@ == (StateView {
                    conditions: Seq::empty(),
                    temp: Some(TableView { rows, ..table }),
                    ..old(state)@
                }),
            },
        },
        final(state)@.wf(),
{
    let mut table = match state.temp_table.take() {
        None => {
            return Err(ExecutionError::MissingArguments);
        },
        Some(table) => table,
    };
    let applied = apply_conditions(&state.conditions, &mut table, true);
    state.temp_table = Some(table);
    match applied {
        Ok(()) => {},
        Err(e) => {
            return Err(e);
        },
    }
    state.conditions.clear();
    assert(state@.conditions =~= Seq::empty());
    assert(state@.words == old(state)@.words);
    Ok(())
}

/// Runs `delete` on the table named on top of the stack.
fn run_delete(state: &mut QueryState, database: &mut Database) -> (r: Result<(), ExecutionError>)
    requires
        old(state)@.wf(),
        old(database)@.wf(),
    ensures
        match delete_step(old(state)@, old(database)@) {
            Ok(next) => r is Ok && final(state)@ == next.state && final(database)@ == next.db,
            Err(e) => r == Err::<(), ExecutionError>(e) && final(database)@ == old(database)@,
        },
        final(state)@.wf(),
        final(database)@.wf(),
{
    let t = match pop_table(state, database) {
        Ok(t) => t,
        Err(e) => {
            return Err(e);
        },
    };
    let ghost before = database@;
    assert(before.tables[t as int] == database.tables[t as int]@);
    assert(before.tables[t as int].wf());
    match apply_conditions(&state.conditions, &mut database.tables[t], false) {
        Ok(()) => {},
        Err(e) => {
            assert(database@.tables =~= before.tables);
            return Err(e);
        },
    }
    state.conditions.clear();
    proof {
        assert(state@.conditions =~= Seq::empty());
        let table = before.tables[t as int];
        let rows = remaining_rows(old(state)@.conditions, table)->Ok_0;
        assert(database@.tables =~= before.tables.update(t as int, TableView { rows, ..table }));
    }
    Ok(())
}

/// Runs `insert` on the table named on top of the stack.
fn run_insert(state: &mut QueryState, database: &mut Database) -> (r: Result<(), ExecutionError>)
    requires
        old(state)@.wf(),
        old(database)@.wf(),
    ensures
        match insert_step(old(state)@, old(database)@) {
            Ok(next) => r is Ok && final(state)@ == next.state && final(database)@ == next.db,
            Err(e) => r == Err::<(), ExecutionError>(e) && final(database)@ == old(database)@,
        },
        final(state)@.wf(),
        final(database)@.wf(),
{
    let t = match pop_table(state, database) {
        Ok(t) => t,
        Err(e) => {
            return Err(e);
        },
    };
    let ghost before = database@;
    let ghost words = state@.words;
    let ghost cols = before.tables[t as int].schema.cols;
    assert(before.tables[t as int] == database.tables[t as int]@);
    let n: usize = database.tables[t].schema.cols.len();
    let have: usize = state.words.len();
    let mut k: usize = 0;
    while k < n
        invariant
            k <= n,
            k <= have,
            t < database.tables.len(),
            n == cols.len(),
            have == words.len(),
            words == state@.words,
            words == old(state)@.words.drop_last(),
            old(state)@.wf(),
            state@.conditions == old(state)@.conditions,
            state@.temp == old(state)@.temp,
            database@ == old(database)@,
            database@.wf(),
            target_table(old(state)@.words, database@.tables) == Ok::<int, ExecutionError>(t as int),
            cols == database@.tables[t as int].schema.cols,
            cols == database.tables[t as int]@.schema.cols,
            forall|j: int| 0 <= j < k ==> !operand_mismatch(words, cols, j),
        decreases n - k,
    {
        if k >= have {
            return Err(ExecutionError::StackUnderflow);
        }
        let word = &state.words[have - 1 - k];
        let col = &database.tables[t].schema.cols[n - 1 - k];
        assert(words[have - 1 - k] == word@);
        assert(cols[n - 1 - k] == col@);
        if !word.matches_type(col.data_type) {
            assert(operand_mismatch(words, cols, k as int));
            return Err(ExecutionError::TypeMismatch);
        }
        k += 1;
    }
    let row = state.words.split_off(have - n);
    state.words.clear();
    let ghost row_view = row.deep_view();
    proof {
        assert(row_view =~= words.subrange(have - n, have as int));
        assert(state@.words =~= Seq::empty());
        assert(row_fits(row_view, cols)) by {
            assert forall|i: int| 0 <= i < row_view.len() implies value_matches_type(
                row_view[i],
                #[trigger] cols[i].data_type,
            ) by {
                assert(!operand_mismatch(words, cols, n - 1 - i));
            }
        }
    }
    let ghost rows_before = database.tables[t as int].rows.deep_view();
    database.tables[t].rows.push(row);
    proof {
        let table = before.tables[t as int];
        assert(database.tables[t as int].rows.deep_view() =~= rows_before.push(row_view));
        assert(database@.tables =~= before.tables.update(
            t as int,
            TableView { rows: table.rows.push(row_view), ..table },
        ));
        assert(database@.tables[t as int].wf());
    }
    Ok(())
}

/// Runs `drop`: removes the named table and gives back its name.
fn run_drop(state: &mut QueryState, database: &mut Database) -> (r: Result<String, ExecutionError>)
    requires
        old(state)@.wf(),
        old(database)@.wf(),
    ensures
        match drop_step(old(state)@, old(database)@) {
            Ok(next) => r matches Ok(name) && Some(name@) == next.dropped && final(state)@
                == next.state && final(database)@ == next.db,
            Err(e) => r == Err::<String, ExecutionError>(e) && final(database)@ == old(database)@,
        },
        final(state)@.wf(),
        final(database)@.wf(),
{
    let t = match pop_table(state, database) {
        Ok(t) => t,
        Err(e) => {
            return Err(e);
        },
    };
    let ghost before = database@;
    let table = database.tables.remove(t);
    proof {
        assert(before.tables[t as int] == table@);
        assert(database@.tables =~= before.tables.remove(t as int));
    }
    Ok(table.schema.name)
}

/// Runs `create`: registers a new table without rows.
fn run_create(state: &mut QueryState, database: &mut Database) -> (r: Result<(), ExecutionError>)
    requires
        old(state)@.wf(),
        old(database)@.wf(),
    ensures
        match create_step(old(state)@, old(database)@) {
            Ok(next) => r is Ok && final(state)@ == next.state && final(database)@ == next.db,
            Err(e) => r == Err::<(), ExecutionError>(e) && final(database)@ == old(database)@,
        },
        final(state)@.wf(),
        final(database)@.wf(),
{
    let name = match state.words.pop() {
        None => {
            return Err(ExecutionError::StackUnderflow);
        },
        Some(WordType::Str(name)) => name,
        Some(_) => {
            return Err(ExecutionError::TypeMismatch);
        },
    };
    let ghost below = state@.words;
    assert(below =~= old(state)@.words.drop_last());
    assert(old(state)@.words.last() == Value::Text(name@));
    // The columns read so far, the one declared last first.
    let mut read: Vec<Col> = Vec::new();
    let ghost mut declared: Seq<ColView> = Seq::empty();
    loop
        invariant
            old(state)@.words.len() > 0,
            old(state)@.words.last() == Value::Text(name@),
            below == old(state)@.words.drop_last(),
            old(state)@.wf(),
            old(database)@.wf(),
            state@.conditions == old(state)@.conditions,
            state@.temp == old(state)@.temp,
            database@ == old(database)@,
            declared.len() == read.len(),
            forall|i: int| 0 <= i < declared.len() ==> declared[i] == #[trigger] read.deep_view()[
                read.len() - 1 - i],
            match declared_columns(state@.words) {
                Ok(d) => declared_columns(below) == Ok::<Declared, ExecutionError>(
                    Declared { cols: d.cols + declared, rest: d.rest },
                ),
                Err(e) => declared_columns(below) == Err::<Declared, ExecutionError>(e),
            },
        ensures
            state@.conditions == old(state)@.conditions,
            state@.temp == old(state)@.temp,
            database@ == old(database)@,
            declared.len() == read.len(),
            forall|i: int| 0 <= i < declared.len() ==> declared[i] == #[trigger] read.deep_view()[
                read.len() - 1 - i],
            declared_columns(below) == Ok::<Declared, ExecutionError>(
                Declared { cols: declared, rest: state@.words },
            ),
        decreases state.words.len(),
    {
        let n: usize = state.words.len();
        let ghost words = state@.words;
        if n == 0 {
            assert(Seq::<ColView>::empty() + declared =~= declared);
            break;
        }
        assert(words[n - 1] == state.words[n - 1]@);
        let data_type = match &state.words[n - 1] {
            WordType::Type(data_type) => *data_type,
            _ => {
                assert(Seq::<ColView>::empty() + declared =~= declared);
                break;
            },
        };
        if n < 2 {
            return Err(ExecutionError::StackUnderflow);
        }
        state.words.pop();
        let col_name = match state.words.pop() {
            Some(WordType::Str(col_name)) => col_name,
            _ => {
                return Err(ExecutionError::TypeMismatch);
            },
        };
        let ghost col = ColView { name: col_name@, data_type };
        let ghost read_before = read.deep_view();
        read.push(Col { name: col_name, data_type });
        proof {
            assert(state@.words =~= words.subrange(0, n - 2));
            assert(words[n - 2] == Value::Text(col_name@));
            assert(read.deep_view() =~= read_before.push(col));
            let longer = seq![col] + declared;
            assert forall|i: int| 0 <= i < longer.len() implies longer[i] == #[trigger] read.deep_view()[
                read.len() - 1 - i] by {
                if i > 0 {
                    assert(longer[i] == declared[i - 1]);
                    assert(declared[i - 1] == read_before[read_before.len() - 1 - (i - 1)]);
                }
            }
            if let Ok(d) = declared_columns(state@.words) {
                assert(d.cols.push(col) + declared =~= d.cols + longer);
            }
            declared = longer;
        }
    }
    let mut cols: Vec<Col> = Vec::new();
    assert(cols.deep_view() =~= declared.take(0));
    while read.len() > 0
        invariant
            declared.len() == read.len() + cols.len(),
            cols.deep_view() == declared.take(cols.len() as int),
            forall|i: int|
                cols.len() <= i < declared.len() ==> declared[i] == #[trigger] read.deep_view()[
                    declared.len() - 1 - i],
        decreases read.len(),
    {
        let ghost read_before = read.deep_view();
        let ghost cols_before = cols.deep_view();
        assert(read.deep_view()[declared.len() - 1 - cols.len()] == declared[cols.len() as int]);
        let col = read.pop().unwrap();
        let ghost view = col@;
        assert(view == read_before[read_before.len() - 1]);
        cols.push(col);
        proof {
            assert(cols.deep_view() =~= cols_before.push(view));
            assert(cols.deep_view() =~= declared.take(cols.len() as int));
            assert forall|i: int| cols.len() <= i < declared.len() implies declared[i]
                == #[trigger] read.deep_view()[declared.len() - 1 - i] by {
                assert(read.deep_view()[declared.len() - 1 - i] == read_before[declared.len() - 1
                    - i]);
            }
        }
    }
    assert(cols.deep_view() =~= declared);
    let ghost before = database@;
    let table = Table { schema: TableSchema { name, cols }, rows: Vec::new() };
    let ghost view = table@;
    assert(view.rows =~= Seq::empty());
    database.tables.push(table);
    assert(database@.tables =~= before.tables.push(view));
    Ok(())
}

/// The positions that a vector of indices holds.
pub open spec fn as_ints(v: Seq<usize>) -> Seq<int> {
    Seq::new(v.len(), |i: int| v[i] as int)
}

/// Reads the column names on top of `words` as positions in `cols`.
fn pick_columns(words: &Vec<WordType>, cols: &Vec<Col>) -> (r: Result<Vec<usize>, ExecutionError>)
    ensures
        r matches Ok(idxs) ==> selected_columns(words.deep_view(), cols.deep_view()) == Ok::<
            Seq<int>,
            ExecutionError,
        >(as_ints(idxs@)) && forall|k: int| 0 <= k < idxs.len() ==> #[trigger] idxs[k] < cols.len(),
        r matches Err(e) ==> selected_columns(words.deep_view(), cols.deep_view()) == Err::<
            Seq<int>,
            ExecutionError,
        >(e),
{
    let every = "*".to_owned();
    proof {
        reveal_strlit("*");
        assert(every@ =~= star());
    }
    let ghost all = words.deep_view();
    let ghost columns = cols.deep_view();
    // The positions read so far, the one named last first.
    let mut read: Vec<usize> = Vec::new();
    let ghost mut tail: Seq<int> = Seq::empty();
    let mut pos: usize = words.len();
    assert(all.take(pos as int) =~= all);
    while pos > 0
        invariant
            pos <= words.len(),
            all == words.deep_view(),
            columns == cols.deep_view(),
            every@ == star(),
            tail.len() == read.len(),
            forall|i: int| 0 <= i < tail.len() ==> tail[i] == #[trigger] read[read.len() - 1 - i],
            forall|i: int| 0 <= i < read.len() ==> #[trigger] read[i] < cols.len(),
            match selected_columns(all.take(pos as int), columns) {
                Ok(idxs) => selected_columns(all, columns) == Ok::<Seq<int>, ExecutionError>(
                    idxs + tail,
                ),
                Err(e) => selected_columns(all, columns) == Err::<Seq<int>, ExecutionError>(e),
            },
        ensures
            tail.len() == read.len(),
            forall|i: int| 0 <= i < tail.len() ==> tail[i] == #[trigger] read[read.len() - 1 - i],
            forall|i: int| 0 <= i < read.len() ==> #[trigger] read[i] < cols.len(),
            selected_columns(all, columns) == Ok::<Seq<int>, ExecutionError>(tail),
        decreases pos,
    {
        let ghost here = all.take(pos as int);
        assert(here.last() == words[pos - 1]@);
        assert(here.drop_last() =~= all.take(pos - 1));
        let name = match &words[pos - 1] {
            WordType::Str(name) => name,
            _ => {
                assert(Seq::<int>::empty() + tail =~= tail);
                break;
            },
        };
        let ghost read_before = read@;
        if *name == every {
            let ghost whole = Seq::new(columns.len(), |i: int| i);
            let mut c: usize = cols.len();
            while c > 0
                invariant
                    c <= cols.len(),
                    read.len() == read_before.len() + (cols.len() - c),
                    forall|i: int| 0 <= i < read_before.len() ==> read[i] == read_before[i],
                    forall|i: int| 0 <= i < read.len() ==> #[trigger] read[i] < cols.len(),
                    forall|i: int|
                        read_before.len() <= i < read.len() ==> #[trigger] read[i] == cols.len() - 1
                            - (i - read_before.len()),
                decreases c,
            {
                c -= 1;
                read.push(c);
            }
            proof {
                let longer = whole + tail;
                assert forall|i: int| 0 <= i < longer.len() implies longer[i] == #[trigger] read[
                    read.len() - 1 - i] by {
                    if i >= whole.len() {
                        assert(longer[i] == tail[i - whole.len()]);
                        assert(tail[i - whole.len()] == read_before[read_before.len() - 1 - (i
                            - whole.len())]);
                    }
                }
                if let Ok(idxs) = selected_columns(all.take(pos - 1), columns) {
                    assert((idxs + whole) + tail =~= idxs + longer);
                }
                tail = longer;
            }
        } else {
            let idx = match crate::conditions::find_col(cols, name) {
                Some(idx) => idx,
                None => {
                    return Err(ExecutionError::UnknownColumn);
                },
            };
            read.push(idx);
            proof {
                let longer = seq![idx as int] + tail;
                assert forall|i: int| 0 <= i < longer.len() implies longer[i] == #[trigger] read[
                    read.len() - 1 - i] by {
                    if i > 0 {
                        assert(longer[i] == tail[i - 1]);
                        assert(tail[i - 1] == read_before[read_before.len() - 1 - (i - 1)]);
                    }
                }
                if let Ok(idxs) = selected_columns(all.take(pos - 1), columns) {
                    assert(idxs.push(idx as int) + tail =~= idxs + longer);
                }
                tail = longer;
            }
        }
        pos -= 1;
    }
    let mut idxs: Vec<usize> = Vec::new();
    while read.len() > 0
        invariant
            tail.len() == read.len() + idxs.len(),
            as_ints(idxs@) == tail.take(idxs.len() as int),
            forall|i: int| idxs.len() <= i < tail.len() ==> tail[i] == #[trigger] read[tail.len() - 1 - i],
            forall|i: int| 0 <= i < read.len() ==> #[trigger] read[i] < cols.len(),
            forall|i: int| 0 <= i < idxs.len() ==> #[trigger] idxs[i] < cols.len(),
        decreases read.len(),
    {
        let ghost read_before = read@;
        let ghost idxs_before = idxs@;
        assert(read[tail.len() - 1 - idxs.len()] == tail[idxs.len() as int]);
        let idx = read.pop().unwrap();
        idxs.push(idx);
        proof {
            assert(as_ints(idxs@) =~= as_ints(idxs_before).push(idx as int));
            assert(as_ints(idxs@) =~= tail.take(idxs.len() as int));
            assert forall|i: int| idxs.len() <= i < tail.len() implies tail[i] == #[trigger] read[
                tail.len() - 1 - i] by {
                assert(read[tail.len() - 1 - i] == read_before[tail.len() - 1 - i]);
            }
        }
    }
    assert(as_ints(idxs@) =~= tail);
    Ok(idxs)
}

/// Copies the values of `row` at the positions `idxs`.
fn project(row: &Row, idxs: &Vec<usize>) -> (out: Row)
    requires
        forall|k: int| 0 <= k < idxs.len() ==> #[trigger] idxs[k] < row.len(),
    ensures
        out.deep_view() == project_row(row.deep_view(), as_ints(idxs@)),
{
    let mut out: Row = Vec::new();
    let mut k: usize = 0;
    while k < idxs.len()
        invariant
            k <= idxs.len(),
            out.len() == k,
            forall|j: int| 0 <= j < idxs.len() ==> #[trigger] idxs[j] < row.len(),
            forall|j: int| 0 <= j < k ==> #[trigger] out[j]@ == row[idxs[j] as int]@,
        decreases idxs.len() - k,
    {
        out.push(row[idxs[k]].clone());
        k += 1;
    }
    assert(out.deep_view() =~= project_row(row.deep_view(), as_ints(idxs@)));
    out
}

/// Copies the columns of `cols` at the positions `idxs`.
fn project_schema(cols: &Vec<Col>, idxs: &Vec<usize>) -> (out: Vec<Col>)
    requires
        forall|k: int| 0 <= k < idxs.len() ==> #[trigger] idxs[k] < cols.len(),
    ensures
        out.deep_view() == project_cols(cols.deep_view(), as_ints(idxs@)),
{
    let mut out: Vec<Col> = Vec::new();
    let mut k: usize = 0;
    while k < idxs.len()
        invariant
            k <= idxs.len(),
            out.len() == k,
            forall|j: int| 0 <= j < idxs.len() ==> #[trigger] idxs[j] < cols.len(),
            forall|j: int| 0 <= j < k ==> #[trigger] out[j]@ == cols[idxs[j] as int]@,
        decreases idxs.len() - k,
    {
        out.push(cols[idxs[k]].clone());
        k += 1;
    }
    assert(out.deep_view() =~= project_cols(cols.deep_view(), as_ints(idxs@)));
    out
}

/// Copies, reduced to the positions `idxs`, the rows of `table` on which
/// the chain `conds` holds; every row where there is no chain.
fn copy_rows(table: &Table, idxs: &Vec<usize>, conds: &Option<Vec<Condition>>) -> (out: Vec<Row>)
    requires
        table@.wf(),
        forall|k: int| 0 <= k < idxs.len() ==> #[trigger] idxs[k] < table.schema.cols.len(),
        conds matches Some(chain) ==> conditions_fit_cols(chain.deep_view(), table@.schema.cols) && (
        table.rows.len() > 0 ==> chain_well_formed(chain.deep_view())),
    ensures
        out.deep_view() == project_rows(
            match conds {
                Some(chain) => table@.rows.filter(decided(chain.deep_view(), true)),
                None => table@.rows,
            },
            as_ints(idxs@),
        ),
        forall|r: int|
            0 <= r < out.len() ==> row_fits(
                #[trigger] out.deep_view()[r],
                project_cols(table@.schema.cols, as_ints(idxs@)),
            ),
{
    let ghost rows = table@.rows;
    let ghost cols = table@.schema.cols;
    let ghost picked = as_ints(idxs@);
    let mut out: Vec<Row> = Vec::new();
    let ghost mut kept: Seq<Seq<Value>> = Seq::empty();
    let mut i: usize = 0;
    proof {
        assert(rows.take(0) =~= Seq::empty());
        assert(out.deep_view() =~= project_rows(kept, picked));
    }
    while i < table.rows.len()
        invariant
            i <= table.rows.len(),
            rows == table@.rows,
            cols == table@.schema.cols,
            picked == as_ints(idxs@),
            table@.wf(),
            forall|k: int| 0 <= k < idxs.len() ==> #[trigger] idxs[k] < table.schema.cols.len(),
            conds matches Some(chain) ==> conditions_fit_cols(chain.deep_view(), cols) && (
            table.rows.len() > 0 ==> chain_well_formed(chain.deep_view())),
            kept == match conds {
                Some(chain) => rows.take(i as int).filter(decided(chain.deep_view(), true)),
                None => rows.take(i as int),
            },
            out.deep_view() == project_rows(kept, picked),
            forall|r: int|
                0 <= r < out.len() ==> row_fits(
                    #[trigger] out.deep_view()[r],
                    project_cols(cols, picked),
                ),
        decreases table.rows.len() - i,
    {
        let row = &table.rows[i];
        let ghost view = row.deep_view();
        assert(rows[i as int] == view);
        assert(row_fits(view, cols));
        assert(rows.take(i + 1) =~= rows.take(i as int).push(view));
        let keep = match conds {
            None => true,
            Some(chain) => {
                proof {
                    crate::conditions::lemma_conditions_fit(chain.deep_view(), cols, view);
                    crate::conditions::lemma_row_decision_exists(chain.deep_view(), view);
                    rows.take(i as int).lemma_filter_push(view, decided(chain.deep_view(), true));
                }
                match evaluate_row(chain, row) {
                    Ok(holds) => holds,
                    Err(_) => false,
                }
            },
        };
        if keep {
            let ghost out_before = out.deep_view();
            let copy = project(row, idxs);
            let ghost copy_view = copy.deep_view();
            out.push(copy);
            proof {
                lemma_projection_fits(view, cols, picked);
                assert(out.deep_view() =~= out_before.push(copy_view));
                assert(project_rows(kept.push(view), picked) =~= project_rows(kept, picked).push(
                    project_row(view, picked),
                ));
                kept = kept.push(view);
            }
        }
        i += 1;
    }
    assert(rows.take(i as int) =~= rows);
    out
}

/// Runs `select` on the table named on top of the stack.
fn run_select(state: &mut QueryState, database: &Database) -> (r: Result<(), ExecutionError>)
    requires
        old(state)@.wf(),
        database@.wf(),
    ensures
        match select_step(old(state)@, database@) {
            Ok(next) => r is Ok && final(state)@ == next.state,
            Err(e) => r == Err::<(), ExecutionError>(e),
        },
        final(state)@.wf(),
{
    let t = match pop_table(state, database) {
        Ok(t) => t,
        Err(e) => {
            return Err(e);
        },
    };
    let source = &database.tables[t];
    assert(database@.tables[t as int] == source@);
    let idxs = match pick_columns(&state.words, &source.schema.cols) {
        Ok(idxs) => idxs,
        Err(e) => {
            return Err(e);
        },
    };
    if idxs.len() == 0 {
        return Err(ExecutionError::MissingArguments);
    }
    let conds = if state.conditions.len() == 0 {
        None
    } else {
        match resolve_all(&state.conditions, source) {
            Ok(chain) => {
                if source.rows.len() > 0 {
                    proof {
                        crate::conditions::lemma_conditions_fit(
                            chain.deep_view(),
                            source@.schema.cols,
                            source@.rows[0],
                        );
                        crate::conditions::lemma_row_decision_exists(
                            chain.deep_view(),
                            source@.rows[0],
                        );
                    }
                    match evaluate_row(&chain, &source.rows[0]) {
                        Ok(_) => {},
                        Err(e) => {
                            return Err(e);
                        },
                    }
                }
                Some(chain)
            },
            Err(e) => {
                return Err(e);
            },
        }
    };
    let cols = project_schema(&source.schema.cols, &idxs);
    let rows = copy_rows(source, &idxs, &conds);
    let name = "temp".to_owned();
    proof {
        reveal_strlit("temp");
        assert(name@ =~= temp_name());
    }
    state.temp_table = Some(Table { schema: TableSchema { name, cols }, rows });
    state.words.clear();
    state.conditions.clear();
    proof {
        assert(state@.words =~= Seq::empty());
        assert(state@.conditions =~= Seq::empty());
    }
    Ok(())
}

/// Runs one operation.
///
/// On success the state and the catalog are those that [`step`] gives, and
/// the result is the name of the table that was dropped, if one was: its
/// files are to be removed. On an error the catalog is left as it was.
pub fn execute_op(op: &Op, state: &mut QueryState, database: &mut Database) -> (r: Result<
    Option<String>,
    ExecutionError,
>)
    requires
        old(state)@.wf(),
        old(database)@.wf(),
    ensures
        match step(op@, old(state)@, old(database)@) {
            Ok(next) => r matches Ok(dropped) && dropped.deep_view() == next.dropped
                && final(state)@ == next.state && final(database)@ == next.db,
            Err(e) => r == Err::<Option<String>, ExecutionError>(e)
                && final(database)@ == old(database)@,
        },
        final(state)@.wf(),
        final(database)@.wf(),
{
    match op {
        Op::PushWord { data_type: _, word_type } => {
            push_word(word_type, state);
            Ok(None)
        },
        Op::Select => match run_select(state, database) {
            Ok(()) => Ok(None),
            Err(e) => Err(e),
        },
        Op::Insert => match run_insert(state, database) {
            Ok(()) => Ok(None),
            Err(e) => Err(e),
        },
        Op::Delete => match run_delete(state, database) {
            Ok(()) => Ok(None),
            Err(e) => Err(e),
        },
        Op::Filter => match run_filter(state) {
            Ok(()) => Ok(None),
            Err(e) => Err(e),
        },
        Op::And => {
            push_combinator(Pending::And, state);
            Ok(None)
        },
        Op::Or => {
            push_combinator(Pending::Or, state);
            Ok(None)
        },
        Op::Equal | Op::NotEqual | Op::Less | Op::More => match push_comparison(op, state) {
            Ok(()) => Ok(None),
            Err(e) => Err(e),
        },
        Op::Create => match run_create(state, database) {
            Ok(()) => Ok(None),
            Err(e) => Err(e),
        },
        Op::Drop => match run_drop(state, database) {
            Ok(name) => Ok(Some(name)),
            Err(e) => Err(e),
        },
    }
}

/// How a query ended.
#[derive(Debug)]
pub struct QueryOutcome {
    /// The table that the query selected, if it selected one, or the error
    /// that stopped it.
    pub result: Result<Option<Table>, ExecutionError>,
    /// The names of the tables that the query dropped, in the order it
    /// dropped them: their files are to be removed.
    pub dropped: Vec<String>,
    /// The number of operands that a query that ran to its end left unused.
    pub unused_words: usize,
    /// The number of pending conditions that it left unused.
    pub unused_conditions: usize,
}

impl QueryOutcome {
    /// What the result stands for.
    pub open spec fn result_view(&self) -> Result<Option<TableView>, ExecutionError> {
        match self.result {
            Ok(Some(table)) => Ok(Some(table@)),
            Ok(None) => Ok(None),
            Err(e) => Err(e),
        }
    }
}

/// Runs a compiled query against the catalog, operation by operation, and
/// stops at the first that fails. What earlier operations did to the
/// catalog stays done.
pub fn execute_query(ops: &Vec<Op>, database: &mut Database) -> (out: QueryOutcome)
    requires
        old(database)@.wf(),
    ensures
        final(database)@ == run(ops.deep_view(), old(database)@).db,
        out.result_view() == run(ops.deep_view(), old(database)@).result,
        out.dropped.deep_view() == run(ops.deep_view(), old(database)@).dropped,
        out.unused_words == run(ops.deep_view(), old(database)@).unused_words,
        out.unused_conditions == run(ops.deep_view(), old(database)@).unused_conditions,
        final(database)@.wf(),
{
    let mut state = QueryState::new();
    let mut dropped: Vec<String> = Vec::new();
    let mut i: usize = 0;
    assert(dropped.deep_view() =~= Seq::empty());
    while i < ops.len()
        invariant
            i <= ops.len(),
            state@.wf(),
            database@.wf(),
            run(ops.deep_view(), old(database)@) == run_from(
                ops.deep_view(),
                i as int,
                state@,
                database@,
                dropped.deep_view(),
            ),
        decreases ops.len() - i,
    {
        assert(ops.deep_view()[i as int] == ops[i as int]@);
        let ghost names = dropped.deep_view();
        match execute_op(&ops[i], &mut state, database) {
            Ok(Some(name)) => {
                let ghost view = name@;
                dropped.push(name);
                assert(dropped.deep_view() =~= names.push(view));
            },
            Ok(None) => {},
            Err(e) => {
                return QueryOutcome {
                    result: Err(e),
                    dropped,
                    unused_words: 0,
                    unused_conditions: 0,
                };
            },
        }
        i += 1;
    }
    QueryOutcome {
        unused_words: state.words.len(),
        unused_conditions: state.conditions.len(),
        result: Ok(state.temp_table),
        dropped,
    }
}

} // verus!
