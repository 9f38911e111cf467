//! Comparison predicates over one column of a row, and the postfix chains
//! that combine them with `and` and `or`.

use vstd::prelude::*;
use crate::model::{value_type, Col, ColView, Condition, ConditionView, DataType, Op, OpView, Row, Table, Value, WordType};
use crate::text::chars_of;

verus! {

/// Why a query stopped.
#[derive(Debug, Clone, Copy, PartialEq, Eq, Structural)]
pub enum ExecutionError {
    /// `select` named a table but no column, or `filter` came before any `select`.
    MissingArguments,
    /// The operand given as a table name is no text, or names no table.
    UnknownTable,
    /// A name that should be a column of the table is none.
    UnknownColumn,
    /// An operand has another variant than its place asks for.
    TypeMismatch,
    /// The pending conditions do not combine into exactly one decision.
    MalformedConditionChain,
    /// An operation needed more operands than the stack holds.
    StackUnderflow,
}

/// The index of the first column at or after `from` that is called `name`.
pub open spec fn col_index_from(cols: Seq<ColView>, name: Seq<char>, from: int) -> Option<int>
    decreases cols.len() - from,
{
    if from >= cols.len() {
        None
    } else if from >= 0 && cols[from].name == name {
        Some(from)
    } else {
        col_index_from(cols, name, from + 1)
    }
}

/// The index of the first column called `name`.
pub open spec fn col_index(cols: Seq<ColView>, name: Seq<char>) -> Option<int> {
    col_index_from(cols, name, 0)
}

/// What a search from `from` finds: the first match, or that there is none.
pub proof fn lemma_col_index_from(cols: Seq<ColView>, name: Seq<char>, from: int)
    requires
        0 <= from,
    ensures
        match col_index_from(cols, name, from) {
            Some(i) => from <= i < cols.len() && cols[i].name == name && forall|j: int|
                from <= j < i ==> (#[trigger] cols[j]).name != name,
            None => forall|j: int| from <= j < cols.len() ==> (#[trigger] cols[j]).name != name,
        },
    decreases cols.len() - from,
{
    if from < cols.len() && cols[from].name != name {
        lemma_col_index_from(cols, name, from + 1);
    }
}

/// Finds the first column called `name`.
pub fn find_col(cols: &Vec<Col>, name: &String) -> (r: Option<usize>)
    ensures
        r matches Some(i) ==> col_index(cols.deep_view(), name@) == Some(i as int),
        r is None ==> col_index(cols.deep_view(), name@) is None,
        r matches Some(i) ==> i < cols.len(),
{
    let mut i: usize = 0;
    while i < cols.len()
        invariant
            i <= cols.len(),
            col_index(cols.deep_view(), name@) == col_index_from(cols.deep_view(), name@, i as int),
        decreases cols.len() - i,
    {
        if cols[i].name == *name {
            return Some(i);
        }
        i += 1;
    }
    None
}

/// The rank of a column type among the column types, in declaration order.
pub open spec fn type_rank(t: DataType) -> int {
    match t {
        DataType::Int => 0,
        DataType::Str => 1,
        DataType::Type => 2,
    }
}

/// Lexicographic order of two texts by code point, from position `i` on,
/// given that they agree before it.
pub open spec fn text_le_from(a: Seq<char>, b: Seq<char>, i: int) -> bool
    decreases a.len() - i,
{
    if i >= a.len() {
        true
    } else if i >= b.len() || i < 0 {
        false
    } else if a[i] != b[i] {
        (a[i] as u32) < (b[i] as u32)
    } else {
        text_le_from(a, b, i + 1)
    }
}

/// `a` comes before `b` in lexicographic order by code point, or equals it.
pub open spec fn text_le(a: Seq<char>, b: Seq<char>) -> bool {
    text_le_from(a, b, 0)
}

/// Order within one variant: integers by value, texts lexicographically,
/// type names by rank. Values of different variants are not ordered.
pub open spec fn value_le(a: Value, b: Value) -> bool {
    match (a, b) {
        (Value::Int(x), Value::Int(y)) => x <= y,
        (Value::Text(x), Value::Text(y)) => text_le(x, y),
        (Value::Type(x), Value::Type(y)) => type_rank(x) <= type_rank(y),
        _ => false,
    }
}

/// What a comparison operator says of a row's value `a` and the value `b`
/// that the query gave: `<` admits equality, and so does `>`.
pub open spec fn comparison_holds(op: OpView, a: Value, b: Value) -> bool {
    match op {
        OpView::Equal => a == b,
        OpView::NotEqual => a != b,
        OpView::Less => value_le(a, b),
        OpView::More => value_le(b, a),
        _ => false,
    }
}

fn text_le_exec(a: &String, b: &String) -> (r: bool)
    ensures
        r == text_le(a@, b@),
{
    let x = chars_of(a.as_str());
    let y = chars_of(b.as_str());
    let mut i: usize = 0;
    while i < x.len()
        invariant
            x@ == a@,
            y@ == b@,
            i <= x.len(),
            text_le(a@, b@) == text_le_from(a@, b@, i as int),
        decreases x.len() - i,
    {
        if i >= y.len() {
            return false;
        }
        if x[i] != y[i] {
            return (x[i] as u32) < (y[i] as u32);
        }
        i += 1;
    }
    true
}

fn type_rank_exec(t: DataType) -> (r: u8)
    ensures
        r == type_rank(t),
{
    match t {
        DataType::Int => 0,
        DataType::Str => 1,
        DataType::Type => 2,
    }
}

/// Tells whether two values are the same value.
pub fn values_equal(a: &WordType, b: &WordType) -> (r: bool)
    ensures
        r == (a@ == b@),
{
    match (a, b) {
        (WordType::Int(x), WordType::Int(y)) => *x == *y,
        (WordType::Str(x), WordType::Str(y)) => *x == *y,
        (WordType::Type(x), WordType::Type(y)) => *x == *y,
        _ => false,
    }
}

fn value_le_exec(a: &WordType, b: &WordType) -> (r: bool)
    ensures
        r == value_le(a@, b@),
{
    match (a, b) {
        (WordType::Int(x), WordType::Int(y)) => *x <= *y,
        (WordType::Str(x), WordType::Str(y)) => text_le_exec(x, y),
        (WordType::Type(x), WordType::Type(y)) => type_rank_exec(*x) <= type_rank_exec(*y),
        _ => false,
    }
}

/// Decides one comparison between a row's value `a` and a query's value `b`.
/// Values of different variants are never compared: that is a type error.
pub fn filter_condition(a: &WordType, b: &WordType, condition: Op) -> (r: Result<bool, ExecutionError>)
    requires
        condition@.is_comparison(),
    ensures
        value_type(a@) == value_type(b@) ==> r == Ok::<bool, ExecutionError>(
            comparison_holds(condition@, a@, b@),
        ),
        value_type(a@) != value_type(b@) ==> r == Err::<bool, ExecutionError>(
            ExecutionError::TypeMismatch,
        ),
{
    if a.data_type() != b.data_type() {
        return Err(ExecutionError::TypeMismatch);
    }
    match condition {
        Op::Equal => Ok(values_equal(a, b)),
        Op::NotEqual => Ok(!values_equal(a, b)),
        Op::Less => Ok(value_le_exec(a, b)),
        _ => Ok(value_le_exec(b, a)),
    }
}

/// The condition that a pending comparison becomes against the columns
/// `cols`: the column must be named by a text and exist, and the value must
/// have the variant of that column's type.
pub open spec fn resolve_comparison(op: OpView, col: Value, value: Value, cols: Seq<ColView>) -> Result<
    ConditionView,
    ExecutionError,
> {
    match col {
        Value::Text(name) => match col_index(cols, name) {
            None => Err(ExecutionError::UnknownColumn),
            Some(i) => if value_type(value) != cols[i].data_type {
                Err(ExecutionError::TypeMismatch)
            } else {
                Ok(ConditionView { idx: i, value, op })
            },
        },
        _ => Err(ExecutionError::TypeMismatch),
    }
}

/// Resolves a comparison of the column named by `col` with `value` against
/// the schema of `table`.
pub fn logical_op_check(op: Op, col: WordType, value: WordType, table: &Table) -> (r: Result<
    Condition,
    ExecutionError,
>)
    requires
        op@.is_comparison(),
    ensures
        r matches Ok(c) ==> resolve_comparison(op@, col@, value@, table@.schema.cols) == Ok::<
            ConditionView,
            ExecutionError,
        >(c@),
        r matches Err(e) ==> resolve_comparison(op@, col@, value@, table@.schema.cols) == Err::<
            ConditionView,
            ExecutionError,
        >(e),
{
    let name = match col {
        WordType::Str(name) => name,
        _ => {
            return Err(ExecutionError::TypeMismatch);
        },
    };
    let idx = match find_col(&table.schema.cols, &name) {
        Some(idx) => idx,
        None => {
            return Err(ExecutionError::UnknownColumn);
        },
    };
    if value.data_type() != table.schema.cols[idx].data_type {
        return Err(ExecutionError::TypeMismatch);
    }
    Ok(Condition { idx, value, op })
}

/// A comparison in `conds` can be decided on `row`: its column exists in the
/// row and holds a value of the variant it is compared with. Every entry is
/// a comparison or a combinator.
pub open spec fn conditions_fit_row(conds: Seq<ConditionView>, row: Seq<Value>) -> bool {
    forall|i: int|
        0 <= i < conds.len() ==> {
            let c = #[trigger] conds[i];
            ||| c.op.is_combinator()
            ||| (c.op.is_comparison() && 0 <= c.idx < row.len() && value_type(c.value)
                == value_type(row[c.idx]))
        }
}

/// Every comparison in `conds` names a column of `cols` and holds a value of
/// that column's type. Every entry is a comparison or a combinator.
pub open spec fn conditions_fit_cols(conds: Seq<ConditionView>, cols: Seq<ColView>) -> bool {
    forall|i: int|
        0 <= i < conds.len() ==> {
            let c = #[trigger] conds[i];
            ||| c.op.is_combinator()
            ||| (c.op.is_comparison() && 0 <= c.idx < cols.len() && value_type(c.value)
                == cols[c.idx].data_type)
        }
}

/// Conditions that fit a column list fit every row that fits it.
pub proof fn lemma_conditions_fit(conds: Seq<ConditionView>, cols: Seq<ColView>, row: Seq<Value>)
    requires
        conditions_fit_cols(conds, cols),
        crate::model::row_fits(row, cols),
    ensures
        conditions_fit_row(conds, row),
{
    assert forall|i: int| 0 <= i < conds.len() implies {
        let c = #[trigger] conds[i];
        ||| c.op.is_combinator()
        ||| (c.op.is_comparison() && 0 <= c.idx < row.len() && value_type(c.value) == value_type(
            row[c.idx],
        ))
    } by {
        let c = conds[i];
        if !c.op.is_combinator() {
            assert(crate::model::value_matches_type(row[c.idx], cols[c.idx].data_type));
        }
    }
}

/// The number of decisions on the evaluation stack after the first `n`
/// entries of a chain: a comparison adds one, a combinator replaces two by
/// one. `None` when a combinator finds fewer than two.
pub open spec fn chain_depth(conds: Seq<ConditionView>, n: int) -> Option<int>
    decreases n,
{
    if n <= 0 {
        Some(0)
    } else {
        match chain_depth(conds, n - 1) {
            None => None,
            Some(d) => if conds[n - 1].op.is_combinator() {
                if d < 2 {
                    None
                } else {
                    Some(d - 1)
                }
            } else {
                Some(d + 1)
            },
        }
    }
}

/// A chain is well formed when it leaves exactly one decision.
pub open spec fn chain_well_formed(conds: Seq<ConditionView>) -> bool {
    chain_depth(conds, conds.len() as int) == Some(1int)
}

/// The evaluation stack after the first `n` entries of a chain were applied
/// to `row`, the latest decision last.
pub open spec fn chain_stack(conds: Seq<ConditionView>, row: Seq<Value>, n: int) -> Option<Seq<bool>>
    decreases n,
{
    if n <= 0 {
        Some(Seq::empty())
    } else {
        match chain_stack(conds, row, n - 1) {
            None => None,
            Some(st) => {
                let c = conds[n - 1];
                if c.op.is_combinator() {
                    if st.len() < 2 {
                        None
                    } else {
                        let a = st[st.len() - 1];
                        let b = st[st.len() - 2];
                        let both = if c.op is And {
                            a && b
                        } else {
                            a || b
                        };
                        Some(st.subrange(0, st.len() - 2).push(both))
                    }
                } else {
                    Some(st.push(comparison_holds(c.op, row[c.idx], c.value)))
                }
            },
        }
    }
}

/// What a chain decides of `row`: the one decision left on the stack, or
/// `None` when the chain is malformed.
pub open spec fn row_decision(conds: Seq<ConditionView>, row: Seq<Value>) -> Option<bool> {
    match chain_stack(conds, row, conds.len() as int) {
        Some(st) => if st.len() == 1 {
            Some(st[0])
        } else {
            None
        },
        None => None,
    }
}

/// The height of the evaluation stack does not depend on the row.
pub proof fn lemma_chain_stack_depth(conds: Seq<ConditionView>, row: Seq<Value>, n: int)
    ensures
        match chain_stack(conds, row, n) {
            Some(st) => chain_depth(conds, n) == Some(st.len() as int),
            None => chain_depth(conds, n) is None,
        },
    decreases n,
{
    if n > 0 {
        lemma_chain_stack_depth(conds, row, n - 1);
    }
}

/// A chain decides every row exactly when it is well formed.
pub proof fn lemma_row_decision_exists(conds: Seq<ConditionView>, row: Seq<Value>)
    ensures
        row_decision(conds, row) is Some <==> chain_well_formed(conds),
{
    lemma_chain_stack_depth(conds, row, conds.len() as int);
}

/// Decides `row` by the chain `conds`.
pub fn evaluate_row(conds: &Vec<Condition>, row: &Row) -> (r: Result<bool, ExecutionError>)
    requires
        conditions_fit_row(conds.deep_view(), row.deep_view()),
    ensures
        r == match row_decision(conds.deep_view(), row.deep_view()) {
            Some(keep) => Ok::<bool, ExecutionError>(keep),
            None => Err::<bool, ExecutionError>(ExecutionError::MalformedConditionChain),
        },
{
    let mut stack: Vec<bool> = Vec::new();
    let mut i: usize = 0;
    while i < conds.len()
        invariant
            i <= conds.len(),
            conditions_fit_row(conds.deep_view(), row.deep_view()),
            chain_stack(conds.deep_view(), row.deep_view(), i as int) == Some(stack@),
        decreases conds.len() - i,
    {
        let cond = &conds[i];
        assert(conds.deep_view()[i as int] == cond@);
        if cond.op.is_combinator() {
            if stack.len() < 2 {
                proof {
                    lemma_chain_stack_none(conds.deep_view(), row.deep_view(), i as int + 1);
                }
                return Err(ExecutionError::MalformedConditionChain);
            }
            let ghost before = stack@;
            let a = stack.pop().unwrap();
            let b = stack.pop().unwrap();
            let both = match cond.op {
                Op::And => a && b,
                _ => a || b,
            };
            stack.push(both);
            assert(stack@ =~= before.subrange(0, before.len() - 2).push(both));
        } else {
            assert(row.deep_view()[cond.idx as int] == row[cond.idx as int]@);
            let holds = match filter_condition(&row[cond.idx], &cond.value, cond.op.clone()) {
                Ok(holds) => holds,
                Err(e) => {
                    return Err(e);
                },
            };
            stack.push(holds);
        }
        i += 1;
    }
    if stack.len() != 1 {
        return Err(ExecutionError::MalformedConditionChain);
    }
    Ok(stack[0])
}

/// Once a combinator has found too few decisions, the chain stays undecided.
pub proof fn lemma_chain_stack_none(conds: Seq<ConditionView>, row: Seq<Value>, n: int)
    requires
        0 <= n <= conds.len(),
        chain_stack(conds, row, n) is None,
    ensures
        chain_stack(conds, row, conds.len() as int) is None,
    decreases conds.len() - n,
{
    if n < conds.len() {
        lemma_chain_stack_none(conds, row, n + 1);
    }
}

} // verus!
