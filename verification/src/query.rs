//! The query compiler: from query text to a sequence of operations.
//!
//! A query is a run of tokens separated by white space. Parentheses carry no
//! meaning and are stripped; a token that opens with a double quote is a text
//! literal that runs to the next double quote and may hold white space.

use vstd::prelude::*;
use crate::model::{
    parse_data_type_chars, spelled_type, spells, DataType, Op, OpView, Value, WordType,
};
use crate::text::{
    chars_of, int_literal, is_space, is_whitespace, parse_int, scan_spaces, skip_spaces, string_of,
};

verus! {

/// Why a query could not be compiled.
#[derive(Debug, Clone, Copy, PartialEq, Eq, Structural)]
pub enum CompileError {
    /// A text literal was opened by a double quote and never closed.
    UnclosedString,
}

/// The operator that `word` spells, if it spells one.
pub open spec fn named_operator(word: Seq<char>) -> Option<OpView> {
    if word == seq!['s', 'e', 'l', 'e', 'c', 't'] {
        Some(OpView::Select)
    } else if word == seq!['i', 'n', 's', 'e', 'r', 't'] {
        Some(OpView::Insert)
    } else if word == seq!['d', 'e', 'l', 'e', 't', 'e'] {
        Some(OpView::Delete)
    } else if word == seq!['f', 'i', 'l', 't', 'e', 'r'] {
        Some(OpView::Filter)
    } else if word == seq!['c', 'r', 'e', 'a', 't', 'e'] {
        Some(OpView::Create)
    } else if word == seq!['d', 'r', 'o', 'p'] {
        Some(OpView::Drop)
    } else if word == seq!['a', 'n', 'd'] {
        Some(OpView::And)
    } else if word == seq!['o', 'r'] {
        Some(OpView::Or)
    } else if word == seq!['=', '='] {
        Some(OpView::Equal)
    } else if word == seq!['!', '='] {
        Some(OpView::NotEqual)
    } else if word == seq!['>'] {
        Some(OpView::More)
    } else if word == seq!['<'] {
        Some(OpView::Less)
    } else {
        None
    }
}

/// Reads the characters `word[from..to]` as the name of an operator.
pub fn parse_op_chars(word: &Vec<char>, from: usize, to: usize) -> (r: Option<Op>)
    requires
        from <= to <= word.len(),
    ensures
        r matches Some(op) ==> named_operator(word@.subrange(from as int, to as int)) == Some(op@),
        r is None ==> named_operator(word@.subrange(from as int, to as int)) is None,
{
    proof {
        reveal_strlit("select");
        reveal_strlit("insert");
        reveal_strlit("delete");
        reveal_strlit("filter");
        reveal_strlit("create");
        reveal_strlit("drop");
        reveal_strlit("and");
        reveal_strlit("or");
        reveal_strlit("==");
        reveal_strlit("!=");
        reveal_strlit(">");
        reveal_strlit("<");
        assert("select"@ =~= seq!['s', 'e', 'l', 'e', 'c', 't']);
        assert("insert"@ =~= seq!['i', 'n', 's', 'e', 'r', 't']);
        assert("delete"@ =~= seq!['d', 'e', 'l', 'e', 't', 'e']);
        assert("filter"@ =~= seq!['f', 'i', 'l', 't', 'e', 'r']);
        assert("create"@ =~= seq!['c', 'r', 'e', 'a', 't', 'e']);
        assert("drop"@ =~= seq!['d', 'r', 'o', 'p']);
        assert("and"@ =~= seq!['a', 'n', 'd']);
        assert("or"@ =~= seq!['o', 'r']);
        assert("=="@ =~= seq!['=', '=']);
        assert("!="@ =~= seq!['!', '=']);
        assert(">"@ =~= seq!['>']);
        assert("<"@ =~= seq!['<']);
    }
    if spells(word, from, to, "select") {
        Some(Op::Select)
    } else if spells(word, from, to, "insert") {
        Some(Op::Insert)
    } else if spells(word, from, to, "delete") {
        Some(Op::Delete)
    } else if spells(word, from, to, "filter") {
        Some(Op::Filter)
    } else if spells(word, from, to, "create") {
        Some(Op::Create)
    } else if spells(word, from, to, "drop") {
        Some(Op::Drop)
    } else if spells(word, from, to, "and") {
        Some(Op::And)
    } else if spells(word, from, to, "or") {
        Some(Op::Or)
    } else if spells(word, from, to, "==") {
        Some(Op::Equal)
    } else if spells(word, from, to, "!=") {
        Some(Op::NotEqual)
    } else if spells(word, from, to, ">") {
        Some(Op::More)
    } else if spells(word, from, to, "<") {
        Some(Op::Less)
    } else {
        None
    }
}

/// Reads the name of an operator.
pub fn try_parse_op(op: &str) -> (r: Option<Op>)
    ensures
        r matches Some(found) ==> named_operator(op@) == Some(found@),
        r is None ==> named_operator(op@) is None,
{
    let word = chars_of(op);
    assert(word@.subrange(0, word@.len() as int) =~= op@);
    parse_op_chars(&word, 0, word.len())
}

/// The operation that a token stands for, its parentheses stripped: an
/// operator if it spells one, else the push of a type name, else of an
/// integer, else of the token itself as a text.
pub open spec fn token_op(word: Seq<char>) -> OpView {
    match named_operator(word) {
        Some(op) => op,
        None => match spelled_type(word) {
            Some(t) => OpView::PushWord { data_type: DataType::Type, word: Value::Type(t) },
            None => match int_literal(word) {
                Some(value) => OpView::PushWord { data_type: DataType::Int, word: Value::Int(value) },
                None => OpView::PushWord { data_type: DataType::Str, word: Value::Text(word) },
            },
        },
    }
}

/// The push of a quoted text literal.
pub open spec fn literal_op(text: Seq<char>) -> OpView {
    OpView::PushWord { data_type: DataType::Str, word: Value::Text(text) }
}

/// Compiles a token whose parentheses were stripped.
fn compile_token(word: &Vec<char>) -> (op: Op)
    ensures
        op@ == token_op(word@),
{
    assert(word@.subrange(0, word@.len() as int) =~= word@);
    if let Some(op) = parse_op_chars(word, 0, word.len()) {
        op
    } else if let Some(data_type) = parse_data_type_chars(word, 0, word.len()) {
        Op::PushWord { data_type: DataType::Type, word_type: WordType::Type(data_type) }
    } else if let Some(value) = parse_int(word, 0, word.len()) {
        Op::PushWord { data_type: DataType::Int, word_type: WordType::Int(value) }
    } else {
        Op::PushWord {
            data_type: DataType::Str,
            word_type: WordType::Str(string_of(word, 0, word.len())),
        }
    }
}

pub open spec fn is_paren(c: char) -> bool {
    c == '(' || c == ')'
}

/// The first position at or after `i` that holds no parenthesis.
pub open spec fn skip_parens(s: Seq<char>, i: int) -> int
    decreases s.len() - i,
{
    if 0 <= i < s.len() && is_paren(s[i]) {
        skip_parens(s, i + 1)
    } else {
        i
    }
}

/// The first position at or after `i` that holds white space, or the end.
pub open spec fn word_end(s: Seq<char>, i: int) -> int
    decreases s.len() - i,
{
    if 0 <= i < s.len() && !is_space(s[i]) {
        word_end(s, i + 1)
    } else {
        i
    }
}

/// The first position at or after `i` that holds a double quote.
pub open spec fn find_quote(s: Seq<char>, i: int) -> Option<int>
    decreases s.len() - i,
{
    if i < 0 || i >= s.len() {
        None
    } else if s[i] == '"' {
        Some(i)
    } else {
        find_quote(s, i + 1)
    }
}

/// The predicate that holds of every character but a parenthesis.
pub open spec fn no_paren() -> spec_fn(char) -> bool {
    |c: char| !is_paren(c)
}

/// `word` without its parentheses.
pub open spec fn without_parens(word: Seq<char>) -> Seq<char> {
    word.filter(no_paren())
}

/// Where the scans from `i` end.
pub proof fn lemma_scan_bounds(s: Seq<char>, i: int)
    requires
        0 <= i <= s.len(),
    ensures
        i <= skip_spaces(s, i) <= s.len(),
        skip_spaces(s, i) < s.len() ==> !is_space(s[skip_spaces(s, i)]),
        i <= skip_parens(s, i) <= s.len(),
        skip_parens(s, i) < s.len() ==> !is_paren(s[skip_parens(s, i)]),
        i <= word_end(s, i) <= s.len(),
        i < s.len() && !is_space(s[i]) ==> i < word_end(s, i),
        find_quote(s, i) matches Some(k) ==> i <= k < s.len() && s[k] == '"',
    decreases s.len() - i,
{
    if i < s.len() {
        lemma_scan_bounds(s, i + 1);
    }
}

/// The operations that the text from position `i` on compiles to.
pub open spec fn compile_from(s: Seq<char>, i: int) -> Result<Seq<OpView>, CompileError>
    decreases s.len() - i,
{
    let start = skip_spaces(s, i);
    if i < 0 || start >= s.len() {
        Ok(Seq::empty())
    } else {
        let open = skip_parens(s, start);
        if open < s.len() && s[open] == '"' {
            match find_quote(s, open + 1) {
                None => Err(CompileError::UnclosedString),
                Some(close) => {
                    proof {
                        lemma_scan_bounds(s, i);
                        lemma_scan_bounds(s, start);
                        lemma_scan_bounds(s, open + 1);
                    }
                    match compile_from(s, close + 1) {
                        Ok(rest) => Ok(seq![literal_op(s.subrange(open + 1, close))] + rest),
                        Err(e) => Err(e),
                    }
                },
            }
        } else {
            let end = word_end(s, open);
            let word = without_parens(s.subrange(open, end));
            proof {
                lemma_scan_bounds(s, i);
                lemma_scan_bounds(s, start);
                lemma_scan_bounds(s, open);
            }
            match compile_from(s, end) {
                Ok(rest) => Ok(
                    if word.len() == 0 {
                        rest
                    } else {
                        seq![token_op(word)] + rest
                    },
                ),
                Err(e) => Err(e),
            }
        }
    }
}

/// The operations that a query compiles to.
pub open spec fn compile(s: Seq<char>) -> Result<Seq<OpView>, CompileError> {
    compile_from(s, 0)
}

fn scan_parens(v: &Vec<char>, i: usize) -> (r: usize)
    requires
        i <= v.len(),
    ensures
        r == skip_parens(v@, i as int),
        i <= r <= v.len(),
{
    let mut r: usize = i;
    while r < v.len() && (v[r] == '(' || v[r] == ')')
        invariant
            i <= r <= v.len(),
            skip_parens(v@, i as int) == skip_parens(v@, r as int),
        decreases v.len() - r,
    {
        r += 1;
    }
    r
}

fn scan_word(v: &Vec<char>, i: usize) -> (r: usize)
    requires
        i <= v.len(),
    ensures
        r == word_end(v@, i as int),
        i <= r <= v.len(),
{
    let mut r: usize = i;
    while r < v.len() && !is_whitespace(v[r])
        invariant
            i <= r <= v.len(),
            word_end(v@, i as int) == word_end(v@, r as int),
        decreases v.len() - r,
    {
        r += 1;
    }
    r
}

fn scan_quote(v: &Vec<char>, i: usize) -> (r: Option<usize>)
    requires
        i <= v.len(),
    ensures
        r matches Some(k) ==> find_quote(v@, i as int) == Some(k as int) && i <= k < v.len(),
        r is None ==> find_quote(v@, i as int) is None,
{
    let mut k: usize = i;
    while k < v.len()
        invariant
            i <= k <= v.len(),
            find_quote(v@, i as int) == find_quote(v@, k as int),
        decreases v.len() - k,
    {
        if v[k] == '"' {
            return Some(k);
        }
        k += 1;
    }
    None
}

/// Copies `v[from..to]` without its parentheses.
fn strip_parens(v: &Vec<char>, from: usize, to: usize) -> (word: Vec<char>)
    requires
        from <= to <= v.len(),
    ensures
        word@ == without_parens(v@.subrange(from as int, to as int)),
{
    let ghost raw = v@.subrange(from as int, to as int);
    let mut word: Vec<char> = Vec::new();
    let mut i: usize = from;
    assert(raw.take(0) =~= Seq::empty());
    while i < to
        invariant
            from <= i <= to <= v.len(),
            raw == v@.subrange(from as int, to as int),
            word@ == raw.take(i - from).filter(no_paren()),
        decreases to - i,
    {
        let c = v[i];
        proof {
            assert(raw.take(i - from + 1) =~= raw.take(i - from).push(c));
            raw.take(i - from).lemma_filter_push(c, no_paren());
        }
        if !(c == '(' || c == ')') {
            word.push(c);
        }
        i += 1;
    }
    assert(raw.take(to - from) =~= raw);
    word
}

/// Compiles query text into its sequence of operations.
///
/// Fails, with `UnclosedString`, exactly when a text literal is opened and
/// not closed.
pub fn parse_query(query: &str) -> (r: Result<Vec<Op>, CompileError>)
    ensures
        r matches Ok(ops) ==> compile(query@) == Ok::<Seq<OpView>, CompileError>(ops.deep_view()),
        r matches Err(e) ==> compile(query@) == Err::<Seq<OpView>, CompileError>(e),
{
    let text = chars_of(query);
    let ghost s = text@;
    let mut ops: Vec<Op> = Vec::new();
    let mut pos: usize = 0;
    assert(Seq::<OpView>::empty() + Seq::<OpView>::empty() =~= Seq::<OpView>::empty());
    assert(ops.deep_view() =~= Seq::empty());
    loop
        invariant
            pos <= text.len(),
            s == text@,
            s == query@,
            match compile_from(s, pos as int) {
                Ok(rest) => compile(s) == Ok::<Seq<OpView>, CompileError>(ops.deep_view() + rest),
                Err(e) => compile(s) == Err::<Seq<OpView>, CompileError>(e),
            },
        decreases text.len() - pos,
    {
        let start = scan_spaces(&text, pos);
        if start >= text.len() {
            assert(ops.deep_view() + Seq::<OpView>::empty() =~= ops.deep_view());
            return Ok(ops);
        }
        let open = scan_parens(&text, start);
        let ghost before = ops.deep_view();
        proof {
            lemma_scan_bounds(s, pos as int);
            lemma_scan_bounds(s, start as int);
            lemma_scan_bounds(s, open as int);
        }
        if open < text.len() && text[open] == '"' {
            let close = match scan_quote(&text, open + 1) {
                Some(close) => close,
                None => {
                    return Err(CompileError::UnclosedString);
                },
            };
            let literal = string_of(&text, open + 1, close);
            let op = Op::PushWord { data_type: DataType::Str, word_type: WordType::Str(literal) };
            let ghost view = op@;
            ops.push(op);
            proof {
                assert(ops.deep_view() =~= before.push(view));
                if let Ok(rest) = compile_from(s, close + 1) {
                    assert(before.push(view) + rest =~= before + (seq![view] + rest));
                }
            }
            pos = close + 1;
        } else {
            let end = scan_word(&text, open);
            let word = strip_parens(&text, open, end);
            if word.len() > 0 {
                let op = compile_token(&word);
                let ghost view = op@;
                ops.push(op);
                proof {
                    assert(ops.deep_view() =~= before.push(view));
                    if let Ok(rest) = compile_from(s, end as int) {
                        assert(before.push(view) + rest =~= before + (seq![view] + rest));
                    }
                }
            }
            pos = end;
        }
    }
}

/// The kind that a push records is the type of the value it pushes.
pub open spec fn push_tagged(op: OpView) -> bool {
    op matches OpView::PushWord { data_type, word } ==> data_type == crate::model::value_type(word)
}

/// In a compiled query every push records the type of its value.
pub proof fn lemma_compiled_pushes_tagged(s: Seq<char>, i: int)
    requires
        0 <= i,
    ensures
        compile_from(s, i) matches Ok(ops) ==> forall|k: int|
            0 <= k < ops.len() ==> push_tagged(#[trigger] ops[k]),
    decreases s.len() - i,
{
    let start = skip_spaces(s, i);
    if start < s.len() {
        lemma_scan_bounds(s, i);
        lemma_scan_bounds(s, start);
        let open = skip_parens(s, start);
        if open < s.len() && s[open] == '"' {
            lemma_scan_bounds(s, open + 1);
            if let Some(close) = find_quote(s, open + 1) {
                lemma_compiled_pushes_tagged(s, close + 1);
            }
        } else {
            lemma_scan_bounds(s, open);
            lemma_compiled_pushes_tagged(s, word_end(s, open));
        }
    }
}

} // verus!
