//! The decisions of the interactive shell: what a line of input means in
//! each mode. A caller reads the lines and does what the shell decides.
//!
//! In command mode a line is a command, `query` or `exit`. In query mode
//! lines are gathered into one query: an opening parenthesis keeps the
//! query open over the following lines, and a closing one ends that.

use vstd::prelude::*;
use crate::model::spells;
use crate::text::{chars_of, string_of, trim, trimmed};

verus! {

/// What the shell takes the next line for.
#[derive(Debug, Clone, Copy, PartialEq, Eq, Structural)]
pub enum Mode {
    /// The line is a command.
    Cmd,
    /// The line is a query, or the start of one.
    Query,
    /// The line carries on a query that a parenthesis left open.
    MlQuery,
}

/// What the caller is to do after a line.
#[derive(Debug, PartialEq, Eq)]
pub enum Action {
    /// Read the next line.
    Nothing,
    /// End the session.
    Quit,
    /// Tell the user that there is no such command.
    UnknownCommand(String),
    /// Compile and run the query.
    Execute(String),
}

/// What an [`Action`] stands for.
pub ghost enum ActionView {
    Nothing,
    Quit,
    UnknownCommand(Seq<char>),
    Execute(Seq<char>),
}

impl View for Action {
    type V = ActionView;

    open spec fn view(&self) -> ActionView {
        match *self {
            Action::Nothing => ActionView::Nothing,
            Action::Quit => ActionView::Quit,
            Action::UnknownCommand(word) => ActionView::UnknownCommand(word@),
            Action::Execute(query) => ActionView::Execute(query@),
        }
    }
}

/// The state of the shell: its mode, and the lines of the query gathered
/// so far.
#[derive(Debug)]
pub struct Shell {
    pub mode: Mode,
    pub query: String,
}

/// What a [`Shell`] stands for.
pub ghost struct ShellView {
    pub mode: Mode,
    pub query: Seq<char>,
}

impl View for Shell {
    type V = ShellView;

    open spec fn view(&self) -> ShellView {
        ShellView { mode: self.mode, query: self.query@ }
    }
}

/// The white space that separates the words of a command: space, tab, line
/// feed, form feed and carriage return.
pub open spec fn is_blank(c: char) -> bool {
    c == ' ' || c == '\t' || c == '\n' || c == '\x0c' || c == '\r'
}

/// The first position at or after `i` that holds no blank.
pub open spec fn skip_blanks(s: Seq<char>, i: int) -> int
    decreases s.len() - i,
{
    if 0 <= i < s.len() && is_blank(s[i]) {
        skip_blanks(s, i + 1)
    } else {
        i
    }
}

/// The first position at or after `i` that holds a blank, or the end.
pub open spec fn next_blank(s: Seq<char>, i: int) -> int
    decreases s.len() - i,
{
    if 0 <= i < s.len() && !is_blank(s[i]) {
        next_blank(s, i + 1)
    } else {
        i
    }
}

/// The first word of a line; empty where the line holds only blanks.
pub open spec fn first_word(line: Seq<char>) -> Seq<char> {
    let start = skip_blanks(line, 0);
    if start >= line.len() {
        Seq::empty()
    } else {
        line.subrange(start, next_blank(line, start))
    }
}

/// The mode after the first `n` characters of a line of a query: each
/// opening parenthesis leaves the query open, each closing one closes it.
pub open spec fn mode_after(mode: Mode, line: Seq<char>, n: int) -> Mode
    decreases n,
{
    if n <= 0 {
        mode
    } else if line[n - 1] == '(' {
        Mode::MlQuery
    } else if line[n - 1] == ')' {
        Mode::Query
    } else {
        mode_after(mode, line, n - 1)
    }
}

pub open spec fn word_exit() -> Seq<char> {
    seq!['e', 'x', 'i', 't']
}

pub open spec fn word_query() -> Seq<char> {
    seq!['q', 'u', 'e', 'r', 'y']
}

/// What a line does to the shell, and what it asks of the caller.
pub open spec fn fed(shell: ShellView, line: Seq<char>) -> (ShellView, ActionView) {
    match shell.mode {
        Mode::Cmd => {
            let word = first_word(line);
            if word.len() == 0 {
                (shell, ActionView::Nothing)
            } else if word == word_exit() {
                (shell, ActionView::Quit)
            } else if word == word_query() {
                (ShellView { mode: Mode::Query, ..shell }, ActionView::Nothing)
            } else {
                (shell, ActionView::UnknownCommand(word))
            }
        },
        _ => {
            let mode = mode_after(shell.mode, line, line.len() as int);
            let query = shell.query + line;
            if mode == Mode::MlQuery {
                (ShellView { mode, query }, ActionView::Nothing)
            } else if trim(query) == word_exit() {
                (ShellView { mode: Mode::Cmd, query: Seq::empty() }, ActionView::Nothing)
            } else {
                (ShellView { mode, query: Seq::empty() }, ActionView::Execute(query))
            }
        },
    }
}

impl Shell {
    /// A shell in command mode.
    pub fn new() -> (shell: Shell)
        ensures
            shell@ == (ShellView { mode: Mode::Cmd, query: Seq::empty() }),
    {
        Shell { mode: Mode::Cmd, query: String::new() }
    }

    /// The prompt that asks for the next line.
    pub fn prompt(&self) -> (text: &'static str)
        ensures
            text@ == match self.mode {
                Mode::Cmd => "> "@,
                Mode::Query => "query > "@,
                Mode::MlQuery => "query : "@,
            },
    {
        match self.mode {
            Mode::Cmd => "> ",
            Mode::Query => "query > ",
            Mode::MlQuery => "query : ",
        }
    }

    /// Takes the next line of input.
    pub fn feed(&mut self, line: &str) -> (action: Action)
        ensures
            final(self)@ == fed(old(self)@, line@).0,
            action@ == fed(old(self)@, line@).1,
    {
        proof {
            reveal_strlit("exit");
            reveal_strlit("query");
            assert("exit"@ =~= word_exit());
            assert("query"@ =~= word_query());
        }
        let text = chars_of(line);
        match self.mode {
            Mode::Cmd => {
                let mut start: usize = 0;
                while start < text.len() && is_blank_char(text[start])
                    invariant
                        start <= text.len(),
                        skip_blanks(text@, 0) == skip_blanks(text@, start as int),
                    decreases text.len() - start,
                {
                    start += 1;
                }
                if start >= text.len() {
                    return Action::Nothing;
                }
                let mut end: usize = start;
                while end < text.len() && !is_blank_char(text[end])
                    invariant
                        start <= end <= text.len(),
                        next_blank(text@, start as int) == next_blank(text@, end as int),
                    decreases text.len() - end,
                {
                    end += 1;
                }
                assert(end > start);
                if spells(&text, start, end, "exit") {
                    Action::Quit
                } else if spells(&text, start, end, "query") {
                    self.mode = Mode::Query;
                    Action::Nothing
                } else {
                    Action::UnknownCommand(string_of(&text, start, end))
                }
            },
            _ => {
                let mut mode = self.mode;
                let mut i: usize = 0;
                while i < text.len()
                    invariant
                        i <= text.len(),
                        mode == mode_after(self.mode, text@, i as int),
                    decreases text.len() - i,
                {
                    if text[i] == '(' {
                        mode = Mode::MlQuery;
                    } else if text[i] == ')' {
                        mode = Mode::Query;
                    }
                    i += 1;
                }
                self.query.append(line);
                self.mode = mode;
                if mode == Mode::MlQuery {
                    return Action::Nothing;
                }
                let mut query = String::new();
                core::mem::swap(&mut query, &mut self.query);
                let all = chars_of(query.as_str());
                assert(all@.subrange(0, all@.len() as int) =~= all@);
                let inner = trimmed(&all, 0, all.len());
                assert(inner@.subrange(0, inner@.len() as int) =~= inner@);
                if spells(&inner, 0, inner.len(), "exit") {
                    self.mode = Mode::Cmd;
                    Action::Nothing
                } else {
                    Action::Execute(query)
                }
            },
        }
    }
}

fn is_blank_char(c: char) -> (r: bool)
    ensures
        r == is_blank(c),
{
    c == ' ' || c == '\t' || c == '\n' || c == '\x0c' || c == '\r'
}

} // verus!
