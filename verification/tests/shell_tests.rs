use flatdb::shell::{Action, Mode, Shell};
use flatdb::text::{chars_of, is_whitespace, parse_int, string_of, trimmed};

#[test]
fn commands() {
    let mut shell = Shell::new();
    assert_eq!(shell.mode, Mode::Cmd);
    assert_eq!(shell.prompt(), "> ");
    assert_eq!(shell.feed("\n"), Action::Nothing);
    assert_eq!(shell.feed("  \t \n"), Action::Nothing);
    assert_eq!(shell.feed("help me\n"), Action::UnknownCommand("help".to_string()));
    assert_eq!(shell.feed("exit\u{a0}now\n"), Action::UnknownCommand("exit\u{a0}now".to_string()));
    assert_eq!(shell.mode, Mode::Cmd);
    assert_eq!(shell.feed("  query  now\n"), Action::Nothing);
    assert_eq!(shell.mode, Mode::Query);
    assert_eq!(shell.prompt(), "query > ");
    let mut shell = Shell::new();
    assert_eq!(shell.feed("exit\n"), Action::Quit);
    assert_eq!(shell.feed(" exit please"), Action::Quit);
}

#[test]
fn queries() {
    let mut shell = Shell::new();
    shell.feed("query\n");
    assert_eq!(shell.feed("id table1 select\n"), Action::Execute("id table1 select\n".to_string()));
    assert_eq!(shell.mode, Mode::Query);
    assert_eq!(shell.query, "");
    assert_eq!(shell.feed("\n"), Action::Execute("\n".to_string()));
    assert_eq!(shell.feed("  exit \n"), Action::Nothing);
    assert_eq!(shell.mode, Mode::Cmd);
    assert_eq!(shell.feed("exit\n"), Action::Quit);
}

#[test]
fn queries_over_several_lines() {
    let mut shell = Shell::new();
    shell.feed("query\n");
    assert_eq!(shell.feed("(id Int)\n"), Action::Execute("(id Int)\n".to_string()));
    assert_eq!(shell.feed("(id Int\n"), Action::Nothing);
    assert_eq!(shell.mode, Mode::MlQuery);
    assert_eq!(shell.prompt(), "query : ");
    assert_eq!(shell.feed("name Str\n"), Action::Nothing);
    assert_eq!(shell.feed("exit\n"), Action::Nothing);
    assert_eq!(shell.mode, Mode::MlQuery);
    assert_eq!(
        shell.feed(") t create\n"),
        Action::Execute("(id Int\nname Str\nexit\n) t create\n".to_string())
    );
    assert_eq!(shell.mode, Mode::Query);
    assert_eq!(shell.feed("a ) b ( c\n"), Action::Nothing);
    assert_eq!(shell.feed(") (\n"), Action::Nothing);
    assert_eq!(shell.feed(")\n"), Action::Execute("a ) b ( c\n) (\n)\n".to_string()));
}

#[test]
fn white_space_is_that_of_char() {
    let mut c = '\0';
    loop {
        assert_eq!(is_whitespace(c), c.is_whitespace(), "{:?}", c);
        if c == char::MAX {
            break;
        }
        c = match char::from_u32(c as u32 + 1) {
            Some(next) => next,
            None => '\u{e000}',
        };
    }
}

#[test]
fn integers_are_read_as_str_parse_reads_them() {
    let samples = [
        "", "0", "-0", "+0", "7", "-7", "+7", "007", "-007", "2147483647", "2147483648",
        "-2147483648", "-2147483649", "+2147483647", "+2147483648", "00000000002147483647",
        "99999999999999999999999999", "-", "+", "--1", "+-1", "1-", "1 ", " 1", "1_000", "0x10",
        "1.0", "1e3", "a", "١٢", "12a", "a12", "4294967296", "-4294967296",
    ];
    for s in samples {
        let v = chars_of(s);
        assert_eq!(parse_int(&v, 0, v.len()), s.parse::<i32>().ok(), "{:?}", s);
    }
    let v = chars_of("ab-12cd");
    assert_eq!(parse_int(&v, 2, 5), Some(-12));
    assert_eq!(parse_int(&v, 2, 2), None);
}

#[test]
fn trimming_is_that_of_str() {
    for s in ["", " ", "a", " a", "a ", "  a b  ", "\t\r\n x \u{a0}\u{3000}", "\u{2003}", "é "] {
        let v = chars_of(s);
        assert_eq!(v, s.chars().collect::<Vec<char>>());
        let t = trimmed(&v, 0, v.len());
        assert_eq!(string_of(&t, 0, t.len()), s.trim());
    }
    let v = chars_of("ab  cd  ef");
    assert_eq!(trimmed(&v, 2, 8), vec!['c', 'd']);
    assert_eq!(string_of(&v, 4, 6), "cd");
}
