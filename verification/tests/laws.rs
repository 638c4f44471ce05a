use statements::StatementSplitter;

fn split(line: &str) -> Vec<&str> {
    StatementSplitter::new(line).collect()
}

fn trim_ascii(piece: &str) -> &str {
    piece.trim_matches(|c: char| matches!(c, '\t' | '\n' | '\x0b' | '\x0c' | '\r' | ' '))
}

fn cut_and_trim(line: &str) -> Vec<&str> {
    line.split(';').map(trim_ascii).collect()
}

#[test]
fn plain_lines_split_at_every_semicolon() {
    for line in [
        "a",
        "a;b",
        " a ; b ; c ",
        ";;",
        "a;",
        ";a",
        " ",
        "echo one two;echo three\t;\n echo four",
        "a\\b;c",
        "$a;(b);$",
        "größe;\u{a0}日本語 ;",
    ] {
        assert_eq!(split(line), cut_and_trim(line), "line {:?}", line);
    }
}

#[test]
fn empty_line_is_not_split_as_cutting_would() {
    assert_eq!(cut_and_trim(""), vec![""]);
    assert_eq!(split(""), Vec::<&str>::new());
}

#[test]
fn escaped_semicolon_is_not_split_as_cutting_would() {
    assert_eq!(cut_and_trim("a\\;b"), vec!["a\\", "b"]);
    assert_eq!(split("a\\;b"), vec!["a\\;b"]);
}

#[test]
fn statements_split_into_themselves() {
    for line in [
        "echo $(seq 1 10); echo $(seq 1 10)",
        "echo \"This ;'is a test\"; echo 'This ;\" is also a test'",
        "echo $(echo one # two); echo three # four",
        "  a\\;b ; c\\ ; 'd;e' ;\t$(f;g)  ",
        "echo 'unclosed; quote",
        "echo $(unclosed; substitution",
        "a\\",
    ] {
        for statement in split(line) {
            if !statement.is_empty() {
                assert_eq!(split(statement), vec![statement], "line {:?}", line);
            }
        }
    }
}

#[test]
fn empty_statement_splits_into_nothing() {
    let statements = split(";");
    assert_eq!(statements, vec!["", ""]);
    assert_eq!(split(statements[0]), Vec::<&str>::new());
}

#[test]
fn quoted_text_never_splits() {
    for inner in [";", "#", ";#;", "a;b#c", "\";\"", "$(;)", "\\"] {
        let line = format!("a '{}' b;c", inner);
        let first = format!("a '{}' b", inner);
        assert_eq!(split(&line), vec![first.as_str(), "c"]);
    }
    for inner in [";", "#", ";#;", "a;b#c", "';'", "$(;)", "\\"] {
        let line = format!("a \"{}\" b;c", inner);
        let first = format!("a \"{}\" b", inner);
        assert_eq!(split(&line), vec![first.as_str(), "c"]);
    }
}

#[test]
fn nested_text_never_splits() {
    for inner in [";", "#", ";#;", "a;b#c", "$(;);", "$(#)#", "(;"] {
        let line = format!("a $({}) b;c", inner);
        let first = format!("a $({}) b", inner);
        assert_eq!(split(&line), vec![first.as_str(), "c"]);
    }
}

#[test]
fn substitution_stays_open_until_it_is_closed() {
    assert_eq!(split("$($(a);b);c"), vec!["$($(a);b)", "c"]);
    assert_eq!(split("$(a;b"), vec!["$(a;b"]);
}

#[test]
fn text_behind_a_comment_changes_nothing() {
    for rest in ["", " a", ";", "; b; c", "'", "$(", "\\"] {
        let line = format!("a; b #{}", rest);
        assert_eq!(split(&line), vec!["a", "b"]);
    }
}

#[test]
fn comment_call_yields_one_statement_and_ends() {
    let mut splitter = StatementSplitter::new("#;a;b");
    assert_eq!(splitter.next(), Some(""));
    assert_eq!(splitter.next(), None);
    assert_eq!(splitter.next(), None);
}
