use statements::StatementSplitter;

fn split(line: &str) -> Vec<&str> {
    StatementSplitter::new(line).collect()
}

#[test]
fn two_statements_with_substitutions() {
    assert_eq!(
        split("echo $(seq 1 10); echo $(seq 1 10)"),
        vec!["echo $(seq 1 10)", "echo $(seq 1 10)"]
    );
}

#[test]
fn semicolon_inside_substitution_does_not_split() {
    assert_eq!(split("echo $(seq 1 10; seq 1 10)"), vec!["echo $(seq 1 10; seq 1 10)"]);
}

#[test]
fn semicolon_inside_quotes_does_not_split() {
    assert_eq!(
        split("echo \"This ;'is a test\"; echo 'This ;\" is also a test'"),
        vec!["echo \"This ;'is a test\"", "echo 'This ;\" is also a test'"]
    );
}

#[test]
fn comment_inside_substitution_is_inert_and_outside_truncates() {
    assert_eq!(
        split("echo $(echo one # two); echo three # four"),
        vec!["echo $(echo one # two)", "echo three"]
    );
}

#[test]
fn nested_substitution_is_one_statement() {
    let line = "echo $(echo $(echo one; echo two); echo two)";
    assert_eq!(split(line), vec![line]);
}

#[test]
fn empty_line_has_no_statement() {
    let mut splitter = StatementSplitter::new("");
    assert_eq!(splitter.next(), None);
    assert_eq!(splitter.next(), None);
    assert_eq!(split(""), Vec::<&str>::new());
}

#[test]
fn two_semicolons_give_three_empty_statements() {
    let mut splitter = StatementSplitter::new(";;");
    assert_eq!(splitter.next(), Some(""));
    assert_eq!(splitter.next(), Some(""));
    assert_eq!(splitter.next(), Some(""));
    assert_eq!(splitter.next(), None);
    assert_eq!(splitter.next(), None);
}

#[test]
fn next_yields_one_statement_per_call() {
    let mut splitter = StatementSplitter::new("a; b ;c");
    assert_eq!(splitter.next(), Some("a"));
    assert_eq!(splitter.next(), Some("b"));
    assert_eq!(splitter.next(), Some("c"));
    assert_eq!(splitter.next(), None);
}

#[test]
fn collect_gives_what_is_left() {
    let mut splitter = StatementSplitter::new("a;b;c");
    assert_eq!(splitter.next(), Some("a"));
    assert_eq!(splitter.collect(), vec!["b", "c"]);
}

#[test]
fn collect_after_exhaustion_is_empty() {
    let mut splitter = StatementSplitter::new("a # b");
    assert_eq!(splitter.next(), Some("a"));
    assert_eq!(splitter.collect(), Vec::<&str>::new());
}
