use statements::StatementSplitter;

#[test]
fn statements_with_processes() {
    let command = "echo $(seq 1 10); echo $(seq 1 10)";
    for statement in StatementSplitter::new(command).collect() {
        assert_eq!(statement, "echo $(seq 1 10)");
    }
}

#[test]
fn statements_process_with_statements() {
    let command = "echo $(seq 1 10; seq 1 10)";
    for statement in StatementSplitter::new(command).collect() {
        assert_eq!(statement, command);
    }
}

#[test]
fn statements_with_quotes() {
    let command = "echo \"This ;'is a test\"; echo 'This ;\" is also a test'";
    let results = StatementSplitter::new(command).collect();
    assert_eq!(results.len(), 2);
    assert_eq!(results[0], "echo \"This ;'is a test\"");
    assert_eq!(results[1], "echo 'This ;\" is also a test'");
}

#[test]
fn statements_with_comments() {
    let command = "echo $(echo one # two); echo three # four";
    let results = StatementSplitter::new(command).collect();
    assert_eq!(results.len(), 2);
    assert_eq!(results[0], "echo $(echo one # two)");
    assert_eq!(results[1], "echo three");
}

#[test]
fn statements_with_process_recursion() {
    let command = "echo $(echo one $(echo two) three)";
    let results = StatementSplitter::new(command).collect();
    assert_eq!(results.len(), 1);
    assert_eq!(results[0], command);

    let command = "echo $(echo $(echo one; echo two); echo two)";
    let results = StatementSplitter::new(command).collect();
    assert_eq!(results.len(), 1);
    assert_eq!(results[0], command);
}
