use statements::mode::{
    Quote, ScanState, BACKSLASH, CLOSE_PAREN, DOLLAR, DOUBLE_QUOTE, HASH, OPEN_PAREN, SEMICOLON,
    SINGLE_QUOTE,
};
use statements::trim::is_whitespace_byte;

fn state(quote: Quote, escape_pending: bool, dollar_pending: bool, depth: usize) -> ScanState {
    ScanState { quote, escape_pending, dollar_pending, depth }
}

fn same(a: ScanState, b: ScanState) -> bool {
    a.quote == b.quote
        && a.escape_pending == b.escape_pending
        && a.dollar_pending == b.dollar_pending
        && a.depth == b.depth
}

fn run(line: &str) -> ScanState {
    let mut current = ScanState::new();
    for byte in line.bytes() {
        current = current.step(byte);
    }
    current
}

#[test]
fn control_characters_have_their_ascii_codes() {
    assert_eq!(SINGLE_QUOTE, b'\'');
    assert_eq!(DOUBLE_QUOTE, b'"');
    assert_eq!(BACKSLASH, b'\\');
    assert_eq!(DOLLAR, b'$');
    assert_eq!(OPEN_PAREN, b'(');
    assert_eq!(CLOSE_PAREN, b')');
    assert_eq!(SEMICOLON, b';');
    assert_eq!(HASH, b'#');
}

#[test]
fn new_state_is_at_top_level() {
    let fresh = ScanState::new();
    assert!(same(fresh, state(Quote::Unquoted, false, false, 0)));
    assert!(fresh.at_top_level());
}

#[test]
fn top_level_needs_all_three() {
    assert!(state(Quote::Unquoted, false, true, 0).at_top_level());
    assert!(!state(Quote::Single, false, false, 0).at_top_level());
    assert!(!state(Quote::Double, false, false, 0).at_top_level());
    assert!(!state(Quote::Unquoted, true, false, 0).at_top_level());
    assert!(!state(Quote::Unquoted, false, false, 1).at_top_level());
}

#[test]
fn pending_escape_swallows_any_byte() {
    for byte in [SINGLE_QUOTE, DOUBLE_QUOTE, BACKSLASH, DOLLAR, OPEN_PAREN, CLOSE_PAREN, b'a'] {
        let after = state(Quote::Unquoted, true, true, 2).step(byte);
        assert!(same(after, state(Quote::Unquoted, false, false, 2)));
    }
}

#[test]
fn quotes_toggle_their_own_kind_only() {
    let fresh = ScanState::new();
    assert_eq!(fresh.step(SINGLE_QUOTE).quote, Quote::Single);
    assert_eq!(fresh.step(DOUBLE_QUOTE).quote, Quote::Double);
    assert_eq!(state(Quote::Single, false, false, 0).step(SINGLE_QUOTE).quote, Quote::Unquoted);
    assert_eq!(state(Quote::Double, false, false, 0).step(DOUBLE_QUOTE).quote, Quote::Unquoted);
    assert_eq!(state(Quote::Single, false, false, 0).step(DOUBLE_QUOTE).quote, Quote::Single);
    assert_eq!(state(Quote::Double, false, false, 0).step(SINGLE_QUOTE).quote, Quote::Double);
}

#[test]
fn backslash_escapes_outside_quotes_only() {
    assert!(ScanState::new().step(BACKSLASH).escape_pending);
    assert!(!state(Quote::Single, false, false, 0).step(BACKSLASH).escape_pending);
    assert!(!state(Quote::Double, false, false, 0).step(BACKSLASH).escape_pending);
}

#[test]
fn dollar_is_pending_for_one_byte() {
    assert!(ScanState::new().step(DOLLAR).dollar_pending);
    assert!(ScanState::new().step(DOLLAR).step(DOLLAR).dollar_pending);
    assert!(!ScanState::new().step(DOLLAR).step(b'a').dollar_pending);
    assert!(!ScanState::new().step(DOLLAR).step(OPEN_PAREN).dollar_pending);
    assert!(!state(Quote::Single, false, false, 0).step(DOLLAR).dollar_pending);
    assert!(!state(Quote::Double, false, true, 0).step(DOLLAR).dollar_pending);
}

#[test]
fn depth_counts_open_substitutions() {
    assert_eq!(run("$(").depth, 1);
    assert_eq!(run("$($(").depth, 2);
    assert_eq!(run("$($()").depth, 1);
    assert_eq!(run("$($())").depth, 0);
    assert_eq!(run("$($()))").depth, 0);
    assert_eq!(run("(").depth, 0);
    assert_eq!(run("$ (").depth, 0);
    assert_eq!(run("\\$(").depth, 0);
}

#[test]
fn terminators_change_nothing_but_the_pending_dollar() {
    assert!(same(ScanState::new().step(SEMICOLON), ScanState::new()));
    assert!(same(ScanState::new().step(HASH), ScanState::new()));
    assert!(same(ScanState::new().step(DOLLAR).step(SEMICOLON), ScanState::new()));
    assert!(same(
        state(Quote::Double, false, false, 3).step(SEMICOLON),
        state(Quote::Double, false, false, 3)
    ));
}

#[test]
fn whitespace_bytes_are_exactly_six() {
    let mut count: usize = 0;
    let mut byte: u8 = 0;
    loop {
        let expected = matches!(byte, 0x09 | 0x0a | 0x0b | 0x0c | 0x0d | 0x20);
        assert_eq!(is_whitespace_byte(byte), expected);
        if expected {
            count += 1;
        }
        if byte == 255 {
            break;
        }
        byte += 1;
    }
    assert_eq!(count, 6);
}
