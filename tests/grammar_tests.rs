use shard::lexer::tokenize;
use shard::parser::parse;

#[test]
fn test_parse_assignment() {
    let tokens = tokenize("x = 10").unwrap();
    let result = parse(tokens);
    assert!(result.is_ok());
}

#[test]
fn test_parse_command() {
    let tokens = tokenize("echo hello").unwrap();
    let result = parse(tokens);
    assert!(result.is_ok());
}
