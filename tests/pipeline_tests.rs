use shard::ast::{BinaryOperator, Expression, Literal, Program, Statement, UnaryOperator};
use shard::codegen::{generate, CodegenError};
use shard::error::ShardError;
use shard::lexer::{tokenize, LexerError, TokenType};
use shard::parser::{parse, ParserError};

const HEADER: &str = "#!/bin/sh\n# Generated by Shard\n\n";

fn compile(input: &str) -> String {
    let tokens = tokenize(input).unwrap();
    let ast = parse(tokens).unwrap();
    generate(&ast).unwrap()
}

fn body(input: &str) -> String {
    let out = compile(input);
    assert!(out.starts_with(HEADER));
    out[HEADER.len()..].to_string()
}

#[test]
fn escaped_single_quoted_content_round_trips() {
    let tokens = tokenize("'it\\'s a \\\\ path'").unwrap();
    assert_eq!(tokens.len(), 2);
    assert_eq!(tokens[0].1.token_type, TokenType::String);
    assert_eq!(tokens[0].1.value, Some("it's a \\ path".to_string()));
    assert_eq!(tokens[0].1.span, (0, 17));
}

#[test]
fn empty_input_gives_only_the_end_marker() {
    let tokens = tokenize("").unwrap();
    assert_eq!(tokens.len(), 1);
    assert_eq!(tokens[0].1.token_type, TokenType::EOF);
    assert_eq!(tokens[0].1.span, (0, 0));
    assert_eq!(tokens[0].1.value, None);
}

#[test]
fn last_token_is_end_marker_spanning_token_count() {
    for input in ["x = 10", "echo a b c\n", "# only a comment", "if x { y }"] {
        let tokens = tokenize(input).unwrap();
        let n = tokens.len() - 1;
        let last = &tokens[n];
        assert_eq!(last.1.token_type, TokenType::EOF);
        assert_eq!(last.1.span, (n, n));
        assert!(tokens[..n].iter().all(|t| t.1.token_type != TokenType::EOF));
    }
}

#[test]
fn assignment_program_has_one_equals_line_per_assignment() {
    let out = compile("a = 1\nb = 'two'\nc = x\nd = 1 + 2");
    let lines = out.lines().filter(|l| l.contains('=')).count();
    assert_eq!(lines, 4);
    assert_eq!(
        &out[HEADER.len()..],
        "__shard_a=1\n__shard_b='two'\n__shard_c=\"${__shard_x}\"\n__shard_d=\"$((1 + 2))\"\n"
    );
}

#[test]
fn echo_hello_parses_and_generates_status_capture() {
    let ast = parse(tokenize("echo hello").unwrap()).unwrap();
    assert_eq!(
        ast,
        Program(vec![Statement::Command {
            name: "echo".to_string(),
            args: vec![Expression::Identifier("hello".to_string())],
        }])
    );
    let out = generate(&ast).unwrap();
    let echo = out.find("echo").unwrap();
    let status = out.find("__shard_status=$?").unwrap();
    assert!(echo < status);
}

#[test]
fn else_if_chain_nests_in_else_branch() {
    let input = "if x == 1 { echo one } else if x == 2 { echo two } else { echo other }";
    let ast = parse(tokenize(input).unwrap()).unwrap();
    assert_eq!(ast.0.len(), 1);
    match &ast.0[0] {
        Statement::If { condition, then_branch, else_branch } => {
            assert!(matches!(condition, Expression::BinaryOp { op: BinaryOperator::Equals, .. }));
            assert_eq!(then_branch.len(), 1);
            let inner = else_branch.as_ref().unwrap();
            assert_eq!(inner.len(), 1);
            match &inner[0] {
                Statement::If { else_branch: Some(last), .. } => {
                    assert_eq!(last.len(), 1);
                    assert!(matches!(&last[0], Statement::Command { name, .. } if name == "echo"));
                },
                other => panic!("nested if expected, got {:?}", other),
            }
        },
        other => panic!("if expected, got {:?}", other),
    }
    assert_eq!(
        body(input),
        "if [ $(((__shard_x == 1))) -ne 0 ]; then\n  echo \"${__shard_one}\"\n  __shard_status=$?\nelse\n  if [ $(((__shard_x == 2))) -ne 0 ]; then\n    echo \"${__shard_two}\"\n    __shard_status=$?\n  else\n    echo \"${__shard_other}\"\n    __shard_status=$?\n  fi\nfi\n"
    );
}

#[test]
fn function_with_return_parses_and_generates() {
    let input = "fn add(a, b) { return a + b }";
    let ast = parse(tokenize(input).unwrap()).unwrap();
    assert_eq!(ast.0.len(), 1);
    match &ast.0[0] {
        Statement::FunctionDef { name, params, body, return_value } => {
            assert_eq!(name, "add");
            assert_eq!(params, &vec!["a".to_string(), "b".to_string()]);
            assert!(return_value.is_none());
            assert_eq!(body.len(), 1);
            assert!(matches!(
                &body[0],
                Statement::Return { value: Some(Expression::BinaryOp { op: BinaryOperator::Add, .. }) }
            ));
        },
        other => panic!("function expected, got {:?}", other),
    }
    let out = compile(input);
    assert!(out.contains("add() {"));
    assert!(out.contains("return"));
    assert_eq!(
        &out[HEADER.len()..],
        "add() {\n  __shard_a=\"${1}\"\n  __shard_b=\"${2}\"\n  __shard_return=\"$((__shard_a + __shard_b))\"\n  return 0\n}\n"
    );
}

#[test]
fn unterminated_string_is_a_lexical_error() {
    match tokenize("'unterminated") {
        Err(LexerError::UnterminatedString { src, span }) => {
            assert_eq!(src, "'unterminated");
            assert_eq!(span, (0, 13));
        },
        other => panic!("unterminated string expected, got {:?}", other),
    }
}

#[test]
fn unexpected_character_is_a_lexical_error() {
    match tokenize("x = @") {
        Err(LexerError::UnexpectedChar { found, src, span }) => {
            assert_eq!(found, '@');
            assert_eq!(src, "x = @");
            assert_eq!(span, (4, 5));
        },
        other => panic!("unexpected character expected, got {:?}", other),
    }
}

#[test]
fn try_without_catch_fails_to_parse() {
    let result = parse(tokenize("try { echo a }").unwrap());
    assert!(matches!(result, Err(ParserError::Other(_))));
    let result = parse(tokenize("try { echo a }\necho b").unwrap());
    assert!(result.is_err());
}

#[test]
fn generating_twice_gives_identical_text() {
    let ast = parse(tokenize("m = {a: 1, b: 2}\nfor i in [3, 1, 2] { echo i }").unwrap()).unwrap();
    let first = generate(&ast).unwrap();
    let second = generate(&ast).unwrap();
    assert_eq!(first, second);
}

#[test]
fn missing_brace_after_header_fails() {
    assert!(parse(tokenize("while x echo").unwrap()).is_err());
    assert!(parse(tokenize("for i arr { echo i }").unwrap()).is_err());
    assert!(parse(tokenize("fn f(a) echo a").unwrap()).is_err());
    assert!(parse(tokenize("if x { echo a").unwrap()).is_err());
}

#[test]
fn unexpected_token_fails_statement() {
    assert!(parse(tokenize("= 3").unwrap()).is_err());
    assert!(parse(tokenize("x = [1, 2").unwrap()).is_err());
    assert!(parse(tokenize("x = (1 + 2").unwrap()).is_err());
    assert!(parse(tokenize("x = {a 1}").unwrap()).is_err());
}

#[test]
fn unsupported_node_fails_generation() {
    let program = Program(vec![Statement::Assignment {
        name: "x".to_string(),
        value: Expression::ArrayIndex {
            array: Box::new(Expression::Identifier("a".to_string())),
            index: Box::new(Expression::Literal(Literal::Integer(0))),
        },
    }]);
    match generate(&program) {
        Err(e @ CodegenError::UnsupportedNode { .. }) => {
            assert_eq!(e.message(), "Unsupported AST node: ArrayIndex");
            match ShardError::from_codegen(e) {
                ShardError::Codegen(m) => assert_eq!(m, "Unsupported AST node: ArrayIndex"),
                other => panic!("codegen error expected, got {:?}", other),
            }
        },
        other => panic!("unsupported node expected, got {:?}", other),
    }
}

#[test]
fn stage_errors_carry_their_messages() {
    let e = tokenize("@").unwrap_err();
    assert_eq!(e.message(), "Unexpected character: '@'");
    let s = ShardError::from_lexer(e);
    assert_eq!(s.message(), "Lexer error: Unexpected character: '@'");
    let p = parse(tokenize("try { a }").unwrap()).unwrap_err();
    let text = p.message();
    assert!(text.starts_with("Parser error: "));
    let s = ShardError::from_parser(p);
    assert!(matches!(s, ShardError::Parser(_)));
    let u = tokenize("'x").unwrap_err();
    assert_eq!(u.message(), "Unterminated string literal");
}

#[test]
fn integer_literals_read_as_i64() {
    let ast = parse(tokenize("a = 9223372036854775807\nb = 99999999999999999999\nc = 007").unwrap()).unwrap();
    let values: Vec<&Expression> = ast
        .0
        .iter()
        .map(|s| match s {
            Statement::Assignment { value, .. } => value,
            other => panic!("assignment expected, got {:?}", other),
        })
        .collect();
    assert_eq!(values[0], &Expression::Literal(Literal::Integer(i64::MAX)));
    assert_eq!(values[1], &Expression::Literal(Literal::Integer(0)));
    assert_eq!(values[2], &Expression::Literal(Literal::Integer(7)));
}

#[test]
fn precedence_and_unary_operators() {
    let ast = parse(tokenize("x = -1 + 2 * 3 or not y").unwrap()).unwrap();
    match &ast.0[0] {
        Statement::Assignment { value: Expression::BinaryOp { op: BinaryOperator::Or, left, right }, .. } => {
            match &**left {
                Expression::BinaryOp { op: BinaryOperator::Add, left: l, right: r } => {
                    assert!(matches!(&**l, Expression::UnaryOp { op: UnaryOperator::Negate, .. }));
                    assert!(matches!(&**r, Expression::BinaryOp { op: BinaryOperator::Multiply, .. }));
                },
                other => panic!("addition expected, got {:?}", other),
            }
            assert!(matches!(&**right, Expression::UnaryOp { op: UnaryOperator::Not, .. }));
        },
        other => panic!("assignment expected, got {:?}", other),
    }
    assert_eq!(body("x = -1 + 2 * 3 or not y"), "__shard_x=\"$(((-1 + (2 * 3)) || !__shard_y))\"\n");
}

#[test]
fn loops_and_try_generate_shell_blocks() {
    assert_eq!(
        body("while x < 10 { x = x + 1 }"),
        "while [ $(((__shard_x < 10))) -ne 0 ]; do\n  __shard_x=\"$((__shard_x + 1))\"\ndone\n"
    );
    assert_eq!(
        body("for i in [1, 2, 3] { echo i\nbreak }"),
        "for __shard_i in 1 2 3; do\n  echo \"${__shard_i}\"\n  __shard_status=$?\n  break\ndone\n"
    );
    assert_eq!(
        body("try { ls } catch err { echo err }"),
        "__shard_status=0\nls\n__shard_status=$?\nif [ \"$__shard_status\" -ne 0 ]; then\n  __shard_err=\"$__shard_status\"\n  echo \"${__shard_err}\"\n  __shard_status=$?\nfi\n"
    );
    assert!(body("try { ls } catch { continue }").contains("__shard_e=\"$__shard_status\""));
}

#[test]
fn literals_render_as_shell_values() {
    assert_eq!(body("x = 'it\\'s'"), "__shard_x='it'\\''s'\n");
    assert_eq!(body("x = \"a$b\""), "__shard_x=\"a${__shard_b}\"\n");
    assert_eq!(body("x = \"plain $5 {1}\""), "__shard_x='plain $5 {1}'\n");
    assert_eq!(body("m = {k: 1, n: 'v w'}"), "__shard_m=\"${__shard_k}:1 ${__shard_n}:v w\"\n");
    assert_eq!(body("a = [1, false, null, [2, 3]]"), "__shard_a=\"1 false  2 3\"\n");
    assert_eq!(body("c = len(arr, 'a\"b')"), "__shard_c=\"$(len \"${__shard_arr}\" \"a\\\"b\")\"\n");
    assert_eq!(body("return"), "return\n");
    assert_eq!(body("return 42"), "__shard_return=42\nreturn 0\n");
}

#[test]
fn command_arguments_are_shell_words() {
    let ast = parse(tokenize("ls -_x f(1) /usr/local/bin").unwrap()).unwrap();
    match &ast.0[0] {
        Statement::Command { name, args } => {
            assert_eq!(name, "ls");
            assert_eq!(args.len(), 4);
            assert_eq!(args[0], Expression::Literal(Literal::String("-".to_string())));
            assert_eq!(args[1], Expression::Identifier("_x".to_string()));
            assert!(matches!(&args[2], Expression::FunctionCall { name, args } if name == "f" && args.len() == 1));
            assert_eq!(args[3], Expression::Literal(Literal::String("/usr/local/bin".to_string())));
        },
        other => panic!("command expected, got {:?}", other),
    }
    let ast = parse(tokenize("greet(1, 2) extra").unwrap()).unwrap();
    match &ast.0[0] {
        Statement::Command { name, args } => {
            assert_eq!(name, "greet");
            assert_eq!(args.len(), 2);
            assert!(matches!(&args[0], Expression::FunctionCall { args, .. } if args.len() == 2));
        },
        other => panic!("command expected, got {:?}", other),
    }
}

#[test]
fn spans_are_byte_offsets_and_unicode_classes_apply() {
    let tokens = tokenize("\u{e9}t\u{e9} =\t1").unwrap();
    assert_eq!(tokens[0].1.token_type, TokenType::Identifier);
    assert_eq!(tokens[0].1.value, Some("\u{e9}t\u{e9}".to_string()));
    assert_eq!(tokens[0].1.span, (0, 5));
    assert_eq!(tokens[1].1.span, (6, 7));
    assert_eq!(tokens[2].1.span, (8, 9));
    assert_eq!(tokens[2].1.value, Some("1".to_string()));
}

#[test]
fn scanner_operators_and_keywords() {
    let kinds: Vec<TokenType> = tokenize("a.b == c != d <= e >= f -> g and h or not i ! j < k > l % m : n")
        .unwrap()
        .iter()
        .map(|t| t.1.token_type)
        .collect();
    let expected = [
        TokenType::Identifier,
        TokenType::EqEq,
        TokenType::Identifier,
        TokenType::NotEq,
        TokenType::Identifier,
        TokenType::LessEq,
        TokenType::Identifier,
        TokenType::GreaterEq,
        TokenType::Identifier,
        TokenType::Arrow,
        TokenType::Identifier,
        TokenType::And,
        TokenType::Identifier,
        TokenType::Or,
        TokenType::Not,
        TokenType::Identifier,
        TokenType::Not,
        TokenType::Identifier,
        TokenType::Less,
        TokenType::Identifier,
        TokenType::Greater,
        TokenType::Identifier,
        TokenType::Percent,
        TokenType::Identifier,
        TokenType::Colon,
        TokenType::Identifier,
        TokenType::EOF,
    ];
    assert_eq!(kinds, expected.to_vec());
}

#[test]
fn double_quoted_string_stops_at_newline() {
    let tokens = tokenize("\"abc\ndef").unwrap();
    assert_eq!(tokens[0].1.token_type, TokenType::InterpolatedString);
    assert_eq!(tokens[0].1.value, Some("abc".to_string()));
    assert_eq!(tokens[1].1.token_type, TokenType::Newline);
    assert_eq!(tokens[2].1.value, Some("def".to_string()));
    let tokens = tokenize("\"a\\\"b\" # note").unwrap();
    assert_eq!(tokens[0].1.value, Some("a\"b".to_string()));
    assert_eq!(tokens[1].1.token_type, TokenType::Comment);
    assert_eq!(tokens[1].1.value, None);
}

#[test]
fn double_quoted_placeholders_become_parts() {
    let ast = parse(tokenize("echo \"Hello {name}, you owe $amount`s {x\"").unwrap()).unwrap();
    match &ast.0[0] {
        Statement::Command { args, .. } => {
            assert_eq!(
                args[0],
                Expression::InterpolatedString {
                    parts: vec![
                        Expression::Literal(Literal::String("Hello ".to_string())),
                        Expression::Identifier("name".to_string()),
                        Expression::Literal(Literal::String(", you owe ".to_string())),
                        Expression::Identifier("amount".to_string()),
                        Expression::Literal(Literal::String("`s {x".to_string())),
                    ],
                }
            );
        },
        other => panic!("command expected, got {:?}", other),
    }
    assert_eq!(
        body("echo \"Hello {name}, you owe $amount`s {x\""),
        "echo \"Hello ${__shard_name}, you owe ${__shard_amount}\\`s {x\"\n__shard_status=$?\n"
    );
    let ast = parse(tokenize("x = \"$a$b\"").unwrap()).unwrap();
    assert_eq!(
        ast.0[0],
        Statement::Assignment {
            name: "x".to_string(),
            value: Expression::InterpolatedString {
                parts: vec![Expression::Identifier("a".to_string()), Expression::Identifier("b".to_string())],
            },
        }
    );
}

#[test]
fn parse_errors_name_the_expected_token_and_position() {
    let e = parse(tokenize("while x echo").unwrap()).unwrap_err();
    assert_eq!(e.message(), "Parser error: Expected '{' after while condition at position 8");
    let e = parse(tokenize("try { ls }\nrm").unwrap()).unwrap_err();
    assert_eq!(e.message(), "Parser error: Expected 'catch' at position 11");
}

#[test]
fn flags_and_paths_join_only_adjacent_tokens() {
    let ast = parse(tokenize("ls -la foo /a b").unwrap()).unwrap();
    assert_eq!(
        ast,
        Program(vec![Statement::Command {
            name: "ls".to_string(),
            args: vec![
                Expression::Literal(Literal::String("-la".to_string())),
                Expression::Identifier("foo".to_string()),
                Expression::Literal(Literal::String("/a".to_string())),
                Expression::Identifier("b".to_string()),
            ],
        }])
    );
    let ast = parse(tokenize("cp /src/a dest - x / y /p /q").unwrap()).unwrap();
    match &ast.0[0] {
        Statement::Command { args, .. } => {
            let texts: Vec<String> = args
                .iter()
                .map(|a| match a {
                    Expression::Literal(Literal::String(s)) => s.clone(),
                    Expression::Identifier(n) => format!("${}", n),
                    other => panic!("unexpected argument {:?}", other),
                })
                .collect();
            assert_eq!(texts, vec!["/src/a", "$dest", "-", "$x", "/", "$y", "/p", "/q"]);
        },
        other => panic!("command expected, got {:?}", other),
    }
}

#[test]
fn missing_brace_errors_name_the_delimiter() {
    let e = parse(tokenize("if x echo y").unwrap()).unwrap_err();
    assert_eq!(e.message(), "Parser error: Expected '{' after if condition at position 5");
    let e = parse(tokenize("while x echo y").unwrap()).unwrap_err();
    assert_eq!(e.message(), "Parser error: Expected '{' after while condition at position 8");
    let e = parse(tokenize("if x { a } else b").unwrap()).unwrap_err();
    assert_eq!(e.message(), "Parser error: Expected '{' after else at position 16");
    let e = parse(tokenize("x = (1 + 2").unwrap()).unwrap_err();
    assert_eq!(e.message(), "Parser error: Expected ')' at position 6");
    let e = parse(tokenize("x = [1, 2\n]").unwrap()).unwrap_err();
    assert_eq!(e.message(), "Parser error: Expected ']' or element at position 9");
    let e = parse(tokenize("x = ]").unwrap()).unwrap_err();
    assert_eq!(e.message(), "Parser error: Unexpected token in expression at position 4");
}
