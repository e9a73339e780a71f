use shard::{generate, parse, tokenize};

const HEADER: &str = "#!/bin/sh\n# Generated by Shard\n\n";

fn compile(input: &str) -> String {
    let tokens = tokenize(input).unwrap();
    let ast = parse(tokens).unwrap();
    generate(&ast).unwrap()
}

#[test]
fn test_snapshot_simple_assignment() {
    let output = compile("x = 10");
    assert_eq!(output, format!("{}__shard_x=10\n", HEADER));
}

#[test]
fn test_snapshot_string_assignment() {
    let output = compile("name = 'Shard'");
    assert_eq!(output, format!("{}__shard_name='Shard'\n", HEADER));
}

#[test]
fn test_snapshot_boolean_assignment() {
    let output = compile("active = true");
    assert_eq!(output, format!("{}__shard_active=true\n", HEADER));
}

#[test]
fn test_snapshot_null_assignment() {
    let output = compile("value = null");
    assert_eq!(output, format!("{}__shard_value=\n", HEADER));
}

#[test]
fn test_snapshot_simple_command() {
    let output = compile("echo hello");
    assert_eq!(output, format!("{}echo \"${{__shard_hello}}\"\n__shard_status=$?\n", HEADER));
}

#[test]
fn test_snapshot_command_with_args() {
    let output = compile("ls -la /home");
    assert_eq!(output, format!("{}ls '-la' '/home'\n__shard_status=$?\n", HEADER));
}

#[test]
fn test_snapshot_mixed_program() {
    let input = "name = 'Shard'\nversion = 1\necho name\nprint version";
    let output = compile(input);
    assert_eq!(
        output,
        format!(
            "{}__shard_name='Shard'\n__shard_version=1\necho \"${{__shard_name}}\"\n__shard_status=$?\nprint \"${{__shard_version}}\"\n__shard_status=$?\n",
            HEADER
        )
    );
}

#[test]
fn test_snapshot_complex_command() {
    let input = "cmd arg1 'string literal' 42 true";
    let output = compile(input);
    assert_eq!(
        output,
        format!("{}cmd \"${{__shard_arg1}}\" 'string literal' 42 true\n__shard_status=$?\n", HEADER)
    );
}

#[test]
fn test_snapshot_full_example() {
    let input = "name = 'Shard'\necho 'Hello' name";
    let output = compile(input);
    assert_eq!(
        output,
        format!(
            "{}__shard_name='Shard'\necho 'Hello' \"${{__shard_name}}\"\n__shard_status=$?\n",
            HEADER
        )
    );
}

#[test]
fn test_snapshot_multiple_assignments() {
    let input = "x = 1\ny = 2\nz = 'three'";
    let output = compile(input);
    assert_eq!(output, format!("{}__shard_x=1\n__shard_y=2\n__shard_z='three'\n", HEADER));
}

#[test]
fn test_snapshot_empty_program() {
    let output = compile("");
    assert_eq!(output, HEADER);
}
