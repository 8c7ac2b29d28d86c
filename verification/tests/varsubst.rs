use textfsm_rs::varsubst::{ParseChunk, VariableParser};
use textfsm_rs::TextFsmError;

fn parse_test(input: &str) -> Result<Vec<ParseChunk>, TextFsmError> {
    VariableParser::parse_dollar_string(input)
}

#[test]
fn test_simple_variable() {
    assert!(parse_test("$simple_var").is_ok());
}

#[test]
fn test_braced_variable() {
    assert!(parse_test("${braced_var}").is_ok());
}

#[test]
fn test_double_dollar() {
    assert!(parse_test("$$").is_ok());
}

#[test]
fn test_mixed_text_and_vars() {
    assert!(parse_test("Hello ${name}, your ID is $id!").is_ok());
}

#[test]
fn test_multiple_vars_in_path() {
    assert!(parse_test("/path/${dir}/$$/$subdir/file").is_ok());
}

#[test]
fn test_adjacent_vars() {
    assert!(parse_test("${var1}$var2$${var3}$$").is_ok());
}

#[test]
fn test_vars_with_underscores() {
    assert!(parse_test("${my_var}_$another_var").is_ok());
}

#[test]
fn test_complex_path() {
    assert!(parse_test("/base/$${project_name}/${env}_${region}/config").is_ok());
}

#[test]
fn test_empty_string() {
    assert!(parse_test("").is_ok());
}

#[test]
fn test_only_literal() {
    assert!(parse_test("Just a regular string without variables").is_ok());
}

#[test]
fn test_whitespace_handling() {
    assert!(parse_test("${var1}   $var2\n${var3}\t$$").is_ok());
}

#[test]
#[should_panic]
fn test_unclosed_brace() {
    parse_test("${unclosed").unwrap();
}

#[test]
fn test_dollar_in_literal() {
    assert!(parse_test("Cost: 100$ (${amount})").is_ok());
}

#[test]
fn test_complex_nested_path() {
    assert!(parse_test("/data/${env}/$${service_name}/${region}/v${version}/$type/$$").is_ok());
}

#[test]
fn test_chunk_contents() {
    let chunks = parse_test("a ${X}$$").unwrap();
    assert_eq!(chunks.len(), 3);
    assert_eq!(chunks[0], ParseChunk::Text("a ".to_string()));
    assert_eq!(chunks[1], ParseChunk::Variable("X".to_string()));
    assert_eq!(chunks[2], ParseChunk::DollarDollar);
}

#[test]
fn test_trailing_dollar_is_literal() {
    let chunks = parse_test("abc$").unwrap();
    assert_eq!(chunks.len(), 2);
    assert_eq!(chunks[0], ParseChunk::Text("abc".to_string()));
    assert_eq!(chunks[1], ParseChunk::DollarDollar);
}
