use lisp_reader::reader::parse_all;
use lisp_reader::value::ParseError;
use lisp_reader::value::Value;

fn sym(s: &str) -> Value {
    Value::Symbol(s.to_string())
}

fn num(n: u64) -> Value {
    Value::Number(n)
}

#[test]
fn empty_input_is_rejected() {
    assert_eq!(parse_all(""), Err(ParseError::EmptyInput));
}

#[test]
fn empty_list() {
    assert_eq!(parse_all("()"), Ok(vec![Value::List(vec![])]));
}

#[test]
fn list_of_numbers() {
    assert_eq!(
        parse_all("(1 2 3)"),
        Ok(vec![Value::List(vec![num(1), num(2), num(3)])])
    );
}

#[test]
fn bare_string() {
    assert_eq!(
        parse_all("\"hello\""),
        Ok(vec![Value::Str("hello".to_string())])
    );
}

#[test]
fn operator_call() {
    assert_eq!(
        parse_all("(+ 1 2)"),
        Ok(vec![Value::List(vec![sym("+"), num(1), num(2)])])
    );
}

#[test]
fn nested_lists() {
    assert_eq!(
        parse_all("(a (b c))"),
        Ok(vec![Value::List(vec![
            sym("a"),
            Value::List(vec![sym("b"), sym("c")]),
        ])])
    );
}

#[test]
fn unclosed_list_is_rejected() {
    assert_eq!(parse_all("(a"), Err(ParseError::UnexpectedEndOfInput));
}

#[test]
fn unclosed_string_is_rejected() {
    assert_eq!(parse_all("\"abc"), Err(ParseError::UnexpectedEndOfInput));
}

#[test]
fn invalid_character_is_rejected() {
    assert_eq!(parse_all("#"), Err(ParseError::InvalidCharacter('#')));
}

#[test]
fn surrounding_whitespace_is_transparent() {
    assert_eq!(parse_all("  (a b)  "), parse_all("(a b)"));
    assert_eq!(
        parse_all("(a b)"),
        Ok(vec![Value::List(vec![sym("a"), sym("b")])])
    );
}

#[test]
fn several_top_level_expressions() {
    assert_eq!(parse_all("a b"), Ok(vec![sym("a"), sym("b")]));
}

#[test]
fn number_run_stops_at_non_digit() {
    assert_eq!(parse_all("42x"), Ok(vec![num(42), sym("x")]));
}

#[test]
fn symbols_may_hold_digits() {
    assert_eq!(parse_all("a1"), Ok(vec![sym("a1")]));
}

#[test]
fn oversized_numeral_is_rejected() {
    assert_eq!(
        parse_all("99999999999999999999"),
        Err(ParseError::NotANumber("99999999999999999999".to_string()))
    );
}

#[test]
fn largest_number_fits() {
    assert_eq!(parse_all("18446744073709551615"), Ok(vec![num(u64::MAX)]));
}

#[test]
fn whitespace_only_input_yields_nothing() {
    assert_eq!(parse_all("   "), Ok(vec![]));
}

#[test]
fn tab_is_not_whitespace() {
    assert_eq!(parse_all("\t"), Err(ParseError::InvalidCharacter('\t')));
}

#[test]
fn string_content_is_taken_verbatim() {
    assert_eq!(
        parse_all("\"a (b 1\""),
        Ok(vec![Value::Str("a (b 1".to_string())])
    );
}

#[test]
fn deeply_nested_lists() {
    assert_eq!(
        parse_all("((()))"),
        Ok(vec![Value::List(vec![Value::List(vec![Value::List(
            vec![]
        )])])])
    );
}

#[test]
fn stray_close_paren_is_rejected() {
    assert_eq!(parse_all(")"), Err(ParseError::InvalidCharacter(')')));
}

#[test]
fn crlf_between_elements() {
    assert_eq!(
        parse_all("(a\r\nb)"),
        Ok(vec![Value::List(vec![sym("a"), sym("b")])])
    );
}

#[test]
fn non_ascii_letters_form_symbols() {
    assert_eq!(parse_all("état"), Ok(vec![sym("état")]));
}

#[test]
fn empty_string_literal() {
    assert_eq!(parse_all("\"\""), Ok(vec![Value::Str(String::new())]));
}
