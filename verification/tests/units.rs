use lisp_reader::cursor::Cursor;
use lisp_reader::reader::is_digit;
use lisp_reader::reader::is_symbol;
use lisp_reader::reader::read_expr;
use lisp_reader::reader::read_list;
use lisp_reader::reader::read_number;
use lisp_reader::reader::read_str;
use lisp_reader::reader::read_symbol;
use lisp_reader::value::create_bool_obj;
use lisp_reader::value::create_list_obj;
use lisp_reader::value::create_num_obj;
use lisp_reader::value::create_object;
use lisp_reader::value::create_str_obj;
use lisp_reader::value::create_sym_obj;
use lisp_reader::value::ObjectType;
use lisp_reader::value::ParseError;
use lisp_reader::value::Value;

#[test]
fn cursor_walks_the_text() {
    let mut c = Cursor::new("ab".to_string());
    assert!(c.has_next_char());
    assert_eq!(c.current_char(), Ok('a'));
    assert!(c.expect_char('a'));
    assert!(!c.expect_char('b'));
    assert_eq!(c.next_char(), Ok('b'));
    c.skip_char();
    assert!(!c.has_next_char());
    assert_eq!(c.current_char(), Err(ParseError::UnexpectedEndOfInput));
}

#[test]
fn cursor_next_char_at_the_last_character() {
    let mut c = Cursor::new("a".to_string());
    assert_eq!(c.next_char(), Err(ParseError::UnexpectedEndOfInput));
}

#[test]
fn cursor_counts_codepoints_not_bytes() {
    let mut c = Cursor::new("\u{e9}x".to_string());
    assert_eq!(c.current_char(), Ok('\u{e9}'));
    assert_eq!(c.next_char(), Ok('x'));
}

#[test]
fn symbol_predicate() {
    assert!(is_symbol('a'));
    assert!(is_symbol('Z'));
    assert!(is_symbol('0'));
    assert!(is_symbol('+'));
    assert!(is_symbol('-'));
    assert!(is_symbol('/'));
    assert!(is_symbol('*'));
    assert!(!is_symbol(' '));
    assert!(!is_symbol('('));
    assert!(!is_symbol(')'));
    assert!(!is_symbol('"'));
    assert!(!is_symbol('#'));
}

#[test]
fn digit_predicate() {
    assert!(is_digit('0'));
    assert!(is_digit('9'));
    assert!(!is_digit('a'));
    assert!(!is_digit(' '));
}

#[test]
fn constructors_build_each_kind() {
    assert_eq!(create_sym_obj("abc"), Value::Symbol("abc".to_string()));
    assert_eq!(create_str_obj("s".to_string()), Value::Str("s".to_string()));
    assert_eq!(create_num_obj(7), Value::Number(7));
    assert_eq!(create_bool_obj(true), Value::Boolean(true));
    assert_eq!(
        create_list_obj(vec![Value::Number(1)]),
        Value::List(vec![Value::Number(1)])
    );
}

#[test]
fn create_object_yields_the_empty_value_of_each_kind() {
    assert_eq!(
        create_object(ObjectType::Symbol),
        Value::Symbol(String::new())
    );
    assert_eq!(create_object(ObjectType::Str), Value::Str(String::new()));
    assert_eq!(create_object(ObjectType::Number), Value::Number(0));
    assert_eq!(create_object(ObjectType::Boolean), Value::Boolean(false));
    assert_eq!(create_object(ObjectType::List), Value::List(vec![]));
}

#[test]
fn read_number_stops_without_consuming_the_next_character() {
    let mut c = Cursor::new("12)".to_string());
    assert_eq!(read_number(&mut c), Ok(Value::Number(12)));
    assert_eq!(c.current_char(), Ok(')'));
}

#[test]
fn read_symbol_stops_at_end_of_input() {
    let mut c = Cursor::new("abc".to_string());
    assert_eq!(read_symbol(&mut c), Ok(Value::Symbol("abc".to_string())));
    assert!(!c.has_next_char());
}

#[test]
fn read_str_consumes_both_quotes() {
    let mut c = Cursor::new("\"hi\"x".to_string());
    assert_eq!(read_str(&mut c), Ok(Value::Str("hi".to_string())));
    assert_eq!(c.current_char(), Ok('x'));
}

#[test]
fn read_list_leaves_the_cursor_past_the_close_paren() {
    let mut c = Cursor::new("(a)b".to_string());
    assert_eq!(
        read_list(&mut c),
        Ok(Value::List(vec![Value::Symbol("a".to_string())]))
    );
    assert_eq!(c.current_char(), Ok('b'));
}

#[test]
fn read_expr_skips_leading_whitespace() {
    let mut c = Cursor::new("  a".to_string());
    assert_eq!(read_expr(&mut c), Ok(Value::Symbol("a".to_string())));
}

#[test]
fn read_expr_with_nothing_left_is_rejected() {
    let mut c = Cursor::new(String::new());
    assert_eq!(read_expr(&mut c), Err(ParseError::UnexpectedEndOfInput));
}
