use calculator::grammar::parse;
use calculator::input_error::{generate_expected_string, or_list, parse_input, InputError};

#[test]
fn test_generate_expected_string() {
    let expected = vec!["number", "abc"];
    assert_eq!(
        generate_expected_string(&expected),
        "expected abc or number"
    );
}

#[test]
fn generate_expected_string_names_each_once() {
    let expected = vec!["b", "a", "b", "c", "a"];
    assert_eq!(generate_expected_string(&expected), "expected a, b or c");
}

#[test]
fn test_or_list_with_one_entry() {
    assert_eq!(or_list(&vec!["foo"]), String::from("foo"));
}

#[test]
fn test_or_list_with_two_entries() {
    assert_eq!(or_list(&vec!["foo", "bar"]), String::from("foo or bar"));
}

#[test]
fn test_or_list_with_three_entries() {
    assert_eq!(
        or_list(&vec!["foo", "bar", "baz"]),
        String::from("foo, bar or baz")
    );
}

#[test]
fn test_or_list_with_five_entries() {
    assert_eq!(
        or_list(&vec!["a", "b", "c", "d", "e"]),
        String::from("a, b, c, d or e")
    );
}

#[test]
fn or_list_with_no_entries_is_empty() {
    let empty: Vec<&str> = Vec::new();
    assert_eq!(or_list(&empty), String::new());
}

#[test]
fn input_error_from_parse_error() {
    let err = parse("5 +").unwrap_err();
    let input_error = InputError::from_parser_error(err);
    assert_eq!(input_error.msg, "expected \"(\" or number");
    assert_eq!(input_error.pos.start, 3);
    assert_eq!(input_error.pos.end, 4);
    assert_eq!(input_error.pos.len(), 1);
    assert_eq!(input_error.pos.fill('^'), "^");
}

#[test]
fn parse_input_reports_message_and_range() {
    let err = parse_input("*5").err().unwrap();
    assert_eq!(err.msg, "expected \"(\", \"+\", \"-\" or number");
    assert_eq!(err.pos.start, 0);
    assert_eq!(err.pos.end, 1);
    assert!(parse_input("1 + 2").is_ok());
}

#[test]
fn parse_input_after_a_complete_expression() {
    let err = parse_input("5 5").err().unwrap();
    assert_eq!(
        err.msg,
        "expected \"!\", \"*\", \"+\", \"-\", \"/\", \"^\" or end of input"
    );
    assert_eq!(err.pos.start, 2);
}
