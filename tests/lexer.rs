use calculator::lexer::tokenize;
use calculator::token_types::{
    allways_end, classify, is_not_numeric, is_not_space, is_numeric, is_operator, is_space,
    TokenType,
};

#[test]
fn tokenize_numbers_and_operators() {
    let tokens = tokenize("12 + 3.5*4").unwrap();
    let seen: Vec<(usize, TokenType, String)> = tokens
        .iter()
        .map(|t| (t.pos, t.token_type, t.content.clone()))
        .collect();
    assert_eq!(
        seen,
        vec![
            (0, TokenType::Number, String::from("12")),
            (3, TokenType::Operator, String::from("+")),
            (5, TokenType::Number, String::from("3.5")),
            (8, TokenType::Operator, String::from("*")),
            (9, TokenType::Number, String::from("4")),
        ]
    );
}

#[test]
fn tokenize_keeps_ill_formed_number_whole() {
    let tokens = tokenize("1.2.3").unwrap();
    assert_eq!(tokens.len(), 1);
    assert_eq!(tokens[0].content, "1.2.3");
}

#[test]
fn tokenize_operators_are_single_characters() {
    let tokens = tokenize("--!^").unwrap();
    assert_eq!(tokens.len(), 4);
    assert_eq!(tokens[2].content, "!");
    assert_eq!(tokens[3].pos, 3);
}

#[test]
fn tokenize_empty_and_blank_input() {
    assert!(tokenize("").unwrap().is_empty());
    assert!(tokenize(" \t\n").unwrap().is_empty());
}

#[test]
fn tokenize_rejects_unknown_character() {
    assert_eq!(tokenize("1 + x").unwrap_err(), ("unknown token", 4));
    assert_eq!(tokenize("(1)").unwrap_err(), ("unknown token", 0));
}

#[test]
fn classifiers_in_order() {
    assert!(is_numeric('7') && is_numeric('.') && !is_numeric('a'));
    assert!(is_not_numeric('+') && !is_not_numeric('0'));
    assert!(is_space('\t') && !is_space('x'));
    assert!(is_not_space('x') && !is_not_space(' '));
    assert!(is_operator('^') && is_operator('!') && !is_operator('('));
    assert!(allways_end('z'));
    assert_eq!(classify('5').map(|c| c.token_type), Some(TokenType::Number));
    assert_eq!(classify('*').map(|c| c.token_type), Some(TokenType::Operator));
    assert_eq!(classify('\n').map(|c| c.token_type), Some(TokenType::Whitespace));
    assert_eq!(classify('#'), None);
    assert_eq!(TokenType::Number.name(), "number");
}
