//! Character classes of the tokenizer, tried in a fixed order.

use vstd::prelude::*;

verus! {

/// The kinds of token; `Whitespace` stands for blanks, which are never emitted.
#[derive(Debug, Clone, Copy, PartialEq, Eq, Structural)]
pub enum TokenType {
    Number,
    Operator,
    Whitespace,
}

impl TokenType {
    /// A short lower-case name of the kind.
    pub fn name(&self) -> (r: &'static str)
        ensures
            *self == TokenType::Number ==> r@ == "number"@,
            *self == TokenType::Operator ==> r@ == "operator"@,
            *self == TokenType::Whitespace ==> r@ == "whitespace"@,
    {
        match self {
            TokenType::Number => "number",
            TokenType::Operator => "operator",
            TokenType::Whitespace => "whitespace",
        }
    }
}

/// A digit or the decimal point.
pub open spec fn spec_is_numeric(c: char) -> bool {
    ('0' <= c && c <= '9') || c == '.'
}

/// A space, a tab or a newline.
pub open spec fn spec_is_space(c: char) -> bool {
    c == ' ' || c == '\t' || c == '\n'
}

/// One of the operator characters.
pub open spec fn spec_is_operator(c: char) -> bool {
    c == '+' || c == '-' || c == '*' || c == '/' || c == '^' || c == '!'
}

/// Whether `c` opens a token of kind `t`.
pub open spec fn spec_starts(t: TokenType, c: char) -> bool {
    match t {
        TokenType::Number => spec_is_numeric(c),
        TokenType::Operator => spec_is_operator(c),
        TokenType::Whitespace => spec_is_space(c),
    }
}

/// Whether `c` closes an open token of kind `t` (and so does not belong to it).
pub open spec fn spec_ends(t: TokenType, c: char) -> bool {
    match t {
        TokenType::Number => !spec_is_numeric(c),
        TokenType::Operator => true,
        TokenType::Whitespace => !spec_is_space(c),
    }
}

/// The kind of token that `c` opens: the first of number, operator and
/// whitespace whose class holds `c`.
pub open spec fn spec_classify(c: char) -> Option<TokenType> {
    if spec_starts(TokenType::Number, c) {
        Some(TokenType::Number)
    } else if spec_starts(TokenType::Operator, c) {
        Some(TokenType::Operator)
    } else if spec_starts(TokenType::Whitespace, c) {
        Some(TokenType::Whitespace)
    } else {
        None
    }
}

/// Whether `c` is a digit or the decimal point.
pub fn is_numeric(c: char) -> (r: bool)
    ensures
        r == spec_is_numeric(c),
{
    ('0' <= c && c <= '9') || c == '.'
}

/// Whether `c` is neither a digit nor the decimal point.
pub fn is_not_numeric(c: char) -> (r: bool)
    ensures
        r == !spec_is_numeric(c),
{
    !is_numeric(c)
}

/// Whether `c` is a space, a tab or a newline.
pub fn is_space(c: char) -> (r: bool)
    ensures
        r == spec_is_space(c),
{
    c == ' ' || c == '\t' || c == '\n'
}

/// Whether `c` is not whitespace.
pub fn is_not_space(c: char) -> (r: bool)
    ensures
        r == !spec_is_space(c),
{
    !is_space(c)
}

/// Whether `c` is one of `+ - * / ^ !`.
pub fn is_operator(c: char) -> (r: bool)
    ensures
        r == spec_is_operator(c),
{
    c == '+' || c == '-' || c == '*' || c == '/' || c == '^' || c == '!'
}

/// An operator token is one character long: every next character closes it.
pub fn allways_end(_c: char) -> (r: bool)
    ensures
        r,
{
    true
}

/// A classifier record: the kind of token it recognizes, with the rule for
/// opening such a token and the rule for closing it.
#[derive(Debug, Clone, Copy, PartialEq, Eq, Structural)]
pub struct TokenTypeChecker {
    pub token_type: TokenType,
}

impl TokenTypeChecker {
    /// Whether `c` opens a token of this kind.
    pub fn starts_with(&self, c: char) -> (r: bool)
        ensures
            r == spec_starts(self.token_type, c),
    {
        match self.token_type {
            TokenType::Number => is_numeric(c),
            TokenType::Operator => is_operator(c),
            TokenType::Whitespace => is_space(c),
        }
    }

    /// Whether `c` closes an open token of this kind.
    pub fn ends_with(&self, c: char) -> (r: bool)
        ensures
            r == spec_ends(self.token_type, c),
    {
        match self.token_type {
            TokenType::Number => is_not_numeric(c),
            TokenType::Operator => allways_end(c),
            TokenType::Whitespace => is_not_space(c),
        }
    }
}

/// The classifier that `c` selects, trying number, operator and whitespace in
/// that order; `None` where no classifier accepts `c`.
pub fn classify(c: char) -> (r: Option<TokenTypeChecker>)
    ensures
        r matches Some(k) ==> spec_classify(c) == Some(k.token_type),
        r is None ==> spec_classify(c) is None,
{
    let checkers = [
        TokenTypeChecker { token_type: TokenType::Number },
        TokenTypeChecker { token_type: TokenType::Operator },
        TokenTypeChecker { token_type: TokenType::Whitespace },
    ];
    let mut i: usize = 0;
    while i < 3
        invariant
            i <= 3,
            checkers@ == seq![
                TokenTypeChecker { token_type: TokenType::Number },
                TokenTypeChecker { token_type: TokenType::Operator },
                TokenTypeChecker { token_type: TokenType::Whitespace },
            ],
            forall|j: int| 0 <= j < i ==> !spec_starts(#[trigger] checkers@[j].token_type, c),
        decreases 3 - i,
    {
        if checkers[i].starts_with(c) {
            return Some(checkers[i]);
        }
        i += 1;
    }
    assert(!spec_starts(checkers@[0].token_type, c));
    assert(!spec_starts(checkers@[1].token_type, c));
    assert(!spec_starts(checkers@[2].token_type, c));
    None
}

} // verus!
