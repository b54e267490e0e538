//! The expression grammar, from weakest to strongest binding:
//!
//! - `+` and `-`, left-associative;
//! - `*` and `/`, left-associative;
//! - `^`, right-associative;
//! - prefix signs, which stack, and are accepted only on the first operand
//!   of an expression (at the start of the input or right after `(`);
//! - postfix `!`, repeatable;
//! - numbers and parenthesized expressions.

use vstd::prelude::*;
use crate::ast::{
    BinaryOperator, Expression, PrefixOperator, Root, SuffixOperator, Term, term_of,
};
use crate::number::{decimal_from_chars, literal_value};
use crate::scan::{lex, lexemes_wf, scan, Lexeme, Sym};
use crate::text::chars_of;

verus! {

/// Why a parse stopped.
#[derive(Debug, Clone, Copy, PartialEq, Eq, Structural)]
pub enum Fault {
    /// An operand was due: a number or `(`, and with `lead` also a sign.
    Operand { lead: bool },
    /// A complete operand was followed by something that cannot continue
    /// it: an operator was acceptable, or `)` when `nested`, or else the end.
    Continuation { nested: bool },
    /// A number lexeme with no digit or with more than one point.
    Literal,
}

/// The outcome of a grammar rule: the term read and the index of the next
/// lexeme, or the index of the lexeme where it failed and why.
pub type Step = Result<(Term, int), (int, Fault)>;

/// The kind of lexeme `i`, if there is one.
pub open spec fn sym_at(t: Seq<Lexeme>, i: int) -> Option<Sym> {
    if 0 <= i < t.len() {
        Some(t[i].sym)
    } else {
        None
    }
}

/// `+` and `-` as infix operators.
pub open spec fn additive(x: Option<Sym>) -> Option<BinaryOperator> {
    match x {
        Some(Sym::Plus) => Some(BinaryOperator::Plus),
        Some(Sym::Minus) => Some(BinaryOperator::Minus),
        _ => None,
    }
}

/// `*` and `/` as infix operators.
pub open spec fn multiplicative(x: Option<Sym>) -> Option<BinaryOperator> {
    match x {
        Some(Sym::Star) => Some(BinaryOperator::Multiplication),
        Some(Sym::Slash) => Some(BinaryOperator::Divide),
        _ => None,
    }
}

/// `+` and `-` as signs.
pub open spec fn sign(x: Option<Sym>) -> Option<PrefixOperator> {
    match x {
        Some(Sym::Plus) => Some(PrefixOperator::PlusSign),
        Some(Sym::Minus) => Some(PrefixOperator::MinusSign),
        _ => None,
    }
}

/// A rule that started at `i` and succeeded stopped after it, within the input.
pub open spec fn advanced(t: Seq<Lexeme>, i: int, j: int) -> bool {
    i < j <= t.len()
}

/// A sum: products joined by `+` and `-`, grouped to the left.
pub open spec fn p_sum(s: Seq<char>, t: Seq<Lexeme>, i: int, lead: bool) -> Step
    decreases t.len() - i, 6nat,
{
    match p_product(s, t, i, lead) {
        Ok((l, j)) => if advanced(t, i, j) {
            p_sum_tail(s, t, j, l)
        } else {
            Err((i, Fault::Operand { lead }))
        },
        Err(f) => Err(f),
    }
}

/// The rest of a sum whose terms so far make `acc`.
pub open spec fn p_sum_tail(s: Seq<char>, t: Seq<Lexeme>, i: int, acc: Term) -> Step
    decreases t.len() - i, 5nat,
{
    match additive(sym_at(t, i)) {
        None => Ok((acc, i)),
        Some(op) => match p_product(s, t, i + 1, false) {
            Ok((r, j)) => if advanced(t, i + 1, j) {
                p_sum_tail(s, t, j, Term::Binary(Box::new(acc), op, Box::new(r)))
            } else {
                Err((i + 1, Fault::Operand { lead: false }))
            },
            Err(f) => Err(f),
        },
    }
}

/// A product: powers joined by `*` and `/`, grouped to the left.
pub open spec fn p_product(s: Seq<char>, t: Seq<Lexeme>, i: int, lead: bool) -> Step
    decreases t.len() - i, 4nat,
{
    match p_power(s, t, i, lead) {
        Ok((l, j)) => if advanced(t, i, j) {
            p_product_tail(s, t, j, l)
        } else {
            Err((i, Fault::Operand { lead }))
        },
        Err(f) => Err(f),
    }
}

/// The rest of a product whose factors so far make `acc`.
pub open spec fn p_product_tail(s: Seq<char>, t: Seq<Lexeme>, i: int, acc: Term) -> Step
    decreases t.len() - i, 3nat,
{
    match multiplicative(sym_at(t, i)) {
        None => Ok((acc, i)),
        Some(op) => match p_power(s, t, i + 1, false) {
            Ok((r, j)) => if advanced(t, i + 1, j) {
                p_product_tail(s, t, j, Term::Binary(Box::new(acc), op, Box::new(r)))
            } else {
                Err((i + 1, Fault::Operand { lead: false }))
            },
            Err(f) => Err(f),
        },
    }
}

/// A power: an operand, then optionally `^` and a power, grouped to the right.
pub open spec fn p_power(s: Seq<char>, t: Seq<Lexeme>, i: int, lead: bool) -> Step
    decreases t.len() - i, 2nat,
{
    match p_unary(s, t, i, lead) {
        Ok((b, j)) => if !advanced(t, i, j) {
            Err((i, Fault::Operand { lead }))
        } else if sym_at(t, j) == Some(Sym::Caret) {
            match p_power(s, t, j + 1, false) {
                Ok((e, k)) => Ok((Term::Binary(Box::new(b), BinaryOperator::Power, Box::new(e)), k)),
                Err(f) => Err(f),
            }
        } else {
            Ok((b, j))
        },
        Err(f) => Err(f),
    }
}

/// An operand: signs (where `lead` allows them), then a primary followed by
/// any number of `!`.
pub open spec fn p_unary(s: Seq<char>, t: Seq<Lexeme>, i: int, lead: bool) -> Step
    decreases t.len() - i, 1nat,
{
    if lead && sign(sym_at(t, i)) is Some {
        match p_unary(s, t, i + 1, true) {
            Ok((e, j)) => Ok((Term::Prefix(sign(sym_at(t, i))->0, Box::new(e)), j)),
            Err(f) => Err(f),
        }
    } else {
        match p_primary(s, t, i, lead) {
            Ok((e, j)) => Ok(bangs(t, j, e)),
            Err(f) => Err(f),
        }
    }
}

/// `e` with one factorial for each `!` from lexeme `i` on.
pub open spec fn bangs(t: Seq<Lexeme>, i: int, e: Term) -> (Term, int)
    decreases t.len() - i,
{
    if sym_at(t, i) == Some(Sym::Bang) {
        bangs(t, i + 1, Term::Suffix(Box::new(e), SuffixOperator::Factorial))
    } else {
        (e, i)
    }
}

/// A number, or an expression in parentheses.
pub open spec fn p_primary(s: Seq<char>, t: Seq<Lexeme>, i: int, lead: bool) -> Step
    decreases t.len() - i, 0nat,
{
    match sym_at(t, i) {
        Some(Sym::Number) => match literal_value(s.subrange(t[i].start as int, t[i].end as int)) {
            Some(d) => Ok((Term::Num(d), i + 1)),
            None => Err((i, Fault::Literal)),
        },
        Some(Sym::Open) => match p_sum(s, t, i + 1, true) {
            Ok((e, j)) => if sym_at(t, j) == Some(Sym::Close) {
                Ok((e, j + 1))
            } else {
                Err((j, Fault::Continuation { nested: true }))
            },
            Err(f) => Err(f),
        },
        _ => Err((i, Fault::Operand { lead })),
    }
}

/// A whole input of lexemes: one expression, then the end.
pub open spec fn parse_lexemes(s: Seq<char>, t: Seq<Lexeme>) -> Result<Term, (int, Fault)> {
    match p_sum(s, t, 0, true) {
        Ok((e, j)) => if j == t.len() {
            Ok(e)
        } else {
            Err((j, Fault::Continuation { nested: false }))
        },
        Err(f) => Err(f),
    }
}

/// The character position of a failure at lexeme `k`: where that lexeme
/// starts, or, past the last lexeme, where the last one ends.
pub open spec fn error_offset(t: Seq<Lexeme>, k: int) -> int {
    if 0 <= k < t.len() {
        t[k].start as int
    } else if t.len() > 0 {
        t.last().end as int
    } else {
        0
    }
}

/// The parse of a text: its term, or the character position of the failure
/// and why.
pub open spec fn spec_parse(s: Seq<char>) -> Result<Term, (int, Fault)> {
    match parse_lexemes(s, lex(s)) {
        Ok(e) => Ok(e),
        Err((k, f)) => Err((error_offset(lex(s), k), f)),
    }
}

/// Where the line that holds position `off` starts.
pub open spec fn line_start(s: Seq<char>, off: int) -> int
    decreases off,
{
    if off <= 0 || off > s.len() {
        0
    } else if s[off - 1] == '\n' {
        off
    } else {
        line_start(s, off - 1)
    }
}

/// The 1-based column of position `off` within its line.
pub open spec fn column_of(s: Seq<char>, off: int) -> int {
    off - line_start(s, off) + 1
}

/// What would have been accepted where a parse failed, in lexicographic order.
pub open spec fn expected_of(f: Fault) -> Seq<&'static str> {
    match f {
        Fault::Operand { lead: true } => seq!["\"(\"", "\"+\"", "\"-\"", "number"],
        Fault::Operand { lead: false } => seq!["\"(\"", "number"],
        Fault::Continuation { nested: true } => seq![
            "\"!\"",
            "\")\"",
            "\"*\"",
            "\"+\"",
            "\"-\"",
            "\"/\"",
            "\"^\"",
        ],
        Fault::Continuation { nested: false } => seq![
            "\"!\"",
            "\"*\"",
            "\"+\"",
            "\"-\"",
            "\"/\"",
            "\"^\"",
            "end of input",
        ],
        Fault::Literal => seq!["number"],
    }
}

/// A syntax error: where it was found, as a character offset and a 1-based
/// column, and the descriptions of what would have been accepted there.
#[derive(Debug, Clone, PartialEq)]
pub struct ParseError {
    pub offset: usize,
    pub column: usize,
    pub expected: Vec<&'static str>,
}

/// The outcome of an executable rule: the expression read and the index of
/// the next lexeme, or the index where it failed and why.
pub type Parsed = Result<(Expression, usize), (usize, Fault)>;

/// The outcome of an executable rule, seen as a [`Step`].
pub open spec fn step_of(r: Parsed) -> Step {
    match r {
        Ok((e, j)) => Ok((term_of(&e), j as int)),
        Err((k, f)) => Err((k as int, f)),
    }
}

/// A successful outcome moved past `i`, within the input.
pub open spec fn progressed(r: Parsed, i: int, n: int) -> bool {
    r matches Ok((_e, j)) ==> i < j <= n
}

/// Reads a sum from lexeme `i`.
fn sum(s: &Vec<char>, t: &Vec<Lexeme>, i: usize, lead: bool) -> (r: Parsed)
    requires
        lexemes_wf(s@, t@),
        i <= t@.len(),
    ensures
        step_of(r) == p_sum(s@, t@, i as int, lead),
        progressed(r, i as int, t@.len() as int),
    decreases t@.len() - i, 6nat,
{
    let (first, j) = match product(s, t, i, lead) {
        Ok(x) => x,
        Err(f) => return Err(f),
    };
    let mut acc = first;
    let mut k = j;
    while k < t.len() && (t[k].sym == Sym::Plus || t[k].sym == Sym::Minus)
        invariant
            lexemes_wf(s@, t@),
            i < k <= t@.len(),
            p_sum(s@, t@, i as int, lead) == p_sum_tail(s@, t@, k as int, term_of(&acc)),
        decreases t@.len() - k,
    {
        let op = if t[k].sym == Sym::Plus {
            BinaryOperator::Plus
        } else {
            BinaryOperator::Minus
        };
        let (right, next) = match product(s, t, k + 1, false) {
            Ok(x) => x,
            Err(f) => return Err(f),
        };
        acc = Expression::BinaryOperation(Box::new(acc), op, Box::new(right));
        k = next;
    }
    Ok((acc, k))
}

/// Reads a product from lexeme `i`.
fn product(s: &Vec<char>, t: &Vec<Lexeme>, i: usize, lead: bool) -> (r: Parsed)
    requires
        lexemes_wf(s@, t@),
        i <= t@.len(),
    ensures
        step_of(r) == p_product(s@, t@, i as int, lead),
        progressed(r, i as int, t@.len() as int),
    decreases t@.len() - i, 4nat,
{
    let (first, j) = match power(s, t, i, lead) {
        Ok(x) => x,
        Err(f) => return Err(f),
    };
    let mut acc = first;
    let mut k = j;
    while k < t.len() && (t[k].sym == Sym::Star || t[k].sym == Sym::Slash)
        invariant
            lexemes_wf(s@, t@),
            i < k <= t@.len(),
            p_product(s@, t@, i as int, lead) == p_product_tail(
                s@,
                t@,
                k as int,
                term_of(&acc),
            ),
        decreases t@.len() - k,
    {
        let op = if t[k].sym == Sym::Star {
            BinaryOperator::Multiplication
        } else {
            BinaryOperator::Divide
        };
        let (right, next) = match power(s, t, k + 1, false) {
            Ok(x) => x,
            Err(f) => return Err(f),
        };
        acc = Expression::BinaryOperation(Box::new(acc), op, Box::new(right));
        k = next;
    }
    Ok((acc, k))
}

/// Reads a power from lexeme `i`.
fn power(s: &Vec<char>, t: &Vec<Lexeme>, i: usize, lead: bool) -> (r: Parsed)
    requires
        lexemes_wf(s@, t@),
        i <= t@.len(),
    ensures
        step_of(r) == p_power(s@, t@, i as int, lead),
        progressed(r, i as int, t@.len() as int),
    decreases t@.len() - i, 2nat,
{
    let (base, j) = match unary(s, t, i, lead) {
        Ok(x) => x,
        Err(f) => return Err(f),
    };
    if j < t.len() && t[j].sym == Sym::Caret {
        let (exponent, k) = match power(s, t, j + 1, false) {
            Ok(x) => x,
            Err(f) => return Err(f),
        };
        Ok((Expression::BinaryOperation(Box::new(base), BinaryOperator::Power, Box::new(exponent)), k))
    } else {
        Ok((base, j))
    }
}

/// Reads an operand with its signs and factorials from lexeme `i`.
fn unary(s: &Vec<char>, t: &Vec<Lexeme>, i: usize, lead: bool) -> (r: Parsed)
    requires
        lexemes_wf(s@, t@),
        i <= t@.len(),
    ensures
        step_of(r) == p_unary(s@, t@, i as int, lead),
        progressed(r, i as int, t@.len() as int),
    decreases t@.len() - i, 1nat,
{
    if lead && i < t.len() && (t[i].sym == Sym::Plus || t[i].sym == Sym::Minus) {
        let op = if t[i].sym == Sym::Plus {
            PrefixOperator::PlusSign
        } else {
            PrefixOperator::MinusSign
        };
        let (operand, j) = match unary(s, t, i + 1, true) {
            Ok(x) => x,
            Err(f) => return Err(f),
        };
        Ok((Expression::UnaryPrefixOperation(op, Box::new(operand)), j))
    } else {
        let (mut e, j) = match primary(s, t, i, lead) {
            Ok(x) => x,
            Err(f) => return Err(f),
        };
        let ghost first = term_of(&e);
        let mut k = j;
        while k < t.len() && t[k].sym == Sym::Bang
            invariant
                i < k <= t@.len(),
                bangs(t@, j as int, first) == bangs(t@, k as int, term_of(&e)),
            decreases t@.len() - k,
        {
            e = Expression::UnarySuffixOperation(Box::new(e), SuffixOperator::Factorial);
            k += 1;
        }
        Ok((e, k))
    }
}

/// Reads a number or a parenthesized expression from lexeme `i`.
fn primary(s: &Vec<char>, t: &Vec<Lexeme>, i: usize, lead: bool) -> (r: Parsed)
    requires
        lexemes_wf(s@, t@),
        i <= t@.len(),
    ensures
        step_of(r) == p_primary(s@, t@, i as int, lead),
        progressed(r, i as int, t@.len() as int),
    decreases t@.len() - i, 0nat,
{
    if i < t.len() && t[i].sym == Sym::Number {
        match decimal_from_chars(s, t[i].start, t[i].end) {
            Some(d) => Ok((Expression::Number(d), i + 1)),
            None => Err((i, Fault::Literal)),
        }
    } else if i < t.len() && t[i].sym == Sym::Open {
        let (e, j) = match sum(s, t, i + 1, true) {
            Ok(x) => x,
            Err(f) => return Err(f),
        };
        if j < t.len() && t[j].sym == Sym::Close {
            Ok((e, j + 1))
        } else {
            Err((j, Fault::Continuation { nested: true }))
        }
    } else {
        Err((i, Fault::Operand { lead }))
    }
}

/// The descriptions of what would have been accepted after fault `f`.
fn expected_for(f: Fault) -> (r: Vec<&'static str>)
    ensures
        r@ == expected_of(f),
{
    match f {
        Fault::Operand { lead: true } => vec!["\"(\"", "\"+\"", "\"-\"", "number"],
        Fault::Operand { lead: false } => vec!["\"(\"", "number"],
        Fault::Continuation { nested: true } => vec![
            "\"!\"",
            "\")\"",
            "\"*\"",
            "\"+\"",
            "\"-\"",
            "\"/\"",
            "\"^\"",
        ],
        Fault::Continuation { nested: false } => vec![
            "\"!\"",
            "\"*\"",
            "\"+\"",
            "\"-\"",
            "\"/\"",
            "\"^\"",
            "end of input",
        ],
        Fault::Literal => vec!["number"],
    }
}

/// The syntax error for a failure at lexeme `k` of `t`, the lexemes of `s`.
fn fault_to_error(s: &Vec<char>, t: &Vec<Lexeme>, k: usize, f: Fault) -> (r: ParseError)
    requires
        lexemes_wf(s@, t@),
        s@.len() < usize::MAX,
    ensures
        r.offset == error_offset(t@, k as int),
        r.column == column_of(s@, error_offset(t@, k as int)),
        r.expected@ == expected_of(f),
{
    let offset = if k < t.len() {
        t[k].start
    } else if t.len() > 0 {
        t[t.len() - 1].end
    } else {
        0
    };
    let mut line: usize = offset;
    while line > 0 && s[line - 1] != '\n'
        invariant
            line <= offset <= s@.len(),
            line_start(s@, offset as int) == line_start(s@, line as int),
        decreases line,
    {
        line -= 1;
    }
    ParseError { offset, column: offset - line + 1, expected: expected_for(f) }
}

/// Parses `input` as one expression. On failure the error gives the
/// position of the first lexeme that cannot continue the expression (or,
/// at the end of the input, where the last lexeme ends), its column within
/// its line, and the descriptions of what would have been accepted there.
pub fn parse(input: &str) -> (r: Result<Root, ParseError>)
    requires
        input@.len() < usize::MAX,
    ensures
        match spec_parse(input@) {
            Ok(e) => r matches Ok(root) && root@ == e,
            Err((off, f)) => r matches Err(err) && err.offset == off && err.column == column_of(
                input@,
                off,
            ) && err.expected@ == expected_of(f),
        },
{
    let s = chars_of(input);
    let t = scan(&s);
    match sum(&s, &t, 0, true) {
        Ok((e, j)) => {
            if j == t.len() {
                Ok(Root::Expression(e))
            } else {
                Err(fault_to_error(&s, &t, j, Fault::Continuation { nested: false }))
            }
        },
        Err((k, f)) => Err(fault_to_error(&s, &t, k, f)),
    }
}

} // verus!
