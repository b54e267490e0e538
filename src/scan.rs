//! The lexemes that the parser reads: numbers, operators, parentheses, and
//! single characters that belong to no token.

use vstd::prelude::*;
use crate::lexer::{lemma_run_end, run_end};
use crate::token_types::{is_numeric, is_space, spec_is_numeric, spec_is_space, TokenType};

verus! {

/// The kind of a lexeme.
#[derive(Debug, Clone, Copy, PartialEq, Eq, Structural)]
pub enum Sym {
    Number,
    Plus,
    Minus,
    Star,
    Slash,
    Caret,
    Bang,
    Open,
    Close,
    Unknown,
}

/// A lexeme: its kind and the character range `[start, end)` it covers.
#[derive(Debug, Clone, Copy, PartialEq, Eq, Structural)]
pub struct Lexeme {
    pub sym: Sym,
    pub start: usize,
    pub end: usize,
}

/// The kind of a lexeme of one character.
pub open spec fn sym_of(c: char) -> Sym {
    if c == '+' {
        Sym::Plus
    } else if c == '-' {
        Sym::Minus
    } else if c == '*' {
        Sym::Star
    } else if c == '/' {
        Sym::Slash
    } else if c == '^' {
        Sym::Caret
    } else if c == '!' {
        Sym::Bang
    } else if c == '(' {
        Sym::Open
    } else if c == ')' {
        Sym::Close
    } else {
        Sym::Unknown
    }
}

/// The lexemes of `s` from position `p` on: whitespace separates them, a
/// number is a longest run of digits and points, anything else is one
/// character long.
pub open spec fn lex_from(s: Seq<char>, p: int) -> Seq<Lexeme>
    decreases s.len() - p,
{
    if p < 0 || p >= s.len() {
        seq![]
    } else if spec_is_space(s[p]) {
        lex_from(s, p + 1)
    } else if spec_is_numeric(s[p]) {
        let q = run_end(s, p + 1, TokenType::Number);
        proof {
            lemma_run_end(s, p + 1, TokenType::Number);
        }
        seq![
            Lexeme {
                sym: Sym::Number,
                start: #[verifier::truncate] (p as usize),
                end: #[verifier::truncate] (q as usize),
            },
        ] + lex_from(s, q)
    } else {
        seq![
            Lexeme {
                sym: sym_of(s[p]),
                start: #[verifier::truncate] (p as usize),
                end: #[verifier::truncate] ((p + 1) as usize),
            },
        ] + lex_from(s, p + 1)
    }
}

/// The lexemes of a whole input.
pub open spec fn lex(s: Seq<char>) -> Seq<Lexeme> {
    lex_from(s, 0)
}

/// Every lexeme covers a range of the input, and a number lexeme covers
/// digits and points only.
pub open spec fn lexemes_wf(s: Seq<char>, t: Seq<Lexeme>) -> bool {
    forall|k: int|
        0 <= k < t.len() ==> {
            &&& (#[trigger] t[k]).start < t[k].end <= s.len()
            &&& t[k].sym == Sym::Number ==> forall|i: int|
                t[k].start <= i < t[k].end ==> spec_is_numeric(#[trigger] s[i])
        }
}

/// A run of a number continues over digits and points only.
proof fn lemma_number_run(s: Seq<char>, p: int)
    requires
        0 <= p <= s.len(),
    ensures
        forall|i: int| p <= i < run_end(s, p, TokenType::Number) ==> spec_is_numeric(#[trigger] s[i]),
    decreases s.len() - p,
{
    if p < s.len() && spec_is_numeric(s[p]) {
        lemma_number_run(s, p + 1);
    }
}

/// The lexemes from `p` on are well formed and start at `p` or later.
pub proof fn lemma_lex_from_wf(s: Seq<char>, p: int)
    requires
        0 <= p <= s.len(),
        s.len() <= usize::MAX,
    ensures
        lexemes_wf(s, lex_from(s, p)),
        forall|k: int| 0 <= k < lex_from(s, p).len() ==> p <= #[trigger] lex_from(s, p)[k].start,
    decreases s.len() - p,
{
    if p < s.len() {
        if spec_is_space(s[p]) {
            lemma_lex_from_wf(s, p + 1);
        } else if spec_is_numeric(s[p]) {
            let q = run_end(s, p + 1, TokenType::Number);
            lemma_run_end(s, p + 1, TokenType::Number);
            lemma_number_run(s, p + 1);
            lemma_lex_from_wf(s, q);
            let rest = lex_from(s, q);
            let l = Lexeme { sym: Sym::Number, start: p as usize, end: q as usize };
            assert(lex_from(s, p) == seq![l] + rest);
            assert forall|k: int| 0 <= k < lex_from(s, p).len() implies ({
                &&& (#[trigger] lex_from(s, p)[k]).start < lex_from(s, p)[k].end <= s.len()
                &&& lex_from(s, p)[k].sym == Sym::Number ==> forall|i: int|
                    lex_from(s, p)[k].start <= i < lex_from(s, p)[k].end ==> spec_is_numeric(
                        #[trigger] s[i],
                    )
            }) && p <= lex_from(s, p)[k].start by {
                if k > 0 {
                    assert(lex_from(s, p)[k] == rest[k - 1]);
                }
            }
        } else {
            lemma_lex_from_wf(s, p + 1);
            let rest = lex_from(s, p + 1);
            let l = Lexeme { sym: sym_of(s[p]), start: p as usize, end: (p + 1) as usize };
            assert(lex_from(s, p) == seq![l] + rest);
            assert(sym_of(s[p]) != Sym::Number);
            assert forall|k: int| 0 <= k < lex_from(s, p).len() implies ({
                &&& (#[trigger] lex_from(s, p)[k]).start < lex_from(s, p)[k].end <= s.len()
                &&& lex_from(s, p)[k].sym == Sym::Number ==> forall|i: int|
                    lex_from(s, p)[k].start <= i < lex_from(s, p)[k].end ==> spec_is_numeric(
                        #[trigger] s[i],
                    )
            }) && p <= lex_from(s, p)[k].start by {
                if k > 0 {
                    assert(lex_from(s, p)[k] == rest[k - 1]);
                }
            }
        }
    }
}

/// The kind of a lexeme of one character.
fn sym_for(c: char) -> (r: Sym)
    ensures
        r == sym_of(c),
{
    if c == '+' {
        Sym::Plus
    } else if c == '-' {
        Sym::Minus
    } else if c == '*' {
        Sym::Star
    } else if c == '/' {
        Sym::Slash
    } else if c == '^' {
        Sym::Caret
    } else if c == '!' {
        Sym::Bang
    } else if c == '(' {
        Sym::Open
    } else if c == ')' {
        Sym::Close
    } else {
        Sym::Unknown
    }
}

/// Splits the characters `s` into lexemes.
pub fn scan(s: &Vec<char>) -> (r: Vec<Lexeme>)
    ensures
        r@ == lex(s@),
        lexemes_wf(s@, r@),
{
    let n = s.len();
    let mut out: Vec<Lexeme> = Vec::new();
    let mut i: usize = 0;
    while i < n
        invariant
            n == s@.len(),
            i <= n,
            lex(s@) == out@ + lex_from(s@, i as int),
        decreases n - i,
    {
        let c = s[i];
        if is_space(c) {
            i += 1;
        } else if is_numeric(c) {
            let mut q: usize = i + 1;
            while q < n && is_numeric(s[q])
                invariant
                    i < q <= n,
                    n == s@.len(),
                    run_end(s@, i + 1, TokenType::Number) == run_end(s@, q as int, TokenType::Number),
                decreases n - q,
            {
                q += 1;
            }
            let l = Lexeme { sym: Sym::Number, start: i, end: q };
            let ghost before = out@;
            out.push(l);
            assert(before + lex_from(s@, i as int) =~= out@ + lex_from(s@, q as int));
            i = q;
        } else {
            let l = Lexeme { sym: sym_for(c), start: i, end: i + 1 };
            let ghost before = out@;
            out.push(l);
            assert(before + lex_from(s@, i as int) =~= out@ + lex_from(s@, i + 1));
            i += 1;
        }
    }
    assert(out@ + lex_from(s@, n as int) =~= out@);
    proof {
        lemma_lex_from_wf(s@, 0);
    }
    out
}

} // verus!
