//! The tokenizer: splits input text into numbers and operators.

use vstd::prelude::*;
use crate::text::{chars_of, push_char};
use crate::token_types::{classify, spec_classify, spec_ends, TokenType};

verus! {

/// A token: where it starts (a character index), its kind and its text.
#[derive(Debug, Clone)]
pub struct Token {
    pub pos: usize,
    pub token_type: TokenType,
    pub content: String,
}

/// The view of a [`Token`].
pub struct TokenView {
    pub pos: int,
    pub token_type: TokenType,
    pub content: Seq<char>,
}

impl View for Token {
    type V = TokenView;

    open spec fn view(&self) -> TokenView {
        TokenView { pos: self.pos as int, token_type: self.token_type, content: self.content@ }
    }
}

/// The views of a sequence of tokens.
pub open spec fn views(v: Seq<Token>) -> Seq<TokenView> {
    v.map_values(|t: Token| t@)
}

/// The end of a token of kind `t` whose characters continue from `p`: the
/// first position at or after `p` whose character closes it, or the end.
pub open spec fn run_end(s: Seq<char>, p: int, t: TokenType) -> int
    decreases s.len() - p,
{
    if p < 0 || p >= s.len() || spec_ends(t, s[p]) {
        p
    } else {
        run_end(s, p + 1, t)
    }
}

/// The tokens of `s` from position `p` on, whitespace left out; or the
/// position of the first character that no classifier accepts.
pub open spec fn tokens_from(s: Seq<char>, p: int) -> Result<Seq<TokenView>, int>
    decreases s.len() - p,
{
    if p < 0 || p >= s.len() {
        Ok(seq![])
    } else {
        match spec_classify(s[p]) {
            None => Err(p),
            Some(t) => {
                let q = run_end(s, p + 1, t);
                proof {
                    lemma_run_end(s, p + 1, t);
                }
                let rest = tokens_from(s, q);
                if t == TokenType::Whitespace {
                    rest
                } else {
                    match rest {
                        Ok(r) => Ok(
                            seq![TokenView { pos: p, token_type: t, content: s.subrange(p, q) }]
                                + r,
                        ),
                        Err(k) => Err(k),
                    }
                }
            },
        }
    }
}

/// The tokens of a whole input.
pub open spec fn spec_tokenize(s: Seq<char>) -> Result<Seq<TokenView>, int> {
    tokens_from(s, 0)
}

/// A run ends within the input and not before it starts.
pub proof fn lemma_run_end(s: Seq<char>, p: int, t: TokenType)
    requires
        0 <= p <= s.len(),
    ensures
        p <= run_end(s, p, t) <= s.len(),
    decreases s.len() - p,
{
    if p < s.len() && !spec_ends(t, s[p]) {
        lemma_run_end(s, p + 1, t);
    }
}

/// `prefix` put before the tokens of an outcome; an error stays as it is.
pub open spec fn glue(prefix: Seq<TokenView>, r: Result<Seq<TokenView>, int>) -> Result<
    Seq<TokenView>,
    int,
> {
    match r {
        Ok(rest) => Ok(prefix + rest),
        Err(k) => Err(k),
    }
}

/// The text `s[from..to]` as a string.
fn slice_to_string(s: &Vec<char>, from: usize, to: usize) -> (r: String)
    requires
        from <= to <= s@.len(),
    ensures
        r@ == s@.subrange(from as int, to as int),
{
    let mut r = String::new();
    let mut i: usize = from;
    while i < to
        invariant
            from <= i <= to,
            to <= s@.len(),
            r@ == s@.subrange(from as int, i as int),
        decreases to - i,
    {
        push_char(&mut r, s[i]);
        i += 1;
        assert(r@ =~= s@.subrange(from as int, i as int));
    }
    r
}

/// Splits `input` into tokens, left to right: each token is opened by the
/// first classifier that accepts its first character and extends while its
/// classifier does not close it. Whitespace separates tokens and is dropped.
/// A character that no classifier accepts is an error at its position.
pub fn tokenize(input: &str) -> (r: Result<Vec<Token>, (&'static str, usize)>)
    ensures
        r matches Ok(v) ==> spec_tokenize(input@) == Ok::<Seq<TokenView>, int>(views(v@)),
        r matches Err(e) ==> spec_tokenize(input@) == Err::<Seq<TokenView>, int>(e.1 as int) && e.0@ == "unknown token"@,
        spec_tokenize(input@) is Ok ==> r is Ok,
{
    let s = chars_of(input);
    let n = s.len();
    let mut tokens: Vec<Token> = Vec::new();
    let mut i: usize = 0;
    while i < n
        invariant
            n == s@.len(),
            s@ == input@,
            i <= n,
            spec_tokenize(s@) == glue(views(tokens@), tokens_from(s@, i as int)),
        decreases n - i,
    {
        let c = s[i];
        match classify(c) {
            None => {
                proof {
                    reveal_strlit("unknown token");
                }
                return Err(("unknown token", i));
            },
            Some(checker) => {
                let mut q: usize = i + 1;
                while q < n && !checker.ends_with(s[q])
                    invariant
                        i < q <= n,
                        n == s@.len(),
                        run_end(s@, i + 1, checker.token_type) == run_end(
                            s@,
                            q as int,
                            checker.token_type,
                        ),
                    decreases n - q,
                {
                    q += 1;
                }
                let ghost old_tokens = views(tokens@);
                if checker.token_type != TokenType::Whitespace {
                    let content = slice_to_string(&s, i, q);
                    tokens.push(Token { pos: i, token_type: checker.token_type, content });
                    proof {
                        let tv = TokenView {
                            pos: i as int,
                            token_type: checker.token_type,
                            content: s@.subrange(i as int, q as int),
                        };
                        assert(views(tokens@) =~= old_tokens.push(tv));
                        assert(old_tokens.push(tv) =~= old_tokens + seq![tv]);
                        match tokens_from(s@, q as int) {
                            Ok(rest) => {
                                assert(old_tokens + (seq![tv] + rest) =~= old_tokens.push(tv)
                                    + rest);
                            },
                            Err(k) => {},
                        }
                    }
                }
                i = q;
            },
        }
    }
    proof {
        assert(views(tokens@) + seq![] =~= views(tokens@));
    }
    Ok(tokens)
}

} // verus!
