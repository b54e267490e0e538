//! Rendering a term and parsing the text gives the same term back.

use vstd::prelude::*;
use crate::ast::{all_digits, normalized, BinaryOperator, DecimalModel, PrefixOperator, Term};
use crate::grammar::{
    additive, advanced, bangs, multiplicative, p_power, p_primary, p_product, p_product_tail, p_sum,
    p_sum_tail, p_unary, sign, spec_parse, sym_at, Fault, Step,
};
use crate::lexer::run_end;
use crate::number::{
    digit_of, fraction_len, is_digit_char, lemma_fraction_within_digits, literal_digits,
    literal_value, point_count, trim_fraction, trim_leading,
};
use crate::render::{binary_char, decimal_text, digit_char, digit_chars, prefix_char, render, wrap};
use crate::scan::{lemma_lex_from_wf, lex, lex_from, lexemes_wf, sym_of, Lexeme, Sym};
use crate::token_types::{spec_is_numeric, TokenType};

verus! {

/// A digit's character reads back as the digit.
proof fn lemma_digit_char(x: u8)
    requires
        x <= 9,
    ensures
        is_digit_char(digit_char(x)),
        digit_of(digit_char(x)) == x,
{
}

/// The characters of a text are digits or points.
pub open spec fn numeric_text(t: Seq<char>) -> bool {
    forall|i: int| 0 <= i < t.len() ==> is_digit_char(#[trigger] t[i]) || t[i] == '.'
}

/// Digits and points are read piecewise.
proof fn lemma_literal_concat(a: Seq<char>, b: Seq<char>)
    ensures
        literal_digits(a + b) == literal_digits(a) + literal_digits(b),
        point_count(a + b) == point_count(a) + point_count(b),
    decreases b.len(),
{
    if b.len() == 0 {
        assert(a + b =~= a);
        assert(literal_digits(a) + literal_digits(b) =~= literal_digits(a));
    } else {
        let c = a + b;
        assert(c.drop_last() =~= a + b.drop_last());
        assert(c.last() == b.last());
        lemma_literal_concat(a, b.drop_last());
        if is_digit_char(b.last()) {
            assert(literal_digits(a) + literal_digits(b) =~= (literal_digits(a) + literal_digits(
                b.drop_last(),
            )).push(digit_of(b.last())));
        }
    }
}

/// The text of digits reads back as those digits, with no point.
proof fn lemma_digit_text(d: Seq<u8>)
    requires
        all_digits(d),
    ensures
        literal_digits(digit_chars(d)) == d,
        point_count(digit_chars(d)) == 0,
        fraction_len(digit_chars(d)) == 0,
        numeric_text(digit_chars(d)),
        forall|i: int| 0 <= i < d.len() ==> is_digit_char(#[trigger] digit_chars(d)[i]),
    decreases d.len(),
{
    let t = digit_chars(d);
    if d.len() > 0 {
        assert(t.drop_last() =~= digit_chars(d.drop_last()));
        lemma_digit_char(d.last());
        lemma_digit_text(d.drop_last());
        assert(d.drop_last().push(d.last()) =~= d);
        assert forall|i: int| 0 <= i < d.len() implies is_digit_char(#[trigger] t[i]) by {
            lemma_digit_char(d[i]);
        }
    } else {
        assert(literal_digits(t) =~= d);
    }
}

/// The digits after a single point are the fraction.
proof fn lemma_fraction_after_point(a: Seq<char>, f: Seq<char>)
    requires
        point_count(f) == 0,
    ensures
        fraction_len(a + seq!['.'] + f) == f.len(),
    decreases f.len(),
{
    let t = a + seq!['.'] + f;
    if f.len() > 0 {
        assert(t.drop_last() =~= a + seq!['.'] + f.drop_last());
        assert(t.last() == f.last());
        lemma_fraction_after_point(a, f.drop_last());
        lemma_literal_concat(a + seq!['.'], f.drop_last());
        lemma_literal_concat(a, seq!['.']);
        assert(seq!['.'].drop_last() =~= Seq::<char>::empty());
    } else {
        assert(t.last() == '.');
    }
}

/// A lone point has no digit.
proof fn lemma_point()
    ensures
        literal_digits(seq!['.']) == Seq::<u8>::empty(),
        point_count(seq!['.']) == 1,
{
    let dot = seq!['.'];
    assert(dot.drop_last() =~= Seq::<char>::empty());
    assert(dot.last() == '.');
    assert(!is_digit_char('.'));
    assert(literal_digits(dot.drop_last()) == Seq::<u8>::empty());
    assert(point_count(dot.drop_last()) == 0);
}

/// Two digit texts around one point.
proof fn lemma_point_text(a: Seq<u8>, b: Seq<u8>)
    requires
        all_digits(a),
        all_digits(b),
    ensures
        literal_digits(digit_chars(a) + seq!['.'] + digit_chars(b)) == a + b,
        point_count(digit_chars(a) + seq!['.'] + digit_chars(b)) == 1,
        fraction_len(digit_chars(a) + seq!['.'] + digit_chars(b)) == b.len(),
        numeric_text(digit_chars(a) + seq!['.'] + digit_chars(b)),
{
    let ta = digit_chars(a);
    let tb = digit_chars(b);
    lemma_digit_text(a);
    lemma_digit_text(b);
    lemma_literal_concat(ta, seq!['.']);
    lemma_literal_concat(ta + seq!['.'], tb);
    lemma_point();
    assert(literal_digits(ta) + Seq::<u8>::empty() =~= a);
    lemma_fraction_after_point(ta, tb);
    let t = ta + seq!['.'] + tb;
    assert forall|i: int| 0 <= i < t.len() implies is_digit_char(#[trigger] t[i]) || t[i]
        == '.' by {
        if i < ta.len() {
            assert(t[i] == ta[i]);
        } else if i > ta.len() {
            assert(t[i] == tb[i - ta.len() - 1]);
        }
    }
}

/// Leading zeros are dropped.
proof fn lemma_trim_zeros(k: nat, d: Seq<u8>)
    ensures
        trim_leading(Seq::new(k, |_i: int| 0u8) + d) == trim_leading(d),
    decreases k,
{
    if k > 0 {
        let z = Seq::new(k, |_i: int| 0u8) + d;
        assert(z.drop_first() =~= Seq::new((k - 1) as nat, |_i: int| 0u8) + d);
        lemma_trim_zeros((k - 1) as nat, d);
    } else {
        assert(Seq::new(k, |_i: int| 0u8) + d =~= d);
    }
}

/// The text of a normalized decimal reads back as that decimal.
pub proof fn lemma_decimal_round_trip(d: DecimalModel)
    requires
        normalized(d),
    ensures
        literal_value(decimal_text(d)) == Some(d),
        numeric_text(decimal_text(d)),
        decimal_text(d).len() > 0,
{
    let n = d.digits.len();
    let t = decimal_text(d);
    if d.scale == 0 {
        if n == 0 {
            assert(t =~= digit_chars(seq![0u8]));
            lemma_digit_text(seq![0u8]);
            assert(seq![0u8].drop_first() =~= Seq::<u8>::empty());
            assert(d.digits =~= Seq::<u8>::empty());
            assert(trim_fraction(seq![0u8], 0) == DecimalModel { digits: seq![0u8], scale: 0 });
            assert(trim_leading(seq![0u8]) == trim_leading(Seq::<u8>::empty()));
            assert(trim_leading(Seq::<u8>::empty()) == Seq::<u8>::empty());
        } else {
            lemma_digit_text(d.digits);
            assert(trim_fraction(d.digits, 0) == DecimalModel { digits: d.digits, scale: 0 });
            assert(trim_leading(d.digits) == d.digits);
        }
    } else if n > d.scale {
        let a = d.digits.subrange(0, n - d.scale);
        let b = d.digits.subrange(n - d.scale, n as int);
        lemma_point_text(a, b);
        assert(a + b =~= d.digits);
        assert(trim_fraction(d.digits, d.scale) == DecimalModel { digits: d.digits, scale: d.scale });
        assert(trim_leading(d.digits) == d.digits);
    } else {
        let z = Seq::new((d.scale - n) as nat, |_i: int| 0u8);
        let b = z + d.digits;
        assert(Seq::new((d.scale - n) as nat, |_i: int| '0') + digit_chars(d.digits)
            =~= digit_chars(b));
        assert(seq!['0', '.'] + Seq::new((d.scale - n) as nat, |_i: int| '0') + digit_chars(
            d.digits,
        ) =~= digit_chars(seq![0u8]) + seq!['.'] + digit_chars(b));
        lemma_point_text(seq![0u8], b);
        assert(seq![0u8] + b =~= Seq::new((d.scale - n + 1) as nat, |_i: int| 0u8) + d.digits);
        lemma_trim_zeros((d.scale - n + 1) as nat, d.digits);
        let all = seq![0u8] + b;
        assert(all.last() == d.digits.last());
        assert(trim_fraction(all, d.scale) == DecimalModel { digits: all, scale: d.scale });
        assert(trim_leading(d.digits) == d.digits);
    }
}

/// Every number in the term is normalized.
pub open spec fn wf_term(e: Term) -> bool
    decreases e,
{
    match e {
        Term::Num(d) => normalized(d),
        Term::Binary(l, _op, r) => wf_term(*l) && wf_term(*r),
        Term::Prefix(_op, x) => wf_term(*x),
        Term::Suffix(x, _op) => wf_term(*x),
    }
}

/// A lexeme of kind `sym` over `[a, b)`.
pub open spec fn lx(sym: Sym, a: int, b: int) -> Lexeme {
    Lexeme {
        sym,
        start: #[verifier::truncate] (a as usize),
        end: #[verifier::truncate] (b as usize),
    }
}

/// The lexeme kind of an infix operator.
pub open spec fn binary_sym(op: BinaryOperator) -> Sym {
    sym_of(binary_char(op))
}

/// The lexeme kind of a sign.
pub open spec fn prefix_sym(op: PrefixOperator) -> Sym {
    sym_of(prefix_char(op))
}

/// The lexemes of the text of `e` written from position `p`.
pub open spec fn lexemes_of(e: Term, p: int) -> Seq<Lexeme>
    decreases e, 0nat,
{
    match e {
        Term::Num(d) => seq![lx(Sym::Number, p, p + decimal_text(d).len())],
        Term::Binary(l, op, r) => {
            let a = wrap(*l, render(*l)).len();
            operand_lexemes(*l, p) + seq![lx(binary_sym(op), p + a + 1, p + a + 2)]
                + operand_lexemes(*r, p + a + 3)
        },
        Term::Prefix(op, x) => seq![lx(prefix_sym(op), p, p + 1)] + operand_lexemes(*x, p + 1),
        Term::Suffix(x, _op) => {
            let a = wrap(*x, render(*x)).len();
            operand_lexemes(*x, p) + seq![lx(Sym::Bang, p + a, p + a + 1)]
        },
    }
}

/// The lexemes of the text of `x` as an operand, written from position `p`.
pub open spec fn operand_lexemes(x: Term, p: int) -> Seq<Lexeme>
    decreases x, 1nat,
{
    if x is Num {
        lexemes_of(x, p)
    } else {
        let n = render(x).len();
        seq![lx(Sym::Open, p, p + 1)] + lexemes_of(x, p + 1) + seq![lx(Sym::Close, p + 1 + n, p + 2 + n)]
    }
}

/// No number can run on past position `q`.
pub open spec fn boundary(s: Seq<char>, q: int) -> bool {
    q >= s.len() || !spec_is_numeric(s[q])
}

/// `s` holds `w` from position `p`.
pub open spec fn holds_at(s: Seq<char>, p: int, w: Seq<char>) -> bool {
    0 <= p && p + w.len() <= s.len() && s.subrange(p, p + w.len()) == w
}

/// Text held at a position is held piecewise.
proof fn lemma_holds_split(s: Seq<char>, p: int, a: Seq<char>, b: Seq<char>)
    requires
        holds_at(s, p, a + b),
    ensures
        holds_at(s, p, a),
        holds_at(s, p + a.len(), b),
{
    assert(s.subrange(p, p + a.len()) =~= (a + b).subrange(0, a.len() as int));
    assert(s.subrange(p + a.len(), p + a.len() + b.len()) =~= (a + b).subrange(
        a.len() as int,
        (a + b).len() as int,
    ));
    assert((a + b).subrange(0, a.len() as int) =~= a);
    assert((a + b).subrange(a.len() as int, (a + b).len() as int) =~= b);
}

/// A character held at a position.
proof fn lemma_holds_char(s: Seq<char>, p: int, w: Seq<char>, k: int)
    requires
        holds_at(s, p, w),
        0 <= k < w.len(),
    ensures
        s[p + k] == w[k],
{
    assert(s.subrange(p, p + w.len())[k] == s[p + k]);
}

/// A number runs over a stretch of digits and points up to a boundary.
proof fn lemma_run_over(s: Seq<char>, a: int, b: int)
    requires
        0 <= a <= b <= s.len(),
        forall|k: int| a <= k < b ==> spec_is_numeric(#[trigger] s[k]),
        boundary(s, b),
    ensures
        run_end(s, a, TokenType::Number) == b,
    decreases b - a,
{
    if a < b {
        lemma_run_over(s, a + 1, b);
    }
}

/// The lexemes of a rendered term, followed by those of the rest.
proof fn lemma_lex_term(s: Seq<char>, e: Term, p: int)
    requires
        wf_term(e),
        s.len() <= usize::MAX,
        holds_at(s, p, render(e)),
        boundary(s, p + render(e).len()),
    ensures
        lex_from(s, p) == lexemes_of(e, p) + lex_from(s, p + render(e).len()),
    decreases e, 2nat,
{
    match e {
        Term::Num(d) => lemma_lex_num(s, e, p),
        Term::Binary(l, op, r) => lemma_lex_binary(s, e, p),
        Term::Prefix(op, x) => lemma_lex_prefix(s, e, p),
        Term::Suffix(x, _op) => lemma_lex_suffix(s, e, p),
    }
}

/// The case of a number: one number lexeme.
proof fn lemma_lex_num(s: Seq<char>, e: Term, p: int)
    requires
        e is Num,
        wf_term(e),
        s.len() <= usize::MAX,
        holds_at(s, p, render(e)),
        boundary(s, p + render(e).len()),
    ensures
        lex_from(s, p) == lexemes_of(e, p) + lex_from(s, p + render(e).len()),
    decreases e, 1nat,
{
    let d = e->Num_0;
    let w = decimal_text(d);
    let n = w.len();
    lemma_decimal_round_trip(d);
    assert forall|k: int| p <= k < p + n implies spec_is_numeric(#[trigger] s[k]) by {
        lemma_holds_char(s, p, w, k - p);
    }
    lemma_holds_char(s, p, w, 0);
    assert(spec_is_numeric(s[p]));
    lemma_run_over(s, p + 1, p + n);
}

/// The case of an infix operation: both operands around one operator lexeme.
proof fn lemma_lex_binary(s: Seq<char>, e: Term, p: int)
    requires
        e is Binary,
        wf_term(e),
        s.len() <= usize::MAX,
        holds_at(s, p, render(e)),
        boundary(s, p + render(e).len()),
    ensures
        lex_from(s, p) == lexemes_of(e, p) + lex_from(s, p + render(e).len()),
    decreases e, 1nat,
{
    let l = *e->Binary_0;
    let op = e->Binary_1;
    let r = *e->Binary_2;
    let n = render(e).len();
    let wl = wrap(l, render(l));
    let wr = wrap(r, render(r));
    let a = wl.len();
    let mid = seq![' ', binary_char(op), ' '];
    assert(render(e) == wl + mid + wr);
    lemma_holds_split(s, p, wl + mid, wr);
    lemma_holds_split(s, p, wl, mid);
    lemma_holds_char(s, p + a, mid, 0);
    lemma_holds_char(s, p + a, mid, 1);
    lemma_holds_char(s, p + a, mid, 2);
    lemma_lex_operand(s, l, p);
    lemma_lex_operand(s, r, p + a + 3);
    let op_lx = lx(binary_sym(op), p + a + 1, p + a + 2);
    assert(lex_from(s, p + a) == lex_from(s, p + a + 1));
    assert(lex_from(s, p + a + 1) == seq![op_lx] + lex_from(s, p + a + 2));
    assert(lex_from(s, p + a + 2) == lex_from(s, p + a + 3));
    assert(lexemes_of(e, p) == operand_lexemes(l, p) + seq![op_lx] + operand_lexemes(r, p + a + 3));
    assert(lexemes_of(e, p) + lex_from(s, p + n) =~= operand_lexemes(l, p) + (seq![op_lx] + (
    operand_lexemes(r, p + a + 3) + lex_from(s, p + n))));
}

/// The case of a sign: one sign lexeme, then the operand.
proof fn lemma_lex_prefix(s: Seq<char>, e: Term, p: int)
    requires
        e is Prefix,
        wf_term(e),
        s.len() <= usize::MAX,
        holds_at(s, p, render(e)),
        boundary(s, p + render(e).len()),
    ensures
        lex_from(s, p) == lexemes_of(e, p) + lex_from(s, p + render(e).len()),
    decreases e, 1nat,
{
    let op = e->Prefix_0;
    let x = *e->Prefix_1;
    let n = render(e).len();
    let wx = wrap(x, render(x));
    lemma_holds_split(s, p, seq![prefix_char(op)], wx);
    lemma_holds_char(s, p, seq![prefix_char(op)], 0);
    lemma_lex_operand(s, x, p + 1);
    let sign_lx = lx(prefix_sym(op), p, p + 1);
    assert(lex_from(s, p) == seq![sign_lx] + lex_from(s, p + 1));
    assert(lexemes_of(e, p) + lex_from(s, p + n) =~= seq![sign_lx] + (operand_lexemes(x, p + 1)
        + lex_from(s, p + n)));
}

/// The case of a factorial: the operand, then one `!` lexeme.
proof fn lemma_lex_suffix(s: Seq<char>, e: Term, p: int)
    requires
        e is Suffix,
        wf_term(e),
        s.len() <= usize::MAX,
        holds_at(s, p, render(e)),
        boundary(s, p + render(e).len()),
    ensures
        lex_from(s, p) == lexemes_of(e, p) + lex_from(s, p + render(e).len()),
    decreases e, 1nat,
{
    let x = *e->Suffix_0;
    let n = render(e).len();
    let wx = wrap(x, render(x));
    let a = wx.len();
    lemma_holds_split(s, p, wx, seq!['!']);
    lemma_holds_char(s, p + a, seq!['!'], 0);
    lemma_lex_operand(s, x, p);
    let bang = lx(Sym::Bang, p + a, p + a + 1);
    assert(lex_from(s, p + a) == seq![bang] + lex_from(s, p + a + 1));
    assert(lexemes_of(e, p) + lex_from(s, p + n) =~= operand_lexemes(x, p) + (seq![bang]
        + lex_from(s, p + n)));
}

/// The lexemes of a rendered operand, followed by those of the rest.
proof fn lemma_lex_operand(s: Seq<char>, x: Term, p: int)
    requires
        wf_term(x),
        s.len() <= usize::MAX,
        holds_at(s, p, wrap(x, render(x))),
        boundary(s, p + wrap(x, render(x)).len()),
    ensures
        lex_from(s, p) == operand_lexemes(x, p) + lex_from(s, p + wrap(x, render(x)).len()),
    decreases x, 3nat,
{
    if x is Num {
        lemma_lex_term(s, x, p);
    } else {
        let w = render(x);
        let n = w.len();
        lemma_holds_split(s, p, seq!['('] + w, seq![')']);
        lemma_holds_split(s, p, seq!['('], w);
        lemma_holds_char(s, p, seq!['('], 0);
        lemma_holds_char(s, p + 1 + n, seq![')'], 0);
        lemma_lex_term(s, x, p + 1);
        assert(lex_from(s, p + 1 + n) == seq![lx(Sym::Close, p + 1 + n, p + 2 + n)] + lex_from(
            s,
            p + 2 + n,
        ));
        assert(operand_lexemes(x, p) + lex_from(s, p + 2 + n) =~= seq![lx(Sym::Open, p, p + 1)] + (
        lexemes_of(x, p + 1) + (seq![lx(Sym::Close, p + 1 + n, p + 2 + n)] + lex_from(
            s,
            p + 2 + n,
        ))));
    }
}

/// `t` holds the lexemes `w` from index `i`.
pub open spec fn lexemes_at(t: Seq<Lexeme>, i: int, w: Seq<Lexeme>) -> bool {
    0 <= i && i + w.len() <= t.len() && t.subrange(i, i + w.len()) == w
}

/// Lexeme `j` ends an expression: there is none, or it is `)`.
pub open spec fn stopper(t: Seq<Lexeme>, j: int) -> bool {
    sym_at(t, j) is None || sym_at(t, j) == Some(Sym::Close)
}

/// Lexemes held at an index are held piecewise.
proof fn lemma_lexemes_split(t: Seq<Lexeme>, i: int, a: Seq<Lexeme>, b: Seq<Lexeme>)
    requires
        lexemes_at(t, i, a + b),
    ensures
        lexemes_at(t, i, a),
        lexemes_at(t, i + a.len(), b),
{
    assert(t.subrange(i, i + a.len()) =~= (a + b).subrange(0, a.len() as int));
    assert(t.subrange(i + a.len(), i + a.len() + b.len()) =~= (a + b).subrange(
        a.len() as int,
        (a + b).len() as int,
    ));
    assert((a + b).subrange(0, a.len() as int) =~= a);
    assert((a + b).subrange(a.len() as int, (a + b).len() as int) =~= b);
}

/// A lexeme held at an index.
proof fn lemma_lexeme_at(t: Seq<Lexeme>, i: int, w: Seq<Lexeme>, k: int)
    requires
        lexemes_at(t, i, w),
        0 <= k < w.len(),
    ensures
        t[i + k] == w[k],
{
    assert(t.subrange(i, i + w.len())[k] == t[i + k]);
}

/// An operand followed by what ends an expression is a whole sum.
proof fn lemma_climb(s: Seq<char>, t: Seq<Lexeme>, i: int, j: int, lead: bool, x: Term)
    requires
        p_unary(s, t, i, lead) == Ok::<(Term, int), (int, Fault)>((x, j)),
        i < j <= t.len(),
        stopper(t, j),
    ensures
        p_power(s, t, i, lead) == Ok::<(Term, int), (int, Fault)>((x, j)),
        p_product(s, t, i, lead) == Ok::<(Term, int), (int, Fault)>((x, j)),
        p_sum(s, t, i, lead) == Ok::<(Term, int), (int, Fault)>((x, j)),
{
    assert(p_product_tail(s, t, j, x) == Ok::<(Term, int), (int, Fault)>((x, j)));
    assert(p_sum_tail(s, t, j, x) == Ok::<(Term, int), (int, Fault)>((x, j)));
}

/// A rendered number is read back as a primary.
proof fn lemma_primary_number(s: Seq<char>, t: Seq<Lexeme>, x: Term, i: int, p: int, lead: bool)
    requires
        x is Num,
        wf_term(x),
        s.len() <= usize::MAX,
        holds_at(s, p, render(x)),
        lexemes_at(t, i, lexemes_of(x, p)),
    ensures
        p_primary(s, t, i, lead) == Ok::<(Term, int), (int, Fault)>((x, i + 1)),
        sign(sym_at(t, i)) is None,
        lexemes_of(x, p).len() == 1,
{
    let d = x->Num_0;
    let text = decimal_text(d);
    lemma_decimal_round_trip(d);
    lemma_lexeme_at(t, i, lexemes_of(x, p), 0);
    assert(t[i] == lx(Sym::Number, p, p + text.len()));
    assert(t[i].start as int == p);
    assert(t[i].end as int == p + text.len());
}

/// The parse of a rendered operand as a primary, from the lexemes of its text.
proof fn lemma_parse_operand(s: Seq<char>, t: Seq<Lexeme>, x: Term, i: int, p: int, lead: bool)
    requires
        wf_term(x),
        s.len() <= usize::MAX,
        holds_at(s, p, wrap(x, render(x))),
        lexemes_at(t, i, operand_lexemes(x, p)),
    ensures
        p_primary(s, t, i, lead) == Ok::<(Term, int), (int, Fault)>(
            (x, i + operand_lexemes(x, p).len()),
        ),
        sign(sym_at(t, i)) is None,
        operand_lexemes(x, p).len() > 0,
    decreases x, 3nat,
{
    if x is Num {
        lemma_primary_number(s, t, x, i, p, lead);
    } else {
        let n = render(x).len();
        let inner = lexemes_of(x, p + 1);
        lemma_lexemes_split(t, i, seq![lx(Sym::Open, p, p + 1)] + inner, seq![
            lx(Sym::Close, p + 1 + n, p + 2 + n),
        ]);
        lemma_lexemes_split(t, i, seq![lx(Sym::Open, p, p + 1)], inner);
        lemma_lexeme_at(t, i, seq![lx(Sym::Open, p, p + 1)], 0);
        lemma_lexeme_at(t, i + 1 + inner.len(), seq![lx(Sym::Close, p + 1 + n, p + 2 + n)], 0);
        lemma_holds_split(s, p, seq!['('] + render(x), seq![')']);
        lemma_holds_split(s, p, seq!['('], render(x));
        lemma_parse_term(s, t, x, i + 1, p + 1);
    }
}

/// An operand not followed by `!` is a whole unary operand.
proof fn lemma_unary_operand(s: Seq<char>, t: Seq<Lexeme>, x: Term, i: int, p: int, lead: bool)
    requires
        wf_term(x),
        s.len() <= usize::MAX,
        holds_at(s, p, wrap(x, render(x))),
        lexemes_at(t, i, operand_lexemes(x, p)),
        sym_at(t, i + operand_lexemes(x, p).len()) != Some(Sym::Bang),
    ensures
        p_unary(s, t, i, lead) == Ok::<(Term, int), (int, Fault)>(
            (x, i + operand_lexemes(x, p).len()),
        ),
    decreases x, 4nat,
{
    lemma_parse_operand(s, t, x, i, p, lead);
}

/// The parse of a rendered term as a sum, from the lexemes of its text.
proof fn lemma_parse_term(s: Seq<char>, t: Seq<Lexeme>, e: Term, i: int, p: int)
    requires
        wf_term(e),
        s.len() <= usize::MAX,
        holds_at(s, p, render(e)),
        lexemes_at(t, i, lexemes_of(e, p)),
        stopper(t, i + lexemes_of(e, p).len()),
    ensures
        p_sum(s, t, i, true) == Ok::<(Term, int), (int, Fault)>(
            (e, i + lexemes_of(e, p).len()),
        ),
    decreases e, 2nat,
{
    match e {
        Term::Num(_d) => {
            lemma_primary_number(s, t, e, i, p, true);
            assert(bangs(t, i + 1, e) == (e, i + 1));
            assert(p_unary(s, t, i, true) == Ok::<(Term, int), (int, Fault)>(
                (e, i + 1),
            ));
            lemma_climb(s, t, i, i + 1, true, e);
        },
        Term::Binary(_l, _op, _r) => lemma_parse_binary(s, t, e, i, p),
        Term::Prefix(_op, _x) => lemma_parse_prefix(s, t, e, i, p),
        Term::Suffix(_x, _op) => lemma_parse_suffix(s, t, e, i, p),
    }
}

/// A rendered sign and its operand are read back as a sum.
proof fn lemma_parse_prefix(s: Seq<char>, t: Seq<Lexeme>, e: Term, i: int, p: int)
    requires
        e is Prefix,
        wf_term(e),
        s.len() <= usize::MAX,
        holds_at(s, p, render(e)),
        lexemes_at(t, i, lexemes_of(e, p)),
        stopper(t, i + lexemes_of(e, p).len()),
    ensures
        p_sum(s, t, i, true) == Ok::<(Term, int), (int, Fault)>(
            (e, i + lexemes_of(e, p).len()),
        ),
    decreases e, 1nat,
{
    let op = e->Prefix_0;
    let x = *e->Prefix_1;
    let sign_lx = lx(prefix_sym(op), p, p + 1);
    let ox = operand_lexemes(x, p + 1);
    let j = i + lexemes_of(e, p).len();
    lemma_lexemes_split(t, i, seq![sign_lx], ox);
    lemma_lexeme_at(t, i, seq![sign_lx], 0);
    lemma_holds_split(s, p, seq![prefix_char(op)], wrap(x, render(x)));
    lemma_unary_operand(s, t, x, i + 1, p + 1, true);
    assert(sign(sym_at(t, i)) == Some(op));
    assert(p_unary(s, t, i, true) == Ok::<(Term, int), (int, Fault)>((e, j)));
    lemma_climb(s, t, i, j, true, e);
}

/// A rendered factorial is read back as a sum.
proof fn lemma_parse_suffix(s: Seq<char>, t: Seq<Lexeme>, e: Term, i: int, p: int)
    requires
        e is Suffix,
        wf_term(e),
        s.len() <= usize::MAX,
        holds_at(s, p, render(e)),
        lexemes_at(t, i, lexemes_of(e, p)),
        stopper(t, i + lexemes_of(e, p).len()),
    ensures
        p_sum(s, t, i, true) == Ok::<(Term, int), (int, Fault)>(
            (e, i + lexemes_of(e, p).len()),
        ),
    decreases e, 1nat,
{
    let x = *e->Suffix_0;
    let wx = wrap(x, render(x));
    let a = wx.len();
    let bang = lx(Sym::Bang, p + a, p + a + 1);
    let ox = operand_lexemes(x, p);
    let j = i + lexemes_of(e, p).len();
    lemma_lexemes_split(t, i, ox, seq![bang]);
    lemma_lexeme_at(t, i + ox.len(), seq![bang], 0);
    lemma_holds_split(s, p, wx, seq!['!']);
    lemma_parse_operand(s, t, x, i, p, true);
    assert(e == Term::Suffix(Box::new(x), crate::ast::SuffixOperator::Factorial));
    assert(bangs(t, j, e) == (e, j));
    assert(bangs(t, i + ox.len(), x) == bangs(t, j, e));
    assert(p_unary(s, t, i, true) == Ok::<(Term, int), (int, Fault)>((e, j)));
    lemma_climb(s, t, i, j, true, e);
}

/// A rendered infix operation is read back as a sum, whatever its operator.
proof fn lemma_parse_binary(s: Seq<char>, t: Seq<Lexeme>, e: Term, i: int, p: int)
    requires
        e is Binary,
        wf_term(e),
        s.len() <= usize::MAX,
        holds_at(s, p, render(e)),
        lexemes_at(t, i, lexemes_of(e, p)),
        stopper(t, i + lexemes_of(e, p).len()),
    ensures
        p_sum(s, t, i, true) == Ok::<(Term, int), (int, Fault)>(
            (e, i + lexemes_of(e, p).len()),
        ),
    decreases e, 1nat,
{
    let l = *e->Binary_0;
    let op = e->Binary_1;
    let r = *e->Binary_2;
    let wl = wrap(l, render(l));
    let wr = wrap(r, render(r));
    let a = wl.len();
    let mid = seq![' ', binary_char(op), ' '];
    let op_lx = lx(binary_sym(op), p + a + 1, p + a + 2);
    let ol = operand_lexemes(l, p);
    let or = operand_lexemes(r, p + a + 3);
    let k = i + ol.len();
    let j = i + lexemes_of(e, p).len();
    assert(render(e) == wl + mid + wr);
    lemma_holds_split(s, p, wl + mid, wr);
    lemma_holds_split(s, p, wl, mid);
    assert(lexemes_of(e, p) == ol + seq![op_lx] + or);
    lemma_lexemes_split(t, i, ol + seq![op_lx], or);
    lemma_lexemes_split(t, i, ol, seq![op_lx]);
    lemma_lexeme_at(t, k, seq![op_lx], 0);
    assert(j == k + 1 + or.len());
    assert(sym_at(t, k) == Some(binary_sym(op)));
    lemma_unary_operand(s, t, l, i, p, true);
    lemma_unary_operand(s, t, r, k + 1, p + a + 3, false);
    lemma_climb(s, t, k + 1, j, false, r);
    let whole = Term::Binary(Box::new(l), op, Box::new(r));
    assert(whole == e);
    match op {
        BinaryOperator::Plus | BinaryOperator::Minus => {
            assert(additive(sym_at(t, k)) == Some(op));
            assert(p_power(s, t, i, true) == Ok::<(Term, int), (int, Fault)>((l, k)));
            assert(p_product_tail(s, t, k, l) == Ok::<(Term, int), (int, Fault)>((l, k)));
            assert(p_product(s, t, i, true) == Ok::<(Term, int), (int, Fault)>((l, k)));
            assert(p_sum_tail(s, t, j, e) == Ok::<(Term, int), (int, Fault)>((e, j)));
            assert(p_sum_tail(s, t, k, l) == p_sum_tail(s, t, j, e));
        },
        BinaryOperator::Multiplication | BinaryOperator::Divide => {
            assert(multiplicative(sym_at(t, k)) == Some(op));
            assert(p_power(s, t, i, true) == Ok::<(Term, int), (int, Fault)>((l, k)));
            assert(p_product_tail(s, t, j, e) == Ok::<(Term, int), (int, Fault)>((e, j)));
            assert(p_product_tail(s, t, k, l) == p_product_tail(s, t, j, e));
            assert(p_product(s, t, i, true) == Ok::<(Term, int), (int, Fault)>((e, j)));
            assert(p_sum_tail(s, t, j, e) == Ok::<(Term, int), (int, Fault)>((e, j)));
        },
        BinaryOperator::Power => {
            assert(sym_at(t, k) == Some(Sym::Caret));
            assert(p_power(s, t, i, true) == Ok::<(Term, int), (int, Fault)>((e, j)));
            assert(p_product_tail(s, t, j, e) == Ok::<(Term, int), (int, Fault)>((e, j)));
            assert(p_product(s, t, i, true) == Ok::<(Term, int), (int, Fault)>((e, j)));
            assert(p_sum_tail(s, t, j, e) == Ok::<(Term, int), (int, Fault)>((e, j)));
        },
    }
}

/// Round trip: rendering a term whose numbers are normalized and parsing
/// the text gives the same term back. The text must be short enough for its
/// positions to be machine indices.
pub proof fn lemma_parse_render(e: Term)
    requires
        wf_term(e),
        render(e).len() <= usize::MAX,
    ensures
        spec_parse(render(e)) == Ok::<Term, (int, Fault)>(e),
{
    let s = render(e);
    assert(s.subrange(0, s.len() as int) =~= s);
    lemma_lex_term(s, e, 0);
    let t = lex(s);
    assert(t =~= lexemes_of(e, 0));
    assert(t.subrange(0, t.len() as int) =~= t);
    lemma_parse_term(s, t, e, 0, 0);
}

/// The digits of a literal are decimal digits.
proof fn lemma_literal_digits_range(t: Seq<char>)
    ensures
        all_digits(literal_digits(t)),
    decreases t.len(),
{
    if t.len() > 0 {
        lemma_literal_digits_range(t.drop_last());
        let d = literal_digits(t.drop_last());
        if is_digit_char(t.last()) {
            assert(digit_of(t.last()) <= 9);
            assert(forall|i: int| 0 <= i < d.len() ==> d.push(digit_of(t.last()))[i] == d[i]);
        }
    }
}

/// Trimming the fraction keeps a zero-free end after the point.
proof fn lemma_trim_fraction_shape(d: Seq<u8>, k: nat)
    requires
        all_digits(d),
        k <= d.len(),
    ensures
        all_digits(trim_fraction(d, k).digits),
        trim_fraction(d, k).scale <= trim_fraction(d, k).digits.len(),
        trim_fraction(d, k).scale > 0 ==> trim_fraction(d, k).digits.last() != 0,
    decreases k,
{
    if k > 0 && d.len() > 0 && d.last() == 0 {
        assert(forall|i: int| 0 <= i < d.drop_last().len() ==> d.drop_last()[i] == d[i]);
        lemma_trim_fraction_shape(d.drop_last(), (k - 1) as nat);
    }
}

/// Trimming leading zeros keeps a non-zero last digit.
proof fn lemma_trim_leading_shape(d: Seq<u8>)
    requires
        all_digits(d),
    ensures
        all_digits(trim_leading(d)),
        trim_leading(d).len() > 0 ==> trim_leading(d)[0] != 0,
        d.len() > 0 && d.last() != 0 ==> trim_leading(d).len() > 0 && trim_leading(d).last()
            == d.last(),
    decreases d.len(),
{
    if d.len() > 0 && d[0] == 0 {
        assert(forall|i: int| 0 <= i < d.drop_first().len() ==> d.drop_first()[i] == d[i + 1]);
        lemma_trim_leading_shape(d.drop_first());
    }
}

/// A literal of digits and points reads as a normalized decimal.
proof fn lemma_literal_normalized(t: Seq<char>)
    requires
        numeric_text(t),
    ensures
        literal_value(t) matches Some(m) ==> normalized(m),
{
    if point_count(t) <= 1 && literal_digits(t).len() > 0 {
        lemma_literal_digits_range(t);
        lemma_fraction_within_digits(t);
        let m = trim_fraction(literal_digits(t), fraction_len(t));
        lemma_trim_fraction_shape(literal_digits(t), fraction_len(t));
        lemma_trim_leading_shape(m.digits);
    }
}

/// A number lexeme of well-formed lexemes covers a literal of digits and points.
proof fn lemma_number_text(s: Seq<char>, t: Seq<Lexeme>, i: int)
    requires
        lexemes_wf(s, t),
        0 <= i < t.len(),
        t[i].sym == Sym::Number,
    ensures
        numeric_text(s.subrange(t[i].start as int, t[i].end as int)),
{
    let w = s.subrange(t[i].start as int, t[i].end as int);
    assert forall|k: int| 0 <= k < w.len() implies is_digit_char(#[trigger] w[k]) || w[k] == '.' by {
        assert(w[k] == s[t[i].start + k]);
        assert(spec_is_numeric(s[t[i].start + k]));
    }
}

/// What a successful step read is well formed.
pub open spec fn step_wf(r: Step) -> bool {
    r matches Ok((e, _j)) ==> wf_term(e)
}

/// A sum read by the grammar has normalized numbers.
proof fn lemma_wf_sum(s: Seq<char>, t: Seq<Lexeme>, i: int, lead: bool)
    requires
        lexemes_wf(s, t),
    ensures
        step_wf(p_sum(s, t, i, lead)),
    decreases t.len() - i, 6nat,
{
    lemma_wf_product(s, t, i, lead);
    if let Ok((l, j)) = p_product(s, t, i, lead) {
        if advanced(t, i, j) {
            lemma_wf_sum_tail(s, t, j, l);
        }
    }
}

/// The rest of a sum keeps normalized numbers.
proof fn lemma_wf_sum_tail(s: Seq<char>, t: Seq<Lexeme>, i: int, acc: Term)
    requires
        lexemes_wf(s, t),
        wf_term(acc),
    ensures
        step_wf(p_sum_tail(s, t, i, acc)),
    decreases t.len() - i, 5nat,
{
    if let Some(op) = additive(sym_at(t, i)) {
        lemma_wf_product(s, t, i + 1, false);
        if let Ok((r, j)) = p_product(s, t, i + 1, false) {
            if advanced(t, i + 1, j) {
                lemma_wf_sum_tail(s, t, j, Term::Binary(Box::new(acc), op, Box::new(r)));
            }
        }
    }
}

/// A product read by the grammar has normalized numbers.
proof fn lemma_wf_product(s: Seq<char>, t: Seq<Lexeme>, i: int, lead: bool)
    requires
        lexemes_wf(s, t),
    ensures
        step_wf(p_product(s, t, i, lead)),
    decreases t.len() - i, 4nat,
{
    lemma_wf_power(s, t, i, lead);
    if let Ok((l, j)) = p_power(s, t, i, lead) {
        if advanced(t, i, j) {
            lemma_wf_product_tail(s, t, j, l);
        }
    }
}

/// The rest of a product keeps normalized numbers.
proof fn lemma_wf_product_tail(s: Seq<char>, t: Seq<Lexeme>, i: int, acc: Term)
    requires
        lexemes_wf(s, t),
        wf_term(acc),
    ensures
        step_wf(p_product_tail(s, t, i, acc)),
    decreases t.len() - i, 3nat,
{
    if let Some(op) = multiplicative(sym_at(t, i)) {
        lemma_wf_power(s, t, i + 1, false);
        if let Ok((r, j)) = p_power(s, t, i + 1, false) {
            if advanced(t, i + 1, j) {
                lemma_wf_product_tail(s, t, j, Term::Binary(Box::new(acc), op, Box::new(r)));
            }
        }
    }
}

/// A power read by the grammar has normalized numbers.
proof fn lemma_wf_power(s: Seq<char>, t: Seq<Lexeme>, i: int, lead: bool)
    requires
        lexemes_wf(s, t),
    ensures
        step_wf(p_power(s, t, i, lead)),
    decreases t.len() - i, 2nat,
{
    lemma_wf_unary(s, t, i, lead);
    if let Ok((b, j)) = p_unary(s, t, i, lead) {
        if advanced(t, i, j) && sym_at(t, j) == Some(Sym::Caret) {
            lemma_wf_power(s, t, j + 1, false);
        }
    }
}

/// An operand read by the grammar has normalized numbers.
proof fn lemma_wf_unary(s: Seq<char>, t: Seq<Lexeme>, i: int, lead: bool)
    requires
        lexemes_wf(s, t),
    ensures
        step_wf(p_unary(s, t, i, lead)),
    decreases t.len() - i, 1nat,
{
    if lead && sign(sym_at(t, i)) is Some {
        lemma_wf_unary(s, t, i + 1, true);
    } else {
        lemma_wf_primary(s, t, i, lead);
        if let Ok((e, j)) = p_primary(s, t, i, lead) {
            lemma_wf_bangs(t, j, e);
        }
    }
}

/// Factorials keep normalized numbers.
proof fn lemma_wf_bangs(t: Seq<Lexeme>, i: int, e: Term)
    requires
        wf_term(e),
    ensures
        wf_term(bangs(t, i, e).0),
    decreases t.len() - i,
{
    if sym_at(t, i) == Some(Sym::Bang) {
        lemma_wf_bangs(t, i + 1, Term::Suffix(Box::new(e), crate::ast::SuffixOperator::Factorial));
    }
}

/// A primary read by the grammar has normalized numbers.
proof fn lemma_wf_primary(s: Seq<char>, t: Seq<Lexeme>, i: int, lead: bool)
    requires
        lexemes_wf(s, t),
    ensures
        step_wf(p_primary(s, t, i, lead)),
    decreases t.len() - i, 0nat,
{
    match sym_at(t, i) {
        Some(Sym::Number) => {
            lemma_number_text(s, t, i);
            lemma_literal_normalized(s.subrange(t[i].start as int, t[i].end as int));
        },
        Some(Sym::Open) => {
            lemma_wf_sum(s, t, i + 1, true);
        },
        _ => {},
    }
}

/// Every tree that the parser builds has normalized numbers; so rendering
/// it and parsing the text gives it back (where the text's positions are
/// machine indices).
pub proof fn lemma_parsed_tree_round_trip(s: Seq<char>, e: Term)
    requires
        s.len() <= usize::MAX,
        spec_parse(s) == Ok::<Term, (int, Fault)>(e),
        render(e).len() <= usize::MAX,
    ensures
        wf_term(e),
        spec_parse(render(e)) == Ok::<Term, (int, Fault)>(e),
{
    lemma_lex_from_wf(s, 0);
    lemma_wf_sum(s, lex(s), 0, true);
    lemma_parse_render(e);
}

} // verus!
