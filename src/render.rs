//! Writing a syntax tree back as text that parses to the same tree.

use vstd::prelude::*;
use crate::ast::{
    all_digits, BinaryOperator, Decimal, DecimalModel, Expression, PrefixOperator, SuffixOperator, Term,
    term_of,
};
use crate::text::push_char;

verus! {

/// The character of a decimal digit.
pub open spec fn digit_char(x: u8) -> char {
    ((x + 48) as u8) as char
}

/// The characters of a sequence of digits.
pub open spec fn digit_chars(d: Seq<u8>) -> Seq<char> {
    d.map_values(|x: u8| digit_char(x))
}

/// A decimal in positional notation: `0` for zero, an integer without a
/// point, otherwise the integer part (`0` if none), a point and exactly
/// `scale` fraction digits.
pub open spec fn decimal_text(d: DecimalModel) -> Seq<char> {
    let n = d.digits.len();
    if d.scale == 0 {
        if n == 0 {
            seq!['0']
        } else {
            digit_chars(d.digits)
        }
    } else if n > d.scale {
        digit_chars(d.digits.subrange(0, n - d.scale)) + seq!['.'] + digit_chars(
            d.digits.subrange(n - d.scale, n as int),
        )
    } else {
        seq!['0', '.'] + Seq::new((d.scale - n) as nat, |_i: int| '0') + digit_chars(d.digits)
    }
}

/// The character of an infix operator.
pub open spec fn binary_char(op: BinaryOperator) -> char {
    match op {
        BinaryOperator::Plus => '+',
        BinaryOperator::Minus => '-',
        BinaryOperator::Multiplication => '*',
        BinaryOperator::Divide => '/',
        BinaryOperator::Power => '^',
    }
}

/// The character of a sign.
pub open spec fn prefix_char(op: PrefixOperator) -> char {
    match op {
        PrefixOperator::PlusSign => '+',
        PrefixOperator::MinusSign => '-',
    }
}

/// The text of an operand: a number as it is, anything else in parentheses.
pub open spec fn wrap(x: Term, text: Seq<char>) -> Seq<char> {
    if x is Num {
        text
    } else {
        seq!['('] + text + seq![')']
    }
}

/// The text of a term: infix operators between single spaces, signs and
/// `!` attached, and every operand that is not a number in parentheses.
pub open spec fn render(e: Term) -> Seq<char>
    decreases e,
{
    match e {
        Term::Num(d) => decimal_text(d),
        Term::Binary(l, op, r) => wrap(*l, render(*l)) + seq![' ', binary_char(op), ' '] + wrap(
            *r,
            render(*r),
        ),
        Term::Prefix(op, x) => seq![prefix_char(op)] + wrap(*x, render(*x)),
        Term::Suffix(x, _op) => wrap(*x, render(*x)) + seq!['!'],
    }
}

impl BinaryOperator {
    /// The character that writes the operator.
    pub fn symbol(&self) -> (r: char)
        ensures
            r == binary_char(*self),
    {
        match self {
            BinaryOperator::Plus => '+',
            BinaryOperator::Minus => '-',
            BinaryOperator::Multiplication => '*',
            BinaryOperator::Divide => '/',
            BinaryOperator::Power => '^',
        }
    }
}

impl PrefixOperator {
    /// The character that writes the sign.
    pub fn symbol(&self) -> (r: char)
        ensures
            r == prefix_char(*self),
    {
        match self {
            PrefixOperator::PlusSign => '+',
            PrefixOperator::MinusSign => '-',
        }
    }
}

impl SuffixOperator {
    /// The character that writes the operator.
    pub fn symbol(&self) -> (r: char)
        ensures
            r == '!',
    {
        match self {
            SuffixOperator::Factorial => '!',
        }
    }
}

/// Appends the digits `d[from..to]` to `out`.
fn push_digits(out: &mut String, d: &Vec<u8>, from: usize, to: usize)
    requires
        from <= to <= d@.len(),
        all_digits(d@),
    ensures
        final(out)@ == old(out)@ + digit_chars(d@.subrange(from as int, to as int)),
{
    let mut i: usize = from;
    while i < to
        invariant
            from <= i <= to <= d@.len(),
            all_digits(d@),
            out@ == old(out)@ + digit_chars(d@.subrange(from as int, i as int)),
        decreases to - i,
    {
        push_char(out, (d[i] + 48) as char);
        i += 1;
        assert(digit_chars(d@.subrange(from as int, i as int)) =~= digit_chars(
            d@.subrange(from as int, i - 1),
        ).push(digit_char(d@[i - 1])));
    }
}

impl Decimal {
    /// The number in positional notation.
    pub fn to_text(&self) -> (r: String)
        requires
            all_digits(self.digits@),
        ensures
            r@ == decimal_text(self@),
    {
        let n = self.digits.len();
        let mut out = String::new();
        if self.scale == 0 {
            if n == 0 {
                push_char(&mut out, '0');
            } else {
                push_digits(&mut out, &self.digits, 0, n);
                assert(self.digits@.subrange(0, n as int) =~= self.digits@);
            }
        } else if n > self.scale {
            push_digits(&mut out, &self.digits, 0, n - self.scale);
            push_char(&mut out, '.');
            push_digits(&mut out, &self.digits, n - self.scale, n);
        } else {
            push_char(&mut out, '0');
            push_char(&mut out, '.');
            let mut k: usize = 0;
            while k < self.scale - n
                invariant
                    n == self.digits@.len(),
                    n <= self.scale,
                    k <= self.scale - n,
                    out@ == seq!['0', '.'] + Seq::new(k as nat, |_i: int| '0'),
                decreases self.scale - n - k,
            {
                push_char(&mut out, '0');
                k += 1;
                assert(out@ =~= seq!['0', '.'] + Seq::new(k as nat, |_i: int| '0'));
            }
            push_digits(&mut out, &self.digits, 0, n);
            assert(self.digits@.subrange(0, n as int) =~= self.digits@);
        }
        out
    }
}

/// Every number in the term has decimal digits only.
pub open spec fn digits_ok(e: Term) -> bool
    decreases e,
{
    match e {
        Term::Num(d) => all_digits(d.digits),
        Term::Binary(l, _op, r) => digits_ok(*l) && digits_ok(*r),
        Term::Prefix(_op, x) => digits_ok(*x),
        Term::Suffix(x, _op) => digits_ok(*x),
    }
}

/// Appends the text of `e` as an operand.
fn push_operand(out: &mut String, e: &Expression)
    requires
        digits_ok(term_of(e)),
    ensures
        final(out)@ == old(out)@ + wrap(term_of(e), render(term_of(e))),
    decreases e, 1nat,
{
    if let Expression::Number(_) = e {
        let text = e.to_text();
        out.append(text.as_str());
    } else {
        push_char(out, '(');
        let text = e.to_text();
        out.append(text.as_str());
        push_char(out, ')');
    }
}

impl Expression {
    /// The text of the expression; parsing it gives the expression back.
    pub fn to_text(&self) -> (r: String)
        requires
            digits_ok(self@),
        ensures
            r@ == render(self@),
        decreases self, 0nat,
    {
        let mut out = String::new();
        match self {
            Expression::Number(d) => {
                assert(term_of(self) == Term::Num(d@));
                assert(all_digits(d@.digits));
                return d.to_text();
            },
            Expression::BinaryOperation(l, op, r) => {
                push_operand(&mut out, l);
                push_char(&mut out, ' ');
                push_char(&mut out, op.symbol());
                push_char(&mut out, ' ');
                push_operand(&mut out, r);
            },
            Expression::UnaryPrefixOperation(op, x) => {
                push_char(&mut out, op.symbol());
                push_operand(&mut out, x);
            },
            Expression::UnarySuffixOperation(x, op) => {
                push_operand(&mut out, x);
                push_char(&mut out, op.symbol());
            },
        }
        out
    }
}

} // verus!
