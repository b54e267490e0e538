//! The syntax tree of an expression and its mathematical view.

use vstd::prelude::*;

verus! {

/// An exact decimal number: the integer written by `digits` (most
/// significant first), divided by ten to the power `scale`.
///
/// Numbers built by this library are normalized: no leading zero digit,
/// and no trailing zero digit among the fraction digits, so that equal
/// values have equal representations. Zero has no digits.
#[derive(Debug, Clone, PartialEq)]
pub struct Decimal {
    pub digits: Vec<u8>,
    pub scale: usize,
}

/// The view of a [`Decimal`]: its digits and its scale.
pub struct DecimalModel {
    pub digits: Seq<u8>,
    pub scale: nat,
}

impl View for Decimal {
    type V = DecimalModel;

    open spec fn view(&self) -> DecimalModel {
        DecimalModel { digits: self.digits@, scale: self.scale as nat }
    }
}

/// Every digit is a decimal digit.
pub open spec fn all_digits(d: Seq<u8>) -> bool {
    forall|i: int| 0 <= i < d.len() ==> #[trigger] d[i] <= 9
}

/// The normal form: digits in range, no leading zero, and no trailing zero
/// after the decimal point.
pub open spec fn normalized(m: DecimalModel) -> bool {
    &&& all_digits(m.digits)
    &&& m.digits.len() > 0 ==> m.digits[0] != 0
    &&& m.scale > 0 ==> m.digits.len() > 0 && m.digits.last() != 0
}

/// The natural number written by a sequence of decimal digits.
pub open spec fn digits_value(d: Seq<u8>) -> nat
    decreases d.len(),
{
    if d.len() == 0 {
        0
    } else {
        digits_value(d.drop_last()) * 10 + d.last() as nat
    }
}

/// The root of a parsed input.
#[derive(Debug, PartialEq)]
pub enum Root {
    Expression(Expression),
}

/// An expression tree; each node owns its children.
#[derive(Debug, PartialEq)]
pub enum Expression {
    Number(Decimal),
    BinaryOperation(Box<Expression>, BinaryOperator, Box<Expression>),
    UnaryPrefixOperation(PrefixOperator, Box<Expression>),
    UnarySuffixOperation(Box<Expression>, SuffixOperator),
}

/// The infix operators.
#[derive(Debug, Clone, Copy, PartialEq, Eq, Structural)]
pub enum BinaryOperator {
    Plus,
    Minus,
    Multiplication,
    Divide,
    Power,
}

/// The sign operators written before an operand.
#[derive(Debug, Clone, Copy, PartialEq, Eq, Structural)]
pub enum PrefixOperator {
    PlusSign,
    MinusSign,
}

/// The operators written after an operand.
#[derive(Debug, Clone, Copy, PartialEq, Eq, Structural)]
pub enum SuffixOperator {
    Factorial,
}

/// The view of an [`Expression`]: the same tree over mathematical values.
pub enum Term {
    Num(DecimalModel),
    Binary(Box<Term>, BinaryOperator, Box<Term>),
    Prefix(PrefixOperator, Box<Term>),
    Suffix(Box<Term>, SuffixOperator),
}

/// The term that an expression stands for.
pub open spec fn term_of(e: &Expression) -> Term
    decreases e,
{
    match e {
        Expression::Number(d) => Term::Num(d@),
        Expression::BinaryOperation(l, op, r) => Term::Binary(
            Box::new(term_of(l)),
            *op,
            Box::new(term_of(r)),
        ),
        Expression::UnaryPrefixOperation(op, x) => Term::Prefix(*op, Box::new(term_of(x))),
        Expression::UnarySuffixOperation(x, op) => Term::Suffix(Box::new(term_of(x)), *op),
    }
}

impl View for Expression {
    type V = Term;

    open spec fn view(&self) -> Term {
        term_of(self)
    }
}

impl View for Root {
    type V = Term;

    open spec fn view(&self) -> Term {
        match self {
            Root::Expression(e) => e@,
        }
    }
}

impl Decimal {
    /// The decimal that stands for the integer `n`.
    pub fn from_integer(n: u64) -> (r: Decimal)
        ensures
            normalized(r@),
            r@.scale == 0,
            digits_value(r@.digits) == n,
    {
        // digits from least significant up
        let mut rev: Vec<u8> = Vec::new();
        let mut m: u64 = n;
        let ghost mut low: nat = 0;
        let ghost mut p: nat = 1;
        while m > 0
            invariant
                all_digits(rev@),
                rev@.len() > 0 ==> rev@.last() != 0 || m > 0,
                n == m as nat * p + low,
                p == pow10(rev@.len()),
                low == digits_value(reversed(rev@)),
            decreases m,
        {
            let d = (m % 10) as u8;
            proof {
                lemma_push_low_digit(rev@, d);
                vstd::arithmetic::div_mod::lemma_fundamental_div_mod(m as int, 10);
                assert(m as nat * p == (m / 10) as nat * (10 * p) + d as nat * p) by (nonlinear_arith)
                    requires m as int == 10 * (m / 10) + d as int;
                low = low + d as nat * p;
                p = 10 * p;
            }
            rev.push(d);
            m = m / 10;
        }
        let mut digits: Vec<u8> = Vec::new();
        let mut k: usize = rev.len();
        while k > 0
            invariant
                k <= rev@.len(),
                digits@ == reversed(rev@).subrange(0, (rev@.len() - k) as int),
            decreases k,
        {
            k -= 1;
            digits.push(rev[k]);
            assert(digits@ =~= reversed(rev@).subrange(0, (rev@.len() - k) as int));
        }
        assert(digits@ =~= reversed(rev@));
        proof {
            assert(all_digits(digits@));
            if digits@.len() > 0 {
                assert(digits@[0] == rev@.last());
            }
        }
        Decimal { digits, scale: 0 }
    }
}

/// Ten to the power `n`.
pub open spec fn pow10(n: nat) -> nat
    decreases n,
{
    if n == 0 {
        1
    } else {
        10 * pow10((n - 1) as nat)
    }
}

/// The sequence read backwards.
pub open spec fn reversed(s: Seq<u8>) -> Seq<u8> {
    Seq::new(s.len(), |i: int| s[s.len() - 1 - i])
}

/// Putting a digit in front of a digit sequence adds it at the highest place.
proof fn lemma_digits_value_prepend(d: u8, s: Seq<u8>)
    ensures
        digits_value(seq![d] + s) == d as nat * pow10(s.len()) + digits_value(s),
    decreases s.len(),
{
    let w = seq![d] + s;
    if s.len() == 0 {
        assert(w.drop_last() =~= Seq::<u8>::empty());
        assert(digits_value(w) == digits_value(w.drop_last()) * 10 + w.last() as nat);
        assert(pow10(0) == 1);
    } else {
        let t = s.drop_last();
        assert(w.drop_last() =~= seq![d] + t);
        assert(w.last() == s.last());
        lemma_digits_value_prepend(d, t);
        assert(digits_value(w) == digits_value(seq![d] + t) * 10 + s.last() as nat);
        assert(digits_value(s) == digits_value(t) * 10 + s.last() as nat);
        assert(pow10(s.len()) == 10 * pow10(t.len()));
        assert((d as nat * pow10(t.len()) + digits_value(t)) * 10 == d as nat * (10 * pow10(
            t.len(),
        )) + digits_value(t) * 10) by (nonlinear_arith);
    }
}

/// A new lowest digit of the reversed sequence lands at the highest place.
proof fn lemma_push_low_digit(rev: Seq<u8>, d: u8)
    ensures
        digits_value(reversed(rev.push(d))) == d as nat * pow10(rev.len()) + digits_value(
            reversed(rev),
        ),
{
    assert(reversed(rev.push(d)) =~= seq![d] + reversed(rev));
    lemma_digits_value_prepend(d, reversed(rev));
}

} // verus!
