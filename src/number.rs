//! Reading a numeric literal (digits and decimal points) as an exact decimal.

use vstd::prelude::*;
use crate::ast::{Decimal, DecimalModel};

verus! {

/// A decimal digit character.
pub open spec fn is_digit_char(c: char) -> bool {
    '0' <= c && c <= '9'
}

/// The value of a digit character.
pub open spec fn digit_of(c: char) -> u8 {
    (c as u32 - '0' as u32) as u8
}

/// The digits of a literal, in order, with the decimal point left out.
pub open spec fn literal_digits(t: Seq<char>) -> Seq<u8>
    decreases t.len(),
{
    if t.len() == 0 {
        seq![]
    } else if is_digit_char(t.last()) {
        literal_digits(t.drop_last()).push(digit_of(t.last()))
    } else {
        literal_digits(t.drop_last())
    }
}

/// How many decimal points a literal holds.
pub open spec fn point_count(t: Seq<char>) -> nat
    decreases t.len(),
{
    if t.len() == 0 {
        0
    } else if t.last() == '.' {
        point_count(t.drop_last()) + 1
    } else {
        point_count(t.drop_last())
    }
}

/// How many digits stand after the decimal point (none without a point).
pub open spec fn fraction_len(t: Seq<char>) -> nat
    decreases t.len(),
{
    if t.len() == 0 || t.last() == '.' {
        0
    } else if point_count(t.drop_last()) > 0 {
        fraction_len(t.drop_last()) + 1
    } else {
        0
    }
}

/// Drops zero digits after the decimal point from the end.
pub open spec fn trim_fraction(d: Seq<u8>, scale: nat) -> DecimalModel
    decreases scale,
{
    if scale > 0 && d.len() > 0 && d.last() == 0 {
        trim_fraction(d.drop_last(), (scale - 1) as nat)
    } else {
        DecimalModel { digits: d, scale }
    }
}

/// Drops leading zero digits.
pub open spec fn trim_leading(d: Seq<u8>) -> Seq<u8>
    decreases d.len(),
{
    if d.len() > 0 && d[0] == 0 {
        trim_leading(d.drop_first())
    } else {
        d
    }
}

/// The normalized decimal that a literal of digits and points writes: a
/// literal is well formed when it has at most one point and some digit.
pub open spec fn literal_value(t: Seq<char>) -> Option<DecimalModel> {
    if point_count(t) <= 1 && literal_digits(t).len() > 0 {
        let m = trim_fraction(literal_digits(t), fraction_len(t));
        Some(DecimalModel { digits: trim_leading(m.digits), scale: m.scale })
    } else {
        None
    }
}

/// A literal counts its fraction digits among its digits.
pub proof fn lemma_fraction_within_digits(t: Seq<char>)
    requires
        point_count(t) <= 1,
        forall|i: int| 0 <= i < t.len() ==> is_digit_char(#[trigger] t[i]) || t[i] == '.',
    ensures
        fraction_len(t) <= literal_digits(t).len(),
    decreases t.len(),
{
    if t.len() > 0 {
        let u = t.drop_last();
        assert forall|i: int| 0 <= i < u.len() implies is_digit_char(#[trigger] u[i]) || u[i]
            == '.' by {
            assert(u[i] == t[i]);
        }
        lemma_fraction_within_digits(u);
    }
}

/// Reads the literal `s[from..to]`, made of digits and points, as a
/// normalized decimal; `None` where it has no digit or more than one point.
pub fn decimal_from_chars(s: &Vec<char>, from: usize, to: usize) -> (r: Option<Decimal>)
    requires
        from <= to <= s@.len(),
        forall|i: int|
            from <= i < to ==> is_digit_char(#[trigger] s@[i]) || s@[i] == '.',
    ensures
        r matches Some(d) ==> literal_value(s@.subrange(from as int, to as int)) == Some(d@),
        r is None ==> literal_value(s@.subrange(from as int, to as int)) is None,
{
    let ghost t = s@.subrange(from as int, to as int);
    let mut digits: Vec<u8> = Vec::new();
    let mut points: usize = 0;
    let mut scale: usize = 0;
    let mut i: usize = from;
    while i < to
        invariant
            from <= i <= to <= s@.len(),
            t == s@.subrange(from as int, to as int),
            forall|k: int| from <= k < to ==> is_digit_char(#[trigger] s@[k]) || s@[k] == '.',
            digits@ == literal_digits(s@.subrange(from as int, i as int)),
            points == point_count(s@.subrange(from as int, i as int)),
            points <= i - from,
            scale == fraction_len(s@.subrange(from as int, i as int)),
            scale <= i - from,
        decreases to - i,
    {
        let c = s[i];
        let ghost u = s@.subrange(from as int, i as int);
        let ghost w = s@.subrange(from as int, i + 1);
        assert(w.drop_last() =~= u);
        assert(w.last() == c);
        if c == '.' {
            points += 1;
            scale = 0;
        } else {
            digits.push((c as u32 - '0' as u32) as u8);
            if points > 0 {
                scale += 1;
            }
        }
        i += 1;
    }
    assert(s@.subrange(from as int, to as int) =~= t);
    if points > 1 || digits.len() == 0 {
        return None;
    }
    proof {
        assert forall|k: int| 0 <= k < t.len() implies is_digit_char(#[trigger] t[k]) || t[k]
            == '.' by {
            assert(t[k] == s@[from + k]);
        }
        lemma_fraction_within_digits(t);
    }
    // zero digits at the end of the fraction
    while scale > 0 && digits.len() > 0 && digits[digits.len() - 1] == 0
        invariant
            trim_fraction(digits@, scale as nat) == trim_fraction(
                literal_digits(t),
                fraction_len(t),
            ),
        decreases scale,
    {
        let ghost before = digits@;
        digits.pop();
        assert(digits@ =~= before.drop_last());
        scale -= 1;
    }
    // zero digits at the front
    let mut k: usize = 0;
    assert(digits@.subrange(0, digits@.len() as int) =~= digits@);
    while k < digits.len() && digits[k] == 0
        invariant
            k <= digits@.len(),
            trim_leading(digits@.subrange(k as int, digits@.len() as int)) == trim_leading(
                digits@,
            ),
        decreases digits@.len() - k,
    {
        assert(digits@.subrange(k as int, digits@.len() as int).drop_first() =~= digits@.subrange(
            k + 1,
            digits@.len() as int,
        ));
        k += 1;
    }
    let mut out: Vec<u8> = Vec::new();
    let mut j: usize = k;
    while j < digits.len()
        invariant
            k <= j <= digits@.len(),
            out@ == digits@.subrange(k as int, j as int),
        decreases digits@.len() - j,
    {
        out.push(digits[j]);
        j += 1;
        assert(out@ =~= digits@.subrange(k as int, j as int));
    }
    Some(Decimal { digits: out, scale })
}

} // verus!
