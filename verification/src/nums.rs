//! Arbitrary-precision integers and rationals: the literals of the verifier.
//!
//! A number is held as plain base-2^32 digits; the arithmetic itself is done by
//! the `num` crate, one function per operation.

use num::bigint::Sign;
use num::{BigInt, BigRational};
use crate::text::decimal;
use vstd::prelude::*;

verus! {

/// The number that base-2^32 digits spell, least significant digit first.
pub open spec fn magnitude(digits: Seq<u32>) -> nat
    decreases digits.len(),
{
    if digits.len() == 0 {
        0
    } else {
        digits[0] as nat + 0x1_0000_0000 * magnitude(digits.drop_first())
    }
}

/// An integer of any size: a sign and its digits.
#[derive(Debug, PartialEq, Eq, Hash)]
pub struct Int {
    neg: bool,
    digits: Vec<u32>,
}

impl View for Int {
    type V = int;

    closed spec fn view(&self) -> int {
        if self.neg {
            -(magnitude(self.digits@) as int)
        } else {
            magnitude(self.digits@) as int
        }
    }
}

impl Clone for Int {
    fn clone(&self) -> (r: Self)
        ensures
            r@ == self@,
    {
        let digits = self.digits.clone();
        proof {
            assert(digits@ =~= self.digits@);
        }
        Int { neg: self.neg, digits }
    }
}

/// `num::BigInt::from(i64)`: the integer of the same value.
#[verifier::external_body]
fn int_of_i64(n: i64) -> (r: Int)
    ensures
        r@ == n,
{
    let (sign, digits) = BigInt::from(n).to_u32_digits();
    Int { neg: sign == Sign::Minus, digits }
}

/// `num::BigInt::from(usize)`: the integer of the same value.
#[verifier::external_body]
fn int_of_usize(n: usize) -> (r: Int)
    ensures
        r@ == n,
{
    let (sign, digits) = BigInt::from(n).to_u32_digits();
    Int { neg: sign == Sign::Minus, digits }
}

/// `num::BigInt`'s `+`: the sum.
#[verifier::external_body]
fn int_sum(a: &Int, b: &Int) -> (r: Int)
    ensures
        r@ == a@ + b@,
{
    let sa = if a.neg { Sign::Minus } else { Sign::Plus };
    let sb = if b.neg { Sign::Minus } else { Sign::Plus };
    let z = BigInt::from_slice(sa, &a.digits) + BigInt::from_slice(sb, &b.digits);
    let (sign, digits) = z.to_u32_digits();
    Int { neg: sign == Sign::Minus, digits }
}

/// `num::BigInt`'s `-`: the difference.
#[verifier::external_body]
fn int_difference(a: &Int, b: &Int) -> (r: Int)
    ensures
        r@ == a@ - b@,
{
    let sa = if a.neg { Sign::Minus } else { Sign::Plus };
    let sb = if b.neg { Sign::Minus } else { Sign::Plus };
    let z = BigInt::from_slice(sa, &a.digits) - BigInt::from_slice(sb, &b.digits);
    let (sign, digits) = z.to_u32_digits();
    Int { neg: sign == Sign::Minus, digits }
}

/// `num::BigInt`'s `*`: the product.
#[verifier::external_body]
fn int_product(a: &Int, b: &Int) -> (r: Int)
    ensures
        r@ == a@ * b@,
{
    let sa = if a.neg { Sign::Minus } else { Sign::Plus };
    let sb = if b.neg { Sign::Minus } else { Sign::Plus };
    let z = BigInt::from_slice(sa, &a.digits) * BigInt::from_slice(sb, &b.digits);
    let (sign, digits) = z.to_u32_digits();
    Int { neg: sign == Sign::Minus, digits }
}

/// `num::BigInt`'s `==`: whether the two values are equal.
#[verifier::external_body]
fn int_equal(a: &Int, b: &Int) -> (r: bool)
    ensures
        r == (a@ == b@),
{
    let sa = if a.neg { Sign::Minus } else { Sign::Plus };
    let sb = if b.neg { Sign::Minus } else { Sign::Plus };
    BigInt::from_slice(sa, &a.digits) == BigInt::from_slice(sb, &b.digits)
}

/// `num::BigInt`'s `<`: whether the first value is the smaller one.
#[verifier::external_body]
fn int_below(a: &Int, b: &Int) -> (r: bool)
    ensures
        r == (a@ < b@),
{
    let sa = if a.neg { Sign::Minus } else { Sign::Plus };
    let sb = if b.neg { Sign::Minus } else { Sign::Plus };
    BigInt::from_slice(sa, &a.digits) < BigInt::from_slice(sb, &b.digits)
}

/// The number that decimal digits spell, most significant first; underscores among them
/// do not count.
pub open spec fn parsed_digits(text: Seq<char>) -> Option<nat>
    decreases text.len(),
{
    if text.len() == 0 {
        Some(0)
    } else if text.last() == '_' {
        parsed_digits(text.drop_last())
    } else {
        match parsed_digits(text.drop_last()) {
            Some(n) if '0' <= text.last() <= '9' => Some(
                10 * n + (text.last() as nat - '0' as nat) as nat,
            ),
            _ => None,
        }
    }
}

/// The number that a text spells: a plus sign or none, and digits that do not start with
/// an underscore.
pub open spec fn parsed_nat(text: Seq<char>) -> Option<nat> {
    let digits = if text.len() > 0 && text[0] == '+' {
        text.drop_first()
    } else {
        text
    };
    if digits.len() == 0 || digits[0] == '_' {
        None
    } else {
        parsed_digits(digits)
    }
}

/// The integer that a text spells: a sign or none, and digits.
pub open spec fn parsed_int(text: Seq<char>) -> Option<int> {
    if text.len() > 0 && text[0] == '-' {
        let rest = text.drop_first();
        match parsed_nat(rest) {
            Some(n) if rest[0] != '+' => Some(-(n as int)),
            _ => None,
        }
    } else {
        match parsed_nat(text) {
            Some(n) => Some(n as int),
            None => None,
        }
    }
}

/// The text of an integer: a minus sign where it is negative, and the digits.
pub open spec fn int_text(n: int) -> Seq<char> {
    if n < 0 {
        seq!['-'] + decimal((-n) as nat)
    } else {
        decimal(n as nat)
    }
}

/// `num::BigInt`'s `FromStr`: the integer that a text spells in decimal, with a sign or
/// none and underscores after the first digit; it refuses every other text.
#[verifier::external_body]
fn int_parse(text: &str) -> (r: Option<Int>)
    ensures
        r is Some == parsed_int(text@) is Some,
        r matches Some(n) ==> parsed_int(text@) == Some(n@),
{
    let n = text.parse::<BigInt>().ok()?;
    let (sign, digits) = n.to_u32_digits();
    Some(Int { neg: sign == Sign::Minus, digits })
}

/// `num::BigInt`'s `Display`: a minus sign where the integer is negative, and its
/// decimal digits, without leading zeros.
#[verifier::external_body]
fn int_show(a: &Int) -> (r: String)
    ensures
        r@ == int_text(a@),
{
    let sa = if a.neg { Sign::Minus } else { Sign::Plus };
    format!("{}", BigInt::from_slice(sa, &a.digits))
}

impl Int {
    pub fn from_i64(n: i64) -> (r: Int)
        ensures
            r@ == n,
    {
        int_of_i64(n)
    }

    pub fn from_usize(n: usize) -> (r: Int)
        ensures
            r@ == n,
    {
        int_of_usize(n)
    }

    pub fn plus(&self, other: &Int) -> (r: Int)
        ensures
            r@ == self@ + other@,
    {
        int_sum(self, other)
    }

    pub fn minus(&self, other: &Int) -> (r: Int)
        ensures
            r@ == self@ - other@,
    {
        int_difference(self, other)
    }

    pub fn times(&self, other: &Int) -> (r: Int)
        ensures
            r@ == self@ * other@,
    {
        int_product(self, other)
    }

    pub fn same(&self, other: &Int) -> (r: bool)
        ensures
            r == (self@ == other@),
    {
        int_equal(self, other)
    }

    pub fn less(&self, other: &Int) -> (r: bool)
        ensures
            r == (self@ < other@),
    {
        int_below(self, other)
    }

    /// The integer that a text denotes; `None` where it denotes none.
    pub fn parse(text: &str) -> (r: Option<Int>)
        ensures
            r is Some == parsed_int(text@) is Some,
            r matches Some(n) ==> parsed_int(text@) == Some(n@),
    {
        int_parse(text)
    }

    pub fn text(&self) -> (r: String)
        ensures
            r@ == int_text(self@),
    {
        int_show(self)
    }
}

/// A rational number: a signed numerator over a positive denominator.
#[derive(Debug, PartialEq, Eq, Hash)]
pub struct Rat {
    neg: bool,
    num: Vec<u32>,
    den: Vec<u32>,
}

impl View for Rat {
    type V = real;

    closed spec fn view(&self) -> real {
        let n = if self.neg {
            -(magnitude(self.num@) as int)
        } else {
            magnitude(self.num@) as int
        };
        (n as real) / (magnitude(self.den@) as int as real)
    }
}

impl Rat {
    #[verifier::type_invariant]
    spec fn den_positive(self) -> bool {
        magnitude(self.den@) > 0
    }
}

impl Clone for Rat {
    fn clone(&self) -> (r: Self)
        ensures
            r@ == self@,
    {
        proof {
            use_type_invariant(self);
        }
        let num = self.num.clone();
        let den = self.den.clone();
        proof {
            assert(num@ =~= self.num@);
            assert(den@ =~= self.den@);
        }
        Rat { neg: self.neg, num, den }
    }
}

/// `num::BigRational::new`: the quotient of two integers, in lowest terms. It
/// panics on a zero denominator.
#[verifier::external_body]
fn rat_of(n: &Int, d: &Int) -> (r: Rat)
    requires
        d@ != 0,
    ensures
        r@ == (n@ as real) / (d@ as real),
{
    let sn = if n.neg { Sign::Minus } else { Sign::Plus };
    let sd = if d.neg { Sign::Minus } else { Sign::Plus };
    let n = BigInt::from_slice(sn, &n.digits);
    let z = BigRational::new(n, BigInt::from_slice(sd, &d.digits));
    let (sign, num) = z.numer().to_u32_digits();
    Rat { neg: sign == Sign::Minus, num, den: z.denom().to_u32_digits().1 }
}

/// `num::BigRational`'s `+`: the sum.
#[verifier::external_body]
fn rat_sum(a: &Rat, b: &Rat) -> (r: Rat)
    ensures
        r@ == a@ + b@,
{
    let sa = if a.neg { Sign::Minus } else { Sign::Plus };
    let sb = if b.neg { Sign::Minus } else { Sign::Plus };
    let da = BigInt::from_slice(Sign::Plus, &a.den);
    let db = BigInt::from_slice(Sign::Plus, &b.den);
    let x = BigRational::new(BigInt::from_slice(sa, &a.num), da);
    let y = BigRational::new(BigInt::from_slice(sb, &b.num), db);
    let z = x + y;
    let (sign, num) = z.numer().to_u32_digits();
    Rat { neg: sign == Sign::Minus, num, den: z.denom().to_u32_digits().1 }
}

/// `num::BigRational`'s `-`: the difference.
#[verifier::external_body]
fn rat_difference(a: &Rat, b: &Rat) -> (r: Rat)
    ensures
        r@ == a@ - b@,
{
    let sa = if a.neg { Sign::Minus } else { Sign::Plus };
    let sb = if b.neg { Sign::Minus } else { Sign::Plus };
    let da = BigInt::from_slice(Sign::Plus, &a.den);
    let db = BigInt::from_slice(Sign::Plus, &b.den);
    let x = BigRational::new(BigInt::from_slice(sa, &a.num), da);
    let y = BigRational::new(BigInt::from_slice(sb, &b.num), db);
    let z = x - y;
    let (sign, num) = z.numer().to_u32_digits();
    Rat { neg: sign == Sign::Minus, num, den: z.denom().to_u32_digits().1 }
}

/// `num::BigRational`'s `*`: the product.
#[verifier::external_body]
fn rat_product(a: &Rat, b: &Rat) -> (r: Rat)
    ensures
        r@ == a@ * b@,
{
    let sa = if a.neg { Sign::Minus } else { Sign::Plus };
    let sb = if b.neg { Sign::Minus } else { Sign::Plus };
    let da = BigInt::from_slice(Sign::Plus, &a.den);
    let db = BigInt::from_slice(Sign::Plus, &b.den);
    let x = BigRational::new(BigInt::from_slice(sa, &a.num), da);
    let y = BigRational::new(BigInt::from_slice(sb, &b.num), db);
    let z = x * y;
    let (sign, num) = z.numer().to_u32_digits();
    Rat { neg: sign == Sign::Minus, num, den: z.denom().to_u32_digits().1 }
}

/// `num::BigRational`'s `/`: the quotient. It panics on a zero divisor.
#[verifier::external_body]
fn rat_quotient(a: &Rat, b: &Rat) -> (r: Rat)
    requires
        b@ != 0 as real,
    ensures
        r@ == a@ / b@,
{
    let sa = if a.neg { Sign::Minus } else { Sign::Plus };
    let sb = if b.neg { Sign::Minus } else { Sign::Plus };
    let da = BigInt::from_slice(Sign::Plus, &a.den);
    let db = BigInt::from_slice(Sign::Plus, &b.den);
    let x = BigRational::new(BigInt::from_slice(sa, &a.num), da);
    let y = BigRational::new(BigInt::from_slice(sb, &b.num), db);
    let z = x / y;
    let (sign, num) = z.numer().to_u32_digits();
    Rat { neg: sign == Sign::Minus, num, den: z.denom().to_u32_digits().1 }
}

/// `num::BigRational`'s `==`: whether the two values are equal.
#[verifier::external_body]
fn rat_equal(a: &Rat, b: &Rat) -> (r: bool)
    ensures
        r == (a@ == b@),
{
    let sa = if a.neg { Sign::Minus } else { Sign::Plus };
    let sb = if b.neg { Sign::Minus } else { Sign::Plus };
    let da = BigInt::from_slice(Sign::Plus, &a.den);
    let db = BigInt::from_slice(Sign::Plus, &b.den);
    let x = BigRational::new(BigInt::from_slice(sa, &a.num), da);
    let y = BigRational::new(BigInt::from_slice(sb, &b.num), db);
    x == y
}

/// `num::BigRational`'s `<`: whether the first value is the smaller one.
#[verifier::external_body]
fn rat_below(a: &Rat, b: &Rat) -> (r: bool)
    ensures
        r == (a@ < b@),
{
    let sa = if a.neg { Sign::Minus } else { Sign::Plus };
    let sb = if b.neg { Sign::Minus } else { Sign::Plus };
    let da = BigInt::from_slice(Sign::Plus, &a.den);
    let db = BigInt::from_slice(Sign::Plus, &b.den);
    let x = BigRational::new(BigInt::from_slice(sa, &a.num), da);
    let y = BigRational::new(BigInt::from_slice(sb, &b.num), db);
    x < y
}

/// The quotient of what two texts spell, where the second is not zero.
pub open spec fn parsed_quotient(n: Option<int>, d: Option<int>) -> Option<real> {
    match (n, d) {
        (Some(n), Some(d)) if d != 0 => Some(n as real / d as real),
        _ => None,
    }
}

/// The rational that a text spells: an integer, or two with a slash between them.
pub open spec fn parsed_rat(text: Seq<char>) -> Option<real> {
    if text.contains('/') {
        let k = text.index_of_first('/').unwrap();
        parsed_quotient(parsed_int(text.take(k)), parsed_int(text.skip(k + 1)))
    } else {
        parsed_quotient(parsed_int(text), Some(1))
    }
}

pub open spec fn divides(k: int, n: int) -> bool {
    n % k == 0
}

/// A rational as a numerator and a positive denominator without a common divisor.
pub open spec fn lowest_terms(q: real, n: int, d: int) -> bool {
    &&& d > 0
    &&& q == n as real / d as real
    &&& forall|k: int| k > 1 && #[trigger] divides(k, n) ==> !divides(k, d)
}

/// The text of a rational in lowest terms: its numerator, and where it is no integer a
/// slash and its denominator.
pub open spec fn rat_text(q: real) -> Seq<char> {
    let (n, d) = choose|n: int, d: int| lowest_terms(q, n, d);
    if d == 1 {
        int_text(n)
    } else {
        int_text(n) + seq!['/'] + int_text(d)
    }
}

/// `num::BigRational`'s `FromStr`: the quotient of the integers that a text spells before
/// and after its first slash, or the one that it spells where it has none; it refuses every
/// other text, and a divisor that is zero.
#[verifier::external_body]
fn rat_parse(text: &str) -> (r: Option<Rat>)
    ensures
        r is Some == parsed_rat(text@) is Some,
        r matches Some(q) ==> parsed_rat(text@) == Some(q@),
{
    let z = text.parse::<BigRational>().ok()?;
    let (sign, num) = z.numer().to_u32_digits();
    let den = z.denom().to_u32_digits().1;
    Some(Rat { neg: sign == Sign::Minus, num, den })
}

/// `num::BigRational`'s `Display`: numerator and denominator in lowest terms with a slash
/// between them, the numerator alone where the denominator is one.
#[verifier::external_body]
fn rat_show(a: &Rat) -> (r: String)
    ensures
        r@ == rat_text(a@),
{
    let sa = if a.neg { Sign::Minus } else { Sign::Plus };
    let da = BigInt::from_slice(Sign::Plus, &a.den);
    format!("{}", BigRational::new(BigInt::from_slice(sa, &a.num), da))
}

impl Rat {
    /// The quotient of two integers.
    pub fn new(n: &Int, d: &Int) -> (r: Rat)
        requires
            d@ != 0,
        ensures
            r@ == (n@ as real) / (d@ as real),
    {
        rat_of(n, d)
    }

    /// The rational of the same value as an integer.
    pub fn from_int(n: &Int) -> (r: Rat)
        ensures
            r@ == n@ as real,
    {
        let one = int_of_i64(1);
        proof {
            let (x, y) = (n@ as real, one@ as real);
            assert(x / y == x) by (nonlinear_arith)
                requires
                    y == 1 as real,
            ;
        }
        rat_of(n, &one)
    }

    pub fn plus(&self, other: &Rat) -> (r: Rat)
        ensures
            r@ == self@ + other@,
    {
        rat_sum(self, other)
    }

    pub fn minus(&self, other: &Rat) -> (r: Rat)
        ensures
            r@ == self@ - other@,
    {
        rat_difference(self, other)
    }

    pub fn times(&self, other: &Rat) -> (r: Rat)
        ensures
            r@ == self@ * other@,
    {
        rat_product(self, other)
    }

    pub fn over(&self, other: &Rat) -> (r: Rat)
        requires
            other@ != 0 as real,
        ensures
            r@ == self@ / other@,
    {
        rat_quotient(self, other)
    }

    pub fn same(&self, other: &Rat) -> (r: bool)
        ensures
            r == (self@ == other@),
    {
        rat_equal(self, other)
    }

    pub fn less(&self, other: &Rat) -> (r: bool)
        ensures
            r == (self@ < other@),
    {
        rat_below(self, other)
    }

    /// The rational that a text denotes; `None` where it denotes none.
    pub fn parse(text: &str) -> (r: Option<Rat>)
        ensures
            r is Some == parsed_rat(text@) is Some,
            r matches Some(q) ==> parsed_rat(text@) == Some(q@),
    {
        rat_parse(text)
    }

    pub fn text(&self) -> (r: String)
        ensures
            r@ == rat_text(self@),
    {
        rat_show(self)
    }
}

} // verus!
