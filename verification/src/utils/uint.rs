//! Unsigned 256-bit integers.
//!
//! A [`U256`] is four 64-bit limbs; its view is the natural number they
//! spell. Sums, differences, products and quotients are computed by `ruint`,
//! the integer library behind `alloy_primitives::U256`, and each such call
//! stands behind a small function whose contract is believed, not proved.

use vstd::prelude::*;

verus! {


/// 2^256, the number of values a [`U256`] can take.
pub open spec fn modulus() -> nat {
    0x1_0000_0000_0000_0000_0000_0000_0000_0000_0000_0000_0000_0000_0000_0000_0000_0000nat
}

/// `a + b` reduced modulo 2^256.
pub open spec fn wrap_add(a: nat, b: nat) -> nat {
    (a + b) % modulus()
}

/// `a - b` reduced modulo 2^256.
pub open spec fn wrap_sub(a: nat, b: nat) -> nat {
    ((a + modulus() - b % modulus()) % (modulus() as int)) as nat
}

/// `a * b` reduced modulo 2^256.
pub open spec fn wrap_mul(a: nat, b: nat) -> nat {
    (a * b) % modulus()
}

/// The quotient `a / b` rounded up; 0 when `b` is 0.
pub open spec fn ceil_div(a: nat, b: nat) -> nat {
    if b == 0 {
        0
    } else if a % b == 0 {
        a / b
    } else {
        a / b + 1
    }
}

/// 2^128.
pub open spec fn pow2_128() -> nat {
    0x1_0000_0000_0000_0000_0000_0000_0000_0000nat
}

/// A product of two numbers below 2^128 fits in 256 bits.
pub proof fn lemma_product_fits(a: nat, b: nat)
    requires
        a < pow2_128(),
        b < pow2_128(),
    ensures
        a * b < modulus(),
        wrap_mul(a, b) == a * b,
{
    assert(a * b < modulus()) by (nonlinear_arith)
        requires
            a < 0x1_0000_0000_0000_0000_0000_0000_0000_0000nat,
            b < 0x1_0000_0000_0000_0000_0000_0000_0000_0000nat,
            modulus() == 0x1_0000_0000_0000_0000_0000_0000_0000_0000nat
                * 0x1_0000_0000_0000_0000_0000_0000_0000_0000nat,
    ;
}

/// The quotient rounded up, times the divisor, overshoots by less than the divisor.
pub proof fn lemma_ceil_bounds(a: nat, b: nat)
    requires
        b > 0,
    ensures
        a <= ceil_div(a, b) * b,
        ceil_div(a, b) * b < a + b,
        a / b <= ceil_div(a, b),
{
    assert(a == (a / b) * b + a % b && a % b < b && (a / b + 1) * b == (a / b) * b + b)
        by (nonlinear_arith)
        requires
            b > 0,
    ;
}

/// The quotient rounded down, times the divisor, falls short by less than the divisor.
pub proof fn lemma_floor_bounds(a: nat, b: nat)
    requires
        b > 0,
    ensures
        (a / b) * b <= a,
        a < (a / b) * b + b,
{
    assert(a == (a / b) * b + a % b && a % b < b) by (nonlinear_arith)
        requires
            b > 0,
    ;
}

/// A dividend of at most `c * b` gives a rounded-up quotient of at most `c`.
pub proof fn lemma_ceil_at_most(a: nat, b: nat, c: nat)
    requires
        b > 0,
        a <= c * b,
    ensures
        ceil_div(a, b) <= c,
{
    lemma_ceil_bounds(a, b);
    let q = ceil_div(a, b);
    assert(q <= c) by (nonlinear_arith)
        requires
            b > 0,
            q * b < a + b,
            a <= c * b,
    ;
}

/// A dividend of at least `c * b` gives a quotient of at least `c`.
pub proof fn lemma_ceil_at_least(a: nat, b: nat, c: nat)
    requires
        b > 0,
        c * b <= a,
    ensures
        c <= a / b,
        c <= ceil_div(a, b),
{
    lemma_floor_bounds(a, b);
    lemma_ceil_bounds(a, b);
    let q = a / b;
    assert(c <= q) by (nonlinear_arith)
        requires
            b > 0,
            a < q * b + b,
            c * b <= a,
    ;
}

/// An unsigned 256-bit integer, most significant limb first.
#[derive(Clone, Copy, Debug, PartialEq, Eq, Structural, PartialOrd, Ord, Hash)]
pub struct U256 {
    pub w3: u64,
    pub w2: u64,
    pub w1: u64,
    pub w0: u64,
}

impl View for U256 {
    type V = nat;

    open spec fn view(&self) -> nat {
        (self.w0 as nat) + (self.w1 as nat) * 0x1_0000_0000_0000_0000 + (self.w2 as nat)
            * 0x1_0000_0000_0000_0000_0000_0000_0000_0000nat + (self.w3 as nat)
            * 0x1_0000_0000_0000_0000_0000_0000_0000_0000_0000_0000_0000_0000nat
    }
}

/// Every [`U256`] is below 2^256.
pub proof fn lemma_view_bound(a: U256)
    ensures
        a@ < modulus(),
{
}

/// Two [`U256`] with one view are equal.
pub proof fn lemma_view_injective(a: U256, b: U256)
    requires
        a@ == b@,
    ensures
        a == b,
{
    let la = (a.w0 as nat) + (a.w1 as nat) * 0x1_0000_0000_0000_0000 + (a.w2 as nat)
        * 0x1_0000_0000_0000_0000_0000_0000_0000_0000nat;
    let lb = (b.w0 as nat) + (b.w1 as nat) * 0x1_0000_0000_0000_0000 + (b.w2 as nat)
        * 0x1_0000_0000_0000_0000_0000_0000_0000_0000nat;
    assert(la < 0x1_0000_0000_0000_0000_0000_0000_0000_0000_0000_0000_0000_0000nat);
    assert(lb < 0x1_0000_0000_0000_0000_0000_0000_0000_0000_0000_0000_0000_0000nat);
    assert(a.w3 == b.w3);
    assert(la == lb);
    let ma = (a.w0 as nat) + (a.w1 as nat) * 0x1_0000_0000_0000_0000;
    let mb = (b.w0 as nat) + (b.w1 as nat) * 0x1_0000_0000_0000_0000;
    assert(ma < 0x1_0000_0000_0000_0000_0000_0000_0000_0000nat);
    assert(mb < 0x1_0000_0000_0000_0000_0000_0000_0000_0000nat);
    assert(a.w2 == b.w2);
    assert(ma == mb);
    assert(a.w1 == b.w1);
}

/// The order of two [`U256`] is that of their limbs, the most significant
/// limb first.
pub proof fn lemma_order_by_limbs(a: U256, b: U256)
    ensures
        a@ < b@ <==> (a.w3 < b.w3 || (a.w3 == b.w3 && (a.w2 < b.w2 || (a.w2 == b.w2 && (a.w1 < b.w1
            || (a.w1 == b.w1 && a.w0 < b.w0)))))),
{
    let a1 = (a.w0 as nat) + (a.w1 as nat) * 0x1_0000_0000_0000_0000;
    let b1 = (b.w0 as nat) + (b.w1 as nat) * 0x1_0000_0000_0000_0000;
    assert(a1 < 0x1_0000_0000_0000_0000_0000_0000_0000_0000nat);
    assert(b1 < 0x1_0000_0000_0000_0000_0000_0000_0000_0000nat);
    assert(a1 < b1 <==> (a.w1 < b.w1 || (a.w1 == b.w1 && a.w0 < b.w0)));
    let a2 = a1 + (a.w2 as nat) * 0x1_0000_0000_0000_0000_0000_0000_0000_0000nat;
    let b2 = b1 + (b.w2 as nat) * 0x1_0000_0000_0000_0000_0000_0000_0000_0000nat;
    assert(a2 < 0x1_0000_0000_0000_0000_0000_0000_0000_0000_0000_0000_0000_0000nat);
    assert(b2 < 0x1_0000_0000_0000_0000_0000_0000_0000_0000_0000_0000_0000_0000nat);
    assert(a2 < b2 <==> (a.w2 < b.w2 || (a.w2 == b.w2 && a1 < b1)));
    assert(a@ == a2 + (a.w3 as nat)
        * 0x1_0000_0000_0000_0000_0000_0000_0000_0000_0000_0000_0000_0000nat);
    assert(b@ == b2 + (b.w3 as nat)
        * 0x1_0000_0000_0000_0000_0000_0000_0000_0000_0000_0000_0000_0000nat);
    assert(a@ < b@ <==> (a.w3 < b.w3 || (a.w3 == b.w3 && a2 < b2)));
}

/// The character of one decimal digit.
pub open spec fn digit_char(d: nat) -> char {
    if d == 0 {
        '0'
    } else if d == 1 {
        '1'
    } else if d == 2 {
        '2'
    } else if d == 3 {
        '3'
    } else if d == 4 {
        '4'
    } else if d == 5 {
        '5'
    } else if d == 6 {
        '6'
    } else if d == 7 {
        '7'
    } else if d == 8 {
        '8'
    } else {
        '9'
    }
}

/// The decimal numeral of `n`, without leading zeros; "0" for zero.
pub open spec fn decimal_text(n: nat) -> Seq<char>
    decreases n,
{
    if n < 10 {
        seq![digit_char(n)]
    } else {
        decimal_text(n / 10).push(digit_char(n % 10))
    }
}

/// The last `digits` decimal digits of `n`, zeros included.
pub open spec fn digit_chars(n: nat, digits: nat) -> Seq<char>
    decreases digits,
{
    if digits == 0 {
        Seq::empty()
    } else {
        digit_chars(n / 10, (digits - 1) as nat).push(digit_char(n % 10))
    }
}

/// `ruint::Uint::wrapping_add` on 256 bits: the sum modulo 2^256.
#[verifier::external_body]
fn ruint_wrapping_add(a: U256, b: U256) -> (r: U256)
    ensures
        r@ == wrap_add(a@, b@),
{
    let x = alloy_primitives::U256::from_limbs([a.w0, a.w1, a.w2, a.w3]);
    let y = alloy_primitives::U256::from_limbs([b.w0, b.w1, b.w2, b.w3]);
    let l = x.wrapping_add(y).into_limbs();
    U256 { w3: l[3], w2: l[2], w1: l[1], w0: l[0] }
}

/// `ruint::Uint::wrapping_sub` on 256 bits: the difference modulo 2^256.
#[verifier::external_body]
fn ruint_wrapping_sub(a: U256, b: U256) -> (r: U256)
    ensures
        r@ == wrap_sub(a@, b@),
{
    let x = alloy_primitives::U256::from_limbs([a.w0, a.w1, a.w2, a.w3]);
    let y = alloy_primitives::U256::from_limbs([b.w0, b.w1, b.w2, b.w3]);
    let l = x.wrapping_sub(y).into_limbs();
    U256 { w3: l[3], w2: l[2], w1: l[1], w0: l[0] }
}

/// `ruint::Uint::wrapping_mul` on 256 bits: the product modulo 2^256.
#[verifier::external_body]
fn ruint_wrapping_mul(a: U256, b: U256) -> (r: U256)
    ensures
        r@ == wrap_mul(a@, b@),
{
    let x = alloy_primitives::U256::from_limbs([a.w0, a.w1, a.w2, a.w3]);
    let y = alloy_primitives::U256::from_limbs([b.w0, b.w1, b.w2, b.w3]);
    let l = x.wrapping_mul(y).into_limbs();
    U256 { w3: l[3], w2: l[2], w1: l[1], w0: l[0] }
}

/// `ruint::Uint::div_rem` on 256 bits: quotient and remainder of the division
/// rounded down. The outside function panics on a zero divisor, which the
/// precondition leaves out.
#[verifier::external_body]
fn ruint_div_rem(a: U256, b: U256) -> (r: (U256, U256))
    requires
        b@ != 0,
    ensures
        r.0@ == a@ / b@,
        r.1@ == a@ % b@,
{
    let x = alloy_primitives::U256::from_limbs([a.w0, a.w1, a.w2, a.w3]);
    let y = alloy_primitives::U256::from_limbs([b.w0, b.w1, b.w2, b.w3]);
    let (q, m) = x.div_rem(y);
    let (l, k) = (q.into_limbs(), m.into_limbs());
    (U256 { w3: l[3], w2: l[2], w1: l[1], w0: l[0] }, U256 { w3: k[3], w2: k[2], w1: k[1], w0: k[0] })
}

/// The `Display` form of `ruint::Uint`, which is the decimal numeral.
#[verifier::external_body]
fn ruint_to_string(a: U256) -> (r: String)
    ensures
        r@ == decimal_text(a@),
{
    alloy_primitives::U256::from_limbs([a.w0, a.w1, a.w2, a.w3]).to_string()
}

/// The number that a text stands for as a 256-bit integer: a decimal
/// numeral, or a hexadecimal, octal or binary one behind `0x`, `0o` or `0b`,
/// the letter of the prefix in either case, with `_` allowed between the
/// digits; none where the text is no such numeral or the number does not fit.
pub uninterp spec fn parsed_number(text: Seq<char>) -> Option<nat>;

/// `ruint::Uint::from_str` on 256 bits.
#[verifier::external_body]
fn ruint_from_str(text: &str) -> (r: Option<U256>)
    ensures
        r is Some == parsed_number(text@) is Some,
        r is Some ==> r->0@ == parsed_number(text@)->0,
{
    match text.parse::<alloy_primitives::U256>() {
        Ok(n) => {
            let l = n.into_limbs();
            Some(U256 { w3: l[3], w2: l[2], w1: l[1], w0: l[0] })
        },
        Err(_) => None,
    }
}

impl U256 {
    /// The number that `text` stands for, see [`parsed_number`].
    pub fn parse(text: &str) -> (r: Option<U256>)
        ensures
            r is Some == parsed_number(text@) is Some,
            r is Some ==> r->0@ == parsed_number(text@)->0,
    {
        ruint_from_str(text)
    }

    /// The number 0.
    pub fn zero() -> (r: U256)
        ensures
            r@ == 0,
    {
        U256 { w3: 0, w2: 0, w1: 0, w0: 0 }
    }

    /// The number 1.
    pub fn one() -> (r: U256)
        ensures
            r@ == 1,
    {
        U256 { w3: 0, w2: 0, w1: 0, w0: 1 }
    }

    /// The 256-bit integer with the value of `x`.
    pub fn from_u64(x: u64) -> (r: U256)
        ensures
            r@ == x,
    {
        U256 { w3: 0, w2: 0, w1: 0, w0: x }
    }

    /// The 256-bit integer with the value of `x`.
    pub fn from_u128(x: u128) -> (r: U256)
        ensures
            r@ == x,
    {
        let lo: u64 = (x & 0xffff_ffff_ffff_ffff) as u64;
        let hi: u64 = (x >> 64) as u64;
        assert(x == (x & 0xffff_ffff_ffff_ffff) + (x >> 64) * 0x1_0000_0000_0000_0000) by (bit_vector);
        assert((x & 0xffff_ffff_ffff_ffff) <= 0xffff_ffff_ffff_ffff) by (bit_vector);
        assert((x >> 64) <= 0xffff_ffff_ffff_ffff) by (bit_vector);
        U256 { w3: 0, w2: 0, w1: hi, w0: lo }
    }

    /// Whether the number is 0.
    pub fn is_zero(&self) -> (r: bool)
        ensures
            r == (self@ == 0),
    {
        self.w0 == 0 && self.w1 == 0 && self.w2 == 0 && self.w3 == 0
    }

    /// Whether `self` is less than `other`.
    pub fn lt(&self, other: &U256) -> (r: bool)
        ensures
            r == (self@ < other@),
    {
        proof {
            lemma_order_by_limbs(*self, *other);
        }
        if self.w3 != other.w3 {
            self.w3 < other.w3
        } else if self.w2 != other.w2 {
            self.w2 < other.w2
        } else if self.w1 != other.w1 {
            self.w1 < other.w1
        } else {
            self.w0 < other.w0
        }
    }

    /// Whether `self` is at most `other`.
    pub fn le(&self, other: &U256) -> (r: bool)
        ensures
            r == (self@ <= other@),
    {
        !other.lt(self)
    }

    /// Whether `self` and `other` are the same number.
    pub fn same(&self, other: &U256) -> (r: bool)
        ensures
            r == (self@ == other@),
            r == (*self == *other),
    {
        proof {
            if self@ == other@ {
                lemma_view_injective(*self, *other);
            }
        }
        self.w0 == other.w0 && self.w1 == other.w1 && self.w2 == other.w2 && self.w3 == other.w3
    }

    /// The sum modulo 2^256.
    pub fn wrapping_add(self, rhs: U256) -> (r: U256)
        ensures
            r@ == wrap_add(self@, rhs@),
            self@ + rhs@ < modulus() ==> r@ == self@ + rhs@,
    {
        ruint_wrapping_add(self, rhs)
    }

    /// The difference modulo 2^256.
    pub fn wrapping_sub(self, rhs: U256) -> (r: U256)
        ensures
            r@ == wrap_sub(self@, rhs@),
            rhs@ <= self@ ==> r@ == self@ - rhs@,
    {
        proof {
            lemma_view_bound(self);
            lemma_view_bound(rhs);
        }
        ruint_wrapping_sub(self, rhs)
    }

    /// The product modulo 2^256.
    pub fn wrapping_mul(self, rhs: U256) -> (r: U256)
        ensures
            r@ == wrap_mul(self@, rhs@),
    {
        ruint_wrapping_mul(self, rhs)
    }

    /// The quotient rounded down, or `None` for a zero divisor.
    pub fn checked_div(self, rhs: U256) -> (r: Option<U256>)
        ensures
            rhs@ == 0 ==> r is None,
            rhs@ != 0 ==> r is Some && r->0@ == self@ / rhs@,
    {
        if rhs.is_zero() {
            None
        } else {
            Some(ruint_div_rem(self, rhs).0)
        }
    }

    /// The quotient rounded down.
    pub fn div(self, rhs: U256) -> (r: U256)
        requires
            rhs@ != 0,
        ensures
            r@ == self@ / rhs@,
    {
        ruint_div_rem(self, rhs).0
    }

    /// The remainder of the division.
    pub fn rem(self, rhs: U256) -> (r: U256)
        requires
            rhs@ != 0,
        ensures
            r@ == self@ % rhs@,
    {
        ruint_div_rem(self, rhs).1
    }

    /// The quotient rounded up.
    pub fn div_ceil(self, rhs: U256) -> (r: U256)
        requires
            rhs@ != 0,
        ensures
            r@ == ceil_div(self@, rhs@),
    {
        let (q, m) = ruint_div_rem(self, rhs);
        if m.is_zero() {
            q
        } else {
            proof {
                lemma_view_bound(self);
                assert(self@ / rhs@ < modulus() - 1) by (nonlinear_arith)
                    requires
                        self@ < modulus(),
                        rhs@ != 0,
                        self@ % rhs@ != 0,
                {
                    if rhs@ == 1 {
                        assert(self@ % 1 == 0);
                    } else {
                        assert(self@ / rhs@ <= self@ / 2);
                    }
                }
            }
            ruint_wrapping_add(q, U256::one())
        }
    }

    /// The number as a `u64`, or `cap` where it is above `cap`.
    pub fn to_u64_capped(&self, cap: u64) -> (r: u64)
        ensures
            r == if self@ > cap {
                cap as nat
            } else {
                self@
            },
    {
        if self.w3 != 0 || self.w2 != 0 || self.w1 != 0 || self.w0 > cap {
            cap
        } else {
            self.w0
        }
    }

    /// The last `digits` decimal digits of the number, zeros included.
    pub fn to_padded_string(&self, digits: usize) -> (r: String)
        ensures
            r@ == digit_chars(self@, digits as nat),
    {
        let ten = U256::from_u64(10);
        let mut text = String::new();
        let mut rest = *self;
        let mut left: usize = digits;
        proof {
            assert(text@ + digit_chars(rest@, 0) =~= text@);
        }
        // The digits are produced from the last to the first, each in front
        // of those already there.
        while left > 0
            invariant
                ten@ == 10,
                digit_chars(self@, digits as nat) == digit_chars(rest@, left as nat) + text@,
            decreases left,
        {
            let digit = rest.rem(ten);
            let one = digit.to_decimal_string();
            proof {
                reveal_with_fuel(decimal_text, 1);
                assert(one@ =~= seq![digit_char(digit@)]);
                assert(digit_chars(rest@, left as nat) + text@ =~= digit_chars(
                    rest@ / 10,
                    (left - 1) as nat,
                ) + (one@ + text@));
            }
            text = crate::utils::text::text_concat(one, text.as_str());
            rest = rest.div(ten);
            left = left - 1;
        }
        proof {
            assert(digit_chars(rest@, 0) + text@ =~= text@);
        }
        text
    }

    /// The decimal numeral of the number.
    pub fn to_decimal_string(&self) -> (r: String)
        ensures
            r@ == decimal_text(self@),
    {
        ruint_to_string(*self)
    }
}

} // verus!
