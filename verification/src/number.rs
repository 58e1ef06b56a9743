//! Numbers in two forms. A number of a tree is a decimal: a sign, an
//! integer mantissa and a power of ten. What a decimal becomes in a document
//! is decided on the double that its text is read as, and a double is given
//! here by its sixty-four bits: whether it has a fractional part and what
//! its integer part is are read from the bits with integer arithmetic.

use vstd::arithmetic::div_mod::lemma_fundamental_div_mod;
use vstd::arithmetic::div_mod::lemma_small_mod;
use vstd::arithmetic::div_mod::lemma_basic_div;
use vstd::prelude::*;

verus! {

/// A number of the value tree.
///
/// `Decimal` stands for `(-1)^negative * mantissa * 10^exponent`.
/// `NotANumber` is what arithmetic outside the tree may leave behind; its
/// text is read as the double that is no number.
#[derive(Clone, Copy, Debug, PartialEq, Eq, Structural)]
pub enum Number {
    NotANumber,
    Decimal { negative: bool, mantissa: u64, exponent: i16 },
}

/// `10^k`.
pub open spec fn pow10(k: nat) -> nat
    decreases k,
{
    if k == 0 {
        1
    } else {
        10 * pow10((k - 1) as nat)
    }
}

/// The integer `x` brought into the range of `i64`: values beyond either end
/// become that end.
pub open spec fn saturate(x: int) -> i64 {
    if x < i64::MIN {
        i64::MIN
    } else if x > i64::MAX {
        i64::MAX
    } else {
        x as i64
    }
}

/// The number with the parts in which the `json` crate keeps one: whether
/// it is none, whether it is positive, the mantissa and the exponent.
pub open spec fn number_of_parts(nan: bool, positive: bool, mantissa: u64, exponent: i16) -> Number {
    if nan {
        Number::NotANumber
    } else {
        Number::Decimal { negative: !positive, mantissa, exponent }
    }
}

/// The decimal without the zeros that end its mantissa below the decimal
/// point: `1.50` becomes `1.5`, and `40` stays `40`.
pub open spec fn trim(negative: bool, mantissa: u64, exponent: i16) -> Number
    decreases -(exponent as int),
{
    if exponent < 0 && mantissa % 10 == 0 {
        trim(negative, mantissa / 10, (exponent + 1) as i16)
    } else {
        Number::Decimal { negative, mantissa, exponent }
    }
}

impl Number {
    /// The number without the zeros that end its mantissa below the decimal
    /// point.
    pub open spec fn trimmed(self) -> Number {
        match self {
            Number::NotANumber => Number::NotANumber,
            Number::Decimal { negative, mantissa, exponent } => trim(negative, mantissa, exponent),
        }
    }

    /// Whether the number has a decimal value at all.
    pub open spec fn finite(self) -> bool {
        self is Decimal
    }

    /// Whether the value is not an integer.
    pub open spec fn has_fraction(self) -> bool {
        match self {
            Number::NotANumber => false,
            Number::Decimal { negative, mantissa, exponent } => exponent < 0 && mantissa as int
                % pow10((-exponent) as nat) as int != 0,
        }
    }

    /// The integer part of the absolute value.
    pub open spec fn magnitude(self) -> nat {
        match self {
            Number::NotANumber => 0,
            Number::Decimal { negative, mantissa, exponent } => if exponent >= 0 {
                mantissa as nat * pow10(exponent as nat)
            } else {
                (mantissa as int / pow10((-exponent) as nat) as int) as nat
            },
        }
    }

    /// The value with its fractional part cut off (rounding toward zero).
    pub open spec fn whole(self) -> int {
        match self {
            Number::NotANumber => 0,
            Number::Decimal { negative, mantissa, exponent } => if negative {
                -(self.magnitude() as int)
            } else {
                self.magnitude() as int
            },
        }
    }

    /// Whether the value is an integer that an `i64` holds.
    pub open spec fn integral(self) -> bool {
        &&& self.finite()
        &&& !self.has_fraction()
        &&& i64::MIN <= self.whole() <= i64::MAX
    }

    /// The mantissa with the sign applied.
    pub open spec fn signed_mantissa(self) -> int {
        match self {
            Number::NotANumber => 0,
            Number::Decimal { negative, mantissa, exponent } => if negative {
                -(mantissa as int)
            } else {
                mantissa as int
            },
        }
    }

    /// The power of ten.
    pub open spec fn scale(self) -> int {
        match self {
            Number::NotANumber => 0,
            Number::Decimal { negative, mantissa, exponent } => exponent as int,
        }
    }

    /// The value as a multiple of `10^low`, for a `low` that is at most the
    /// number's own power of ten.
    pub open spec fn scaled_to(self, low: int) -> int {
        self.signed_mantissa() * pow10((self.scale() - low) as nat) as int
    }

    /// Equality of values: `4 * 10^3` and `4000 * 10^0` are the same value,
    /// and so are zero and negative zero.
    pub open spec fn same_value(self, other: Number) -> bool {
        if self.finite() && other.finite() {
            let low = if self.scale() <= other.scale() {
                self.scale()
            } else {
                other.scale()
            };
            self.scaled_to(low) == other.scaled_to(low)
        } else {
            !self.finite() && !other.finite()
        }
    }

    /// The decimal for an integer: the integer's absolute value with
    /// exponent zero.
    pub open spec fn of_int(i: i64) -> Number {
        Number::Decimal {
            negative: i < 0,
            mantissa: (if i < 0 {
                -(i as int)
            } else {
                i as int
            }) as u64,
            exponent: 0,
        }
    }

    /// Builds the number with the given parts.
    pub fn from_parts(nan: bool, positive: bool, mantissa: u64, exponent: i16) -> (r: Number)
        ensures
            r == number_of_parts(nan, positive, mantissa, exponent),
    {
        if nan {
            Number::NotANumber
        } else {
            Number::Decimal { negative: !positive, mantissa, exponent }
        }
    }

    /// Builds the decimal for an integer.
    pub fn from_i64(i: i64) -> (r: Number)
        ensures
            r == Number::of_int(i),
    {
        let mantissa: u64 = if i == i64::MIN {
            0x8000_0000_0000_0000
        } else if i < 0 {
            (-i) as u64
        } else {
            i as u64
        };
        Number::Decimal { negative: i < 0, mantissa, exponent: 0 }
    }
}

/// The integer of magnitude `m` and the given sign, where an `i64` holds
/// it.
fn exact_signed(negative: bool, m: u128) -> (r: Option<i64>)
    ensures
        match r {
            Some(w) => w == (if negative {
                -(m as int)
            } else {
                m as int
            }),
            None => if negative {
                -(m as int) < i64::MIN
            } else {
                m as int > i64::MAX
            },
        },
{
    if negative {
        if m > 0x8000_0000_0000_0000 {
            None
        } else if m == 0x8000_0000_0000_0000 {
            Some(i64::MIN)
        } else {
            let low: i64 = m as i64;
            Some(-low)
        }
    } else if m > 0x7fff_ffff_ffff_ffff {
        None
    } else {
        Some(m as i64)
    }
}

/// `10^k` for a `k` whose power fits in sixty-four bits.
fn ten_to(k: u32) -> (p: u64)
    requires
        k <= 19,
    ensures
        p == pow10(k as nat),
        p >= 1,
{
    let mut p: u64 = 1;
    let mut i: u32 = 0;
    while i < k
        invariant
            i <= k <= 19,
            p == pow10(i as nat),
            p >= 1,
        decreases k - i,
    {
        proof {
            lemma_pow10_grows((i + 1) as nat, 19);
            lemma_pow10_values();
        }
        p = p * 10;
        i = i + 1;
    }
    p
}

/// The two powers of ten between which the machine integers end.
pub proof fn lemma_pow10_values()
    ensures
        pow10(18) == 1_000_000_000_000_000_000,
        pow10(19) == 10_000_000_000_000_000_000,
        pow10(20) == 100_000_000_000_000_000_000,
{
    reveal_with_fuel(pow10, 21);
}

/// The integer that a decimal is, where it is one that an `i64` holds.
pub fn decimal_integer(n: Number) -> (r: Option<i64>)
    ensures
        match r {
            Some(w) => n.integral() && w == n.whole(),
            None => !n.integral(),
        },
{
    match n {
        Number::NotANumber => None,
        Number::Decimal { negative, mantissa, exponent } => {
            if exponent < 0 {
                if exponent <= -20 {
                    proof {
                        lemma_pow10_grows(20, (-exponent) as nat);
                        lemma_pow10_values();
                        lemma_small_mod(mantissa as nat, pow10((-exponent) as nat));
                        lemma_basic_div(mantissa as int, pow10((-exponent) as nat) as int);
                    }
                    if mantissa == 0 {
                        Some(0)
                    } else {
                        None
                    }
                } else {
                    let p = ten_to((-exponent) as u32);
                    if mantissa % p != 0 {
                        None
                    } else {
                        exact_signed(negative, (mantissa / p) as u128)
                    }
                }
            } else if mantissa == 0 {
                assert(0 * pow10(exponent as nat) == 0);
                Some(0)
            } else if exponent >= 19 {
                proof {
                    lemma_pow10_grows(19, exponent as nat);
                    lemma_pow10_values();
                    let p = pow10(exponent as nat) as int;
                    assert(mantissa as int * p >= p) by (nonlinear_arith)
                        requires
                            mantissa >= 1,
                            p >= 0,
                    ;
                }
                None
            } else {
                let p = ten_to(exponent as u32);
                proof {
                    lemma_pow10_grows(exponent as nat, 18);
                    lemma_pow10_values();
                    assert(mantissa as int * p as int <= 0xffff_ffff_ffff_ffff
                        * 1_000_000_000_000_000_000) by (nonlinear_arith)
                        requires
                            0 <= mantissa <= 0xffff_ffff_ffff_ffff,
                            0 <= p <= 1_000_000_000_000_000_000,
                    ;
                }
                exact_signed(negative, mantissa as u128 * p as u128)
            }
        },
    }
}

/// The integer of magnitude `m` and the given sign, saturated to `i64`.
fn signed(negative: bool, m: u128) -> (r: i64)
    ensures
        r == saturate(
            if negative {
                -(m as int)
            } else {
                m as int
            },
        ),
{
    if negative {
        if m > 0x8000_0000_0000_0000 {
            i64::MIN
        } else if m == 0x8000_0000_0000_0000 {
            i64::MIN
        } else {
            let low: i64 = m as i64;
            -low
        }
    } else if m > 0x7fff_ffff_ffff_ffff {
        i64::MAX
    } else {
        m as i64
    }
}

/// An integer that an `i64` holds is, as a decimal again, the same value.
pub proof fn lemma_whole_same_value(n: Number)
    requires
        n.integral(),
    ensures
        Number::of_int(saturate(n.whole())).same_value(n),
{
    let back = Number::of_int(saturate(n.whole()));
    assert(back.signed_mantissa() == n.whole());
    assert(pow10(0) == 1);
    match n {
        Number::NotANumber => {},
        Number::Decimal { negative, mantissa, exponent } => {
            if exponent >= 0 {
                let p = pow10(exponent as nat) as int;
                assert(n.scaled_to(0) == n.signed_mantissa() * p);
                assert((-(mantissa as int)) * p == -(mantissa as int * p)) by (nonlinear_arith);
                assert(back.scaled_to(0) == n.whole() * 1);
            } else {
                let p = pow10((-exponent) as nat) as int;
                lemma_pow10_grows(0, (-exponent) as nat);
                lemma_fundamental_div_mod(mantissa as int, p);
                let q = mantissa as int / p;
                assert(mantissa as int == p * q);
                assert(n.scaled_to(exponent as int) == n.signed_mantissa() * 1);
                assert(back.scaled_to(exponent as int) == n.whole() * p);
                assert((-q) * p == -(p * q)) by (nonlinear_arith);
                assert(q * p == p * q) by (nonlinear_arith);
            }
        },
    }
}

/// Powers of ten are positive and grow with the exponent.
pub proof fn lemma_pow10_grows(a: nat, b: nat)
    requires
        a <= b,
    ensures
        1 <= pow10(a) <= pow10(b),
    decreases b,
{
    if b == 0 {
    } else if a == b {
        lemma_pow10_grows((a - 1) as nat, (b - 1) as nat);
    } else {
        lemma_pow10_grows(a, (b - 1) as nat);
    }
}

/// `2^k`.
pub open spec fn pow2(k: nat) -> nat
    decreases k,
{
    if k == 0 {
        1
    } else {
        2 * pow2((k - 1) as nat)
    }
}

/// Whether the sign bit of a double, given by its sixty-four bits, is set.
pub open spec fn double_negative(bits: u64) -> bool {
    bits >= 0x8000_0000_0000_0000
}

/// The eleven exponent bits of a double.
pub open spec fn double_exponent(bits: u64) -> int {
    (bits as int / 0x10_0000_0000_0000) % 2048
}

/// The fifty-two mantissa bits of a double.
pub open spec fn double_mantissa(bits: u64) -> int {
    bits as int % 0x10_0000_0000_0000
}

/// Whether a double is a number that is not infinite.
pub open spec fn double_finite(bits: u64) -> bool {
    double_exponent(bits) != 2047
}

/// The integer that a double multiplies by a power of two: the mantissa
/// bits, with the hidden bit in front of them unless the exponent bits are
/// zero.
pub open spec fn double_significand(bits: u64) -> int {
    if double_exponent(bits) == 0 {
        double_mantissa(bits)
    } else {
        0x10_0000_0000_0000 + double_mantissa(bits)
    }
}

/// The power of two by which a double multiplies its significand.
pub open spec fn double_shift(bits: u64) -> int {
    if double_exponent(bits) == 0 {
        -1074
    } else {
        double_exponent(bits) - 1075
    }
}

/// Whether the fractional part of a double is not zero. It is not zero
/// either for a double that is no number or is infinite, as the fractional
/// part of such a double is no number.
pub open spec fn double_has_fraction(bits: u64) -> bool {
    if !double_finite(bits) {
        true
    } else if double_shift(bits) >= 0 {
        false
    } else {
        double_significand(bits) % (pow2((-double_shift(bits)) as nat) as int) != 0
    }
}

/// The value of a double with its fractional part cut off.
pub open spec fn double_whole(bits: u64) -> int {
    let magnitude = if double_shift(bits) >= 0 {
        double_significand(bits) * pow2(double_shift(bits) as nat)
    } else {
        double_significand(bits) / (pow2((-double_shift(bits)) as nat) as int)
    };
    if double_negative(bits) {
        -magnitude
    } else {
        magnitude
    }
}

/// Powers of two are positive and grow with the exponent.
pub proof fn lemma_pow2_grows(a: nat, b: nat)
    requires
        a <= b,
    ensures
        1 <= pow2(a) <= pow2(b),
    decreases b,
{
    if b == 0 {
    } else if a == b {
        lemma_pow2_grows((a - 1) as nat, (b - 1) as nat);
    } else {
        lemma_pow2_grows(a, (b - 1) as nat);
    }
}

/// The powers of two at which the fields of a double and the machine
/// integers end.
pub proof fn lemma_pow2_values()
    ensures
        pow2(10) == 0x400,
        pow2(11) == 0x800,
        pow2(52) == 0x10_0000_0000_0000,
        pow2(53) == 0x20_0000_0000_0000,
        pow2(62) == 0x4000_0000_0000_0000,
{
    reveal_with_fuel(pow2, 12);
    assert(pow2(11) == 0x800);
    assert(pow2(22) == 0x40_0000) by {
        lemma_pow2_sum(11, 11);
    }
    assert(pow2(44) == 0x1000_0000_0000) by {
        lemma_pow2_sum(22, 22);
    }
    assert(pow2(8) == 0x100);
    assert(pow2(52) == 0x10_0000_0000_0000) by {
        lemma_pow2_sum(44, 8);
    }
    assert(pow2(53) == 0x20_0000_0000_0000) by {
        lemma_pow2_sum(52, 1);
    }
    assert(pow2(62) == 0x4000_0000_0000_0000) by {
        lemma_pow2_sum(52, 10);
    }
}

/// `2^(a+b)` is `2^a * 2^b`.
pub proof fn lemma_pow2_sum(a: nat, b: nat)
    ensures
        pow2(a + b) == pow2(a) * pow2(b),
    decreases b,
{
    if b == 0 {
        assert(pow2(a) * 1 == pow2(a));
    } else {
        lemma_pow2_sum(a, (b - 1) as nat);
        assert(pow2(a) * (2 * pow2((b - 1) as nat)) == 2 * (pow2(a) * pow2((b - 1) as nat)))
            by (nonlinear_arith);
    }
}

/// `2^k` for a `k` whose power fits in sixty-three bits.
fn two_to(k: u32) -> (p: u64)
    requires
        k <= 62,
    ensures
        p == pow2(k as nat),
        p >= 1,
{
    let mut p: u64 = 1;
    let mut i: u32 = 0;
    while i < k
        invariant
            i <= k <= 62,
            p == pow2(i as nat),
            p >= 1,
        decreases k - i,
    {
        proof {
            lemma_pow2_grows((i + 1) as nat, 62);
            lemma_pow2_values();
        }
        p = p * 2;
        i = i + 1;
    }
    p
}

/// Whether the fractional part of a double, given by its bits, is not zero.
pub fn double_is_fractional(bits: u64) -> (r: bool)
    ensures
        r == double_has_fraction(bits),
{
    let exponent: u64 = (bits / 0x10_0000_0000_0000) % 2048;
    let mantissa: u64 = bits % 0x10_0000_0000_0000;
    assert(exponent == double_exponent(bits));
    assert(mantissa == double_mantissa(bits));
    if exponent == 2047 {
        return true;
    }
    if exponent >= 1075 {
        return false;
    }
    let significand: u64 = if exponent == 0 {
        mantissa
    } else {
        0x10_0000_0000_0000 + mantissa
    };
    let k: u64 = if exponent == 0 {
        1074
    } else {
        1075 - exponent
    };
    assert(significand == double_significand(bits));
    assert(k == -double_shift(bits));
    if k >= 53 {
        proof {
            lemma_pow2_grows(53, k as nat);
            lemma_pow2_values();
            lemma_small_mod(significand as nat, pow2(k as nat));
        }
        significand != 0
    } else {
        let p = two_to(k as u32);
        significand % p != 0
    }
}

/// The integer that a double, given by its bits, is, where it is one that
/// an `i64` holds.
pub fn double_integer(bits: u64) -> (r: Option<i64>)
    ensures
        match r {
            Some(w) => !double_has_fraction(bits) && w == double_whole(bits),
            None => double_has_fraction(bits) || double_whole(bits) < i64::MIN || double_whole(bits)
                > i64::MAX,
        },
{
    if double_is_fractional(bits) {
        return None;
    }
    let exponent: u64 = (bits / 0x10_0000_0000_0000) % 2048;
    let mantissa: u64 = bits % 0x10_0000_0000_0000;
    let negative = bits >= 0x8000_0000_0000_0000;
    let significand: u64 = if exponent == 0 {
        mantissa
    } else {
        0x10_0000_0000_0000 + mantissa
    };
    if exponent >= 1075 {
        let shift: u64 = exponent - 1075;
        if shift >= 12 {
            proof {
                lemma_pow2_grows(12, shift as nat);
                lemma_pow2_values();
                lemma_pow2_sum(11, 1);
                let p = pow2(shift as nat) as int;
                assert(significand as int * p >= 0x10_0000_0000_0000 * 0x1000) by (nonlinear_arith)
                    requires
                        significand >= 0x10_0000_0000_0000,
                        p >= 0x1000,
                ;
            }
            None
        } else {
            let p = two_to(shift as u32);
            proof {
                lemma_pow2_grows(shift as nat, 11);
                lemma_pow2_values();
                assert(significand as int * p as int <= 0x20_0000_0000_0000 * 0x800)
                    by (nonlinear_arith)
                    requires
                        0 <= significand <= 0x20_0000_0000_0000,
                        0 <= p <= 0x800,
                ;
            }
            exact_signed(negative, significand as u128 * p as u128)
        }
    } else {
        let k: u64 = if exponent == 0 {
            1074
        } else {
            1075 - exponent
        };
        if k >= 53 {
            proof {
                lemma_pow2_grows(53, k as nat);
                lemma_pow2_values();
                lemma_basic_div(significand as int, pow2(k as nat) as int);
            }
            Some(0)
        } else {
            let p = two_to(k as u32);
            exact_signed(negative, (significand / p) as u128)
        }
    }
}

/// The value of a double, given by its bits, with its fractional part cut
/// off and saturated to the range of `i64`.
pub fn double_truncate(bits: u64) -> (r: i64)
    ensures
        r == saturate(double_whole(bits)),
{
    let exponent: u64 = (bits / 0x10_0000_0000_0000) % 2048;
    let mantissa: u64 = bits % 0x10_0000_0000_0000;
    let negative = bits >= 0x8000_0000_0000_0000;
    let significand: u64 = if exponent == 0 {
        mantissa
    } else {
        0x10_0000_0000_0000 + mantissa
    };
    if exponent >= 1075 {
        let shift: u64 = exponent - 1075;
        if shift >= 11 {
            proof {
                lemma_pow2_grows(11, shift as nat);
                lemma_pow2_values();
                let p = pow2(shift as nat) as int;
                assert(significand as int * p >= 0x10_0000_0000_0000 * 0x800) by (nonlinear_arith)
                    requires
                        significand >= 0x10_0000_0000_0000,
                        p >= 0x800,
                ;
            }
            if negative {
                i64::MIN
            } else {
                i64::MAX
            }
        } else {
            let p = two_to(shift as u32);
            proof {
                lemma_pow2_grows(shift as nat, 10);
                lemma_pow2_values();
                assert(significand as int * p as int <= 0x20_0000_0000_0000 * 0x400)
                    by (nonlinear_arith)
                    requires
                        0 <= significand <= 0x20_0000_0000_0000,
                        0 <= p <= 0x400,
                ;
            }
            signed(negative, (significand * p) as u128)
        }
    } else {
        let k: u64 = if exponent == 0 {
            1074
        } else {
            1075 - exponent
        };
        if k >= 53 {
            proof {
                lemma_pow2_grows(53, k as nat);
                lemma_pow2_values();
                lemma_basic_div(significand as int, pow2(k as nat) as int);
            }
            0
        } else {
            let p = two_to(k as u32);
            signed(negative, (significand / p) as u128)
        }
    }
}

} // verus!
