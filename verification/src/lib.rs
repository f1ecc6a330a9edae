//! Numbers in engineering notation: a significand paired with a power-of-1000
//! exponent, convertible to and from integers, strings (SI prefix or RKM
//! form), and exact rationals.

pub mod arith;
pub mod digits;
pub mod laws;
pub mod rational;
pub mod string;
pub mod support;

pub use crate::string::{DisplayAdapter, EngineeringRepr};
pub use crate::support::EQSupported;

use vstd::prelude::*;

use crate::arith::{lemma_mul_pos, lemma_pow1000_13, pow1000, pow1000_checked, trunc_div_by};
use vstd::arithmetic::mul::{lemma_mul_is_commutative, lemma_mul_unary_negation};
use vstd::math::abs;

verus! {

/// Errors returned by failing conversions.
#[derive(Clone, Copy, Debug, PartialEq, Eq, Structural)]
pub enum Error {
    /// A value does not fit the chosen storage type.
    Overflow,
    /// A negative exponent's scaling factor exceeds the storage type's range.
    Underflow,
    /// The input text does not match the grammar or its digits do not fit.
    ParseError,
    /// A conversion could not be completed exactly.
    ImpreciseConversion,
}

/// A number in engineering notation: `significand * 1000^exponent`.
///
/// The type parameter `T` is the storage type for the significand.
#[derive(Debug, Copy)]
pub struct EngineeringQuantity<T: EQSupported> {
    /// Significant digits.
    significand: T,
    /// Engineering exponent, i.e. powers of 1000.
    exponent: i8,
}

/// The construction invariant for a storage type with bounds `lo..=hi`: for
/// a non-negative exponent both the scaling factor `1000^e` and the scaled
/// significand must fit; a negative exponent only requires its scaling
/// factor `1000^|e|` to fit.
pub open spec fn raw_ok(s: int, e: int, lo: int, hi: int) -> bool {
    if e >= 0 {
        &&& pow1000(e as nat) <= hi
        &&& lo <= s * pow1000(e as nat) <= hi
    } else {
        pow1000((-e) as nat) <= hi
    }
}

/// The error reported when `raw_ok` fails: a negative exponent fails only
/// through its scaling factor, which is `Underflow`; a non-negative one is
/// always `Overflow`.
pub open spec fn raw_err(s: int, e: int, lo: int, hi: int) -> Error {
    if e < 0 {
        Error::Underflow
    } else {
        Error::Overflow
    }
}

/// The value `significand * 1000^exponent` with the exponent applied toward
/// zero: scaled up for a non-negative exponent, divided with truncation
/// toward zero for a negative one.
pub open spec fn value_trunc(s: int, e: int) -> int {
    if e >= 0 {
        s * pow1000(e as nat)
    } else {
        trunc_div_by(s, pow1000((-e) as nat))
    }
}

impl<T: EQSupported> EngineeringQuantity<T> {
    /// The significand, as a mathematical integer.
    pub closed spec fn sig(self) -> int {
        self.significand.as_int()
    }

    /// The exponent, as a mathematical integer.
    pub closed spec fn exp(self) -> int {
        self.exponent as int
    }

    /// The construction invariant, instantiated at the storage type's
    /// bounds; see [`raw_ok`].
    pub open spec fn valid_raw(s: int, e: int) -> bool {
        raw_ok(s, e, T::min_spec(), T::max_spec())
    }

    #[verifier::type_invariant]
    spec fn wf(self) -> bool {
        Self::valid_raw(self.sig(), self.exp())
    }

    /// The error reported when the construction invariant fails:
    /// `Underflow` for a negative exponent (only its scaling factor can
    /// fail), `Overflow` otherwise.
    pub open spec fn from_raw_error(s: int, e: int) -> Error {
        raw_err(s, e, T::min_spec(), T::max_spec())
    }

    /// Raw constructor from component parts.
    ///
    /// For a non-negative exponent, construction fails with `Overflow` when
    /// the scaling factor or the scaled significand would overflow the
    /// storage type `T`; for a negative exponent it fails with `Underflow`
    /// exactly when the scaling factor `1000^|exponent|` does not fit `T`.
    pub fn from_raw(significand: T, exponent: i8) -> (r: Result<Self, Error>)
        ensures
            r is Ok <==> Self::valid_raw(significand.as_int(), exponent as int),
            match r {
                Ok(q) => q.sig() == significand.as_int() && q.exp() == exponent as int,
                Err(e) => e == Self::from_raw_error(significand.as_int(), exponent as int),
            },
    {
        proof {
            T::lemma_type_bounds();
            significand.lemma_in_range();
        }
        let (a, neg) = significand.abs_sign();
        let e_abs: u32 = if exponent < 0 {
            (-(exponent as i32)) as u32
        } else {
            exponent as u32
        };
        let max = T::exec_max();
        match pow1000_checked(e_abs, max) {
            None => Err(
                if exponent < 0 {
                    Error::Underflow
                } else {
                    Error::Overflow
                },
            ),
            Some(factor) => {
                if exponent < 0 {
                    // only the scaling factor need be representable
                    return Ok(Self { significand, exponent });
                }
                let bound = if neg {
                    T::exec_min_abs()
                } else {
                    max
                };
                let ghost s = significand.as_int();
                let ghost p = pow1000(abs(exponent as int));
                proof {
                    if neg {
                        lemma_mul_unary_negation(a as int, p);
                        lemma_mul_is_commutative(-(a as int), p);
                        lemma_mul_is_commutative(s, p);
                    }
                    if a > 0 {
                        crate::arith::lemma_pow_ge_one(abs(exponent as int) as nat);
                        lemma_mul_pos(a as int, p);
                    }
                }
                match a.checked_mul(factor) {
                    Some(prod) => {
                        if prod <= bound {
                            Ok(Self { significand, exponent })
                        } else {
                            Err(Error::Overflow)
                        }
                    },
                    None => Err(Error::Overflow),
                }
            },
        }
    }

    /// Raw accessor to retrieve the component parts.
    pub fn to_raw(self) -> (r: (T, i8))
        ensures
            r.0.as_int() == self.sig(),
            r.1 as int == self.exp(),
            Self::valid_raw(self.sig(), self.exp()),
    {
        proof {
            use_type_invariant(self);
        }
        (self.significand, self.exponent)
    }
}

/// The normal form of `(s, e)`: the pair with the smallest significand that
/// denotes the same value, reached by dividing out factors of 1000.
pub open spec fn normal_form(s: int, e: int) -> (int, int)
    decreases abs(s),
    via normal_form_decreases
{
    if s != 0 && s % 1000 == 0 {
        normal_form(s / 1000, e + 1)
    } else {
        (s, e)
    }
}

#[via_fn]
proof fn normal_form_decreases(s: int, e: int) {
    if s != 0 && s % 1000 == 0 {
        vstd::arithmetic::div_mod::lemma_fundamental_div_mod(s, 1000);
    }
}

/// `1000^(e1 - base)`-scaled significand: the common-denominator integer
/// used to compare and equate quantities of different exponents.
pub open spec fn scaled(s: int, e: int, base: int) -> int {
    s * pow1000((e - base) as nat)
}

/// The order of the values `s1 * 1000^e1` and `s2 * 1000^e2`, determined by
/// rescaling both to the smaller exponent.
pub open spec fn value_order(s1: int, e1: int, s2: int, e2: int) -> core::cmp::Ordering {
    let base = vstd::math::min(e1, e2);
    let v1 = scaled(s1, e1, base);
    let v2 = scaled(s2, e2, base);
    if v1 < v2 {
        core::cmp::Ordering::Less
    } else if v1 == v2 {
        core::cmp::Ordering::Equal
    } else {
        core::cmp::Ordering::Greater
    }
}

impl<T: EQSupported> EngineeringQuantity<T> {
    /// Scales the number to remove any groups of three trailing zeroes,
    /// leaving the smallest equivalent significand.
    pub fn normalise(self) -> (r: Self)
        ensures
            r.sig() == normal_form(self.sig(), self.exp()).0,
            r.exp() == normal_form(self.sig(), self.exp()).1,
    {
        proof {
            use_type_invariant(self);
            T::lemma_type_bounds();
            lemma_pow1000_13();
        }
        let (a0, neg) = self.significand.abs_sign();
        let mut a: u128 = a0;
        let mut e: i8 = self.exponent;
        while a != 0 && a % 1000 == 0
            invariant
                a <= a0,
                neg ==> a > 0,
                a0 == abs(self.sig()),
                neg == (self.sig() < 0),
                normal_form(sign_val(a, neg), e as int) == normal_form(self.sig(), self.exp()),
                Self::valid_raw(sign_val(a, neg), e as int),
            decreases a,
        {
            let ghost s_now = sign_val(a, neg);
            let ghost p = pow1000(abs(e as int));
            let q = a / 1000;
            proof {
                self.significand.lemma_in_range();
                T::lemma_type_bounds();
                lemma_normalise_step::<T>(a as int, neg, e as int);
                lemma_pow1000_13();
            }
            a = q;
            e = e + 1;
        }
        let sig = match T::from_abs_sign(a, neg) {
            Some(s) => s,
            None => {
                proof {
                    use_type_invariant(self);
                    self.significand.lemma_in_range();
                }
                vstd::pervasive::unreached()
            },
        };
        Self { significand: sig, exponent: e }
    }
}

impl<T: EQSupported> EngineeringQuantity<T> {
    /// Compares two quantities by value: the one with the smaller exponent
    /// sets the common scale, and the other's significand is widened and
    /// rescaled to it, so the comparison is total on all valid quantities.
    pub fn cmp(&self, other: &Self) -> (r: core::cmp::Ordering)
        ensures
            r == value_order(self.sig(), self.exp(), other.sig(), other.exp()),
    {
        let (a1, n1) = self.significand.abs_sign();
        let (a2, n2) = other.significand.abs_sign();
        let e1 = self.exponent;
        let e2 = other.exponent;
        let ghost base = vstd::math::min(e1 as int, e2 as int);
        let ghost p1 = pow1000((e1 as int - base) as nat);
        let ghost p2 = pow1000((e2 as int - base) as nat);
        let ghost v1 = scaled(self.sig(), e1 as int, base);
        let ghost v2 = scaled(other.sig(), e2 as int, base);
        proof {
            crate::arith::lemma_pow_ge_one((e1 as int - base) as nat);
            crate::arith::lemma_pow_ge_one((e2 as int - base) as nat);
            vstd::arithmetic::mul::lemma_mul_by_zero_is_zero(p1);
            vstd::arithmetic::mul::lemma_mul_by_zero_is_zero(p2);
            if n1 {
                lemma_mul_unary_negation(a1 as int, p1);
            }
            if n2 {
                lemma_mul_unary_negation(a2 as int, p2);
            }
            if a1 > 0 {
                lemma_mul_pos(a1 as int, p1);
            }
            if a2 > 0 {
                lemma_mul_pos(a2 as int, p2);
            }
        }
        if a1 == 0 && a2 == 0 {
            proof {
                assert(v1 == 0);
                assert(v2 == 0);
            }
            core::cmp::Ordering::Equal
        } else if a1 == 0 {
            proof {
                assert(v1 == 0);
                if n2 {
                    assert(v2 < 0);
                } else {
                    assert(v2 > 0);
                }
            }
            if n2 {
                core::cmp::Ordering::Greater
            } else {
                core::cmp::Ordering::Less
            }
        } else if a2 == 0 {
            proof {
                assert(v2 == 0);
                if n1 {
                    assert(v1 < 0);
                } else {
                    assert(v1 > 0);
                }
            }
            if n1 {
                core::cmp::Ordering::Less
            } else {
                core::cmp::Ordering::Greater
            }
        } else if n1 && !n2 {
            proof {
                assert(v1 < 0);
                assert(v2 > 0);
            }
            core::cmp::Ordering::Less
        } else if !n1 && n2 {
            proof {
                assert(v1 > 0);
                assert(v2 < 0);
            }
            core::cmp::Ordering::Greater
        } else {
            let (d1, d2): (u32, u32) = if e1 >= e2 {
                ((e1 as i32 - e2 as i32) as u32, 0u32)
            } else {
                (0u32, (e2 as i32 - e1 as i32) as u32)
            };
            let m1 = crate::arith::scale_mag(a1, d1);
            let m2 = crate::arith::scale_mag(a2, d2);
            proof {
                vstd::arithmetic::power::lemma_pow0(1000);
            }
            proof {
                if e1 >= e2 {
                    assert(base == e2 as int);
                    assert(pow1000(d1 as nat) == p1);
                    assert(pow1000(d2 as nat) == p2);
                } else {
                    assert(base == e1 as int);
                    assert(pow1000(d1 as nat) == p1);
                    assert(pow1000(d2 as nat) == p2);
                }
            }
            let mag = match (m1, m2) {
                (Some(x), Some(y)) => {
                    proof {
                        assert(x == a1 * p1);
                        assert(y == a2 * p2);
                    }
                    if x < y {
                        core::cmp::Ordering::Less
                    } else if x == y {
                        core::cmp::Ordering::Equal
                    } else {
                        core::cmp::Ordering::Greater
                    }
                },
                (None, Some(_)) => core::cmp::Ordering::Greater,
                (Some(_), None) => core::cmp::Ordering::Less,
                (None, None) => {
                    proof {
                        // one of the two sides is not rescaled at all, so it
                        // cannot have overflowed
                        vstd::arithmetic::mul::lemma_mul_basics(a1 as int);
                        vstd::arithmetic::mul::lemma_mul_basics(a2 as int);
                        if e1 >= e2 {
                            assert(pow1000(d2 as nat) == 1);
                            assert(a2 * pow1000(d2 as nat) == a2);
                        } else {
                            assert(pow1000(d1 as nat) == 1);
                            assert(a1 * pow1000(d1 as nat) == a1);
                        }
                        assert(false);
                    }
                    core::cmp::Ordering::Equal
                },
            };
            if n1 {
                match mag {
                    core::cmp::Ordering::Less => core::cmp::Ordering::Greater,
                    core::cmp::Ordering::Equal => core::cmp::Ordering::Equal,
                    core::cmp::Ordering::Greater => core::cmp::Ordering::Less,
                }
            } else {
                mag
            }
        }
    }

    /// Conversion to a different storage type that can hold every value of
    /// this one.
    pub fn convert<U: EQSupported>(&self) -> (r: EngineeringQuantity<U>)
        requires
            U::min_spec() <= T::min_spec(),
            T::max_spec() <= U::max_spec(),
        ensures
            r.sig() == self.sig(),
            r.exp() == self.exp(),
    {
        proof {
            use_type_invariant(*self);
            T::lemma_type_bounds();
            U::lemma_type_bounds();
            self.significand.lemma_in_range();
        }
        let (a, neg) = self.significand.abs_sign();
        let sig = match U::from_abs_sign(a, neg) {
            Some(s) => s,
            None => vstd::pervasive::unreached(),
        };
        EngineeringQuantity::<U> { significand: sig, exponent: self.exponent }
    }

    /// Fallible conversion to a different storage type.
    ///
    /// Conversion fails with `Overflow` when the significand does not fit
    /// the destination, and re-applies the construction invariant there.
    pub fn try_convert<U: EQSupported>(&self) -> (r: Result<EngineeringQuantity<U>, Error>)
        ensures
            r is Ok <==> (U::min_spec() <= self.sig() <= U::max_spec()
                && EngineeringQuantity::<U>::valid_raw(self.sig(), self.exp())),
            match r {
                Ok(q) => q.sig() == self.sig() && q.exp() == self.exp(),
                Err(err) => err == if !(U::min_spec() <= self.sig() <= U::max_spec()) {
                    Error::Overflow
                } else {
                    EngineeringQuantity::<U>::from_raw_error(self.sig(), self.exp())
                },
            },
    {
        let (a, neg) = self.significand.abs_sign();
        match U::from_abs_sign(a, neg) {
            Some(s) => EngineeringQuantity::<U>::from_raw(s, self.exponent),
            None => Err(Error::Overflow),
        }
    }
}

/// The exponent applied toward the value with truncation toward zero, then
/// narrowed to a type with bounds `lo..=hi`: `Some` of the truncated value
/// exactly when it fits, `None` otherwise.
pub open spec fn convert_spec(s: int, e: int, lo: int, hi: int) -> Option<int> {
    let v = value_trunc(s, e);
    if lo <= v <= hi {
        Some(v)
    } else {
        None
    }
}

/// Applies the exponent to a sign/magnitude pair, truncating toward zero,
/// and narrows the resulting value to `U`.
fn convert_inner<U: EQSupported>(a: u128, neg: bool, exponent: i8) -> (r: Option<U>)
    requires
        exponent >= 0 ==> a * pow1000(exponent as nat) <= u128::MAX,
        exponent < 0 ==> pow1000((-exponent) as nat) <= u128::MAX,
    ensures
        match r {
            Some(v) => convert_spec(
                sign_val(a, neg),
                exponent as int,
                U::min_spec(),
                U::max_spec(),
            ) == Some(v.as_int()),
            None => convert_spec(
                sign_val(a, neg),
                exponent as int,
                U::min_spec(),
                U::max_spec(),
            ) is None,
        },
{
    proof {
        U::lemma_type_bounds();
    }
    let ghost s = sign_val(a, neg);
    let ghost e = exponent as int;
    let e_abs: u32 = if exponent < 0 {
        (-(exponent as i32)) as u32
    } else {
        exponent as u32
    };
    let mag: u128 = if exponent >= 0 {
        let ghost p = pow1000(e as nat);
        proof {
            if neg {
                lemma_mul_unary_negation(a as int, p);
            }
        }
        match crate::arith::scale_mag(a, e_abs) {
            Some(m) => m,
            None => vstd::pervasive::unreached(),
        }
    } else {
        let f = match pow1000_checked(e_abs, u128::MAX) {
            Some(f) => f,
            None => vstd::pervasive::unreached(),
        };
        proof {
            crate::arith::lemma_pow_ge_one((-e) as nat);
        }
        a / f
    };
    proof {
        assert(value_trunc(s, e) == sign_val(mag, neg));
    }
    match U::from_abs_sign(mag, neg) {
        Some(v) => Some(v),
        None => None,
    }
}

/// The truncated value of a valid quantity fits its own storage type: a
/// non-negative exponent's scaled product is checked at construction, and a
/// negative exponent only shrinks the magnitude.
proof fn lemma_value_trunc_fits(s: int, e: int, lo: int, hi: int)
    requires
        raw_ok(s, e, lo, hi),
        lo <= s <= hi,
        lo <= 0 <= hi,
    ensures
        lo <= value_trunc(s, e) <= hi,
{
    if e >= 0 {
    } else {
        let p = pow1000((-e) as nat);
        crate::arith::lemma_pow_ge_one((-e) as nat);
        if s >= 0 {
            vstd::arithmetic::div_mod::lemma_div_pos_is_pos(s, p);
            vstd::arithmetic::div_mod::lemma_div_nonincreasing(s, p);
        } else {
            vstd::arithmetic::div_mod::lemma_div_pos_is_pos(-s, p);
            vstd::arithmetic::div_mod::lemma_div_nonincreasing(-s, p);
        }
    }
}

impl<T: EQSupported> EngineeringQuantity<T> {
    /// Applies the exponent toward the value, truncating toward zero, and
    /// narrows to the storage type `U`.
    fn to_integer<U: EQSupported>(&self) -> (r: Option<U>)
        ensures
            match r {
                Some(v) => convert_spec(self.sig(), self.exp(), U::min_spec(), U::max_spec())
                    == Some(v.as_int()),
                None => convert_spec(
                    self.sig(),
                    self.exp(),
                    U::min_spec(),
                    U::max_spec(),
                ) is None,
            },
    {
        proof {
            use_type_invariant(*self);
            T::lemma_type_bounds();
            self.significand.lemma_in_range();
            let e = self.exp();
            if e >= 0 {
                // |sig * 1000^e| is within the type's range, which fits u128
                if self.sig() < 0 {
                    lemma_mul_unary_negation(abs(self.sig()) as int, pow1000(e as nat));
                }
            }
        }
        let (a, neg) = self.significand.abs_sign();
        convert_inner::<U>(a, neg, self.exponent)
    }

    /// Converts to an `i64` by applying the exponent toward the value,
    /// truncating toward zero; `None` exactly when the truncated value does
    /// not fit an `i64`.
    pub fn to_i64(&self) -> (r: Option<i64>)
        ensures
            match r {
                Some(v) => convert_spec(self.sig(), self.exp(), i64::MIN as int, i64::MAX as int)
                    == Some(v as int),
                None => convert_spec(
                    self.sig(),
                    self.exp(),
                    i64::MIN as int,
                    i64::MAX as int,
                ) is None,
            },
    {
        self.to_integer::<i64>()
    }

    /// Converts to a `u64`; as [`Self::to_i64`], with `None` for any
    /// value outside `u64` range.
    pub fn to_u64(&self) -> (r: Option<u64>)
        ensures
            match r {
                Some(v) => convert_spec(self.sig(), self.exp(), 0, u64::MAX as int) == Some(
                    v as int,
                ),
                None => convert_spec(self.sig(), self.exp(), 0, u64::MAX as int) is None,
            },
    {
        self.to_integer::<u64>()
    }

    /// Converts to an `i128`; as [`Self::to_i64`].
    pub fn to_i128(&self) -> (r: Option<i128>)
        ensures
            match r {
                Some(v) => convert_spec(
                    self.sig(),
                    self.exp(),
                    i128::MIN as int,
                    i128::MAX as int,
                ) == Some(v as int),
                None => convert_spec(
                    self.sig(),
                    self.exp(),
                    i128::MIN as int,
                    i128::MAX as int,
                ) is None,
            },
    {
        self.to_integer::<i128>()
    }

    /// Converts to a `u128`; as [`Self::to_i64`], with `None` for any
    /// value outside `u128` range.
    pub fn to_u128(&self) -> (r: Option<u128>)
        ensures
            match r {
                Some(v) => convert_spec(self.sig(), self.exp(), 0, u128::MAX as int) == Some(
                    v as int,
                ),
                None => convert_spec(self.sig(), self.exp(), 0, u128::MAX as int) is None,
            },
    {
        self.to_integer::<u128>()
    }
}

impl From<EngineeringQuantity<i64>> for i64 {
    /// Conversion to the storage type is infallible thanks to the checks at
    /// construction time; a fractional part is truncated toward zero.
    fn from(eq: EngineeringQuantity<i64>) -> (r: i64) {
        proof {
            use_type_invariant(eq);
            eq.significand.lemma_in_range();
            <i64 as EQSupported>::lemma_type_bounds();
            lemma_value_trunc_fits(eq.sig(), eq.exp(), i64::MIN as int, i64::MAX as int);
        }
        match eq.to_i64() {
            Some(v) => v,
            None => vstd::pervasive::unreached(),
        }
    }
}

impl vstd::std_specs::convert::FromSpecImpl<EngineeringQuantity<i64>> for i64 {
    open spec fn obeys_from_spec() -> bool {
        true
    }

    open spec fn from_spec(eq: EngineeringQuantity<i64>) -> i64 {
        value_trunc(eq.sig(), eq.exp()) as i64
    }
}

impl From<EngineeringQuantity<i128>> for i128 {
    /// Conversion to the storage type is infallible thanks to the checks at
    /// construction time; a fractional part is truncated toward zero.
    fn from(eq: EngineeringQuantity<i128>) -> (r: i128) {
        proof {
            use_type_invariant(eq);
            eq.significand.lemma_in_range();
            <i128 as EQSupported>::lemma_type_bounds();
            lemma_value_trunc_fits(eq.sig(), eq.exp(), i128::MIN as int, i128::MAX as int);
        }
        match eq.to_i128() {
            Some(v) => v,
            None => vstd::pervasive::unreached(),
        }
    }
}

impl vstd::std_specs::convert::FromSpecImpl<EngineeringQuantity<i128>> for i128 {
    open spec fn obeys_from_spec() -> bool {
        true
    }

    open spec fn from_spec(eq: EngineeringQuantity<i128>) -> i128 {
        value_trunc(eq.sig(), eq.exp()) as i128
    }
}

impl<T: EQSupported> PartialEq for EngineeringQuantity<T> {
    /// Quantities are equal when they denote the same value, whatever their
    /// raw components.
    fn eq(&self, other: &Self) -> (r: bool) {
        matches!(self.cmp(other), core::cmp::Ordering::Equal)
    }
}

impl<T: EQSupported> vstd::std_specs::cmp::PartialEqSpecImpl for EngineeringQuantity<T> {
    open spec fn obeys_eq_spec() -> bool {
        true
    }

    open spec fn eq_spec(&self, other: &Self) -> bool {
        value_order(self.sig(), self.exp(), other.sig(), other.exp())
            == core::cmp::Ordering::Equal
    }
}

/// `a` with the sign bit applied.
pub open spec fn sign_val(a: u128, neg: bool) -> int {
    if neg {
        -(a as int)
    } else {
        a as int
    }
}

/// One division step of normalisation: it preserves the normal form and the
/// construction invariant, and the new exponent's scaling factor still fits.
proof fn lemma_normalise_step<T: EQSupported>(a: int, neg: bool, e: int)
    requires
        a > 0,
        a % 1000 == 0,
        EngineeringQuantity::<T>::valid_raw(sign_val(a as u128, neg), e),
        T::min_spec() <= sign_val(a as u128, neg) <= T::max_spec(),
        a <= u128::MAX,
    ensures
        normal_form(sign_val(a as u128, neg), e) == normal_form(
            sign_val((a / 1000) as u128, neg),
            e + 1,
        ),
        EngineeringQuantity::<T>::valid_raw(sign_val((a / 1000) as u128, neg), e + 1),
        T::min_spec() <= sign_val((a / 1000) as u128, neg) <= T::max_spec(),
        abs(e) <= 12,
        a / 1000 < a,
{
    T::lemma_type_bounds();
    lemma_pow1000_13();
    vstd::arithmetic::div_mod::lemma_fundamental_div_mod(a, 1000);
    let q = a / 1000;
    let s = sign_val(a as u128, neg);
    let s2 = sign_val(q as u128, neg);
    assert(a == 1000 * q);
    assert(q >= 1);
    assert(s == 1000 * s2);
    // the normal form takes exactly this step
    assert(s % 1000 == 0) by {
        vstd::arithmetic::div_mod::lemma_mod_multiples_basic(s2, 1000);
        lemma_mul_is_commutative(s2, 1000);
    }
    assert(s / 1000 == s2) by {
        vstd::arithmetic::div_mod::lemma_div_multiples_vanish(s2, 1000);
    }
    // the scaling factor of the old exponent fits, so |e| <= 12
    let p = pow1000(abs(e));
    assert(p <= T::max_spec() <= u128::MAX);
    assert(abs(e) <= 12);
    crate::arith::lemma_pow_ge_one(abs(e));
    let p2 = pow1000(abs(e + 1));
    if neg {
        lemma_mul_unary_negation(a, p);
        lemma_mul_unary_negation(q, p2);
        assert(s * p == -(a * p));
        assert(s2 * p2 == -(q * p2));
    }
    if e >= 0 {
        crate::arith::lemma_pow1000_step(e as nat);
        lemma_mul_is_commutative(p, 1000);
        assert(p2 == 1000 * p);
        // p2 <= a * p <= max + 1, and p2 is a multiple of 1000 while max + 1
        // is not, so p2 <= max
        assert(a * p <= T::max_spec() + 1);
        assert(p2 <= a * p) by {
            vstd::arithmetic::mul::lemma_mul_inequality(1000, a, p);
        }
        assert(p2 % 1000 == 0) by {
            crate::arith::lemma_mul_1000_mod(p);
            lemma_mul_is_commutative(p, 1000);
        }
        assert(p2 <= T::max_spec());
        // the scaled product keeps its value
        assert(s2 * p2 == s * p) by {
            vstd::arithmetic::mul::lemma_mul_is_associative(s2, 1000, p);
            lemma_mul_is_commutative(1000, s2);
        }
        assert(T::min_spec() <= s2 * p2 <= T::max_spec());
    } else {
        // |e + 1| == |e| - 1: the factor only shrinks; at exponent zero the
        // significand alone must fit, and it does because it got smaller
        assert(abs(e + 1) == abs(e) - 1);
        crate::arith::lemma_pow1000_step((abs(e) - 1) as nat);
        lemma_mul_is_commutative(p2, 1000);
        assert(p == 1000 * p2);
        crate::arith::lemma_pow_ge_one(abs(e + 1));
        assert(p2 <= p) by {
            vstd::arithmetic::mul::lemma_mul_left_inequality(p2, 1, 1000);
            lemma_mul_is_commutative(p2, 1000);
        }
        if e + 1 == 0 {
            vstd::arithmetic::power::lemma_pow0(1000);
            vstd::arithmetic::mul::lemma_mul_basics(s2);
        }
    }
}

impl<T: EQSupported> Clone for EngineeringQuantity<T> {
    /// Quantities are plain values; a clone is a copy.
    fn clone(&self) -> (r: Self)
        ensures
            r == *self,
    {
        *self
    }
}

impl<T: EQSupported> From<T> for EngineeringQuantity<T> {
    /// Integers can always be promoted on conversion to
    /// [`EngineeringQuantity`], with exponent zero.
    fn from(value: T) -> (r: Self) {
        proof {
            T::lemma_type_bounds();
            value.lemma_in_range();
            vstd::arithmetic::power::lemma_pow0(1000);
        }
        Self { significand: value, exponent: 0 }
    }
}

impl<T: EQSupported> vstd::std_specs::convert::FromSpecImpl<T> for EngineeringQuantity<T> {
    open spec fn obeys_from_spec() -> bool {
        true
    }

    closed spec fn from_spec(v: T) -> Self {
        EngineeringQuantity { significand: v, exponent: 0 }
    }
}

/// What promotion yields: `EngineeringQuantity::from(v)` has `v` as its
/// significand and exponent zero, so its raw components are `(v, 0)`.
pub proof fn lemma_promotion<T: EQSupported>(v: T)
    ensures
        (<EngineeringQuantity<T> as vstd::std_specs::convert::FromSpec<T>>::from_spec(v)).sig()
            == v.as_int(),
        (<EngineeringQuantity<T> as vstd::std_specs::convert::FromSpec<T>>::from_spec(v)).exp()
            == 0,
{
}

} // verus!
