//! The rational bridge: precise conversion between a quantity and a
//! numerator/denominator pair with positive denominator.

use vstd::prelude::*;

use crate::arith::{
    lemma_mul_pos, lemma_pow1000_13, lemma_pow_ge_one, pow1000, pow1000_checked,
};
use crate::support::EQSupported;
use crate::{raw_err, raw_ok, EngineeringQuantity, Error};
use vstd::arithmetic::mul::{
    lemma_mul_is_associative, lemma_mul_is_commutative, lemma_mul_unary_negation,
};
use vstd::math::abs;

verus! {

/// Divides powers of 1000 out of a positive denominator: the residual and
/// how many powers were removed.
pub open spec fn strip_thousands(den: int) -> (int, int)
    decreases abs(den),
    via strip_thousands_decreases
{
    if den >= 1000 && den % 1000 == 0 {
        let (r, k) = strip_thousands(den / 1000);
        (r, k + 1)
    } else {
        (den, 0)
    }
}

#[via_fn]
proof fn strip_thousands_decreases(den: int) {
    if den >= 1000 && den % 1000 == 0 {
        vstd::arithmetic::div_mod::lemma_fundamental_div_mod(den, 1000);
    }
}

/// What stripping yields: a residual at least one that no longer divides by
/// 1000 into a whole quotient, with `den == residual * 1000^k`.
pub proof fn lemma_strip_thousands(den: int)
    requires
        den >= 1,
    ensures
        ({
            let (r, k) = strip_thousands(den);
            &&& r >= 1
            &&& k >= 0
            &&& den == r * pow1000(k as nat)
            &&& !(r >= 1000 && r % 1000 == 0)
            &&& pow1000(k as nat) <= den
        }),
    decreases den,
{
    let (r, k) = strip_thousands(den);
    if den >= 1000 && den % 1000 == 0 {
        vstd::arithmetic::div_mod::lemma_fundamental_div_mod(den, 1000);
        lemma_strip_thousands(den / 1000);
        let (r2, k2) = strip_thousands(den / 1000);
        crate::arith::lemma_pow1000_step(k2 as nat);
        lemma_mul_is_associative(r2, pow1000(k2 as nat), 1000);
        assert(den == (den / 1000) * 1000);
        lemma_mul_is_commutative(den / 1000, 1000);
        assert(den == r2 * pow1000(k2 as nat) * 1000);
        lemma_pow_ge_one(k2 as nat);
        lemma_mul_pos(r2, pow1000((k2 + 1) as nat));
    } else {
        vstd::arithmetic::power::lemma_pow0(1000);
        vstd::arithmetic::mul::lemma_mul_basics(r);
    }
}

/// The result of the precise rational-to-quantity conversion for a storage
/// type with bounds `lo..=hi`: powers of 1000 are divided out of the
/// denominator; a residual that does not divide 1000 exactly is imprecise;
/// otherwise the numerator is scaled up by the complementary factor. The
/// construction invariant is applied last.
pub open spec fn from_ratio_spec(num: int, den: int, lo: int, hi: int) -> Result<
    (int, int),
    Error,
> {
    if den == 1 {
        if raw_ok(num, 0, lo, hi) {
            Ok((num, 0int))
        } else {
            Err(raw_err(num, 0, lo, hi))
        }
    } else {
        let (res, k) = strip_thousands(den);
        if 1000int % res != 0 {
            Err(Error::ImpreciseConversion)
        } else {
            let scale = 1000int / res;
            let s2 = if scale == 1000 {
                num
            } else {
                num * scale
            };
            let e2 = if scale == 1000 {
                -k
            } else {
                -k - 1
            };
            if !(lo <= s2 <= hi) {
                Err(Error::Overflow)
            } else if raw_ok(s2, e2, lo, hi) {
                Ok((s2, e2))
            } else {
                Err(raw_err(s2, e2, lo, hi))
            }
        }
    }
}

impl<T: EQSupported> EngineeringQuantity<T> {
    /// The quantity as an exact rational `(numerator, denominator)`: the
    /// scaled-up significand over one for non-negative exponents, the bare
    /// significand over the scaling factor otherwise. Never fails for a
    /// constructed quantity; the `Result` mirrors the fallible surface of
    /// the conversion.
    pub fn to_ratio(&self) -> (r: Result<(T, T), Error>)
        ensures
            r is Ok,
            ({
                let (num, den) = r->Ok_0;
                if self.exp() >= 0 {
                    num.as_int() == self.sig() * pow1000(self.exp() as nat) && den.as_int() == 1
                } else {
                    num.as_int() == self.sig() && den.as_int() == pow1000((-self.exp()) as nat)
                }
            }),
    {
        proof {
            use_type_invariant(*self);
            T::lemma_type_bounds();
        }
        let (sig, exponent) = self.to_raw();
        let (a, neg) = sig.abs_sign();
        let e_abs: u32 = if exponent < 0 {
            (-(exponent as i32)) as u32
        } else {
            exponent as u32
        };
        let ghost p = pow1000(abs(exponent as int));
        let factor = match pow1000_checked(e_abs, T::exec_max()) {
            Some(f) => f,
            None => vstd::pervasive::unreached(),
        };
        let one = match T::from_abs_sign(1, false) {
            Some(o) => o,
            None => vstd::pervasive::unreached(),
        };
        if exponent >= 0 {
            proof {
                if neg {
                    lemma_mul_unary_negation(a as int, p);
                    vstd::arithmetic::mul::lemma_mul_is_commutative(-(a as int), p);
                    vstd::arithmetic::mul::lemma_mul_is_commutative(sig.as_int(), p);
                }
                if a > 0 {
                    lemma_pow_ge_one(abs(exponent as int));
                    lemma_mul_pos(a as int, p);
                } else {
                    vstd::arithmetic::mul::lemma_mul_by_zero_is_zero(p);
                }
                // the scaled magnitude is bounded by the type's range, which
                // fits u128
                assert(a * p <= u128::MAX);
            }
            let prod = match a.checked_mul(factor) {
                Some(x) => x,
                None => vstd::pervasive::unreached(),
            };
            let num = match T::from_abs_sign(prod, neg) {
                Some(x) => x,
                None => vstd::pervasive::unreached(),
            };
            Ok((num, one))
        } else {
            let den = match T::from_abs_sign(factor, false) {
                Some(x) => x,
                None => vstd::pervasive::unreached(),
            };
            Ok((sig, den))
        }
    }

    /// Precise conversion from a rational with a positive denominator: it
    /// succeeds only when the denominator is a power of 1000 times an exact
    /// divisor of 1000.
    pub fn from_ratio(num: T, den: T) -> (r: Result<Self, Error>)
        requires
            den.as_int() >= 1,
        ensures
            match from_ratio_spec(num.as_int(), den.as_int(), T::min_spec(), T::max_spec()) {
                Ok((sv, ev)) => r is Ok && r->Ok_0.sig() == sv && r->Ok_0.exp() == ev,
                Err(er) => r is Err && r->Err_0 == er,
            },
    {
        proof {
            T::lemma_type_bounds();
            num.lemma_in_range();
            lemma_strip_thousands(den.as_int());
            lemma_pow1000_13();
        }
        let (den_abs, _) = den.abs_sign();
        if den_abs == 1 {
            proof {
                assert(strip_thousands(1) == (1int, 0int));
            }
            return Self::from_raw(num, 0);
        }
        // divide powers of 1000 out of the denominator
        let mut d: u128 = den_abs;
        let mut k: u32 = 0;
        proof {
            vstd::arithmetic::power::lemma_pow0(1000);
            vstd::arithmetic::mul::lemma_mul_basics(d as int);
        }
        while d >= 1000 && d % 1000 == 0
            invariant
                d >= 1,
                den.as_int() == d * pow1000(k as nat),
                strip_thousands(den.as_int()) == (
                    strip_thousands(d as int).0,
                    strip_thousands(d as int).1 + k,
                ),
                pow1000(k as nat) <= den.as_int() <= u128::MAX,
                k <= 12,
            decreases d,
        {
            proof {
                lemma_strip_step(d as int, k as int, den.as_int());
                lemma_pow1000_13();
            }
            d = d / 1000;
            k = k + 1;
        }
        proof {
            assert(strip_thousands(d as int) == (d as int, 0int));
            assert(strip_thousands(den.as_int()) == (d as int, k as int));
            assert(pow1000(k as nat) <= u128::MAX);
            assert(k <= 12);
        }
        let scale = 1000u128 / d;
        let rem = 1000u128 % d;
        proof {
            vstd::arithmetic::div_mod::lemma_fundamental_div_mod(1000, d as int);
        }
        if rem != 0 {
            return Err(Error::ImpreciseConversion);
        }
        proof {
            assert(scale >= 1) by {
                if scale == 0 {
                    vstd::arithmetic::mul::lemma_mul_basics(d as int);
                }
            }
        }
        if scale == 1000 {
            proof {
                let di = d as int;
                assert(1000int == di * (1000int / di) + 1000int % di);
                assert(di * (1000int / di) == di * 1000);
                assert(d == 1) by (nonlinear_arith)
                    requires
                        1000int == (d as int) * 1000,
                        d >= 1,
                ;
            }
            return Self::from_raw(num, -(k as i8));
        }
        // scale the numerator up by 1000 / residual
        let (na, neg) = num.abs_sign();
        let hi = T::exec_max();
        let lo_abs = T::exec_min_abs();
        let bound = if neg {
            lo_abs
        } else {
            hi
        };
        let ghost sv = num.as_int() * (scale as int);
        proof {
            if neg {
                lemma_mul_unary_negation(na as int, scale as int);
                lemma_mul_is_commutative(-(na as int), scale as int);
                lemma_mul_is_commutative(num.as_int(), scale as int);
            }
            if na > 0 {
                lemma_mul_pos(na as int, scale as int);
            } else {
                vstd::arithmetic::mul::lemma_mul_by_zero_is_zero(scale as int);
            }
        }
        match na.checked_mul(scale) {
            Some(prod) => {
                if prod <= bound {
                    let sig = match T::from_abs_sign(prod, neg) {
                        Some(x) => x,
                        None => vstd::pervasive::unreached(),
                    };
                    Self::from_raw(sig, -(k as i8) - 1)
                } else {
                    Err(Error::Overflow)
                }
            },
            None => Err(Error::Overflow),
        }
    }
}

/// One stripping step keeps the invariant tying the running denominator to
/// the original.
proof fn lemma_strip_step(d: int, k: int, den: int)
    requires
        d >= 1000,
        d % 1000 == 0,
        k >= 0,
        den == d * pow1000(k as nat),
        den <= u128::MAX,
    ensures
        d / 1000 >= 1,
        d / 1000 < d,
        den == (d / 1000) * pow1000((k + 1) as nat),
        pow1000((k + 1) as nat) <= den,
        strip_thousands(d) == (strip_thousands(d / 1000).0, strip_thousands(d / 1000).1 + 1),
{
    vstd::arithmetic::div_mod::lemma_fundamental_div_mod(d, 1000);
    let q = d / 1000;
    assert(d == 1000 * q);
    crate::arith::lemma_pow1000_step(k as nat);
    lemma_mul_is_commutative(1000, q);
    lemma_mul_is_associative(q, 1000, pow1000(k as nat));
    lemma_mul_is_commutative(pow1000(k as nat), 1000);
    assert(den == q * pow1000((k + 1) as nat));
    lemma_pow_ge_one((k + 1) as nat);
    vstd::arithmetic::mul::lemma_mul_inequality(1, q, pow1000((k + 1) as nat));
    lemma_mul_is_commutative(q, pow1000((k + 1) as nat));
}

} // verus!
