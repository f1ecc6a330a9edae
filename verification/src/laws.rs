//! The laws the library guarantees, stated over the same specification
//! functions its contracts use and proved once for all inputs.

use vstd::prelude::*;

use crate::arith::{lemma_mul_pos, lemma_pow_ge_one, pow1000};
use crate::digits::{digit_seq, digits_val};
use crate::rational::{from_ratio_spec, strip_thousands};
use crate::{normal_form, raw_ok, scaled, value_order};
use vstd::arithmetic::mul::{
    lemma_mul_basics, lemma_mul_is_associative, lemma_mul_is_commutative,
    lemma_mul_strict_inequality, lemma_mul_unary_negation,
};
use vstd::arithmetic::power::{lemma_pow0, lemma_pow_adds};
use vstd::math::abs;
use vstd::math::min;

verus! {

/// Ordering is total and consistent: for every two quantities exactly one
/// of less, equal and greater holds, and the verdict agrees with the
/// integer order of the significands after rescaling to any common
/// exponent `b`.
pub proof fn lemma_ordering_total(s1: int, e1: int, s2: int, e2: int, b: int)
    requires
        b <= e1,
        b <= e2,
    ensures
        value_order(s1, e1, s2, e2) == core::cmp::Ordering::Less <==> scaled(s1, e1, b) < scaled(
            s2,
            e2,
            b,
        ),
        value_order(s1, e1, s2, e2) == core::cmp::Ordering::Equal <==> scaled(s1, e1, b)
            == scaled(s2, e2, b),
        value_order(s1, e1, s2, e2) == core::cmp::Ordering::Greater <==> scaled(s1, e1, b)
            > scaled(s2, e2, b),
{
    let m = min(e1, e2);
    let f = pow1000((m - b) as nat);
    lemma_pow_ge_one((m - b) as nat);
    assert(scaled(s1, e1, b) == scaled(s1, e1, m) * f) by {
        lemma_pow_adds(1000, (e1 - m) as nat, (m - b) as nat);
        lemma_mul_is_associative(s1, pow1000((e1 - m) as nat), f);
    }
    assert(scaled(s2, e2, b) == scaled(s2, e2, m) * f) by {
        lemma_pow_adds(1000, (e2 - m) as nat, (m - b) as nat);
        lemma_mul_is_associative(s2, pow1000((e2 - m) as nat), f);
    }
    let v1 = scaled(s1, e1, m);
    let v2 = scaled(s2, e2, m);
    if v1 < v2 {
        lemma_mul_strict_inequality(v1, v2, f);
    } else if v1 > v2 {
        lemma_mul_strict_inequality(v2, v1, f);
    }
}

/// Normalisation is idempotent and preserves the value; it never lowers
/// the exponent.
pub proof fn lemma_normalise_idempotent(s: int, e: int)
    ensures
        normal_form(normal_form(s, e).0, normal_form(s, e).1) == normal_form(s, e),
        value_order(normal_form(s, e).0, normal_form(s, e).1, s, e) == core::cmp::Ordering::Equal,
        normal_form(s, e).1 >= e,
    decreases abs(s),
{
    lemma_pow0(1000);
    if s != 0 && s % 1000 == 0 {
        vstd::arithmetic::div_mod::lemma_fundamental_div_mod(s, 1000);
        let q = s / 1000;
        lemma_normalise_idempotent(q, e + 1);
        let (ns, ne) = normal_form(s, e);
        assert((ns, ne) == normal_form(q, e + 1));
        // one division step preserves the value
        assert(value_order(q, e + 1, s, e) == core::cmp::Ordering::Equal) by {
            lemma_ordering_total(q, e + 1, s, e, e);
            assert(scaled(s, e, e) == s) by {
                lemma_mul_basics(s);
            }
            assert(scaled(q, e + 1, e) == q * pow1000(1)) by {
                assert((e + 1 - e) as nat == 1nat);
            }
            assert(q * pow1000(1) == s) by {
                vstd::arithmetic::power::lemma_pow1(1000);
                lemma_mul_is_commutative(q, 1000);
            }
        }
        // chain the two equalities at the common base e
        lemma_ordering_total(ns, ne, q, e + 1, e);
        lemma_ordering_total(q, e + 1, s, e, e);
        lemma_ordering_total(ns, ne, s, e, e);
    } else {
        assert(normal_form(s, e) == (s, e));
    }
}

/// The sign is preserved by formatting: rendering a negated value prepends
/// exactly one minus sign, in every mode and at every precision.
pub proof fn lemma_format_sign(s: int, e: int, prec: nat, rkm: bool, strict: bool)
    requires
        s > 0,
    ensures
        crate::string::format_spec(-s, e, prec, rkm, strict) == seq!['-']
            + crate::string::format_spec(s, e, prec, rkm, strict),
{
    let body = crate::string::format_abs(abs(s), e, prec, rkm, strict);
    assert(abs(-s) == abs(s));
    assert(crate::string::format_spec(s, e, prec, rkm, strict) =~= body);
    assert(crate::string::format_spec(-s, e, prec, rkm, strict) =~= seq!['-'] + body);
}

/// Stripping a pure power of 1000 leaves residual one.
proof fn lemma_strip_pow(k: nat)
    ensures
        strip_thousands(pow1000(k)) == (1int, k as int),
    decreases k,
{
    lemma_pow0(1000);
    if k == 0 {
    } else {
        lemma_strip_pow((k - 1) as nat);
        crate::arith::lemma_pow1000_step((k - 1) as nat);
        lemma_pow_ge_one((k - 1) as nat);
        let p = pow1000(k);
        let p1 = pow1000((k - 1) as nat);
        assert(p == p1 * 1000);
        assert(p >= 1000) by {
            vstd::arithmetic::mul::lemma_mul_inequality(1, p1, 1000);
            lemma_mul_is_commutative(p1, 1000);
        }
        assert(p % 1000 == 0) by {
            crate::arith::lemma_mul_1000_mod(p1);
        }
        assert(p / 1000 == p1) by {
            vstd::arithmetic::div_mod::lemma_div_multiples_vanish(p1, 1000);
            lemma_mul_is_commutative(p1, 1000);
        }
    }
}

/// Rational round trip: a rational whose denominator is a power of 1000,
/// taken to a quantity and back to a rational, returns exactly the same
/// numerator and denominator whenever the quantity is representable.
pub proof fn lemma_ratio_round_trip(num: int, k: nat, lo: int, hi: int)
    requires
        raw_ok(num, -(k as int), lo, hi),
        lo <= num <= hi,
        lo <= 0,
        1000 <= hi,
    ensures
        ({
            let den = pow1000(k);
            let conv = from_ratio_spec(num, den, lo, hi);
            &&& conv == Ok::<(int, int), crate::Error>((num, -(k as int)))
            &&& ({
                let (s2, e2) = (num, -(k as int));
                let back = if e2 >= 0 {
                    (s2 * pow1000(e2 as nat), 1int)
                } else {
                    (s2, pow1000((-e2) as nat))
                };
                back == (num, den)
            })
        }),
{
    lemma_pow0(1000);
    lemma_pow_ge_one(k);
    let den = pow1000(k);
    if k == 0 {
        assert(den == 1);
        assert(abs(0) == 0);
        assert(raw_ok(num, 0, lo, hi));
        lemma_mul_basics(num);
    } else {
        assert(den >= 1000) by {
            crate::arith::lemma_pow1000_step((k - 1) as nat);
            lemma_pow_ge_one((k - 1) as nat);
            vstd::arithmetic::mul::lemma_mul_inequality(1, pow1000((k - 1) as nat), 1000);
            lemma_mul_is_commutative(pow1000((k - 1) as nat), 1000);
        }
        lemma_strip_pow(k);
        assert(strip_thousands(den) == (1int, k as int));
        assert(1000int % 1int == 0);
        assert(1000int / 1int == 1000);
        assert(raw_ok(num, -(k as int), lo, hi));
    }
}

/// A digit character is not an SI prefix, a point, or a sign.
proof fn lemma_digit_not_special(c: char)
    requires
        crate::digits::is_digit(c),
    ensures
        crate::string::prefix_exp(c) is None,
        c != '.',
        c != '-',
{
}

/// Every non-zero display exponent in range has a one-character prefix that
/// maps back to it and is neither a digit, a point, nor a sign.
proof fn lemma_prefix_char(de: int)
    requires
        de != 0,
        -10 <= de <= 10,
    ensures
        crate::string::prefix_chars(de).len() == 1,
        crate::string::prefix_exp(crate::string::prefix_chars(de)[0]) == Some(de),
        crate::string::prefix_chars(de)[0] != '.',
        crate::string::prefix_chars(de)[0] != '-',
        !crate::digits::is_digit(crate::string::prefix_chars(de)[0]),
{
}

/// The structure of the display digit string under the conditions the
/// round trip needs: its length, its value, and the position of the
/// display point.
proof fn lemma_display_structure(a: nat, e: int)
    requires
        e >= 0 || crate::string::display_exp(a, e) <= 0,
    ensures
        ({
            let d0 = crate::string::display_digits(a, e);
            let len = d0.len() as int;
            let de = crate::string::display_exp(a, e);
            let mine = min(e, 0);
            let maxe = if e > 0 {
                e
            } else {
                0
            };
            let ld = crate::string::display_lead(a, e);
            &&& len == digit_seq(a).len() + 3 * maxe
            &&& len >= 1
            &&& crate::digits::all_digits(d0)
            &&& digits_val(d0) == a * crate::arith::pow10((3 * maxe) as nat)
            &&& de == mine + (len - 1) / 3
            &&& ld == len - 3 * (de - mine)
            &&& 1 <= ld <= len
            &&& (len - ld) % 3 == 0
            &&& de >= mine
        }),
{
    let d0 = crate::string::display_digits(a, e);
    let len = d0.len() as int;
    let de = crate::string::display_exp(a, e);
    let mine = min(e, 0);
    let maxe = if e > 0 {
        e
    } else {
        0
    };
    let ld = crate::string::display_lead(a, e);
    crate::digits::lemma_digit_seq(a);
    crate::digits::lemma_zero_chars((3 * maxe) as nat);
    crate::digits::lemma_all_digits_concat(digit_seq(a), crate::digits::zero_chars(
        (3 * maxe) as nat,
    ));
    crate::digits::lemma_digits_val_concat(digit_seq(a), crate::digits::zero_chars(
        (3 * maxe) as nat,
    ));
    assert(len == digit_seq(a).len() + 3 * maxe);
    assert(digits_val(d0) == a * crate::arith::pow10((3 * maxe) as nat));
    vstd::arithmetic::div_mod::lemma_fundamental_div_mod(len - 1, 3);
    assert(de == mine + (len - 1) / 3);
    if de > 0 {
        assert(ld == len - 3 * de);
        assert(e >= 0);
        assert(mine == 0);
    } else {
        assert(ld == ((len - 1) % 3) + 1);
        assert(ld == len - 3 * ((len - 1) / 3));
    }
}

/// The digit text the parser reassembles from an automatic-precision
/// rendering reads back as a value equal to the original, within range,
/// and at an exponent satisfying the construction invariant.
#[verifier::rlimit(100)]
proof fn lemma_core(s: int, e: int, lo: int, hi: int)
    requires
        raw_ok(s, e, lo, hi),
        lo <= s <= hi,
        lo == 0 || lo == -hi - 1,
        1000 <= hi <= u128::MAX,
        -lo <= u128::MAX,
        (hi + 1) % 1000 != 0,
        e >= 0 || crate::string::display_exp(abs(s), e) <= 0,
        s < 0 ==> lo < 0,
    ensures
        ({
            let a = abs(s);
            let d0 = crate::string::display_digits(a, e);
            let len = d0.len() as int;
            let de = crate::string::display_exp(a, e);
            let ld = crate::string::display_lead(a, e);
            let t0 = d0.subrange(ld, len);
            let t = crate::digits::strip_zeros(t0);
            let n = t.len() as int;
            let pad = if n % 3 == 0 {
                0int
            } else {
                3 - n % 3
            };
            let e1 = de - n / 3 - (if n % 3 == 0 {
                0int
            } else {
                1int
            });
            let textd = d0.subrange(0, ld) + t + crate::digits::zero_chars(pad as nat);
            let v = digits_val(textd);
            let sv = if s < 0 {
                -v
            } else {
                v
            };
            &&& crate::digits::all_digits(textd)
            &&& textd.len() >= 1
            &&& 0 <= v
            &&& v <= (if s < 0 {
                -lo
            } else {
                hi
            })
            &&& min(e, 0) <= e1 <= de
            &&& raw_ok(sv, e1, lo, hi)
            &&& value_order(sv, e1, s, e) == core::cmp::Ordering::Equal
        }),
{
    let a = abs(s);
    let d0 = crate::string::display_digits(a, e);
    let len = d0.len() as int;
    let de = crate::string::display_exp(a, e);
    let mine = min(e, 0);
    let maxe = if e > 0 {
        e
    } else {
        0
    };
    let ld = crate::string::display_lead(a, e);
    let t0 = d0.subrange(ld, len);
    let t = crate::digits::strip_zeros(t0);
    let n = t.len() as int;
    let z = t0.len() - n;
    let pad = if n % 3 == 0 {
        0int
    } else {
        3 - n % 3
    };
    let e1 = de - n / 3 - (if n % 3 == 0 {
        0int
    } else {
        1int
    });
    let leaders = d0.subrange(0, ld);
    let textd = leaders + t + crate::digits::zero_chars(pad as nat);
    let v = digits_val(textd);
    let sv = if s < 0 {
        -v
    } else {
        v
    };
    // |e| <= 12 because its scaling factor fits the type
    crate::arith::lemma_pow1000_13();
    assert(-12 <= e <= 12);
    // the significand's own range bounds its magnitude
    assert(a <= u128::MAX);
    lemma_display_structure(a, e);
    crate::digits::lemma_strip_zeros(t0);
    crate::digits::lemma_digits_val_bounds(d0);
    // t0 and its pieces are digits
    assert(crate::digits::all_digits(t0)) by {
        assert forall|j: int| 0 <= j < t0.len() implies crate::digits::is_digit(
            #[trigger] t0[j],
        ) by {
            assert(t0[j] == d0[j + ld]);
        }
    }
    assert(crate::digits::all_digits(leaders)) by {
        assert forall|j: int| 0 <= j < leaders.len() implies crate::digits::is_digit(
            #[trigger] leaders[j],
        ) by {
            assert(leaders[j] == d0[j]);
        }
    }
    assert(crate::digits::all_digits(t)) by {
        assert forall|j: int| 0 <= j < t.len() implies crate::digits::is_digit(
            #[trigger] t[j],
        ) by {
            assert(t[j] == t0[j]);
        }
    }
    crate::digits::lemma_zero_chars(pad as nat);
    crate::digits::lemma_all_digits_concat(leaders, t);
    crate::digits::lemma_all_digits_concat(leaders + t, crate::digits::zero_chars(pad as nat));
    assert(crate::digits::all_digits(textd));
    assert(textd.len() == ld + n + pad);
    assert(textd.len() >= 1);
    // pad <= z: the stripped run is at least the pad that restores a whole
    // group of three
    assert((n + z) % 3 == 0) by {
        assert(n + z == len - ld);
    }
    assert(pad <= z && (z - pad) % 3 == 0) by {
        vstd::arithmetic::div_mod::lemma_fundamental_div_mod(n, 3);
        vstd::arithmetic::div_mod::lemma_fundamental_div_mod(z, 3);
        vstd::arithmetic::div_mod::lemma_add_mod_noop(n, z, 3);
        vstd::arithmetic::div_mod::lemma_sub_mod_noop(z, pad, 3);
    }
    // values of the pieces
    crate::digits::lemma_digits_val_bounds(t);
    crate::digits::lemma_digits_val_bounds(leaders);
    crate::digits::lemma_digits_val_concat(leaders, t0);
    crate::digits::lemma_digits_val_concat(leaders, t);
    crate::digits::lemma_digits_val_concat(leaders + t, crate::digits::zero_chars(pad as nat));
    assert(d0 =~= leaders + t0);
    let p10 = |k: int| crate::arith::pow10(k as nat);
    assert(digits_val(d0) == digits_val(leaders) * p10(n + z) + digits_val(t) * p10(z)) by {
        assert(digits_val(t0) == digits_val(t) * p10(z));
        assert(digits_val(d0) == digits_val(leaders) * p10(n + z) + digits_val(t0));
    }
    assert(v == digits_val(leaders) * p10(n + pad) + digits_val(t) * p10(pad)) by {
        assert(digits_val(crate::digits::zero_chars(pad as nat)) == 0);
        assert(v == (digits_val(leaders) * p10(n) + digits_val(t)) * p10(pad));
        vstd::arithmetic::mul::lemma_mul_is_distributive_add_other_way(
            p10(pad),
            digits_val(leaders) * p10(n),
            digits_val(t),
        );
        vstd::arithmetic::mul::lemma_mul_is_associative(digits_val(leaders), p10(n), p10(pad));
        vstd::arithmetic::power::lemma_pow_adds(10, n as nat, pad as nat);
    }
    // v * 10^z == digits_val(d0) * 10^pad
    assert(v * p10(z) == digits_val(d0) * p10(pad)) by {
        assert(v * p10(z) == digits_val(leaders) * p10(n + pad) * p10(z) + digits_val(t) * p10(
            pad,
        ) * p10(z)) by {
            vstd::arithmetic::mul::lemma_mul_is_distributive_add_other_way(
                p10(z),
                digits_val(leaders) * p10(n + pad),
                digits_val(t) * p10(pad),
            );
        }
        assert(digits_val(d0) * p10(pad) == digits_val(leaders) * p10(n + z) * p10(pad)
            + digits_val(t) * p10(z) * p10(pad)) by {
            vstd::arithmetic::mul::lemma_mul_is_distributive_add_other_way(
                p10(pad),
                digits_val(leaders) * p10(n + z),
                digits_val(t) * p10(z),
            );
        }
        assert(digits_val(leaders) * p10(n + pad) * p10(z) == digits_val(leaders) * p10(n + z)
            * p10(pad)) by {
            vstd::arithmetic::mul::lemma_mul_is_associative(
                digits_val(leaders),
                p10(n + pad),
                p10(z),
            );
            vstd::arithmetic::mul::lemma_mul_is_associative(
                digits_val(leaders),
                p10(n + z),
                p10(pad),
            );
            vstd::arithmetic::power::lemma_pow_adds(10, (n + pad) as nat, z as nat);
            vstd::arithmetic::power::lemma_pow_adds(10, (n + z) as nat, pad as nat);
        }
        assert(digits_val(t) * p10(pad) * p10(z) == digits_val(t) * p10(z) * p10(pad)) by {
            vstd::arithmetic::mul::lemma_mul_is_associative(digits_val(t), p10(pad), p10(z));
            vstd::arithmetic::mul::lemma_mul_is_associative(digits_val(t), p10(z), p10(pad));
            vstd::arithmetic::power::lemma_pow_adds(10, pad as nat, z as nat);
            vstd::arithmetic::power::lemma_pow_adds(10, z as nat, pad as nat);
        }
    }
    crate::digits::lemma_digits_val_bounds(textd);
    crate::arith::lemma_pow_ge_one(z as nat);
    crate::arith::lemma_pow_ge_one(pad as nat);
    // v <= digits_val(d0), and that is |s| scaled within the type's range
    assert(digits_val(d0) == a * pow1000(maxe as nat)) by {
        crate::arith::lemma_pow1000_pow10(maxe as nat);
    }
    crate::arith::lemma_pow_ge_one(maxe as nat);
    crate::arith::lemma_pow_ge_one(abs(e));
    assert(a * pow1000(maxe as nat) <= (if s < 0 {
        -lo
    } else {
        hi
    })) by {
        if e > 0 {
            if s < 0 {
                lemma_mul_unary_negation(a as int, pow1000(e as nat));
                assert(s * pow1000(e as nat) == -(a * pow1000(e as nat)));
            }
        } else {
            // no zeroes are appended: the digit value is the significand's
            // magnitude, bounded by its own range
            assert(a * pow1000(maxe as nat) == a) by {
                vstd::arithmetic::power::lemma_pow0(1000);
                lemma_mul_basics(a as int);
            }
        }
    }
    assert(v <= digits_val(d0)) by {
        // v * 10^z == val(d0) * 10^pad <= val(d0) * 10^z
        vstd::arithmetic::power::lemma_pow_increases(10, pad as nat, z as nat);
        if digits_val(d0) > 0 {
            vstd::arithmetic::mul::lemma_mul_left_inequality(digits_val(d0), p10(pad), p10(z));
            if v > digits_val(d0) {
                vstd::arithmetic::mul::lemma_mul_strict_inequality(digits_val(d0), v, p10(z));
            }
        } else {
            vstd::arithmetic::mul::lemma_mul_by_zero_is_zero(p10(pad));
            if v > 0 {
                crate::arith::lemma_mul_pos(v, p10(z));
            }
        }
    }
    // exponent bounds
    assert((n + pad) / 3 <= (n + z) / 3) by {
        vstd::arithmetic::div_mod::lemma_div_is_ordered(n + pad, n + z, 3);
    }
    assert(e1 == de - (n + pad) / 3) by {
        vstd::arithmetic::div_mod::lemma_fundamental_div_mod(n, 3);
        vstd::arithmetic::div_mod::lemma_fundamental_div_mod(n + pad, 3);
    }
    assert((n + z) / 3 == de - mine) by {
        assert(n + z == 3 * (de - mine));
        vstd::arithmetic::div_mod::lemma_div_multiples_vanish(de - mine, 3);
    }
    assert(mine <= e1 <= de);
    // the grand exponent identity: 3*maxe + pad + 3*e1 == 3*e + z
    assert(3 * maxe + pad + 3 * e1 == 3 * e + z) by {
        assert(3 * e1 == 3 * de - (n + pad)) by {
            vstd::arithmetic::div_mod::lemma_fundamental_div_mod(n + pad, 3);
        }
        assert(n + z == 3 * (de - mine));
        assert(maxe + mine == e);
    }
    // value equality at the common base
    let m = min(e1, e);
    assert(v * pow1000((e1 - m) as nat) == a * pow1000((e - m) as nat)) by {
        assert(v * p10(3 * (e1 - m)) * p10(z) == a * p10(3 * (e - m)) * p10(z)) by {
            assert(v * p10(3 * (e1 - m)) * p10(z) == v * p10(z) * p10(3 * (e1 - m))) by {
                lemma_mul_shuffle(v, p10(3 * (e1 - m)), p10(z));
            }
            assert(v * p10(z) * p10(3 * (e1 - m)) == a * p10(3 * maxe + pad) * p10(
                3 * (e1 - m),
            )) by {
                assert(v * p10(z) == digits_val(d0) * p10(pad));
                assert(digits_val(d0) * p10(pad) == a * p10(3 * maxe) * p10(pad));
                assert(a * p10(3 * maxe) * p10(pad) == a * p10(3 * maxe + pad)) by {
                    vstd::arithmetic::mul::lemma_mul_is_associative(
                        a as int,
                        p10(3 * maxe),
                        p10(pad),
                    );
                    vstd::arithmetic::power::lemma_pow_adds(10, (3 * maxe) as nat, pad as nat);
                }
            }
            assert(a * p10(3 * maxe + pad) * p10(3 * (e1 - m)) == a * p10(
                3 * maxe + pad + 3 * (e1 - m),
            )) by {
                vstd::arithmetic::mul::lemma_mul_is_associative(
                    a as int,
                    p10(3 * maxe + pad),
                    p10(3 * (e1 - m)),
                );
                vstd::arithmetic::power::lemma_pow_adds(
                    10,
                    (3 * maxe + pad) as nat,
                    (3 * (e1 - m)) as nat,
                );
            }
            assert(3 * maxe + pad + 3 * (e1 - m) == 3 * (e - m) + z);
            assert(a * p10(3 * (e - m) + z) == a * p10(3 * (e - m)) * p10(z)) by {
                vstd::arithmetic::mul::lemma_mul_is_associative(
                    a as int,
                    p10(3 * (e - m)),
                    p10(z),
                );
                vstd::arithmetic::power::lemma_pow_adds(10, (3 * (e - m)) as nat, z as nat);
            }
        }
        crate::arith::lemma_pow_ge_one((3 * (e1 - m)) as nat);
        vstd::arithmetic::mul::lemma_mul_equality_converse(
            p10(z),
            v * p10(3 * (e1 - m)),
            a * p10(3 * (e - m)),
        );
        lemma_mul_shuffle(v, p10(3 * (e1 - m)), p10(z));
        lemma_mul_shuffle(a as int, p10(3 * (e - m)), p10(z));
        crate::arith::lemma_pow1000_pow10((e1 - m) as nat);
        crate::arith::lemma_pow1000_pow10((e - m) as nat);
    }
    assert(value_order(sv, e1, s, e) == core::cmp::Ordering::Equal) by {
        lemma_ordering_total(sv, e1, s, e, m);
        if s < 0 {
            lemma_mul_unary_negation(v, pow1000((e1 - m) as nat));
            lemma_mul_unary_negation(a as int, pow1000((e - m) as nat));
        }
    }
    // a zero significand reassembles at the original exponent
    assert(v == 0 ==> e1 == e) by {
        if v == 0 {
            assert(a == 0) by {
                if a > 0 {
                    crate::arith::lemma_pow_ge_one((3 * maxe) as nat);
                    crate::arith::lemma_pow_ge_one(pad as nat);
                    crate::arith::lemma_mul_pos(a as int, p10(3 * maxe));
                    crate::arith::lemma_mul_pos(a * p10(3 * maxe), p10(pad));
                    vstd::arithmetic::mul::lemma_mul_by_zero_is_zero(p10(z));
                }
            }
            assert(digit_seq(0nat) =~= seq!['0']);
            assert forall|j: int| 0 <= j < d0.len() implies #[trigger] d0[j] == '0' by {
                if j >= 1 {
                    assert(d0[j] == crate::digits::zero_chars((3 * maxe) as nat)[j - 1]);
                }
            }
            assert(n == 0) by {
                if n > 0 {
                    assert(t.last() != '0');
                    assert(t.last() == t0[n - 1]);
                    assert(t0[n - 1] == d0[ld + n - 1]);
                }
            }
            assert(e1 == de);
            assert(de == e) by {
                if e > 0 {
                    assert(len == 1 + 3 * e);
                    vstd::arithmetic::div_mod::lemma_div_multiples_vanish(e, 3);
                }
            }
        }
    }
    // the construction invariant holds at the reassembled exponent
    lemma_core_raw_ok(s, e, lo, hi, v, e1, a, maxe, mine, m);
}

/// Round trip between text and quantity: parsing an automatic-precision
/// rendering gives back a quantity equal in value to the original, in both
/// standard and RKM modes.
pub proof fn lemma_parse_format_round_trip(s: int, e: int, rkm: bool, lo: int, hi: int)
    requires
        raw_ok(s, e, lo, hi),
        lo <= s <= hi,
        lo == 0 || lo == -hi - 1,
        1000 <= hi <= u128::MAX,
        -lo <= u128::MAX,
        (hi + 1) % 1000 != 0,
        e >= 0 || crate::string::display_exp(abs(s), e) <= 0,
        -10 <= crate::string::display_exp(abs(s), e) <= 10,
    ensures
        ({
            let out = crate::string::format_spec(s, e, 0, rkm, false);
            match crate::string::parse_spec(out, lo, hi) {
                Ok((s2, e2)) => value_order(s2, e2, s, e) == core::cmp::Ordering::Equal,
                Err(_) => false,
            }
        }),
{
    let a = abs(s);
    let d0 = crate::string::display_digits(a, e);
    let de = crate::string::display_exp(a, e);
    let ld = crate::string::display_lead(a, e);
    let t = crate::digits::strip_zeros(d0.subrange(ld, d0.len() as int));
    if de == 0 {
        if t.len() == 0 {
            lemma_rt_plain(s, e, rkm, lo, hi);
        } else {
            lemma_rt_dot(s, e, rkm, lo, hi);
        }
    } else if rkm {
        lemma_rt_rkm(s, e, rkm, lo, hi);
    } else if t.len() == 0 {
        lemma_rt_prefix_only(s, e, rkm, lo, hi);
    } else {
        lemma_rt_standard(s, e, rkm, lo, hi);
    }
}

/// Round-trip case: no display prefix and no trailing digits, a plain
/// integer rendering.
#[verifier::rlimit(100)]
proof fn lemma_rt_plain(s: int, e: int, rkm: bool, lo: int, hi: int)
    requires
        raw_ok(s, e, lo, hi),
        lo <= s <= hi,
        lo == 0 || lo == -hi - 1,
        1000 <= hi <= u128::MAX,
        -lo <= u128::MAX,
        (hi + 1) % 1000 != 0,
        e >= 0 || crate::string::display_exp(abs(s), e) <= 0,
        -10 <= crate::string::display_exp(abs(s), e) <= 10,
        crate::string::display_exp(abs(s), e) == 0,
        crate::digits::strip_zeros(crate::string::display_digits(abs(s), e).subrange(crate::string::display_lead(abs(s), e), crate::string::display_digits(abs(s), e).len() as int)).len() == 0,
    ensures
        ({
            let out = crate::string::format_spec(s, e, 0, rkm, false);
            match crate::string::parse_spec(out, lo, hi) {
                Ok((s2, e2)) => value_order(s2, e2, s, e) == core::cmp::Ordering::Equal,
                Err(_) => false,
            }
        }),
{
    let a = abs(s);
    let d0 = crate::string::display_digits(a, e);
    let len = d0.len() as int;
    let de = crate::string::display_exp(a, e);
    let ld = crate::string::display_lead(a, e);
    let t0 = d0.subrange(ld, len);
    let t = crate::digits::strip_zeros(t0);
    let n = t.len() as int;
    let pad = if n % 3 == 0 {
        0int
    } else {
        3 - n % 3
    };
    let e1 = de - n / 3 - (if n % 3 == 0 {
        0int
    } else {
        1int
    });
    let leaders = d0.subrange(0, ld);
    let textd = leaders + t + crate::digits::zero_chars(pad as nat);
    let v = digits_val(textd);
    let sv = if s < 0 {
        -v
    } else {
        v
    };
    let sign = if s < 0 {
        seq!['-']
    } else {
        Seq::<char>::empty()
    };
    let sl = sign.len() as int;
    let si = crate::string::prefix_chars(de);
    let out = crate::string::format_spec(s, e, 0, rkm, false);
    // the sign can only occur on a signed range
    assert(s < 0 ==> lo < 0);
    lemma_core(s, e, lo, hi);
    crate::arith::lemma_pow1000_13();
    lemma_display_structure(a, e);
    crate::digits::lemma_strip_zeros(t0);
    crate::digits::lemma_zero_chars(pad as nat);
    // every character of the digit pieces is a digit and nothing else
    assert(crate::digits::all_digits(leaders) && crate::digits::all_digits(t)) by {
        assert forall|j: int| 0 <= j < ld implies crate::digits::is_digit(
            #[trigger] leaders[j],
        ) by {
            assert(leaders[j] == textd[j]);
        }
        assert forall|j: int| 0 <= j < n implies crate::digits::is_digit(#[trigger] t[j]) by {
            assert(t[j] == textd[j + ld]);
        }
    }
    // the auto-precision rendering takes the whole tail as trailers
    assert(out == sign + (if de == 0 {
        if n == 0 {
            leaders
        } else {
            leaders + seq!['.'] + t
        }
    } else if rkm {
        leaders + si + t
    } else if n == 0 {
        leaders + si
    } else {
        leaders + seq!['.'] + t + si
    }));
    // no prefix character and no point occurs anywhere
    assert(out =~= sign + leaders);
    assert forall|j: int| 0 <= j < out.len() implies crate::string::prefix_exp(
        #[trigger] out[j],
    ) is None && out[j] != '.' by {
        if j < sl {
            assert(out[j] == '-');
        } else {
            assert(out[j] == leaders[j - sl]);
            lemma_digit_not_special(leaders[j - sl]);
        }
    }
    crate::string::lemma_find_prefix_none(out);
    crate::string::lemma_find_dot_none(out);
    // plain-integer parse of sign and leaders
    assert(pad == 0);
    assert(textd =~= leaders);
    if s < 0 {
        assert(out.drop_first() =~= textd);
        assert(crate::string::parse_int_spec(out, lo, hi) == Some(-v));
    } else {
        assert(out =~= textd);
        assert(crate::string::parse_int_spec(out, lo, hi) == Some(v));
    }
    assert(e1 == 0) by {
        assert(n % 3 == 0);
    }
    assert(crate::string::parse_spec(out, lo, hi) == Ok::<(int, int), crate::Error>((sv, 0)));
}

/// Round-trip case: no display prefix, trailing digits after a point.
#[verifier::rlimit(100)]
proof fn lemma_rt_dot(s: int, e: int, rkm: bool, lo: int, hi: int)
    requires
        raw_ok(s, e, lo, hi),
        lo <= s <= hi,
        lo == 0 || lo == -hi - 1,
        1000 <= hi <= u128::MAX,
        -lo <= u128::MAX,
        (hi + 1) % 1000 != 0,
        e >= 0 || crate::string::display_exp(abs(s), e) <= 0,
        -10 <= crate::string::display_exp(abs(s), e) <= 10,
        crate::string::display_exp(abs(s), e) == 0,
        crate::digits::strip_zeros(crate::string::display_digits(abs(s), e).subrange(crate::string::display_lead(abs(s), e), crate::string::display_digits(abs(s), e).len() as int)).len() > 0,
    ensures
        ({
            let out = crate::string::format_spec(s, e, 0, rkm, false);
            match crate::string::parse_spec(out, lo, hi) {
                Ok((s2, e2)) => value_order(s2, e2, s, e) == core::cmp::Ordering::Equal,
                Err(_) => false,
            }
        }),
{
    let a = abs(s);
    let d0 = crate::string::display_digits(a, e);
    let len = d0.len() as int;
    let de = crate::string::display_exp(a, e);
    let ld = crate::string::display_lead(a, e);
    let t0 = d0.subrange(ld, len);
    let t = crate::digits::strip_zeros(t0);
    let n = t.len() as int;
    let pad = if n % 3 == 0 {
        0int
    } else {
        3 - n % 3
    };
    let e1 = de - n / 3 - (if n % 3 == 0 {
        0int
    } else {
        1int
    });
    let leaders = d0.subrange(0, ld);
    let textd = leaders + t + crate::digits::zero_chars(pad as nat);
    let v = digits_val(textd);
    let sv = if s < 0 {
        -v
    } else {
        v
    };
    let sign = if s < 0 {
        seq!['-']
    } else {
        Seq::<char>::empty()
    };
    let sl = sign.len() as int;
    let si = crate::string::prefix_chars(de);
    let out = crate::string::format_spec(s, e, 0, rkm, false);
    // the sign can only occur on a signed range
    assert(s < 0 ==> lo < 0);
    lemma_core(s, e, lo, hi);
    crate::arith::lemma_pow1000_13();
    lemma_display_structure(a, e);
    crate::digits::lemma_strip_zeros(t0);
    crate::digits::lemma_zero_chars(pad as nat);
    // every character of the digit pieces is a digit and nothing else
    assert(crate::digits::all_digits(leaders) && crate::digits::all_digits(t)) by {
        assert forall|j: int| 0 <= j < ld implies crate::digits::is_digit(
            #[trigger] leaders[j],
        ) by {
            assert(leaders[j] == textd[j]);
        }
        assert forall|j: int| 0 <= j < n implies crate::digits::is_digit(#[trigger] t[j]) by {
            assert(t[j] == textd[j + ld]);
        }
    }
    // the auto-precision rendering takes the whole tail as trailers
    assert(out == sign + (if de == 0 {
        if n == 0 {
            leaders
        } else {
            leaders + seq!['.'] + t
        }
    } else if rkm {
        leaders + si + t
    } else if n == 0 {
        leaders + si
    } else {
        leaders + seq!['.'] + t + si
    }));
    assert(out =~= sign + leaders + seq!['.'] + t);
            assert forall|j: int| 0 <= j < out.len() implies crate::string::prefix_exp(
                #[trigger] out[j],
            ) is None by {
                if j < sl {
                    assert(out[j] == '-');
                } else if j < sl + ld {
                    assert(out[j] == leaders[j - sl]);
                    lemma_digit_not_special(leaders[j - sl]);
                } else if j == sl + ld {
                    assert(out[j] == '.');
                } else {
                    assert(out[j] == t[j - sl - ld - 1]);
                    lemma_digit_not_special(t[j - sl - ld - 1]);
                }
            }
            crate::string::lemma_find_prefix_none(out);
            assert forall|j: int| 0 <= j < sl + ld implies #[trigger] out[j] != '.' by {
                if j < sl {
                    assert(out[j] == '-');
                } else {
                    assert(out[j] == leaders[j - sl]);
                    lemma_digit_not_special(leaders[j - sl]);
                }
            }
            assert(out[sl + ld] == '.');
            crate::string::lemma_find_dot_at(out, sl + ld);
            assert(out.take(sl + ld) =~= sign + leaders);
            assert(out.skip(sl + ld + 1) =~= t);
            lemma_parse_general(out, sl + ld, 0, s, e, lo, hi, leaders, t, n, pad, e1, v, false);
}

/// Round-trip case: RKM mode, the prefix stands in place of the point.
#[verifier::rlimit(100)]
proof fn lemma_rt_rkm(s: int, e: int, rkm: bool, lo: int, hi: int)
    requires
        raw_ok(s, e, lo, hi),
        lo <= s <= hi,
        lo == 0 || lo == -hi - 1,
        1000 <= hi <= u128::MAX,
        -lo <= u128::MAX,
        (hi + 1) % 1000 != 0,
        e >= 0 || crate::string::display_exp(abs(s), e) <= 0,
        -10 <= crate::string::display_exp(abs(s), e) <= 10,
        crate::string::display_exp(abs(s), e) != 0,
        rkm,
    ensures
        ({
            let out = crate::string::format_spec(s, e, 0, rkm, false);
            match crate::string::parse_spec(out, lo, hi) {
                Ok((s2, e2)) => value_order(s2, e2, s, e) == core::cmp::Ordering::Equal,
                Err(_) => false,
            }
        }),
{
    let a = abs(s);
    let d0 = crate::string::display_digits(a, e);
    let len = d0.len() as int;
    let de = crate::string::display_exp(a, e);
    let ld = crate::string::display_lead(a, e);
    let t0 = d0.subrange(ld, len);
    let t = crate::digits::strip_zeros(t0);
    let n = t.len() as int;
    let pad = if n % 3 == 0 {
        0int
    } else {
        3 - n % 3
    };
    let e1 = de - n / 3 - (if n % 3 == 0 {
        0int
    } else {
        1int
    });
    let leaders = d0.subrange(0, ld);
    let textd = leaders + t + crate::digits::zero_chars(pad as nat);
    let v = digits_val(textd);
    let sv = if s < 0 {
        -v
    } else {
        v
    };
    let sign = if s < 0 {
        seq!['-']
    } else {
        Seq::<char>::empty()
    };
    let sl = sign.len() as int;
    let si = crate::string::prefix_chars(de);
    let out = crate::string::format_spec(s, e, 0, rkm, false);
    // the sign can only occur on a signed range
    assert(s < 0 ==> lo < 0);
    lemma_core(s, e, lo, hi);
    crate::arith::lemma_pow1000_13();
    lemma_display_structure(a, e);
    crate::digits::lemma_strip_zeros(t0);
    crate::digits::lemma_zero_chars(pad as nat);
    // every character of the digit pieces is a digit and nothing else
    assert(crate::digits::all_digits(leaders) && crate::digits::all_digits(t)) by {
        assert forall|j: int| 0 <= j < ld implies crate::digits::is_digit(
            #[trigger] leaders[j],
        ) by {
            assert(leaders[j] == textd[j]);
        }
        assert forall|j: int| 0 <= j < n implies crate::digits::is_digit(#[trigger] t[j]) by {
            assert(t[j] == textd[j + ld]);
        }
    }
    // the auto-precision rendering takes the whole tail as trailers
    assert(out == sign + (if de == 0 {
        if n == 0 {
            leaders
        } else {
            leaders + seq!['.'] + t
        }
    } else if rkm {
        leaders + si + t
    } else if n == 0 {
        leaders + si
    } else {
        leaders + seq!['.'] + t + si
    }));
    lemma_prefix_char(de);
    assert(out =~= sign + leaders + si + t);
            assert forall|j: int| 0 <= j < sl + ld implies crate::string::prefix_exp(
                #[trigger] out[j],
            ) is None by {
                if j < sl {
                    assert(out[j] == '-');
                } else {
                    assert(out[j] == leaders[j - sl]);
                    lemma_digit_not_special(leaders[j - sl]);
                }
            }
            assert(out[sl + ld] == si[0]);
            crate::string::lemma_find_prefix_at(out, sl + ld);
            assert forall|j: int| 0 <= j < out.len() implies #[trigger] out[j] != '.' by {
                if j < sl {
                    assert(out[j] == '-');
                } else if j < sl + ld {
                    assert(out[j] == leaders[j - sl]);
                    lemma_digit_not_special(leaders[j - sl]);
                } else if j == sl + ld {
                } else {
                    assert(out[j] == t[j - sl - ld - 1]);
                    lemma_digit_not_special(t[j - sl - ld - 1]);
                }
            }
            crate::string::lemma_find_dot_none(out);
            assert(out.take(sl + ld) =~= sign + leaders);
            assert(out.skip(sl + ld + 1) =~= t);
            lemma_parse_general(out, sl + ld, de, s, e, lo, hi, leaders, t, n, pad, e1, v, false);
}

/// Round-trip case: standard mode with a prefix but no trailing digits.
#[verifier::rlimit(100)]
proof fn lemma_rt_prefix_only(s: int, e: int, rkm: bool, lo: int, hi: int)
    requires
        raw_ok(s, e, lo, hi),
        lo <= s <= hi,
        lo == 0 || lo == -hi - 1,
        1000 <= hi <= u128::MAX,
        -lo <= u128::MAX,
        (hi + 1) % 1000 != 0,
        e >= 0 || crate::string::display_exp(abs(s), e) <= 0,
        -10 <= crate::string::display_exp(abs(s), e) <= 10,
        crate::string::display_exp(abs(s), e) != 0,
        !rkm,
        crate::digits::strip_zeros(crate::string::display_digits(abs(s), e).subrange(crate::string::display_lead(abs(s), e), crate::string::display_digits(abs(s), e).len() as int)).len() == 0,
    ensures
        ({
            let out = crate::string::format_spec(s, e, 0, rkm, false);
            match crate::string::parse_spec(out, lo, hi) {
                Ok((s2, e2)) => value_order(s2, e2, s, e) == core::cmp::Ordering::Equal,
                Err(_) => false,
            }
        }),
{
    let a = abs(s);
    let d0 = crate::string::display_digits(a, e);
    let len = d0.len() as int;
    let de = crate::string::display_exp(a, e);
    let ld = crate::string::display_lead(a, e);
    let t0 = d0.subrange(ld, len);
    let t = crate::digits::strip_zeros(t0);
    let n = t.len() as int;
    let pad = if n % 3 == 0 {
        0int
    } else {
        3 - n % 3
    };
    let e1 = de - n / 3 - (if n % 3 == 0 {
        0int
    } else {
        1int
    });
    let leaders = d0.subrange(0, ld);
    let textd = leaders + t + crate::digits::zero_chars(pad as nat);
    let v = digits_val(textd);
    let sv = if s < 0 {
        -v
    } else {
        v
    };
    let sign = if s < 0 {
        seq!['-']
    } else {
        Seq::<char>::empty()
    };
    let sl = sign.len() as int;
    let si = crate::string::prefix_chars(de);
    let out = crate::string::format_spec(s, e, 0, rkm, false);
    // the sign can only occur on a signed range
    assert(s < 0 ==> lo < 0);
    lemma_core(s, e, lo, hi);
    crate::arith::lemma_pow1000_13();
    lemma_display_structure(a, e);
    crate::digits::lemma_strip_zeros(t0);
    crate::digits::lemma_zero_chars(pad as nat);
    // every character of the digit pieces is a digit and nothing else
    assert(crate::digits::all_digits(leaders) && crate::digits::all_digits(t)) by {
        assert forall|j: int| 0 <= j < ld implies crate::digits::is_digit(
            #[trigger] leaders[j],
        ) by {
            assert(leaders[j] == textd[j]);
        }
        assert forall|j: int| 0 <= j < n implies crate::digits::is_digit(#[trigger] t[j]) by {
            assert(t[j] == textd[j + ld]);
        }
    }
    // the auto-precision rendering takes the whole tail as trailers
    assert(out == sign + (if de == 0 {
        if n == 0 {
            leaders
        } else {
            leaders + seq!['.'] + t
        }
    } else if rkm {
        leaders + si + t
    } else if n == 0 {
        leaders + si
    } else {
        leaders + seq!['.'] + t + si
    }));
    lemma_prefix_char(de);
    assert(out =~= sign + leaders + si);
            assert forall|j: int| 0 <= j < sl + ld implies crate::string::prefix_exp(
                #[trigger] out[j],
            ) is None by {
                if j < sl {
                    assert(out[j] == '-');
                } else {
                    assert(out[j] == leaders[j - sl]);
                    lemma_digit_not_special(leaders[j - sl]);
                }
            }
            assert(out[sl + ld] == si[0]);
            crate::string::lemma_find_prefix_at(out, sl + ld);
            assert forall|j: int| 0 <= j < out.len() implies #[trigger] out[j] != '.' by {
                if j < sl {
                    assert(out[j] == '-');
                } else if j < sl + ld {
                    assert(out[j] == leaders[j - sl]);
                    lemma_digit_not_special(leaders[j - sl]);
                }
            }
            crate::string::lemma_find_dot_none(out);
            assert(out.take(sl + ld) =~= sign + leaders);
            assert(out.skip(sl + ld + 1) =~= t);
            lemma_parse_general(out, sl + ld, de, s, e, lo, hi, leaders, t, n, pad, e1, v, false);
}

/// Round-trip case: standard mode, point, trailers, and prefix suffix.
#[verifier::rlimit(100)]
proof fn lemma_rt_standard(s: int, e: int, rkm: bool, lo: int, hi: int)
    requires
        raw_ok(s, e, lo, hi),
        lo <= s <= hi,
        lo == 0 || lo == -hi - 1,
        1000 <= hi <= u128::MAX,
        -lo <= u128::MAX,
        (hi + 1) % 1000 != 0,
        e >= 0 || crate::string::display_exp(abs(s), e) <= 0,
        -10 <= crate::string::display_exp(abs(s), e) <= 10,
        crate::string::display_exp(abs(s), e) != 0,
        !rkm,
        crate::digits::strip_zeros(crate::string::display_digits(abs(s), e).subrange(crate::string::display_lead(abs(s), e), crate::string::display_digits(abs(s), e).len() as int)).len() > 0,
    ensures
        ({
            let out = crate::string::format_spec(s, e, 0, rkm, false);
            match crate::string::parse_spec(out, lo, hi) {
                Ok((s2, e2)) => value_order(s2, e2, s, e) == core::cmp::Ordering::Equal,
                Err(_) => false,
            }
        }),
{
    let a = abs(s);
    let d0 = crate::string::display_digits(a, e);
    let len = d0.len() as int;
    let de = crate::string::display_exp(a, e);
    let ld = crate::string::display_lead(a, e);
    let t0 = d0.subrange(ld, len);
    let t = crate::digits::strip_zeros(t0);
    let n = t.len() as int;
    let pad = if n % 3 == 0 {
        0int
    } else {
        3 - n % 3
    };
    let e1 = de - n / 3 - (if n % 3 == 0 {
        0int
    } else {
        1int
    });
    let leaders = d0.subrange(0, ld);
    let textd = leaders + t + crate::digits::zero_chars(pad as nat);
    let v = digits_val(textd);
    let sv = if s < 0 {
        -v
    } else {
        v
    };
    let sign = if s < 0 {
        seq!['-']
    } else {
        Seq::<char>::empty()
    };
    let sl = sign.len() as int;
    let si = crate::string::prefix_chars(de);
    let out = crate::string::format_spec(s, e, 0, rkm, false);
    // the sign can only occur on a signed range
    assert(s < 0 ==> lo < 0);
    lemma_core(s, e, lo, hi);
    crate::arith::lemma_pow1000_13();
    lemma_display_structure(a, e);
    crate::digits::lemma_strip_zeros(t0);
    crate::digits::lemma_zero_chars(pad as nat);
    // every character of the digit pieces is a digit and nothing else
    assert(crate::digits::all_digits(leaders) && crate::digits::all_digits(t)) by {
        assert forall|j: int| 0 <= j < ld implies crate::digits::is_digit(
            #[trigger] leaders[j],
        ) by {
            assert(leaders[j] == textd[j]);
        }
        assert forall|j: int| 0 <= j < n implies crate::digits::is_digit(#[trigger] t[j]) by {
            assert(t[j] == textd[j + ld]);
        }
    }
    // the auto-precision rendering takes the whole tail as trailers
    assert(out == sign + (if de == 0 {
        if n == 0 {
            leaders
        } else {
            leaders + seq!['.'] + t
        }
    } else if rkm {
        leaders + si + t
    } else if n == 0 {
        leaders + si
    } else {
        leaders + seq!['.'] + t + si
    }));
    lemma_prefix_char(de);
    assert(out =~= sign + leaders + seq!['.'] + t + si);
            let pidx = sl + ld + 1 + n;
            assert forall|j: int| 0 <= j < pidx implies crate::string::prefix_exp(
                #[trigger] out[j],
            ) is None by {
                if j < sl {
                    assert(out[j] == '-');
                } else if j < sl + ld {
                    assert(out[j] == leaders[j - sl]);
                    lemma_digit_not_special(leaders[j - sl]);
                } else if j == sl + ld {
                    assert(out[j] == '.');
                } else {
                    assert(out[j] == t[j - sl - ld - 1]);
                    lemma_digit_not_special(t[j - sl - ld - 1]);
                }
            }
            assert(out[pidx] == si[0]);
            crate::string::lemma_find_prefix_at(out, pidx);
            assert forall|j: int| 0 <= j < sl + ld implies #[trigger] out[j] != '.' by {
                if j < sl {
                    assert(out[j] == '-');
                } else {
                    assert(out[j] == leaders[j - sl]);
                    lemma_digit_not_special(leaders[j - sl]);
                }
            }
            assert(out[sl + ld] == '.');
            crate::string::lemma_find_dot_at(out, sl + ld);
            assert(out.take(sl + ld) =~= sign + leaders);
            assert(out.skip(sl + ld + 1) =~= t + si);
            assert(out.skip(sl + ld + 1).len() == n + 1);
            assert(out.skip(sl + ld + 1).drop_last() =~= t);
            lemma_parse_general(out, sl + ld, de, s, e, lo, hi, leaders, t, n, pad, e1, v, true);
}

/// Evaluates the parser's general (split) branch on a rendering whose
/// pieces are already identified: the reassembled text is the sign and
/// digit text, and the result satisfies the construction invariant.
#[verifier::rlimit(100)]
proof fn lemma_parse_general(
    out: Seq<char>,
    split: int,
    e0: int,
    s: int,
    e: int,
    lo: int,
    hi: int,
    leaders: Seq<char>,
    t: Seq<char>,
    n: int,
    pad: int,
    e1: int,
    v: int,
    popped: bool,
)
    requires
        ({
            let a = abs(s);
            let d0 = crate::string::display_digits(a, e);
            let len = d0.len() as int;
            let de = crate::string::display_exp(a, e);
            let ld = crate::string::display_lead(a, e);
            let t0 = d0.subrange(ld, len);
            let sign = if s < 0 {
                seq!['-']
            } else {
                Seq::<char>::empty()
            };
            let sl = sign.len() as int;
            &&& raw_ok(s, e, lo, hi)
            &&& lo <= s <= hi
            &&& leaders == d0.subrange(0, ld)
            &&& t == crate::digits::strip_zeros(t0)
            &&& n == t.len()
            &&& pad == (if n % 3 == 0 {
                0int
            } else {
                3 - n % 3
            })
            &&& e1 == de - n / 3 - (if n % 3 == 0 {
                0int
            } else {
                1int
            })
            &&& v == digits_val(leaders + t + crate::digits::zero_chars(pad as nat))
            &&& split == sl + ld
            &&& out.take(split) == sign + leaders
            &&& (if popped {
                out.skip(split + 1).len() > 0 && out.skip(split + 1).drop_last() == t
            } else {
                out.skip(split + 1) == t
            })
            &&& crate::string::find_dot(out) == (if e0 == 0 || popped {
                Some(split)
            } else {
                None::<int>
            })
            &&& crate::string::find_prefix(out) == (if e0 == 0 {
                None::<(int, int)>
            } else if popped {
                Some((split + 1 + n, e0))
            } else {
                Some((split, e0))
            })
            &&& e0 == de
            &&& (popped ==> e0 != 0)
            &&& !(crate::string::find_prefix(out) is None && crate::string::find_dot(
                out,
            ) is None)
            &&& s < 0 ==> lo < 0
            &&& lo == 0 || lo == -hi - 1
            &&& 1000 <= hi <= u128::MAX
            &&& -lo <= u128::MAX
            &&& (hi + 1) % 1000 != 0
            &&& (e >= 0 || de <= 0)
        }),
    ensures
        ({
            let sv = if s < 0 {
                -v
            } else {
                v
            };
            crate::string::parse_spec(out, lo, hi) == Ok::<(int, int), crate::Error>((sv, e1))
                && value_order(sv, e1, s, e) == core::cmp::Ordering::Equal
        }),
{
    let a = abs(s);
    let d0 = crate::string::display_digits(a, e);
    let len = d0.len() as int;
    let de = crate::string::display_exp(a, e);
    let ld = crate::string::display_lead(a, e);
    let sign = if s < 0 {
        seq!['-']
    } else {
        Seq::<char>::empty()
    };
    let sl = sign.len() as int;
    let sv = if s < 0 {
        -v
    } else {
        v
    };
    lemma_core(s, e, lo, hi);
    lemma_display_structure(a, e);
    crate::arith::lemma_pow1000_13();
    let textd = leaders + t + crate::digits::zero_chars(pad as nat);
    // the parser's reassembled text is the sign followed by the digit text
    let right0 = out.skip(split + 1);
    let right = if crate::string::find_dot(out) is Some && crate::string::find_prefix(
        out,
    ) is Some && right0.len() > 0 {
        right0.drop_last()
    } else {
        right0
    };
    assert(right == t) by {
        if popped {
            assert(crate::string::find_dot(out) is Some);
            assert(crate::string::find_prefix(out) is Some);
        } else {
            if crate::string::find_dot(out) is Some && crate::string::find_prefix(
                out,
            ) is Some {
                // only the popped shape has both a dot and a prefix
                assert(e0 == 0 ==> crate::string::find_prefix(out) is None);
                assert(e0 != 0 && !popped ==> crate::string::find_dot(out) is None);
                assert(false);
            }
        }
    }
    let text = out.take(split) + right + crate::digits::zero_chars(pad as nat);
    assert(text == sign + textd) by {
        assert(text =~= sign + (leaders + t + crate::digits::zero_chars(pad as nat)));
    }
    assert(textd.len() >= 1);
    if s < 0 {
        assert(text.drop_first() =~= textd);
        assert(text[0] == '-');
        assert(crate::string::parse_int_spec(text, lo, hi) == Some(-v));
    } else {
        assert(text =~= textd);
        assert(text[0] != '-') by {
            assert(crate::digits::is_digit(textd[0]));
        }
        assert(crate::string::parse_int_spec(text, lo, hi) == Some(v));
    }
    assert(e1 >= -12);
    assert(crate::string::parse_spec(out, lo, hi) == Ok::<(int, int), crate::Error>((sv, e1)));
}

/// Commutes a product of three factors: `x * y * w == x * w * y`.
proof fn lemma_mul_shuffle(x: int, y: int, w: int)
    ensures
        x * y * w == x * w * y,
{
    vstd::arithmetic::mul::lemma_mul_is_associative(x, y, w);
    vstd::arithmetic::mul::lemma_mul_is_associative(x, w, y);
    vstd::arithmetic::mul::lemma_mul_is_commutative(y, w);
}

/// The reassembled significand and exponent satisfy the construction
/// invariant.
proof fn lemma_core_raw_ok(
    s: int,
    e: int,
    lo: int,
    hi: int,
    v: int,
    e1: int,
    a: nat,
    maxe: int,
    mine: int,
    m: int,
)
    requires
        raw_ok(s, e, lo, hi),
        lo <= s <= hi,
        lo == 0 || lo == -hi - 1,
        1000 <= hi <= u128::MAX,
        (hi + 1) % 1000 != 0,
        a == abs(s),
        maxe == (if e > 0 {
            e
        } else {
            0
        }),
        mine == min(e, 0),
        -12 <= e <= 12,
        mine <= e1,
        m == min(e1, e),
        0 <= v,
        v <= (if s < 0 {
            -lo
        } else {
            hi
        }),
        v * pow1000((e1 - m) as nat) == a * pow1000((e - m) as nat),
        v == 0 ==> e1 == e,
    ensures
        raw_ok(
            if s < 0 {
                -v
            } else {
                v
            },
            e1,
            lo,
            hi,
        ),
{
    let sv = if s < 0 {
        -v
    } else {
        v
    };
    crate::arith::lemma_pow_ge_one(abs(e));
    crate::arith::lemma_pow_ge_one(abs(e1));
    crate::arith::lemma_pow_ge_one((e1 - m) as nat);
    crate::arith::lemma_pow_ge_one((e - m) as nat);
    if e1 < 0 {
        // a negative exponent only needs its scaling factor to fit, and it
        // is no larger than the original quantity's
        assert(e < 0) by {
            if e >= 0 {
                assert(mine == 0);
            }
        }
        crate::arith::lemma_pow1000_monotone((-e1) as nat, (-e) as nat);
    } else if v == 0 {
        // the zero significand reassembles at the original exponent
        assert(e1 == e);
        vstd::arithmetic::mul::lemma_mul_by_zero_is_zero(pow1000(e1 as nat));
        assert(sv == 0);
    } else if e >= 0 {
        // both exponents non-negative: the scaled products are equal
        assert(v >= 1);
        assert(v * pow1000(e1 as nat) == a * pow1000(e as nat)) by {
            lemma_scale_common(v, e1, a, e, m);
        }
        assert(pow1000(e1 as nat) <= v * pow1000(e1 as nat)) by {
            vstd::arithmetic::mul::lemma_mul_inequality(1, v, pow1000(e1 as nat));
            lemma_mul_basics(pow1000(e1 as nat));
            vstd::arithmetic::mul::lemma_mul_is_commutative(v, pow1000(e1 as nat));
        }
        lemma_abs_product_bounds(s, e, lo, hi, a);
        assert(a * pow1000(e as nat) <= hi + 1);
        lemma_pow_not_bound_plus_one(e1, hi);
        assert(pow1000(abs(e1)) <= hi);
        if s < 0 {
            lemma_mul_unary_negation(v, pow1000(e1 as nat));
            lemma_mul_unary_negation(a as int, pow1000(e as nat));
            assert(sv * pow1000(e1 as nat) == s * pow1000(e as nat));
        } else {
            assert(sv * pow1000(e1 as nat) == s * pow1000(e as nat));
        }
    } else {
        // e < 0 <= e1, so the common base is e and the scaled value is at
        // most the significand's magnitude
        assert(v >= 1);
        assert(m == e);
        assert(v * pow1000((e1 - e) as nat) == a) by {
            vstd::arithmetic::power::lemma_pow0(1000);
            lemma_mul_basics(a as int);
        }
        assert(pow1000(abs(e1)) <= pow1000((e1 - e) as nat)) by {
            crate::arith::lemma_pow1000_monotone(abs(e1), (e1 - e) as nat);
        }
        assert(v * pow1000(abs(e1)) <= v * pow1000((e1 - e) as nat)) by {
            vstd::arithmetic::mul::lemma_mul_left_inequality(
                v,
                pow1000(abs(e1)),
                pow1000((e1 - e) as nat),
            );
        }
        assert(a <= (if s < 0 {
            -lo
        } else {
            hi
        }));
        assert(v * pow1000(abs(e1)) <= hi + 1);
        assert(pow1000(abs(e1)) <= hi + 1) by {
            vstd::arithmetic::mul::lemma_mul_inequality(1, v, pow1000(abs(e1)));
            lemma_mul_basics(pow1000(abs(e1)));
            vstd::arithmetic::mul::lemma_mul_is_commutative(v, pow1000(abs(e1)));
        }
        lemma_pow_not_bound_plus_one(e1, hi);
        if s < 0 {
            lemma_mul_unary_negation(v, pow1000(abs(e1)));
            assert(v * pow1000(abs(e1)) <= -lo);
            assert(sv * pow1000(abs(e1)) >= lo);
            assert(sv * pow1000(abs(e1)) <= 0 <= hi) by {
                crate::arith::lemma_mul_pos(v, pow1000(abs(e1)));
            }
        } else {
            assert(v * pow1000(abs(e1)) <= hi) by {
                if v * pow1000(abs(e1)) == hi + 1 {
                    // a power-of-two bound is not a multiple of 1000
                    if e1 >= 1 {
                        lemma_value_mod_1000(v, e1);
                    } else {
                        vstd::arithmetic::power::lemma_pow0(1000);
                        lemma_mul_basics(v);
                    }
                }
            }
        }
    }
}

/// When both exponents are non-negative, the scaled values at the common
/// base extend to the full scaling factors.
proof fn lemma_scale_common(v: int, e1: int, a: nat, e: int, m: int)
    requires
        m == min(e1, e),
        e1 >= 0,
        e >= 0,
        v * pow1000((e1 - m) as nat) == a * pow1000((e - m) as nat),
    ensures
        v * pow1000(e1 as nat) == a * pow1000(e as nat),
{
    assert(m >= 0);
    vstd::arithmetic::power::lemma_pow_adds(1000, (e1 - m) as nat, m as nat);
    vstd::arithmetic::power::lemma_pow_adds(1000, (e - m) as nat, m as nat);
    vstd::arithmetic::mul::lemma_mul_is_associative(v, pow1000((e1 - m) as nat), pow1000(m as nat));
    vstd::arithmetic::mul::lemma_mul_is_associative(
        a as int,
        pow1000((e - m) as nat),
        pow1000(m as nat),
    );
}

/// For a non-negative exponent, the scaled product of a valid quantity is
/// bounded by the range size.
proof fn lemma_abs_product_bounds(s: int, e: int, lo: int, hi: int, a: nat)
    requires
        raw_ok(s, e, lo, hi),
        e >= 0,
        lo == 0 || lo == -hi - 1,
        a == abs(s),
    ensures
        a * pow1000(e as nat) <= hi + 1,
        s >= 0 ==> a * pow1000(e as nat) <= hi,
        s < 0 ==> a * pow1000(e as nat) <= -lo,
{
    if s < 0 {
        lemma_mul_unary_negation(a as int, pow1000(e as nat));
        assert(s * pow1000(e as nat) == -(a * pow1000(e as nat)));
    }
}

/// A positive power of 1000 bounded by one more than the type maximum is in
/// fact bounded by the maximum, because the power is a multiple of 1000
/// while the count of values is a power of two.
proof fn lemma_pow_not_bound_plus_one(e1: int, hi: int)
    requires
        e1 >= 0,
        pow1000(abs(e1)) <= hi + 1,
        (hi + 1) % 1000 != 0,
        1000 <= hi,
    ensures
        pow1000(abs(e1)) <= hi,
{
    if pow1000(abs(e1)) == hi + 1 {
        vstd::arithmetic::power::lemma_pow0(1000);
        if e1 >= 1 {
            assert(abs(e1) == e1);
            lemma_pow1000_mod(abs(e1));
        }
    }
}

/// A positive power of 1000 is a multiple of 1000.
proof fn lemma_pow1000_mod(k: nat)
    requires
        k >= 1,
    ensures
        pow1000(k) % 1000 == 0,
{
    crate::arith::lemma_pow1000_step((k - 1) as nat);
    crate::arith::lemma_mul_1000_mod(pow1000((k - 1) as nat));
}

/// A value times a positive power of 1000 that lands exactly on a
/// power-of-two bound is impossible; used to push a `<= hi + 1` bound down
/// to `<= hi`.
proof fn lemma_value_mod_1000(v: int, e1: int)
    requires
        e1 >= 1,
    ensures
        (v * pow1000(abs(e1))) % 1000 == 0,
{
    assert(abs(e1) == e1);
    lemma_pow1000_mod(abs(e1));
    let p = pow1000(abs(e1));
    vstd::arithmetic::div_mod::lemma_fundamental_div_mod(p, 1000);
    let q = p / 1000;
    assert(p == 1000 * q);
    vstd::arithmetic::mul::lemma_mul_is_associative(v, 1000, q);
    vstd::arithmetic::mul::lemma_mul_is_commutative(v, 1000);
    vstd::arithmetic::mul::lemma_mul_is_associative(1000, v, q);
    crate::arith::lemma_mul_1000_mod(v * q);
    vstd::arithmetic::mul::lemma_mul_is_commutative(v * q, 1000);
}

} // verus!
