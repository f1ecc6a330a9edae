//! Powers of ten and of one thousand: the specification-level functions the
//! contracts are written over, executable checked computations of those
//! powers, and the lemmas relating them.

use vstd::prelude::*;

use vstd::arithmetic::mul::{
    lemma_mul_inequality, lemma_mul_is_associative, lemma_mul_is_commutative,
    lemma_mul_left_inequality, lemma_mul_strictly_positive,
};
use vstd::arithmetic::power::{
    lemma_pow0, lemma_pow1, lemma_pow_adds, lemma_pow_increases, lemma_pow_positive, pow,
};

verus! {

/// `10^e`, as a mathematical integer.
pub open spec fn pow10(e: nat) -> int {
    pow(10, e)
}

/// `1000^e`, as a mathematical integer.
pub open spec fn pow1000(e: nat) -> int {
    pow(1000, e)
}

/// Powers of ten and of one thousand are at least one.
pub proof fn lemma_pow_ge_one(e: nat)
    ensures
        pow10(e) >= 1,
        pow1000(e) >= 1,
{
    lemma_pow_positive(10, e);
    lemma_pow_positive(1000, e);
}

/// Unfolds one step of `pow1000`.
pub proof fn lemma_pow1000_step(e: nat)
    ensures
        pow1000(e + 1) == pow1000(e) * 1000,
{
    lemma_pow_adds(1000, e, 1);
    lemma_pow1(1000);
}

/// Unfolds one step of `pow10`.
pub proof fn lemma_pow10_step(e: nat)
    ensures
        pow10(e + 1) == pow10(e) * 10,
{
    lemma_pow_adds(10, e, 1);
    lemma_pow1(10);
}

/// `pow1000` is monotone in the exponent.
pub proof fn lemma_pow1000_monotone(e1: nat, e2: nat)
    requires
        e1 <= e2,
    ensures
        pow1000(e1) <= pow1000(e2),
{
    lemma_pow_increases(1000, e1, e2);
}

/// A power of 1000 is the cube of the same power of 10.
pub proof fn lemma_pow1000_pow10(e: nat)
    ensures
        pow1000(e) == pow10(3 * e),
    decreases e,
{
    if e == 0 {
        lemma_pow0(1000);
        lemma_pow0(10);
    } else {
        lemma_pow1000_pow10((e - 1) as nat);
        lemma_pow1000_step((e - 1) as nat);
        lemma_pow10_step((3 * e - 3) as nat);
        lemma_pow10_step((3 * e - 2) as nat);
        lemma_pow10_step((3 * e - 1) as nat);
        assert(pow1000(e) == pow10((3 * e - 3) as nat) * 1000);
        assert(pow10((3 * e - 2) as nat) == pow10((3 * e - 3) as nat) * 10);
        assert(pow10((3 * e - 1) as nat) == pow10((3 * e - 3) as nat) * 10 * 10);
        assert(pow10(3 * e) == pow10((3 * e - 3) as nat) * 10 * 10 * 10);
        lemma_mul_is_associative(pow10((3 * e - 3) as nat), 10, 10);
        lemma_mul_is_associative(pow10((3 * e - 3) as nat) * 10, 10, 10);
        lemma_mul_is_associative(pow10((3 * e - 3) as nat), 100int, 10int);
        assert(pow10(3 * e) == pow10((3 * e - 3) as nat) * 1000) by {
            assert(pow10(3 * e) == ((pow10((3 * e - 3) as nat) * 10) * 10) * 10);
            assert(((pow10((3 * e - 3) as nat) * 10) * 10) * 10 == pow10((3 * e - 3) as nat) * (10
                * 10 * 10)) by {
                lemma_mul_is_associative(pow10((3 * e - 3) as nat), 10int, 100int);
                lemma_mul_is_associative(pow10((3 * e - 3) as nat) * 10, 10, 10);
                lemma_mul_is_associative(pow10((3 * e - 3) as nat), 10, 10);
            }
        }
    }
}

/// Computes `1000^e` as long as it stays within `bound`.
pub fn pow1000_checked(e: u32, bound: u128) -> (r: Option<u128>)
    ensures
        match r {
            Some(p) => p == pow1000(e as nat) && p <= bound,
            None => pow1000(e as nat) > bound,
        },
{
    let mut acc: u128 = 1;
    let mut i: u32 = 0;
    proof {
        lemma_pow_ge_one(e as nat);
        lemma_pow0(1000);
    }
    if bound == 0 {
        return None;
    }
    while i < e
        invariant
            i <= e,
            acc == pow1000(i as nat),
            acc <= bound,
            bound >= 1,
        decreases e - i,
    {
        proof {
            lemma_pow1000_step(i as nat);
        }
        let next = acc.checked_mul(1000);
        match next {
            Some(v) => {
                if v > bound {
                    proof {
                        lemma_pow1000_monotone((i + 1) as nat, e as nat);
                    }
                    return None;
                }
                acc = v;
            },
            None => {
                proof {
                    lemma_pow1000_monotone((i + 1) as nat, e as nat);
                }
                return None;
            },
        }
        i = i + 1;
    }
    Some(acc)
}

/// Computes `a * 1000^d` in `u128`, reporting when it exceeds the range.
pub fn scale_mag(a: u128, d: u32) -> (r: Option<u128>)
    ensures
        match r {
            Some(v) => v == a * pow1000(d as nat),
            None => a * pow1000(d as nat) > u128::MAX,
        },
{
    if a == 0 {
        proof {
            lemma_pow_ge_one(d as nat);
        }
        return Some(0);
    }
    let mut acc: u128 = a;
    let mut i: u32 = 0;
    proof {
        lemma_pow0(1000);
    }
    while i < d
        invariant
            i <= d,
            a >= 1,
            acc == a * pow1000(i as nat),
            acc >= a,
        decreases d - i,
    {
        proof {
            lemma_pow1000_step(i as nat);
            lemma_mul_is_associative(a as int, pow1000(i as nat), 1000);
            lemma_pow_ge_one(i as nat);
        }
        let next = acc.checked_mul(1000);
        match next {
            Some(v) => {
                acc = v;
                proof {
                    lemma_pow_ge_one((i + 1) as nat);
                    lemma_mul_left_inequality(a as int, 1, pow1000((i + 1) as nat));
                }
            },
            None => {
                proof {
                    // a * 1000^d >= a * 1000^(i+1) > u128::MAX
                    lemma_pow1000_monotone((i + 1) as nat, d as nat);
                    lemma_mul_left_inequality(
                        a as int,
                        pow1000((i + 1) as nat),
                        pow1000(d as nat),
                    );
                }
                return None;
            },
        }
        i = i + 1;
    }
    proof {
        lemma_pow_ge_one(d as nat);
    }
    Some(acc)
}

/// The thirteenth power of 1000 exceeds the `u128` range, so any valid
/// scaling factor has exponent magnitude at most 12.
pub proof fn lemma_pow1000_13()
    ensures
        pow1000(13) > u128::MAX,
        forall|e: nat| pow1000(e) <= u128::MAX ==> e <= 12,
{
    lemma_pow0(1000);
    assert(pow1000(1) == 1000) by {
        lemma_pow1000_step(0);
    }
    assert(pow1000(2) == 1000000) by {
        lemma_pow1000_step(1);
    }
    assert(pow1000(3) == 1000000000) by {
        lemma_pow1000_step(2);
    }
    assert(pow1000(4) == 1000000000000) by {
        lemma_pow1000_step(3);
    }
    assert(pow1000(5) == 1000000000000000) by {
        lemma_pow1000_step(4);
    }
    assert(pow1000(6) == 1000000000000000000) by {
        lemma_pow1000_step(5);
    }
    assert(pow1000(7) == 1000000000000000000000) by {
        lemma_pow1000_step(6);
    }
    assert(pow1000(8) == 1000000000000000000000000) by {
        lemma_pow1000_step(7);
    }
    assert(pow1000(9) == 1000000000000000000000000000) by {
        lemma_pow1000_step(8);
    }
    assert(pow1000(10) == 1000000000000000000000000000000) by {
        lemma_pow1000_step(9);
    }
    assert(pow1000(11) == 1000000000000000000000000000000000) by {
        lemma_pow1000_step(10);
    }
    assert(pow1000(12) == 1000000000000000000000000000000000000) by {
        lemma_pow1000_step(11);
    }
    assert(pow1000(13) == 1000000000000000000000000000000000000000) by {
        lemma_pow1000_step(12);
    }
    assert forall|e: nat| pow1000(e) <= u128::MAX implies e <= 12 by {
        if e > 12 {
            lemma_pow1000_monotone(13, e);
        }
    }
}

/// A positive multiple of 1000 is divisible by 1000.
pub proof fn lemma_mul_1000_mod(m: int)
    ensures
        (m * 1000) % 1000 == 0,
{
    vstd::arithmetic::div_mod::lemma_mod_multiples_basic(m, 1000);
}

/// Truncating division toward zero of a signed value given as sign and
/// magnitude.
pub open spec fn trunc_div_by(s: int, p: int) -> int {
    if s >= 0 {
        s / p
    } else {
        -((-s) / p)
    }
}

/// The product of two positive numbers is positive.
pub proof fn lemma_mul_pos(x: int, y: int)
    requires
        x > 0,
        y > 0,
    ensures
        x * y > 0,
        x * y >= x,
        x * y >= y,
{
    lemma_mul_strictly_positive(x, y);
    lemma_mul_left_inequality(x, 1, y);
    lemma_mul_inequality(1, x, y);
    lemma_mul_is_commutative(x, y);
}

} // verus!
