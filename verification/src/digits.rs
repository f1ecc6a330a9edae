//! Decimal digit sequences: the specification of the digit string of a
//! number, the numeric value of a digit string, and verified helpers to
//! produce and read them.

use vstd::prelude::*;

use vstd::arithmetic::mul::{lemma_mul_inequality, lemma_mul_is_associative,
    lemma_mul_is_distributive_add_other_way, lemma_mul_left_inequality};

use crate::arith::{lemma_pow10_step, lemma_pow_ge_one, pow10};

verus! {

/// Whether `c` is a decimal digit.
pub open spec fn is_digit(c: char) -> bool {
    48 <= c as int <= 57
}

/// The numeric value of a digit character.
pub open spec fn digit_val(c: char) -> int {
    c as int - 48
}

/// The digit character for a value in `0..10`.
pub open spec fn digit_char(d: int) -> char {
    if d == 0 {
        '0'
    } else if d == 1 {
        '1'
    } else if d == 2 {
        '2'
    } else if d == 3 {
        '3'
    } else if d == 4 {
        '4'
    } else if d == 5 {
        '5'
    } else if d == 6 {
        '6'
    } else if d == 7 {
        '7'
    } else if d == 8 {
        '8'
    } else {
        '9'
    }
}

/// The decimal digit string of `n`, most significant digit first.
pub open spec fn digit_seq(n: nat) -> Seq<char>
    decreases n,
{
    if n < 10 {
        seq![digit_char(n as int)]
    } else {
        digit_seq(n / 10).push(digit_char((n % 10) as int))
    }
}

/// Whether every character of `s` is a decimal digit.
pub open spec fn all_digits(s: Seq<char>) -> bool {
    forall|i: int| 0 <= i < s.len() ==> is_digit(#[trigger] s[i])
}

/// The numeric value of a digit string (0 for the empty string).
pub open spec fn digits_val(s: Seq<char>) -> int
    decreases s.len(),
{
    if s.len() == 0 {
        0
    } else {
        digits_val(s.drop_last()) * 10 + digit_val(s.last())
    }
}

/// A run of `k` zero characters.
pub open spec fn zero_chars(k: nat) -> Seq<char> {
    Seq::new(k, |i: int| '0')
}

/// `s` with its trailing zero characters removed.
pub open spec fn strip_zeros(s: Seq<char>) -> Seq<char>
    decreases s.len(),
{
    if s.len() > 0 && s.last() == '0' {
        strip_zeros(s.drop_last())
    } else {
        s
    }
}

/// The digit string of `n` consists of digits, is non-empty, and reads back
/// as `n`.
pub proof fn lemma_digit_seq(n: nat)
    ensures
        all_digits(digit_seq(n)),
        digit_seq(n).len() >= 1,
        digits_val(digit_seq(n)) == n,
    decreases n,
{
    if n < 10 {
        let s = digit_seq(n);
        assert(s =~= seq![digit_char(n as int)]);
        assert(s.drop_last() =~= Seq::<char>::empty());
        assert(digits_val(s) == digits_val(s.drop_last()) * 10 + digit_val(s.last()));
        assert(digits_val(Seq::<char>::empty()) == 0);
        assert(digit_val(digit_char(n as int)) == n);
    } else {
        lemma_digit_seq(n / 10);
        let s = digit_seq(n);
        assert(s.drop_last() =~= digit_seq(n / 10));
        assert(s.last() == digit_char((n % 10) as int));
        vstd::arithmetic::div_mod::lemma_fundamental_div_mod(n as int, 10);
    }
}

/// The value of a concatenation of digit strings.
pub proof fn lemma_digits_val_concat(u: Seq<char>, w: Seq<char>)
    ensures
        digits_val(u + w) == digits_val(u) * pow10(w.len()) + digits_val(w),
    decreases w.len(),
{
    if w.len() == 0 {
        assert(u + w =~= u);
        vstd::arithmetic::power::lemma_pow0(10);
    } else {
        lemma_digits_val_concat(u, w.drop_last());
        assert((u + w).drop_last() =~= u + w.drop_last());
        assert((u + w).last() == w.last());
        lemma_pow10_step((w.len() - 1) as nat);
        // (a * p + b) * 10 == a * (p * 10) + b * 10
        let a = digits_val(u);
        let p = pow10((w.len() - 1) as nat);
        let b = digits_val(w.drop_last());
        assert(digits_val(u + w) == (a * p + b) * 10 + digit_val(w.last()));
        lemma_mul_is_distributive_add_other_way(10, a * p, b);
        lemma_mul_is_associative(a, p, 10);
    }
}

/// A digit string's value is non-negative and below `pow10` of its length.
pub proof fn lemma_digits_val_bounds(s: Seq<char>)
    requires
        all_digits(s),
    ensures
        0 <= digits_val(s) < pow10(s.len()),
    decreases s.len(),
{
    vstd::arithmetic::power::lemma_pow0(10);
    if s.len() > 0 {
        lemma_digits_val_bounds(s.drop_last());
        lemma_pow10_step((s.len() - 1) as nat);
        let a = digits_val(s.drop_last());
        let p = pow10((s.len() - 1) as nat);
        assert(is_digit(s.last()));
        assert(a <= p - 1);
        lemma_mul_inequality(a, p - 1, 10);
        assert((p - 1) * 10 == p * 10 - 10) by {
            lemma_mul_is_distributive_add_other_way(10, p, -1);
        }
    }
}

/// The digit string of `n` is no longer than `k` when `n < pow10(k)`.
pub proof fn lemma_digit_seq_len(n: nat, k: nat)
    requires
        n < pow10(k),
        k >= 1,
    ensures
        digit_seq(n).len() <= k,
    decreases n,
{
    if n < 10 {
    } else {
        lemma_pow10_step((k - 1) as nat);
        lemma_pow_ge_one((k - 1) as nat);
        vstd::arithmetic::div_mod::lemma_fundamental_div_mod(n as int, 10);
        let p = pow10((k - 1) as nat);
        assert(n / 10 < p) by {
            if n / 10 >= p {
                lemma_mul_left_inequality(10, p, n as int / 10);
                assert(10 * (n as int / 10) >= 10 * p);
            }
        }
        assert(k >= 2) by {
            if k == 1 {
                assert(pow10(1) == 10) by {
                    vstd::arithmetic::power::lemma_pow1(10);
                }
            }
        }
        lemma_digit_seq_len(n / 10, (k - 1) as nat);
    }
}

/// A digit string is bounded below by `pow10` of one less than its length.
pub proof fn lemma_digits_val_lower(n: nat)
    requires
        n >= 1,
    ensures
        n >= pow10((digit_seq(n).len() - 1) as nat),
    decreases n,
{
    lemma_digit_seq(n);
    if n < 10 {
        vstd::arithmetic::power::lemma_pow0(10);
    } else {
        lemma_digits_val_lower(n / 10);
        let l = digit_seq(n / 10).len();
        assert(digit_seq(n).len() == l + 1);
        lemma_pow10_step((l - 1) as nat);
        vstd::arithmetic::div_mod::lemma_fundamental_div_mod(n as int, 10);
        let p = pow10((l - 1) as nat);
        assert(n as int / 10 >= p);
        lemma_mul_left_inequality(10, p, n as int / 10);
    }
}

/// A concatenation is all digits exactly when both halves are.
pub proof fn lemma_all_digits_concat(u: Seq<char>, w: Seq<char>)
    ensures
        all_digits(u + w) <==> (all_digits(u) && all_digits(w)),
{
    if all_digits(u + w) {
        assert forall|j: int| 0 <= j < u.len() implies is_digit(#[trigger] u[j]) by {
            assert(u[j] == (u + w)[j]);
        }
        assert forall|j: int| 0 <= j < w.len() implies is_digit(#[trigger] w[j]) by {
            assert(w[j] == (u + w)[j + u.len()]);
        }
    }
    if all_digits(u) && all_digits(w) {
        assert forall|j: int| 0 <= j < (u + w).len() implies is_digit(#[trigger] (u + w)[j]) by {
            if j < u.len() {
                assert((u + w)[j] == u[j]);
            } else {
                assert((u + w)[j] == w[j - u.len()]);
            }
        }
    }
}

/// Zero characters are digits and read back as zero.
pub proof fn lemma_zero_chars(k: nat)
    ensures
        all_digits(zero_chars(k)),
        digits_val(zero_chars(k)) == 0,
        zero_chars(k).len() == k,
    decreases k,
{
    if k > 0 {
        lemma_zero_chars((k - 1) as nat);
        assert(zero_chars(k).drop_last() =~= zero_chars((k - 1) as nat));
        assert(zero_chars(k).last() == '0');
    }
}

/// Stripping trailing zeros: the stripped string is a prefix whose value,
/// scaled back up by the number of zeros removed, is the original value.
pub proof fn lemma_strip_zeros(s: Seq<char>)
    ensures
        strip_zeros(s).len() <= s.len(),
        strip_zeros(s) =~= s.take(strip_zeros(s).len() as int),
        s =~= strip_zeros(s) + zero_chars((s.len() - strip_zeros(s).len()) as nat),
        digits_val(s) == digits_val(strip_zeros(s)) * pow10(
            (s.len() - strip_zeros(s).len()) as nat,
        ),
        strip_zeros(s).len() > 0 ==> strip_zeros(s).last() != '0',
    decreases s.len(),
{
    let t = strip_zeros(s);
    if s.len() > 0 && s.last() == '0' {
        lemma_strip_zeros(s.drop_last());
        let d = s.drop_last();
        let k = (d.len() - t.len()) as nat;
        assert(s =~= d + zero_chars(1));
        lemma_zero_chars(1);
        lemma_zero_chars(k);
        lemma_zero_chars(k + 1);
        assert(d =~= t + zero_chars(k));
        assert(s =~= t + zero_chars(k + 1));
        // value: digits_val(s) == digits_val(d) * 10
        assert(digits_val(s) == digits_val(d) * 10 + digit_val('0'));
        assert(digit_val('0') == 0);
        lemma_pow10_step(k);
        lemma_mul_is_associative(digits_val(t), pow10(k), 10);
    } else {
        assert(t =~= s);
        assert(s =~= s + zero_chars(0));
        vstd::arithmetic::power::lemma_pow0(10);
        lemma_zero_chars(0);
    }
}

/// Removing a trailing zero does not change the stripped string.
pub proof fn lemma_strip_zeros_step(u: Seq<char>)
    requires
        u.len() > 0,
        u.last() == '0',
    ensures
        strip_zeros(u) == strip_zeros(u.drop_last()),
{
}

/// Appends one digit character to a string.
pub fn append_digit(out: &mut String, c: char)
    requires
        is_digit(c),
    ensures
        final(out)@ == old(out)@ + seq![c],
{
    proof {
        reveal_strlit("0");
        reveal_strlit("1");
        reveal_strlit("2");
        reveal_strlit("3");
        reveal_strlit("4");
        reveal_strlit("5");
        reveal_strlit("6");
        reveal_strlit("7");
        reveal_strlit("8");
        reveal_strlit("9");
    }
    let ghost before = out@;
    match c {
        '0' => out.append("0"),
        '1' => out.append("1"),
        '2' => out.append("2"),
        '3' => out.append("3"),
        '4' => out.append("4"),
        '5' => out.append("5"),
        '6' => out.append("6"),
        '7' => out.append("7"),
        '8' => out.append("8"),
        '9' => out.append("9"),
        _ => {
            proof {
                assert(false);
            }
        },
    }
    proof {
        assert(out@ =~= before + seq![c]);
    }
}

/// Appends the digit characters of `v[from..to]` to `out`.
pub fn append_digit_range(out: &mut String, v: &Vec<char>, from: usize, to: usize)
    requires
        from <= to <= v@.len(),
        all_digits(v@.subrange(from as int, to as int)),
    ensures
        final(out)@ == old(out)@ + v@.subrange(from as int, to as int),
{
    let mut i = from;
    proof {
        assert(out@ =~= old(out)@ + v@.subrange(from as int, from as int));
    }
    while i < to
        invariant
            from <= i <= to <= v@.len(),
            all_digits(v@.subrange(from as int, to as int)),
            out@ == old(out)@ + v@.subrange(from as int, i as int),
        decreases to - i,
    {
        let c = v[i];
        proof {
            assert(is_digit(c)) by {
                assert(c == v@.subrange(from as int, to as int)[i - from]);
            }
        }
        append_digit(out, c);
        proof {
            assert(v@.subrange(from as int, i + 1) =~= v@.subrange(from as int, i as int)
                + seq![v@[i as int]]);
            assert(out@ =~= old(out)@ + v@.subrange(from as int, i + 1));
        }
        i = i + 1;
    }
}

/// The executable digit character for a value in `0..10`.
pub fn digit_exec(d: u8) -> (c: char)
    requires
        d < 10,
    ensures
        c == digit_char(d as int),
{
    match d {
        0 => '0',
        1 => '1',
        2 => '2',
        3 => '3',
        4 => '4',
        5 => '5',
        6 => '6',
        7 => '7',
        8 => '8',
        _ => '9',
    }
}

/// Appends the decimal digit string of `m` to `out`.
pub fn push_digits(out: &mut Vec<char>, m: u128)
    ensures
        final(out)@ == old(out)@ + digit_seq(m as nat),
    decreases m,
{
    if m < 10 {
        let c = digit_exec(m as u8);
        out.push(c);
        proof {
            assert(out@ =~= old(out)@ + digit_seq(m as nat));
        }
    } else {
        push_digits(out, m / 10);
        let c = digit_exec((m % 10) as u8);
        out.push(c);
        proof {
            assert(out@ =~= old(out)@ + digit_seq(m as nat));
        }
    }
}

/// Reads the digits of `s` between `from` and `to` into an accumulator,
/// failing on a non-digit character or when the value would exceed `bound`.
pub fn accum_digits(s: &str, from: usize, to: usize, acc0: u128, bound: u128) -> (r: Option<
    u128,
>)
    requires
        from <= to <= s@.len(),
        acc0 <= bound,
    ensures
        ({
            let part = s@.subrange(from as int, to as int);
            match r {
                Some(v) => all_digits(part) && v == acc0 * pow10(part.len()) + digits_val(part)
                    && v <= bound,
                None => !all_digits(part) || acc0 * pow10(part.len()) + digits_val(part) > bound,
            }
        }),
{
    let ghost part = s@.subrange(from as int, to as int);
    let mut acc: u128 = acc0;
    let mut i: usize = from;
    proof {
        vstd::arithmetic::power::lemma_pow0(10);
        assert(s@.subrange(from as int, from as int) =~= Seq::<char>::empty());
    }
    while i < to
        invariant
            from <= i <= to <= s@.len(),
            acc <= bound,
            part == s@.subrange(from as int, to as int),
            all_digits(s@.subrange(from as int, i as int)),
            acc == acc0 * pow10((i - from) as nat) + digits_val(
                s@.subrange(from as int, i as int),
            ),
        decreases to - i,
    {
        let c = s.get_char(i);
        let u = c as u32;
        let ghost pre = s@.subrange(from as int, i as int);
        let ghost ext = s@.subrange(from as int, i + 1 as int);
        proof {
            assert(ext.drop_last() =~= pre);
            assert(ext.last() == c);
        }
        if u < 48 || u > 57 {
            proof {
                assert(!is_digit(part[i - from])) by {
                    assert(part[i - from] == c);
                }
            }
            return None;
        }
        let d = (u - 48) as u128;
        proof {
            // acc * 10 + d overflows bound ==> the whole value exceeds bound
            lemma_pow10_step((i - from) as nat);
            lemma_mul_is_associative(acc0 as int, pow10((i - from) as nat), 10);
            lemma_mul_is_distributive_add_other_way(
                10,
                acc0 * pow10((i - from) as nat),
                digits_val(pre),
            );
            assert(digits_val(ext) == digits_val(pre) * 10 + digit_val(c));
        }
        let step = acc.checked_mul(10);
        let next = match step {
            Some(v) => v.checked_add(d),
            None => None,
        };
        match next {
            Some(v) => {
                if v > bound {
                    proof {
                        lemma_rest_exceeds(s@, from as int, i + 1, to as int, acc0 as int, v as int, bound as int);
                    }
                    return None;
                }
                acc = v;
            },
            None => {
                proof {
                    assert(acc * 10 + d > u128::MAX >= bound);
                    lemma_rest_exceeds(s@, from as int, i + 1, to as int, acc0 as int, (acc * 10 + d) as int, bound as int);
                }
                return None;
            },
        }
        i = i + 1;
    }
    proof {
        assert(s@.subrange(from as int, i as int) =~= part);
    }
    Some(acc)
}

/// If the value accumulated over a prefix already exceeds the bound, the
/// value of the whole range does too.
proof fn lemma_rest_exceeds(s: Seq<char>, from: int, mid: int, to: int, acc0: int, v: int, bound: int)
    requires
        0 <= from <= mid <= to <= s.len(),
        v > bound >= 0,
        acc0 >= 0,
        all_digits(s.subrange(from, mid)),
        v == acc0 * pow10((mid - from) as nat) + digits_val(s.subrange(from, mid)),
    ensures
        acc0 * pow10((to - from) as nat) + digits_val(s.subrange(from, to)) > bound
            || !all_digits(s.subrange(from, to)),
{
    if all_digits(s.subrange(from, to)) {
        let u = s.subrange(from, mid);
        let w = s.subrange(mid, to);
        assert(s.subrange(from, to) =~= u + w);
        assert forall|j: int| 0 <= j < w.len() implies is_digit(#[trigger] w[j]) by {
            assert(w[j] == s.subrange(from, to)[j + (mid - from)]);
        }
        lemma_digits_val_concat(u, w);
        lemma_digits_val_bounds(w);
        lemma_pow_ge_one(w.len());
        // total == (acc0 * pow10(mid-from) + val(u)) * pow10(w.len()) + val(w) >= v * 1
        let p1 = pow10((mid - from) as nat);
        let p2 = pow10(w.len());
        vstd::arithmetic::power::lemma_pow_adds(10, (mid - from) as nat, w.len());
        lemma_mul_is_associative(acc0, p1, p2);
        lemma_mul_is_distributive_add_other_way(p2, acc0 * p1, digits_val(u));
        lemma_mul_left_inequality(v, 1, p2);
        assert((acc0 * p1 + digits_val(u)) * p2 >= v) by {
            lemma_mul_inequality(1, p2, v);
            lemma_mul_is_commutative_helper(v, p2);
        }
    }
}

/// `x * y == y * x`, packaged for use beside the distributive lemmas.
proof fn lemma_mul_is_commutative_helper(x: int, y: int)
    ensures
        x * y == y * x,
{
    vstd::arithmetic::mul::lemma_mul_is_commutative(x, y);
}

} // verus!
