//! String conversions: the SI prefix table, the parser from text to
//! quantity, and the formatter from quantity to text.

use vstd::prelude::*;

use crate::arith::{pow10, pow1000};
use crate::digits::{
    all_digits, append_digit_range, digit_seq, digit_val, digits_val, is_digit, push_digits,
    strip_zeros, zero_chars,
};
use crate::support::EQSupported;
use crate::{raw_err, raw_ok, EngineeringQuantity, Error};
use vstd::math::abs;
use vstd::string::StringExecFns;

verus! {

/// The exponent denoted by an SI prefix character, if any. `u` is accepted
/// as an input substitute for `μ`.
pub open spec fn prefix_exp(c: char) -> Option<int> {
    if c == 'k' {
        Some(1int)
    } else if c == 'M' {
        Some(2int)
    } else if c == 'G' {
        Some(3int)
    } else if c == 'T' {
        Some(4int)
    } else if c == 'P' {
        Some(5int)
    } else if c == 'E' {
        Some(6int)
    } else if c == 'Z' {
        Some(7int)
    } else if c == 'Y' {
        Some(8int)
    } else if c == 'R' {
        Some(9int)
    } else if c == 'Q' {
        Some(10int)
    } else if c == 'm' {
        Some(-1int)
    } else if c == 'μ' || c == 'u' {
        Some(-2int)
    } else if c == 'n' {
        Some(-3int)
    } else if c == 'p' {
        Some(-4int)
    } else if c == 'f' {
        Some(-5int)
    } else if c == 'a' {
        Some(-6int)
    } else if c == 'z' {
        Some(-7int)
    } else if c == 'y' {
        Some(-8int)
    } else if c == 'r' {
        Some(-9int)
    } else if c == 'q' {
        Some(-10int)
    } else {
        None
    }
}

/// The prefix string emitted for a display exponent in `-10..=10`: empty for
/// zero, `μ` for -2, a single letter otherwise.
pub open spec fn prefix_chars(e: int) -> Seq<char> {
    if e == 0 {
        Seq::<char>::empty()
    } else if e == 1 {
        seq!['k']
    } else if e == 2 {
        seq!['M']
    } else if e == 3 {
        seq!['G']
    } else if e == 4 {
        seq!['T']
    } else if e == 5 {
        seq!['P']
    } else if e == 6 {
        seq!['E']
    } else if e == 7 {
        seq!['Z']
    } else if e == 8 {
        seq!['Y']
    } else if e == 9 {
        seq!['R']
    } else if e == 10 {
        seq!['Q']
    } else if e == -1 {
        seq!['m']
    } else if e == -2 {
        seq!['μ']
    } else if e == -3 {
        seq!['n']
    } else if e == -4 {
        seq!['p']
    } else if e == -5 {
        seq!['f']
    } else if e == -6 {
        seq!['a']
    } else if e == -7 {
        seq!['z']
    } else if e == -8 {
        seq!['y']
    } else if e == -9 {
        seq!['r']
    } else {
        seq!['q']
    }
}

/// The first position holding an SI prefix character, with its exponent.
pub open spec fn find_prefix(s: Seq<char>) -> Option<(int, int)>
    decreases s.len(),
{
    if s.len() == 0 {
        None
    } else if prefix_exp(s[0]) is Some {
        Some((0int, prefix_exp(s[0])->0))
    } else {
        match find_prefix(s.drop_first()) {
            Some((i, e)) => Some((i + 1, e)),
            None => None,
        }
    }
}

/// The first position holding a decimal point.
pub open spec fn find_dot(s: Seq<char>) -> Option<int>
    decreases s.len(),
{
    if s.len() == 0 {
        None
    } else if s[0] == '.' {
        Some(0int)
    } else {
        match find_dot(s.drop_first()) {
            Some(i) => Some(i + 1),
            None => None,
        }
    }
}

/// A scan that found a prefix at `i`, with none earlier, agrees with
/// `find_prefix`.
pub proof fn lemma_find_prefix_at(s: Seq<char>, i: int)
    requires
        0 <= i < s.len(),
        forall|j: int| 0 <= j < i ==> prefix_exp(#[trigger] s[j]) is None,
        prefix_exp(s[i]) is Some,
    ensures
        find_prefix(s) == Some((i, prefix_exp(s[i])->0)),
    decreases i,
{
    if i == 0 {
    } else {
        let t = s.drop_first();
        assert(forall|j: int| 0 <= j < i - 1 ==> #[trigger] t[j] == s[j + 1]);
        lemma_find_prefix_at(t, i - 1);
    }
}

/// A scan that found no prefix anywhere agrees with `find_prefix`.
pub proof fn lemma_find_prefix_none(s: Seq<char>)
    requires
        forall|j: int| 0 <= j < s.len() ==> prefix_exp(#[trigger] s[j]) is None,
    ensures
        find_prefix(s) is None,
    decreases s.len(),
{
    if s.len() > 0 {
        let t = s.drop_first();
        assert(forall|j: int| 0 <= j < t.len() ==> #[trigger] t[j] == s[j + 1]);
        lemma_find_prefix_none(t);
    }
}

/// A scan that found a dot at `i`, with none earlier, agrees with
/// `find_dot`.
pub proof fn lemma_find_dot_at(s: Seq<char>, i: int)
    requires
        0 <= i < s.len(),
        forall|j: int| 0 <= j < i ==> #[trigger] s[j] != '.',
        s[i] == '.',
    ensures
        find_dot(s) == Some(i),
    decreases i,
{
    if i == 0 {
    } else {
        let t = s.drop_first();
        assert(forall|j: int| 0 <= j < i - 1 ==> #[trigger] t[j] == s[j + 1]);
        lemma_find_dot_at(t, i - 1);
    }
}

/// A scan that found no dot anywhere agrees with `find_dot`.
pub proof fn lemma_find_dot_none(s: Seq<char>)
    requires
        forall|j: int| 0 <= j < s.len() ==> #[trigger] s[j] != '.',
    ensures
        find_dot(s) is None,
    decreases s.len(),
{
    if s.len() > 0 {
        let t = s.drop_first();
        assert(forall|j: int| 0 <= j < t.len() ==> #[trigger] t[j] == s[j + 1]);
        lemma_find_dot_none(t);
    }
}

/// Maps an SI prefix character to its exponent, `None` for any other
/// character.
pub fn multiplier_to_exponent(c: char) -> (r: Option<i8>)
    ensures
        match r {
            Some(e) => prefix_exp(c) == Some(e as int),
            None => prefix_exp(c) is None,
        },
{
    match c {
        'k' => Some(1),
        'M' => Some(2),
        'G' => Some(3),
        'T' => Some(4),
        'P' => Some(5),
        'E' => Some(6),
        'Z' => Some(7),
        'Y' => Some(8),
        'R' => Some(9),
        'Q' => Some(10),
        'm' => Some(-1),
        'μ' | 'u' => Some(-2),
        'n' => Some(-3),
        'p' => Some(-4),
        'f' => Some(-5),
        'a' => Some(-6),
        'z' => Some(-7),
        'y' => Some(-8),
        'r' => Some(-9),
        'q' => Some(-10),
        _ => None,
    }
}

/// Maps a display exponent in `-10..=10` to its prefix string.
pub fn exponent_to_multiplier(e: i8) -> (r: &'static str)
    requires
        -10 <= e <= 10,
    ensures
        r@ == prefix_chars(e as int),
{
    proof {
        reveal_strlit("");
        reveal_strlit("k");
        reveal_strlit("M");
        reveal_strlit("G");
        reveal_strlit("T");
        reveal_strlit("P");
        reveal_strlit("E");
        reveal_strlit("Z");
        reveal_strlit("Y");
        reveal_strlit("R");
        reveal_strlit("Q");
        reveal_strlit("m");
        reveal_strlit("μ");
        reveal_strlit("n");
        reveal_strlit("p");
        reveal_strlit("f");
        reveal_strlit("a");
        reveal_strlit("z");
        reveal_strlit("y");
        reveal_strlit("r");
        reveal_strlit("q");
    }
    let r = match e {
        0 => "",
        1 => "k",
        2 => "M",
        3 => "G",
        4 => "T",
        5 => "P",
        6 => "E",
        7 => "Z",
        8 => "Y",
        9 => "R",
        10 => "Q",
        -1 => "m",
        -2 => "μ",
        -3 => "n",
        -4 => "p",
        -5 => "f",
        -6 => "a",
        -7 => "z",
        -8 => "y",
        -9 => "r",
        _ => "q",
    };
    proof {
        assert(r@ =~= prefix_chars(e as int));
    }
    r
}

/// Finds the first SI prefix character of `s` and its exponent.
pub fn find_multiplier(s: &str) -> (r: Option<(usize, i8)>)
    ensures
        match r {
            Some((i, e)) => find_prefix(s@) == Some((i as int, e as int)) && i < s@.len()
                && -10 <= e <= 10,
            None => find_prefix(s@) is None,
        },
{
    let n = s.unicode_len();
    let mut i: usize = 0;
    while i < n
        invariant
            0 <= i <= n,
            n == s@.len(),
            forall|j: int| 0 <= j < i ==> prefix_exp(#[trigger] s@[j]) is None,
        decreases n - i,
    {
        let c = s.get_char(i);
        match multiplier_to_exponent(c) {
            Some(e) => {
                proof {
                    lemma_find_prefix_at(s@, i as int);
                }
                return Some((i, e));
            },
            None => {},
        }
        i = i + 1;
    }
    proof {
        lemma_find_prefix_none(s@);
    }
    None
}

/// Finds the first decimal point of `s`.
fn find_point(s: &str) -> (r: Option<usize>)
    ensures
        match r {
            Some(i) => find_dot(s@) == Some(i as int) && i < s@.len(),
            None => find_dot(s@) is None,
        },
{
    let n = s.unicode_len();
    let mut i: usize = 0;
    while i < n
        invariant
            0 <= i <= n,
            n == s@.len(),
            forall|j: int| 0 <= j < i ==> #[trigger] s@[j] != '.',
        decreases n - i,
    {
        let c = s.get_char(i);
        if c == '.' {
            proof {
                lemma_find_dot_at(s@, i as int);
            }
            return Some(i);
        }
        i = i + 1;
    }
    proof {
        lemma_find_dot_none(s@);
    }
    None
}

/// The integer denoted by a digit string with an optional leading minus
/// sign, within the bounds `lo..=hi`; `None` when the text is not of that
/// shape, when a minus sign appears for an unsigned range, or when the value
/// does not fit.
pub open spec fn parse_int_spec(s: Seq<char>, lo: int, hi: int) -> Option<int> {
    if s.len() >= 1 && s[0] == '-' {
        let d = s.drop_first();
        if lo < 0 && d.len() >= 1 && all_digits(d) && digits_val(d) <= -lo {
            Some(-digits_val(d))
        } else {
            None
        }
    } else if s.len() >= 1 && all_digits(s) && digits_val(s) <= hi {
        Some(digits_val(s))
    } else {
        None
    }
}

/// The result of parsing a quantity from text, for a storage type with
/// bounds `lo..=hi`.
///
/// A plain integer keeps exponent zero. Otherwise the text splits at the
/// decimal point (standard form) or at the prefix (RKM form); every three
/// digits after the split consume one power of 1000 from the prefix's
/// exponent, with a partial group padded up by zeroes. The significand must
/// parse within the bounds, and the construction invariant is applied last.
pub open spec fn parse_spec(s: Seq<char>, lo: int, hi: int) -> Result<(int, int), Error> {
    let fp = find_prefix(s);
    let fd = find_dot(s);
    if fp is None && fd is None {
        match parse_int_spec(s, lo, hi) {
            Some(v) => Ok((v, 0int)),
            None => Err(Error::ParseError),
        }
    } else {
        let e0 = match fp {
            Some((_, e)) => e,
            None => 0int,
        };
        let split = match fd {
            Some(d) => d,
            None => match fp {
                Some((i, _)) => i,
                None => 0int,
            },
        };
        let right0 = s.skip(split + 1);
        let right = if fd is Some && fp is Some && right0.len() > 0 {
            right0.drop_last()
        } else {
            right0
        };
        let n = right.len() as int;
        let g = n / 3;
        let pad = if n % 3 == 0 {
            0int
        } else {
            3 - n % 3
        };
        let e1 = if n % 3 == 0 {
            e0 - g
        } else {
            e0 - g - 1
        };
        let text = s.take(split) + right + zero_chars(pad as nat);
        match parse_int_spec(text, lo, hi) {
            None => Err(Error::ParseError),
            Some(v) => if e1 < -128 {
                Err(Error::Underflow)
            } else if raw_ok(v, e1, lo, hi) {
                Ok((v, e1))
            } else {
                Err(raw_err(v, e1, lo, hi))
            },
        }
    }
}

/// Reads the digits of two ranges of `s` plus `pad` trailing zeroes as one
/// number, failing on a non-digit or when the value exceeds `bound`.
fn parse_digits_split(
    s: &str,
    start: usize,
    lend: usize,
    rstart: usize,
    rend: usize,
    pad: usize,
    bound: u128,
) -> (r: Option<u128>)
    requires
        start <= lend <= s@.len(),
        rstart <= rend <= s@.len(),
        pad <= 2,
    ensures
        ({
            let text = s@.subrange(start as int, lend as int) + s@.subrange(
                rstart as int,
                rend as int,
            ) + zero_chars(pad as nat);
            match r {
                Some(v) => all_digits(text) && v == digits_val(text) && v <= bound,
                None => !all_digits(text) || digits_val(text) > bound,
            }
        }),
{
    let ghost lpart = s@.subrange(start as int, lend as int);
    let ghost rpart = s@.subrange(rstart as int, rend as int);
    let ghost zpart = zero_chars(pad as nat);
    let ghost text = lpart + rpart + zpart;
    proof {
        crate::digits::lemma_zero_chars(pad as nat);
        crate::digits::lemma_all_digits_concat(lpart, rpart);
        crate::digits::lemma_all_digits_concat(lpart + rpart, zpart);
        crate::digits::lemma_digits_val_concat(lpart, rpart);
        crate::digits::lemma_digits_val_concat(lpart + rpart, zpart);
        vstd::arithmetic::mul::lemma_mul_by_zero_is_zero(pow10(lpart.len()));
        crate::arith::lemma_pow_ge_one(rpart.len());
        crate::arith::lemma_pow_ge_one(zpart.len());
        crate::arith::lemma_pow_ge_one(pad as nat);
    }
    let u = match crate::digits::accum_digits(s, start, lend, 0, bound) {
        Some(x) => x,
        None => {
            proof {
                if all_digits(text) {
                    crate::digits::lemma_digits_val_bounds(rpart);
                    vstd::arithmetic::mul::lemma_mul_basics(digits_val(lpart));
                    vstd::arithmetic::mul::lemma_mul_basics(digits_val(lpart + rpart));
                    vstd::arithmetic::mul::lemma_mul_left_inequality(
                        digits_val(lpart),
                        1,
                        pow10(rpart.len()),
                    );
                    vstd::arithmetic::mul::lemma_mul_left_inequality(
                        digits_val(lpart + rpart),
                        1,
                        pow10(zpart.len()),
                    );
                }
            }
            return None;
        },
    };
    let w = match crate::digits::accum_digits(s, rstart, rend, u, bound) {
        Some(x) => x,
        None => {
            proof {
                if all_digits(text) {
                    vstd::arithmetic::mul::lemma_mul_basics(digits_val(lpart + rpart));
                    vstd::arithmetic::mul::lemma_mul_left_inequality(
                        digits_val(lpart + rpart),
                        1,
                        pow10(zpart.len()),
                    );
                }
            }
            return None;
        },
    };
    proof {
        assert(w == digits_val(lpart + rpart));
        crate::digits::lemma_digits_val_bounds(lpart + rpart);
    }
    let mut acc = w;
    let mut k: usize = 0;
    proof {
        vstd::arithmetic::power::lemma_pow0(10);
    }
    while k < pad
        invariant
            k <= pad <= 2,
            acc == digits_val(lpart + rpart) * pow10(k as nat),
            acc <= bound,
            all_digits(lpart + rpart),
            digits_val(lpart + rpart) == w,
            0 <= digits_val(lpart + rpart),
            w <= bound,
            start <= lend <= s@.len(),
            rstart <= rend <= s@.len(),
            lpart == s@.subrange(start as int, lend as int),
            rpart == s@.subrange(rstart as int, rend as int),
            text == lpart + rpart + zero_chars(pad as nat),
            digits_val(text) == digits_val(lpart + rpart) * pow10(pad as nat),
            all_digits(text),
        decreases pad - k,
    {
        proof {
            crate::arith::lemma_pow10_step(k as nat);
            vstd::arithmetic::mul::lemma_mul_is_associative(
                digits_val(lpart + rpart),
                pow10(k as nat),
                10,
            );
        }
        let next = acc.checked_mul(10);
        match next {
            Some(v) => {
                if v > bound {
                    proof {
                        assert(v == acc * 10);
                        assert(v == digits_val(lpart + rpart) * pow10((k + 1) as nat));
                        lemma_pad_exceeds(digits_val(lpart + rpart), (k + 1) as nat, pad as nat, bound as int);
                        assert(digits_val(lpart + rpart) * pow10(pad as nat) > bound);
                        assert(digits_val(text) > bound);
                    }
                    return None;
                }
                acc = v;
            },
            None => {
                proof {
                    assert(acc * 10 > u128::MAX >= bound);
                    assert(acc * 10 == digits_val(lpart + rpart) * pow10((k + 1) as nat));
                    lemma_pad_exceeds(digits_val(lpart + rpart), (k + 1) as nat, pad as nat, bound as int);
                    assert(digits_val(lpart + rpart) * pow10(pad as nat) > bound);
                    assert(digits_val(text) > bound);
                }
                return None;
            },
        }
        k = k + 1;
    }
    Some(acc)
}

impl<T: EQSupported> crate::EngineeringQuantity<T> {
    /// Parses the digit text gathered from the pieces of the input and
    /// applies the construction invariant at exponent `e1`.
    fn parse_assemble(s: &str, split: usize, rstart: usize, rend: usize, pad: usize, e1: i64) -> (r:
        Result<Self, Error>)
        requires
            split <= s@.len(),
            rstart <= rend <= s@.len(),
            pad <= 2,
            e1 <= 10,
        ensures
            ({
                let text = s@.take(split as int) + s@.subrange(rstart as int, rend as int)
                    + zero_chars(pad as nat);
                match parse_int_spec(text, T::min_spec(), T::max_spec()) {
                    None => r == Err::<Self, Error>(Error::ParseError),
                    Some(v) => if e1 < -128 {
                        r == Err::<Self, Error>(Error::Underflow)
                    } else if raw_ok(v, e1 as int, T::min_spec(), T::max_spec()) {
                        r is Ok && r->Ok_0.sig() == v && r->Ok_0.exp() == e1 as int
                    } else {
                        r == Err::<Self, Error>(raw_err(v, e1 as int, T::min_spec(), T::max_spec()))
                    },
                }
            }),
    {
        proof {
            T::lemma_type_bounds();
        }
        let ghost text = s@.take(split as int) + s@.subrange(rstart as int, rend as int)
            + zero_chars(pad as nat);
        let hi = T::exec_max();
        let lo_abs = T::exec_min_abs();
        let signed = T::signed();
        // the sign, if any, is the first character of the combined digit
        // text: in the left piece when that is non-empty, else in the right
        let mut neg = false;
        let mut start: usize = 0;
        let mut rs: usize = rstart;
        if split >= 1 {
            if s.get_char(0) == '-' {
                neg = true;
                start = 1;
            }
        } else if rend > rstart {
            if s.get_char(rstart) == '-' {
                neg = true;
                rs = rstart + 1;
            }
        }
        proof {
            crate::digits::lemma_zero_chars(pad as nat);
            if neg {
                assert(text[0] == '-');
                assert(!crate::digits::is_digit('-'));
            } else if text.len() > 0 {
                assert(text[0] != '-') by {
                    if split >= 1 {
                        assert(text[0] == s@[0]);
                    } else if rend > rstart {
                        assert(text[0] == s@[rstart as int]);
                    } else {
                        assert(text[0] == '0');
                    }
                }
            }
        }
        if neg && !signed {
            // a sign on an unsigned storage type cannot parse
            proof {
                assert(parse_int_spec(text, T::min_spec(), T::max_spec()) is None);
            }
            return Err(Error::ParseError);
        }
        let bound = if neg {
            lo_abs
        } else {
            hi
        };
        let ghost dtext = s@.subrange(start as int, split as int) + s@.subrange(
            rs as int,
            rend as int,
        ) + zero_chars(pad as nat);
        proof {
            if neg {
                assert(text.drop_first() =~= dtext);
            } else {
                assert(text =~= dtext);
            }
        }
        if split - start == 0 && rend - rs == 0 && pad == 0 {
            // no digits at all
            proof {
                assert(dtext.len() == 0);
                assert(parse_int_spec(text, T::min_spec(), T::max_spec()) is None);
            }
            return Err(Error::ParseError);
        }
        match parse_digits_split(s, start, split, rs, rend, pad, bound) {
            None => {
                proof {
                    assert(parse_int_spec(text, T::min_spec(), T::max_spec()) is None);
                }
                Err(Error::ParseError)
            },
            Some(v) => {
                proof {
                    assert(parse_int_spec(text, T::min_spec(), T::max_spec()) == Some(
                        if neg {
                            -(v as int)
                        } else {
                            v as int
                        },
                    ));
                }
                if e1 < -128 {
                    return Err(Error::Underflow);
                }
                let sig = match T::from_abs_sign(v, neg) {
                    Some(x) => x,
                    None => vstd::pervasive::unreached(),
                };
                Self::from_raw(sig, e1 as i8)
            },
        }
    }
}

impl<T: EQSupported> crate::EngineeringQuantity<T> {
    /// Parses a quantity from text: a plain integer (`"42"`), decimal-point
    /// form with an optional SI suffix (`"1.5k"`), or RKM form with the
    /// prefix in place of the point (`"1k5"`).
    #[verifier::rlimit(60)]
    pub fn from_str(s: &str) -> (r: Result<Self, Error>)
        ensures
            match parse_spec(s@, T::min_spec(), T::max_spec()) {
                Ok((sv, ev)) => r is Ok && r->Ok_0.sig() == sv && r->Ok_0.exp() == ev,
                Err(er) => r is Err && r->Err_0 == er,
            },
    {
        proof {
            T::lemma_type_bounds();
            vstd::arithmetic::power::lemma_pow0(1000);
        }
        let n = s.unicode_len();
        let fp = find_multiplier(s);
        let fd = find_point(s);
        match (fp, fd) {
            (None, None) => {
                let r = Self::parse_assemble(s, n, n, n, 0, 0);
                proof {
                    let text = s@.take(n as int) + s@.subrange(n as int, n as int) + zero_chars(
                        0,
                    );
                    assert(text =~= s@);
                    match parse_int_spec(s@, T::min_spec(), T::max_spec()) {
                        Some(v) => {
                            // exponent zero always satisfies the invariant
                            vstd::arithmetic::mul::lemma_mul_basics(v);
                            if s@.len() >= 1 && s@[0] == '-' {
                                crate::digits::lemma_digits_val_bounds(s@.drop_first());
                            } else {
                                crate::digits::lemma_digits_val_bounds(s@);
                            }
                            assert(raw_ok(v, 0, T::min_spec(), T::max_spec()));
                        },
                        None => {},
                    }
                }
                r
            },
            _ => {
                let e0: i64 = match fp {
                    Some((_, e)) => e as i64,
                    None => 0,
                };
                let split: usize = match fd {
                    Some(d) => d,
                    None => match fp {
                        Some((i, _)) => i,
                        None => vstd::pervasive::unreached(),
                    },
                };
                let popped = fd.is_some() && fp.is_some() && n - split - 1 > 0;
                let rend: usize = if popped {
                    n - 1
                } else {
                    n
                };
                let rstart = split + 1;
                let rlen = rend - rstart;
                let g = rlen / 3;
                let rem = rlen % 3;
                let pad: usize = if rem == 0 {
                    0
                } else {
                    3 - rem
                };
                let e1: i64 = if rem == 0 {
                    e0 - g as i64
                } else {
                    e0 - g as i64 - 1
                };
                proof {
                    let right0 = s@.skip(split as int + 1);
                    let right = if fd is Some && fp is Some && right0.len() > 0 {
                        right0.drop_last()
                    } else {
                        right0
                    };
                    assert(right =~= s@.subrange(rstart as int, rend as int));
                }
                Self::parse_assemble(s, split, rstart, rend, pad, e1)
            },
        }
    }
}

/// The digit string a value is displayed from: the significand's digits,
/// with three zeroes appended per positive power of 1000.
pub open spec fn display_digits(a: nat, e: int) -> Seq<char> {
    digit_seq(a) + zero_chars(
        if e > 0 {
            (3 * e) as nat
        } else {
            0
        },
    )
}

/// The display exponent: the power of 1000 whose prefix is emitted, chosen
/// so that one to three digits stand before the point.
pub open spec fn display_exp(a: nat, e: int) -> int {
    if e > 0 {
        (display_digits(a, e).len() - 1) as int / 3
    } else {
        e + (digit_seq(a).len() - 1) as int / 3
    }
}

/// How many digits stand before the display point.
pub open spec fn display_lead(a: nat, e: int) -> int {
    let len = display_digits(a, e).len() as int;
    let de = display_exp(a, e);
    if de > 0 {
        len - 3 * de
    } else {
        ((len - 1) % 3) + 1
    }
}

/// The exact raw rendering used when the display exponent has no SI prefix.
pub open spec fn format_fallback(a: nat, e: int) -> Seq<char> {
    digit_seq(a) + seq!['*', '1', '0', '0', '0', '^'] + (if e < 0 {
        seq!['-']
    } else {
        Seq::<char>::empty()
    }) + digit_seq(abs(e))
}

/// The rendering of the absolute value `a * 1000^e` at a precision (0 for
/// exact), in standard or RKM mode, optionally padding strictly.
pub open spec fn format_abs(a: nat, e: int, prec: nat, rkm: bool, strict: bool) -> Seq<char> {
    let d0 = display_digits(a, e);
    let de = display_exp(a, e);
    if -10 <= de <= 10 {
        let ld = display_lead(a, e);
        let d = if strict && d0.len() < prec {
            d0 + zero_chars((prec - d0.len()) as nat)
        } else {
            d0
        };
        let pbound = if prec == 0 {
            d.len() as int
        } else {
            prec as int
        };
        let avail = d.len() - ld;
        let want = if pbound >= ld {
            pbound - ld
        } else {
            0int
        };
        let tcount = if avail <= want {
            avail
        } else {
            want
        };
        let t0 = d.subrange(ld, ld + tcount);
        let t = if strict {
            t0
        } else {
            strip_zeros(t0)
        };
        let leaders = d.subrange(0, ld);
        let si = prefix_chars(de);
        if de == 0 {
            if t.len() == 0 {
                leaders
            } else {
                leaders + seq!['.'] + t
            }
        } else if rkm {
            leaders + si + t
        } else if t.len() == 0 {
            leaders + si
        } else {
            leaders + seq!['.'] + t + si
        }
    } else {
        format_fallback(a, e)
    }
}

/// The full rendering of `sv * 1000^e`: a minus sign for negative values,
/// then the rendering of the absolute value.
pub open spec fn format_spec(sv: int, e: int, prec: nat, rkm: bool, strict: bool) -> Seq<char> {
    (if sv < 0 {
        seq!['-']
    } else {
        Seq::<char>::empty()
    }) + format_abs(abs(sv), e, prec, rkm, strict)
}

/// A wrapper specifying the desired output format of a quantity.
///
/// Created conveniently by [`EngineeringQuantity::with_precision`],
/// [`EngineeringQuantity::rkm_with_precision`] and
/// [`EngineeringQuantity::with_strict_precision`].
#[derive(Copy, Clone, Debug)]
pub struct DisplayAdapter<T: EQSupported> {
    /// The value to be displayed.
    pub value: EngineeringQuantity<T>,
    /// The precision to display at, or 0 to work it out losslessly.
    pub max_significant_figures: usize,
    /// Selects RKM code mode, where the prefix replaces the decimal point.
    pub rkm: bool,
    /// Always emit the precision requested, even trailing zeroes.
    pub strict: bool,
}

impl<T: EQSupported> DisplayAdapter<T> {
    /// Renders the value in the chosen format.
    #[verifier::rlimit(100)]
    pub fn to_string(&self) -> (r: String)
        ensures
            r@ == format_spec(
                self.value.sig(),
                self.value.exp(),
                self.max_significant_figures as nat,
                self.rkm,
                self.strict,
            ),
    {
        proof {
            reveal_strlit("-");
            reveal_strlit(".");
            reveal_strlit("*1000^");
        }
        let (sig, e) = self.value.to_raw();
        let (a, neg) = sig.abs_sign();
        let msf = self.max_significant_figures;
        let ghost av = a as nat;
        let ghost spec_out = format_spec(
            self.value.sig(),
            self.value.exp(),
            msf as nat,
            self.rkm,
            self.strict,
        );
        let mut digits: Vec<char> = Vec::new();
        push_digits(&mut digits, a);
        let dl0 = digits.len();
        proof {
            crate::digits::lemma_digit_seq(av);
            crate::arith::lemma_pow1000_13();
            crate::arith::lemma_pow1000_pow10(13);
            crate::digits::lemma_digit_seq_len(av, 39);
            assert(dl0 <= 39);
        }
        let zcount: usize = if e > 0 {
            3 * (e as usize)
        } else {
            0
        };
        let dlen = dl0 + zcount;
        proof {
            crate::digits::lemma_zero_chars(zcount as nat);
            assert(display_digits(av, e as int).len() == dlen);
        }
        let de: i64 = if e > 0 {
            ((dlen - 1) / 3) as i64
        } else {
            e as i64 + ((dl0 - 1) / 3) as i64
        };
        proof {
            assert(de == display_exp(av, e as int));
        }
        if de < -10 || de > 10 {
            // no SI prefix covers this display exponent: emit the raw form
            let out = render_fallback(neg, a, e);
            proof {
                assert(out@ =~= spec_out);
            }
            return out;
        }
        // append three zeroes per positive power of 1000
        let mut k: usize = 0;
        while k < zcount
            invariant
                k <= zcount,
                digits@ == digit_seq(av) + zero_chars(k as nat),
            decreases zcount - k,
        {
            digits.push('0');
            k = k + 1;
            proof {
                crate::digits::lemma_zero_chars(k as nat);
                assert(digits@ =~= digit_seq(av) + zero_chars(k as nat));
            }
        }
        let ghost d0seq = display_digits(av, e as int);
        proof {
            assert(digits@ =~= d0seq);
            vstd::arithmetic::div_mod::lemma_fundamental_div_mod(dlen as int - 1, 3);
        }
        let ld: usize = if de > 0 {
            dlen - 3 * (de as usize)
        } else {
            ((dlen - 1) % 3) + 1
        };
        proof {
            assert(ld == display_lead(av, e as int));
            assert(1 <= ld <= dlen);
        }
        // strict mode pads up to the requested number of digits
        if self.strict {
            while digits.len() < msf
                invariant
                    digits@.len() >= d0seq.len(),
                    digits@.len() <= vstd::math::max(msf as int, d0seq.len() as int),
                    digits@ == d0seq + zero_chars((digits@.len() - d0seq.len()) as nat),
                decreases msf - digits@.len(),
            {
                let ghost before = digits@;
                digits.push('0');
                proof {
                    crate::digits::lemma_zero_chars((digits@.len() - d0seq.len()) as nat);
                    assert(digits@ =~= d0seq + zero_chars((digits@.len() - d0seq.len()) as nat));
                }
            }
        }
        let ghost dseq = if self.strict && d0seq.len() < msf {
            d0seq + zero_chars((msf - d0seq.len()) as nat)
        } else {
            d0seq
        };
        proof {
            crate::digits::lemma_zero_chars(0);
            assert(digits@ =~= dseq);
            assert(all_digits(dseq)) by {
                crate::digits::lemma_all_digits_concat(digit_seq(av), zero_chars(if e as int > 0 {
                    (3 * e) as nat
                } else {
                    0
                }));
                crate::digits::lemma_zero_chars(if e as int > 0 {
                    (3 * e) as nat
                } else {
                    0
                });
                if self.strict && d0seq.len() < msf {
                    crate::digits::lemma_all_digits_concat(d0seq, zero_chars(
                        (msf - d0seq.len()) as nat,
                    ));
                    crate::digits::lemma_zero_chars((msf - d0seq.len()) as nat);
                }
            }
        }
        let dfull = digits.len();
        let pbound: usize = if msf == 0 {
            dfull
        } else {
            msf
        };
        let avail = dfull - ld;
        let want: usize = if pbound >= ld {
            pbound - ld
        } else {
            0
        };
        let tcount = if avail <= want {
            avail
        } else {
            want
        };
        // in non-strict modes trailing zeroes are dropped
        let mut t = tcount;
        if !self.strict {
            while t > 0 && digits[ld + t - 1] == '0'
                invariant
                    t <= tcount,
                    ld + tcount <= dfull == digits@.len(),
                    digits@ == dseq,
                    strip_zeros(dseq.subrange(ld as int, (ld + tcount) as int)) == strip_zeros(
                        dseq.subrange(ld as int, (ld + t) as int),
                    ),
                decreases t,
            {
                proof {
                    let u = dseq.subrange(ld as int, (ld + t) as int);
                    assert(u.last() == '0');
                    crate::digits::lemma_strip_zeros_step(u);
                    assert(u.drop_last() =~= dseq.subrange(ld as int, (ld + t - 1) as int));
                }
                t = t - 1;
            }
        }
        let ghost t0 = dseq.subrange(ld as int, (ld + tcount) as int);
        let ghost tseq = if self.strict {
            t0
        } else {
            strip_zeros(t0)
        };
        proof {
            if !self.strict {
                let u = dseq.subrange(ld as int, (ld + t) as int);
                if t == 0 {
                    assert(u =~= Seq::<char>::empty());
                    assert(strip_zeros(u) =~= u);
                } else {
                    assert(u.last() != '0');
                }
                assert(tseq =~= dseq.subrange(ld as int, (ld + t) as int));
            }
            assert(tseq == dseq.subrange(ld as int, (ld + t) as int));
        }
        let out = render_parts(neg, &digits, ld, t, de as i8, self.rkm);
        proof {
            assert(out@ =~= spec_out);
        }
        out
    }
}

/// Renders the raw form used when the display exponent has no SI prefix.
fn render_fallback(neg: bool, a: u128, e: i8) -> (r: String)
    ensures
        r@ == (if neg {
            seq!['-']
        } else {
            Seq::<char>::empty()
        }) + format_fallback(a as nat, e as int),
{
    proof {
        reveal_strlit("-");
        reveal_strlit("*1000^");
    }
    let mut out = String::new();
    if neg {
        out.append("-");
    }
    let mut digits: Vec<char> = Vec::new();
    push_digits(&mut digits, a);
    proof {
        crate::digits::lemma_digit_seq(a as nat);
    }
    let dl0 = digits.len();
    append_digit_range(&mut out, &digits, 0, dl0);
    out.append("*1000^");
    if e < 0 {
        out.append("-");
    }
    let eabs: u128 = if e < 0 {
        (-(e as i32)) as u128
    } else {
        e as u128
    };
    let mut edigits: Vec<char> = Vec::new();
    push_digits(&mut edigits, eabs);
    proof {
        crate::digits::lemma_digit_seq(eabs as nat);
    }
    let elen = edigits.len();
    append_digit_range(&mut out, &edigits, 0, elen);
    proof {
        assert(digits@.subrange(0, dl0 as int) =~= digit_seq(a as nat));
        assert(edigits@.subrange(0, elen as int) =~= digit_seq(abs(e as int)));
        assert(out@ =~= (if neg {
            seq!['-']
        } else {
            Seq::<char>::empty()
        }) + format_fallback(a as nat, e as int));
    }
    out
}

/// Assembles the rendering from its parts: sign, leading digits, point or
/// prefix, trailing digits, suffix.
fn render_parts(neg: bool, digits: &Vec<char>, ld: usize, t: usize, de: i8, rkm: bool) -> (r:
    String)
    requires
        ld + t <= digits@.len(),
        all_digits(digits@.subrange(0, (ld + t) as int)),
        -10 <= de <= 10,
    ensures
        ({
            let leaders = digits@.subrange(0, ld as int);
            let trailers = digits@.subrange(ld as int, (ld + t) as int);
            let sign = if neg {
                seq!['-']
            } else {
                Seq::<char>::empty()
            };
            let si = prefix_chars(de as int);
            r@ == sign + (if de == 0 {
                if trailers.len() == 0 {
                    leaders
                } else {
                    leaders + seq!['.'] + trailers
                }
            } else if rkm {
                leaders + si + trailers
            } else if trailers.len() == 0 {
                leaders + si
            } else {
                leaders + seq!['.'] + trailers + si
            })
        }),
{
    proof {
        reveal_strlit("-");
        reveal_strlit(".");
        let whole = digits@.subrange(0, (ld + t) as int);
        assert forall|j: int| 0 <= j < ld implies is_digit(#[trigger] digits@.subrange(
            0,
            ld as int,
        )[j]) by {
            assert(digits@.subrange(0, ld as int)[j] == whole[j]);
        }
        assert forall|j: int| 0 <= j < t implies is_digit(#[trigger] digits@.subrange(
            ld as int,
            (ld + t) as int,
        )[j]) by {
            assert(digits@.subrange(ld as int, (ld + t) as int)[j] == whole[j + ld]);
        }
    }
    let dn = digits.len();
    proof {
        assert(ld + t <= dn);
    }
    let mut out = String::new();
    if neg {
        out.append("-");
    }
    append_digit_range(&mut out, digits, 0, ld);
    let si = exponent_to_multiplier(de);
    if de == 0 {
        if t > 0 {
            out.append(".");
            append_digit_range(&mut out, digits, ld, ld + t);
        }
    } else if rkm {
        out.append(si);
        append_digit_range(&mut out, digits, ld, ld + t);
    } else if t == 0 {
        out.append(si);
    } else {
        out.append(".");
        append_digit_range(&mut out, digits, ld, ld + t);
        out.append(si);
    }
    proof {
        let leaders = digits@.subrange(0, ld as int);
        let trailers = digits@.subrange(ld as int, (ld + t) as int);
        let sign = if neg {
            seq!['-']
        } else {
            Seq::<char>::empty()
        };
        let si_s = prefix_chars(de as int);
        if de == 0 {
            if t == 0 {
                assert(trailers =~= Seq::<char>::empty());
                assert(out@ =~= sign + leaders);
            } else {
                assert(out@ =~= sign + (leaders + seq!['.'] + trailers));
            }
        } else if rkm {
            assert(out@ =~= sign + (leaders + si_s + trailers));
        } else if t == 0 {
            assert(trailers =~= Seq::<char>::empty());
            assert(out@ =~= sign + (leaders + si_s));
        } else {
            assert(out@ =~= sign + (leaders + seq!['.'] + trailers + si_s));
        }
    }
    out
}

impl<T: EQSupported> EngineeringQuantity<T> {
    /// Creates a standard [`DisplayAdapter`] for this value, with the given
    /// precision (0 keeps every significant digit).
    pub fn with_precision(&self, max_significant_figures: usize) -> (r: DisplayAdapter<T>)
        ensures
            r.value == *self,
            r.max_significant_figures == max_significant_figures,
            !r.rkm,
            !r.strict,
    {
        DisplayAdapter { value: *self, max_significant_figures, rkm: false, strict: false }
    }

    /// Creates a [`DisplayAdapter`] for this value in RKM mode, with the
    /// given precision.
    pub fn rkm_with_precision(&self, max_significant_figures: usize) -> (r: DisplayAdapter<T>)
        ensures
            r.value == *self,
            r.max_significant_figures == max_significant_figures,
            r.rkm,
            !r.strict,
    {
        DisplayAdapter { value: *self, max_significant_figures, rkm: true, strict: false }
    }

    /// Creates a [`DisplayAdapter`] for this value with strict precision:
    /// the requested digits are always output, even trailing zeroes.
    pub fn with_strict_precision(&self, max_significant_figures: usize) -> (r: DisplayAdapter<T>)
        ensures
            r.value == *self,
            r.max_significant_figures == max_significant_figures,
            !r.rkm,
            r.strict,
    {
        DisplayAdapter { value: *self, max_significant_figures, rkm: false, strict: true }
    }

    /// Renders the value with the defaults: three significant figures,
    /// trailing zeroes skipped, standard (not RKM) mode.
    pub fn to_string(&self) -> (r: String)
        ensures
            r@ == format_spec(self.sig(), self.exp(), 3, false, false),
    {
        self.with_precision(3).to_string()
    }
}

impl<T: EQSupported> Default for DisplayAdapter<T> {
    /// The default adapter renders the zero quantity at three significant
    /// figures in standard mode.
    fn default() -> (r: Self)
        ensures
            r.value.sig() == 0,
            r.value.exp() == 0,
            r.max_significant_figures == 3,
            !r.rkm,
            !r.strict,
    {
        proof {
            T::lemma_type_bounds();
            vstd::arithmetic::power::lemma_pow0(1000);
        }
        let z = match T::from_abs_sign(0, false) {
            Some(x) => x,
            None => vstd::pervasive::unreached(),
        };
        proof {
            vstd::arithmetic::mul::lemma_mul_basics(z.as_int());
        }
        let value = match EngineeringQuantity::<T>::from_raw(z, 0) {
            Ok(q) => q,
            Err(_) => vstd::pervasive::unreached(),
        };
        DisplayAdapter { value, max_significant_figures: 3, rkm: false, strict: false }
    }
}

/// Promotes an integer to a quantity with exponent zero, which the checks
/// at construction always allow.
fn promote<T: EQSupported>(v: T) -> (r: EngineeringQuantity<T>)
    ensures
        r.sig() == v.as_int(),
        r.exp() == 0,
{
    proof {
        T::lemma_type_bounds();
        v.lemma_in_range();
        vstd::arithmetic::power::lemma_pow0(1000);
        vstd::arithmetic::mul::lemma_mul_basics(v.as_int());
    }
    match EngineeringQuantity::<T>::from_raw(v, 0) {
        Ok(q) => q,
        Err(_) => vstd::pervasive::unreached(),
    }
}

/// A convenience trait for rendering integers directly in engineering
/// notation.
pub trait EngineeringRepr<T: EQSupported>: EQSupported + Sized {
    /// Wraps the number for engineering-notation output at the given number
    /// of significant figures; 0 keeps every digit needed for exactness.
    fn to_eng(self, sig_figures: usize) -> (r: DisplayAdapter<T>)
        ensures
            r.value.sig() == self.as_int(),
            r.value.exp() == 0,
            r.max_significant_figures == sig_figures,
            !r.rkm,
            !r.strict,
    ;

    /// Wraps the number for RKM-notation output at the given number of
    /// significant figures; 0 keeps every digit needed for exactness.
    fn to_rkm(self, sig_figures: usize) -> (r: DisplayAdapter<T>)
        ensures
            r.value.sig() == self.as_int(),
            r.value.exp() == 0,
            r.max_significant_figures == sig_figures,
            r.rkm,
            !r.strict,
    ;
}

impl EngineeringRepr<u16> for u16 {
    fn to_eng(self, sig_figures: usize) -> (r: DisplayAdapter<u16>) {
        promote(self).with_precision(sig_figures)
    }

    fn to_rkm(self, sig_figures: usize) -> (r: DisplayAdapter<u16>) {
        promote(self).rkm_with_precision(sig_figures)
    }
}

impl EngineeringRepr<u32> for u32 {
    fn to_eng(self, sig_figures: usize) -> (r: DisplayAdapter<u32>) {
        promote(self).with_precision(sig_figures)
    }

    fn to_rkm(self, sig_figures: usize) -> (r: DisplayAdapter<u32>) {
        promote(self).rkm_with_precision(sig_figures)
    }
}

impl EngineeringRepr<u64> for u64 {
    fn to_eng(self, sig_figures: usize) -> (r: DisplayAdapter<u64>) {
        promote(self).with_precision(sig_figures)
    }

    fn to_rkm(self, sig_figures: usize) -> (r: DisplayAdapter<u64>) {
        promote(self).rkm_with_precision(sig_figures)
    }
}

impl EngineeringRepr<u128> for u128 {
    fn to_eng(self, sig_figures: usize) -> (r: DisplayAdapter<u128>) {
        promote(self).with_precision(sig_figures)
    }

    fn to_rkm(self, sig_figures: usize) -> (r: DisplayAdapter<u128>) {
        promote(self).rkm_with_precision(sig_figures)
    }
}

impl EngineeringRepr<usize> for usize {
    fn to_eng(self, sig_figures: usize) -> (r: DisplayAdapter<usize>) {
        promote(self).with_precision(sig_figures)
    }

    fn to_rkm(self, sig_figures: usize) -> (r: DisplayAdapter<usize>) {
        promote(self).rkm_with_precision(sig_figures)
    }
}

impl EngineeringRepr<i16> for i16 {
    fn to_eng(self, sig_figures: usize) -> (r: DisplayAdapter<i16>) {
        promote(self).with_precision(sig_figures)
    }

    fn to_rkm(self, sig_figures: usize) -> (r: DisplayAdapter<i16>) {
        promote(self).rkm_with_precision(sig_figures)
    }
}

impl EngineeringRepr<i32> for i32 {
    fn to_eng(self, sig_figures: usize) -> (r: DisplayAdapter<i32>) {
        promote(self).with_precision(sig_figures)
    }

    fn to_rkm(self, sig_figures: usize) -> (r: DisplayAdapter<i32>) {
        promote(self).rkm_with_precision(sig_figures)
    }
}

impl EngineeringRepr<i64> for i64 {
    fn to_eng(self, sig_figures: usize) -> (r: DisplayAdapter<i64>) {
        promote(self).with_precision(sig_figures)
    }

    fn to_rkm(self, sig_figures: usize) -> (r: DisplayAdapter<i64>) {
        promote(self).rkm_with_precision(sig_figures)
    }
}

impl EngineeringRepr<i128> for i128 {
    fn to_eng(self, sig_figures: usize) -> (r: DisplayAdapter<i128>) {
        promote(self).with_precision(sig_figures)
    }

    fn to_rkm(self, sig_figures: usize) -> (r: DisplayAdapter<i128>) {
        promote(self).rkm_with_precision(sig_figures)
    }
}

impl EngineeringRepr<isize> for isize {
    fn to_eng(self, sig_figures: usize) -> (r: DisplayAdapter<isize>) {
        promote(self).with_precision(sig_figures)
    }

    fn to_rkm(self, sig_figures: usize) -> (r: DisplayAdapter<isize>) {
        promote(self).rkm_with_precision(sig_figures)
    }
}

/// If a partially padded value already exceeds the bound, the fully padded
/// value does too.
proof fn lemma_pad_exceeds(v: int, k: nat, pad: nat, bound: int)
    requires
        v >= 0,
        k <= pad,
        v * pow10(k) > bound,
    ensures
        v * pow10(pad) > bound,
{
    crate::arith::lemma_pow_ge_one(k);
    vstd::arithmetic::power::lemma_pow_increases(10, k, pad);
    if v > 0 {
        vstd::arithmetic::mul::lemma_mul_left_inequality(v, pow10(k), pow10(pad));
    } else {
        vstd::arithmetic::mul::lemma_mul_by_zero_is_zero(pow10(k));
        vstd::arithmetic::mul::lemma_mul_by_zero_is_zero(pow10(pad));
    }
}

} // verus!
