//! The capability layer for storage types: every integer type that can hold a
//! significand implements [`EQSupported`], which exposes the type's bounds and
//! a sign/absolute-value split through `u128`.

use vstd::prelude::*;

verus! {

/// Marker-and-capability trait for the storage types of
/// [`crate::EngineeringQuantity`].
///
/// The supported types are the signed and unsigned integers of width 16, 32,
/// 64 and 128 bits plus the pointer-sized pair. Each exposes its bounds as
/// mathematical integers and an exact decomposition into absolute value (as
/// `u128`, which every supported type fits) and sign.
pub trait EQSupported: Sized + Copy {
    /// The value as a mathematical integer.
    spec fn as_int(self) -> int;

    /// The smallest value of the type.
    spec fn min_spec() -> int;

    /// The largest value of the type.
    spec fn max_spec() -> int;

    /// The type's bounds: its maximum is at least 1000 and fits `u128`; its
    /// minimum is zero (unsigned) or one below the negated maximum (signed);
    /// the count of values, a power of two, is not a multiple of 1000.
    proof fn lemma_type_bounds()
        ensures
            1000 <= Self::max_spec() <= u128::MAX,
            Self::min_spec() == 0 || Self::min_spec() == -Self::max_spec() - 1,
            -Self::min_spec() <= u128::MAX,
            (Self::max_spec() + 1) % 1000 != 0,
    ;

    /// Every value lies within the type's bounds.
    proof fn lemma_in_range(self)
        ensures
            Self::min_spec() <= self.as_int() <= Self::max_spec(),
    ;

    /// Splits a value into its absolute value and sign bit.
    fn abs_sign(self) -> (r: (u128, bool))
        ensures
            r.0 == vstd::math::abs(self.as_int()),
            r.1 == (self.as_int() < 0),
    ;

    /// Rebuilds a value from absolute value and sign bit, if it fits.
    fn from_abs_sign(a: u128, neg: bool) -> (r: Option<Self>)
        ensures
            ({
                let v = if neg {
                    -(a as int)
                } else {
                    a as int
                };
                match r {
                    Some(x) => x.as_int() == v && Self::min_spec() <= v <= Self::max_spec(),
                    None => !(Self::min_spec() <= v <= Self::max_spec()),
                }
            }),
    ;

    /// Whether the type is signed.
    fn signed() -> (r: bool)
        ensures
            r == (Self::min_spec() < 0),
    ;

    /// The largest value of the type, as a `u128`.
    fn exec_max() -> (r: u128)
        ensures
            r == Self::max_spec(),
    ;

    /// The absolute value of the smallest value of the type, as a `u128`.
    fn exec_min_abs() -> (r: u128)
        ensures
            r == -Self::min_spec(),
    ;
}

impl EQSupported for u16 {
    open spec fn as_int(self) -> int {
        self as int
    }

    open spec fn min_spec() -> int {
        0
    }

    open spec fn max_spec() -> int {
        u16::MAX as int
    }

    proof fn lemma_type_bounds() {
    }

    proof fn lemma_in_range(self) {
    }

    fn abs_sign(self) -> (r: (u128, bool)) {
        (self as u128, false)
    }

    fn from_abs_sign(a: u128, neg: bool) -> (r: Option<Self>) {
        if neg && a > 0 {
            None
        } else if a <= u16::MAX as u128 {
            Some(a as u16)
        } else {
            None
        }
    }

    fn signed() -> (r: bool) {
        false
    }

    fn exec_max() -> (r: u128) {
        u16::MAX as u128
    }

    fn exec_min_abs() -> (r: u128) {
        0
    }
}

impl EQSupported for u32 {
    open spec fn as_int(self) -> int {
        self as int
    }

    open spec fn min_spec() -> int {
        0
    }

    open spec fn max_spec() -> int {
        u32::MAX as int
    }

    proof fn lemma_type_bounds() {
    }

    proof fn lemma_in_range(self) {
    }

    fn abs_sign(self) -> (r: (u128, bool)) {
        (self as u128, false)
    }

    fn from_abs_sign(a: u128, neg: bool) -> (r: Option<Self>) {
        if neg && a > 0 {
            None
        } else if a <= u32::MAX as u128 {
            Some(a as u32)
        } else {
            None
        }
    }

    fn signed() -> (r: bool) {
        false
    }

    fn exec_max() -> (r: u128) {
        u32::MAX as u128
    }

    fn exec_min_abs() -> (r: u128) {
        0
    }
}

impl EQSupported for u64 {
    open spec fn as_int(self) -> int {
        self as int
    }

    open spec fn min_spec() -> int {
        0
    }

    open spec fn max_spec() -> int {
        u64::MAX as int
    }

    proof fn lemma_type_bounds() {
    }

    proof fn lemma_in_range(self) {
    }

    fn abs_sign(self) -> (r: (u128, bool)) {
        (self as u128, false)
    }

    fn from_abs_sign(a: u128, neg: bool) -> (r: Option<Self>) {
        if neg && a > 0 {
            None
        } else if a <= u64::MAX as u128 {
            Some(a as u64)
        } else {
            None
        }
    }

    fn signed() -> (r: bool) {
        false
    }

    fn exec_max() -> (r: u128) {
        u64::MAX as u128
    }

    fn exec_min_abs() -> (r: u128) {
        0
    }
}

impl EQSupported for u128 {
    open spec fn as_int(self) -> int {
        self as int
    }

    open spec fn min_spec() -> int {
        0
    }

    open spec fn max_spec() -> int {
        u128::MAX as int
    }

    proof fn lemma_type_bounds() {
    }

    proof fn lemma_in_range(self) {
    }

    fn abs_sign(self) -> (r: (u128, bool)) {
        (self, false)
    }

    fn from_abs_sign(a: u128, neg: bool) -> (r: Option<Self>) {
        if neg && a > 0 {
            None
        } else {
            Some(a)
        }
    }

    fn signed() -> (r: bool) {
        false
    }

    fn exec_max() -> (r: u128) {
        u128::MAX
    }

    fn exec_min_abs() -> (r: u128) {
        0
    }
}

impl EQSupported for usize {
    open spec fn as_int(self) -> int {
        self as int
    }

    open spec fn min_spec() -> int {
        0
    }

    open spec fn max_spec() -> int {
        usize::MAX as int
    }

    proof fn lemma_type_bounds() {
    }

    proof fn lemma_in_range(self) {
    }

    fn abs_sign(self) -> (r: (u128, bool)) {
        (self as u128, false)
    }

    fn from_abs_sign(a: u128, neg: bool) -> (r: Option<Self>) {
        if neg && a > 0 {
            None
        } else if a <= usize::MAX as u128 {
            Some(a as usize)
        } else {
            None
        }
    }

    fn signed() -> (r: bool) {
        false
    }

    fn exec_max() -> (r: u128) {
        usize::MAX as u128
    }

    fn exec_min_abs() -> (r: u128) {
        0
    }
}

impl EQSupported for i16 {
    open spec fn as_int(self) -> int {
        self as int
    }

    open spec fn min_spec() -> int {
        i16::MIN as int
    }

    open spec fn max_spec() -> int {
        i16::MAX as int
    }

    proof fn lemma_type_bounds() {
    }

    proof fn lemma_in_range(self) {
    }

    fn abs_sign(self) -> (r: (u128, bool)) {
        if self < 0 {
            if self == i16::MIN {
                (32768u128, true)
            } else {
                ((-self) as u128, true)
            }
        } else {
            (self as u128, false)
        }
    }

    fn from_abs_sign(a: u128, neg: bool) -> (r: Option<Self>) {
        if neg {
            if a == 32768u128 {
                Some(i16::MIN)
            } else if a < 32768u128 {
                Some(-(a as i16))
            } else {
                None
            }
        } else {
            if a <= i16::MAX as u128 {
                Some(a as i16)
            } else {
                None
            }
        }
    }

    fn signed() -> (r: bool) {
        true
    }

    fn exec_max() -> (r: u128) {
        i16::MAX as u128
    }

    fn exec_min_abs() -> (r: u128) {
        32768u128
    }
}

impl EQSupported for i32 {
    open spec fn as_int(self) -> int {
        self as int
    }

    open spec fn min_spec() -> int {
        i32::MIN as int
    }

    open spec fn max_spec() -> int {
        i32::MAX as int
    }

    proof fn lemma_type_bounds() {
    }

    proof fn lemma_in_range(self) {
    }

    fn abs_sign(self) -> (r: (u128, bool)) {
        if self < 0 {
            if self == i32::MIN {
                (2147483648u128, true)
            } else {
                ((-self) as u128, true)
            }
        } else {
            (self as u128, false)
        }
    }

    fn from_abs_sign(a: u128, neg: bool) -> (r: Option<Self>) {
        if neg {
            if a == 2147483648u128 {
                Some(i32::MIN)
            } else if a < 2147483648u128 {
                Some(-(a as i32))
            } else {
                None
            }
        } else {
            if a <= i32::MAX as u128 {
                Some(a as i32)
            } else {
                None
            }
        }
    }

    fn signed() -> (r: bool) {
        true
    }

    fn exec_max() -> (r: u128) {
        i32::MAX as u128
    }

    fn exec_min_abs() -> (r: u128) {
        2147483648u128
    }
}

impl EQSupported for i64 {
    open spec fn as_int(self) -> int {
        self as int
    }

    open spec fn min_spec() -> int {
        i64::MIN as int
    }

    open spec fn max_spec() -> int {
        i64::MAX as int
    }

    proof fn lemma_type_bounds() {
    }

    proof fn lemma_in_range(self) {
    }

    fn abs_sign(self) -> (r: (u128, bool)) {
        if self < 0 {
            if self == i64::MIN {
                (9223372036854775808u128, true)
            } else {
                ((-self) as u128, true)
            }
        } else {
            (self as u128, false)
        }
    }

    fn from_abs_sign(a: u128, neg: bool) -> (r: Option<Self>) {
        if neg {
            if a == 9223372036854775808u128 {
                Some(i64::MIN)
            } else if a < 9223372036854775808u128 {
                Some(-(a as i64))
            } else {
                None
            }
        } else {
            if a <= i64::MAX as u128 {
                Some(a as i64)
            } else {
                None
            }
        }
    }

    fn signed() -> (r: bool) {
        true
    }

    fn exec_max() -> (r: u128) {
        i64::MAX as u128
    }

    fn exec_min_abs() -> (r: u128) {
        9223372036854775808u128
    }
}

impl EQSupported for i128 {
    open spec fn as_int(self) -> int {
        self as int
    }

    open spec fn min_spec() -> int {
        i128::MIN as int
    }

    open spec fn max_spec() -> int {
        i128::MAX as int
    }

    proof fn lemma_type_bounds() {
    }

    proof fn lemma_in_range(self) {
    }

    fn abs_sign(self) -> (r: (u128, bool)) {
        if self < 0 {
            if self == i128::MIN {
                (170141183460469231731687303715884105728u128, true)
            } else {
                ((-self) as u128, true)
            }
        } else {
            (self as u128, false)
        }
    }

    fn from_abs_sign(a: u128, neg: bool) -> (r: Option<Self>) {
        if neg {
            if a == 170141183460469231731687303715884105728u128 {
                Some(i128::MIN)
            } else if a < 170141183460469231731687303715884105728u128 {
                Some(-(a as i128))
            } else {
                None
            }
        } else {
            if a <= i128::MAX as u128 {
                Some(a as i128)
            } else {
                None
            }
        }
    }

    fn signed() -> (r: bool) {
        true
    }

    fn exec_max() -> (r: u128) {
        i128::MAX as u128
    }

    fn exec_min_abs() -> (r: u128) {
        170141183460469231731687303715884105728u128
    }
}

impl EQSupported for isize {
    open spec fn as_int(self) -> int {
        self as int
    }

    open spec fn min_spec() -> int {
        isize::MIN as int
    }

    open spec fn max_spec() -> int {
        isize::MAX as int
    }

    proof fn lemma_type_bounds() {
    }

    proof fn lemma_in_range(self) {
    }

    fn abs_sign(self) -> (r: (u128, bool)) {
        if self < 0 {
            if self == isize::MIN {
                ((isize::MAX as u128) + 1, true)
            } else {
                ((-self) as u128, true)
            }
        } else {
            (self as u128, false)
        }
    }

    fn from_abs_sign(a: u128, neg: bool) -> (r: Option<Self>) {
        if neg {
            if a == (isize::MAX as u128) + 1 {
                Some(isize::MIN)
            } else if a < (isize::MAX as u128) + 1 {
                Some(-(a as isize))
            } else {
                None
            }
        } else {
            if a <= isize::MAX as u128 {
                Some(a as isize)
            } else {
                None
            }
        }
    }

    fn signed() -> (r: bool) {
        true
    }

    fn exec_max() -> (r: u128) {
        isize::MAX as u128
    }

    fn exec_min_abs() -> (r: u128) {
        (isize::MAX as u128) + 1
    }
}

} // verus!
