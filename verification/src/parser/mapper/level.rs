//! The values a decoded signal line can take.
use vstd::prelude::*;

verus! {

/// A value of a signal line. Its `same` is the equality of values.
pub trait Level: Copy {
    fn same(&self, other: &Self) -> (r: bool)
        ensures
            r == (*self == *other),
    ;
}

/// An integer value of a signal line, for [`NumMapper`](super::NumMapper).
pub trait NumLevel: Level {
    /// The integer this value stands for.
    spec fn to_int(self) -> int;

    spec fn spec_zero() -> Self;

    spec fn spec_one() -> Self;

    /// `low + high - v` in the type's own arithmetic, which wraps around on overflow.
    spec fn spec_mirror(low: Self, high: Self, v: Self) -> Self;

    fn zero() -> (r: Self)
        ensures
            r == Self::spec_zero(),
    ;

    fn one() -> (r: Self)
        ensures
            r == Self::spec_one(),
    ;

    fn less(&self, other: &Self) -> (r: bool)
        ensures
            r == (self.to_int() < other.to_int()),
    ;

    fn mirror(low: Self, high: Self, v: Self) -> (r: Self)
        ensures
            r == Self::spec_mirror(low, high, v),
    ;

    proof fn lemma_constants()
        ensures
            Self::spec_zero().to_int() == 0,
            Self::spec_one().to_int() == 1,
    ;

    /// Two values are equal exactly when they stand for the same integer.
    proof fn lemma_to_int_injective(a: Self, b: Self)
        ensures
            (a.to_int() == b.to_int()) == (a == b),
    ;

    /// Between `low` and `high` the mirror does not wrap: it is `low + high - v`.
    proof fn lemma_mirror(low: Self, high: Self, v: Self)
        requires
            low.to_int() <= v.to_int() <= high.to_int(),
        ensures
            Self::spec_mirror(low, high, v).to_int() == low.to_int() + high.to_int() - v.to_int(),
    ;
}

impl Level for bool {
    fn same(&self, other: &Self) -> (r: bool) {
        *self == *other
    }
}

impl Level for u8 {
    fn same(&self, other: &Self) -> (r: bool) {
        *self == *other
    }
}

impl NumLevel for u8 {
    open spec fn to_int(self) -> int {
        self as int
    }

    open spec fn spec_zero() -> Self {
        0
    }

    open spec fn spec_one() -> Self {
        1
    }

    open spec fn spec_mirror(low: Self, high: Self, v: Self) -> Self {
        vstd::wrapping::u8_specs::wrapping_sub(vstd::wrapping::u8_specs::wrapping_add(low, high), v)
    }

    fn zero() -> (r: Self) {
        0
    }

    fn one() -> (r: Self) {
        1
    }

    fn less(&self, other: &Self) -> (r: bool) {
        *self < *other
    }

    fn mirror(low: Self, high: Self, v: Self) -> (r: Self) {
        low.wrapping_add(high).wrapping_sub(v)
    }

    proof fn lemma_constants() {
    }

    proof fn lemma_to_int_injective(a: Self, b: Self) {
    }

    proof fn lemma_mirror(low: Self, high: Self, v: Self) {
    }
}

impl Level for u16 {
    fn same(&self, other: &Self) -> (r: bool) {
        *self == *other
    }
}

impl NumLevel for u16 {
    open spec fn to_int(self) -> int {
        self as int
    }

    open spec fn spec_zero() -> Self {
        0
    }

    open spec fn spec_one() -> Self {
        1
    }

    open spec fn spec_mirror(low: Self, high: Self, v: Self) -> Self {
        vstd::wrapping::u16_specs::wrapping_sub(vstd::wrapping::u16_specs::wrapping_add(low, high), v)
    }

    fn zero() -> (r: Self) {
        0
    }

    fn one() -> (r: Self) {
        1
    }

    fn less(&self, other: &Self) -> (r: bool) {
        *self < *other
    }

    fn mirror(low: Self, high: Self, v: Self) -> (r: Self) {
        low.wrapping_add(high).wrapping_sub(v)
    }

    proof fn lemma_constants() {
    }

    proof fn lemma_to_int_injective(a: Self, b: Self) {
    }

    proof fn lemma_mirror(low: Self, high: Self, v: Self) {
    }
}

impl Level for u32 {
    fn same(&self, other: &Self) -> (r: bool) {
        *self == *other
    }
}

impl NumLevel for u32 {
    open spec fn to_int(self) -> int {
        self as int
    }

    open spec fn spec_zero() -> Self {
        0
    }

    open spec fn spec_one() -> Self {
        1
    }

    open spec fn spec_mirror(low: Self, high: Self, v: Self) -> Self {
        vstd::wrapping::u32_specs::wrapping_sub(vstd::wrapping::u32_specs::wrapping_add(low, high), v)
    }

    fn zero() -> (r: Self) {
        0
    }

    fn one() -> (r: Self) {
        1
    }

    fn less(&self, other: &Self) -> (r: bool) {
        *self < *other
    }

    fn mirror(low: Self, high: Self, v: Self) -> (r: Self) {
        low.wrapping_add(high).wrapping_sub(v)
    }

    proof fn lemma_constants() {
    }

    proof fn lemma_to_int_injective(a: Self, b: Self) {
    }

    proof fn lemma_mirror(low: Self, high: Self, v: Self) {
    }
}

impl Level for u64 {
    fn same(&self, other: &Self) -> (r: bool) {
        *self == *other
    }
}

impl NumLevel for u64 {
    open spec fn to_int(self) -> int {
        self as int
    }

    open spec fn spec_zero() -> Self {
        0
    }

    open spec fn spec_one() -> Self {
        1
    }

    open spec fn spec_mirror(low: Self, high: Self, v: Self) -> Self {
        vstd::wrapping::u64_specs::wrapping_sub(vstd::wrapping::u64_specs::wrapping_add(low, high), v)
    }

    fn zero() -> (r: Self) {
        0
    }

    fn one() -> (r: Self) {
        1
    }

    fn less(&self, other: &Self) -> (r: bool) {
        *self < *other
    }

    fn mirror(low: Self, high: Self, v: Self) -> (r: Self) {
        low.wrapping_add(high).wrapping_sub(v)
    }

    proof fn lemma_constants() {
    }

    proof fn lemma_to_int_injective(a: Self, b: Self) {
    }

    proof fn lemma_mirror(low: Self, high: Self, v: Self) {
    }
}

impl Level for usize {
    fn same(&self, other: &Self) -> (r: bool) {
        *self == *other
    }
}

impl NumLevel for usize {
    open spec fn to_int(self) -> int {
        self as int
    }

    open spec fn spec_zero() -> Self {
        0
    }

    open spec fn spec_one() -> Self {
        1
    }

    open spec fn spec_mirror(low: Self, high: Self, v: Self) -> Self {
        vstd::wrapping::usize_specs::wrapping_sub(vstd::wrapping::usize_specs::wrapping_add(low, high), v)
    }

    fn zero() -> (r: Self) {
        0
    }

    fn one() -> (r: Self) {
        1
    }

    fn less(&self, other: &Self) -> (r: bool) {
        *self < *other
    }

    fn mirror(low: Self, high: Self, v: Self) -> (r: Self) {
        low.wrapping_add(high).wrapping_sub(v)
    }

    proof fn lemma_constants() {
    }

    proof fn lemma_to_int_injective(a: Self, b: Self) {
    }

    proof fn lemma_mirror(low: Self, high: Self, v: Self) {
    }
}

impl Level for i8 {
    fn same(&self, other: &Self) -> (r: bool) {
        *self == *other
    }
}

impl NumLevel for i8 {
    open spec fn to_int(self) -> int {
        self as int
    }

    open spec fn spec_zero() -> Self {
        0
    }

    open spec fn spec_one() -> Self {
        1
    }

    open spec fn spec_mirror(low: Self, high: Self, v: Self) -> Self {
        vstd::wrapping::i8_specs::wrapping_sub(vstd::wrapping::i8_specs::wrapping_add(low, high), v)
    }

    fn zero() -> (r: Self) {
        0
    }

    fn one() -> (r: Self) {
        1
    }

    fn less(&self, other: &Self) -> (r: bool) {
        *self < *other
    }

    fn mirror(low: Self, high: Self, v: Self) -> (r: Self) {
        low.wrapping_add(high).wrapping_sub(v)
    }

    proof fn lemma_constants() {
    }

    proof fn lemma_to_int_injective(a: Self, b: Self) {
    }

    proof fn lemma_mirror(low: Self, high: Self, v: Self) {
    }
}

impl Level for i16 {
    fn same(&self, other: &Self) -> (r: bool) {
        *self == *other
    }
}

impl NumLevel for i16 {
    open spec fn to_int(self) -> int {
        self as int
    }

    open spec fn spec_zero() -> Self {
        0
    }

    open spec fn spec_one() -> Self {
        1
    }

    open spec fn spec_mirror(low: Self, high: Self, v: Self) -> Self {
        vstd::wrapping::i16_specs::wrapping_sub(vstd::wrapping::i16_specs::wrapping_add(low, high), v)
    }

    fn zero() -> (r: Self) {
        0
    }

    fn one() -> (r: Self) {
        1
    }

    fn less(&self, other: &Self) -> (r: bool) {
        *self < *other
    }

    fn mirror(low: Self, high: Self, v: Self) -> (r: Self) {
        low.wrapping_add(high).wrapping_sub(v)
    }

    proof fn lemma_constants() {
    }

    proof fn lemma_to_int_injective(a: Self, b: Self) {
    }

    proof fn lemma_mirror(low: Self, high: Self, v: Self) {
    }
}

impl Level for i32 {
    fn same(&self, other: &Self) -> (r: bool) {
        *self == *other
    }
}

impl NumLevel for i32 {
    open spec fn to_int(self) -> int {
        self as int
    }

    open spec fn spec_zero() -> Self {
        0
    }

    open spec fn spec_one() -> Self {
        1
    }

    open spec fn spec_mirror(low: Self, high: Self, v: Self) -> Self {
        vstd::wrapping::i32_specs::wrapping_sub(vstd::wrapping::i32_specs::wrapping_add(low, high), v)
    }

    fn zero() -> (r: Self) {
        0
    }

    fn one() -> (r: Self) {
        1
    }

    fn less(&self, other: &Self) -> (r: bool) {
        *self < *other
    }

    fn mirror(low: Self, high: Self, v: Self) -> (r: Self) {
        low.wrapping_add(high).wrapping_sub(v)
    }

    proof fn lemma_constants() {
    }

    proof fn lemma_to_int_injective(a: Self, b: Self) {
    }

    proof fn lemma_mirror(low: Self, high: Self, v: Self) {
    }
}

impl Level for i64 {
    fn same(&self, other: &Self) -> (r: bool) {
        *self == *other
    }
}

impl NumLevel for i64 {
    open spec fn to_int(self) -> int {
        self as int
    }

    open spec fn spec_zero() -> Self {
        0
    }

    open spec fn spec_one() -> Self {
        1
    }

    open spec fn spec_mirror(low: Self, high: Self, v: Self) -> Self {
        vstd::wrapping::i64_specs::wrapping_sub(vstd::wrapping::i64_specs::wrapping_add(low, high), v)
    }

    fn zero() -> (r: Self) {
        0
    }

    fn one() -> (r: Self) {
        1
    }

    fn less(&self, other: &Self) -> (r: bool) {
        *self < *other
    }

    fn mirror(low: Self, high: Self, v: Self) -> (r: Self) {
        low.wrapping_add(high).wrapping_sub(v)
    }

    proof fn lemma_constants() {
    }

    proof fn lemma_to_int_injective(a: Self, b: Self) {
    }

    proof fn lemma_mirror(low: Self, high: Self, v: Self) {
    }
}

impl Level for isize {
    fn same(&self, other: &Self) -> (r: bool) {
        *self == *other
    }
}

impl NumLevel for isize {
    open spec fn to_int(self) -> int {
        self as int
    }

    open spec fn spec_zero() -> Self {
        0
    }

    open spec fn spec_one() -> Self {
        1
    }

    open spec fn spec_mirror(low: Self, high: Self, v: Self) -> Self {
        vstd::wrapping::isize_specs::wrapping_sub(vstd::wrapping::isize_specs::wrapping_add(low, high), v)
    }

    fn zero() -> (r: Self) {
        0
    }

    fn one() -> (r: Self) {
        1
    }

    fn less(&self, other: &Self) -> (r: bool) {
        *self < *other
    }

    fn mirror(low: Self, high: Self, v: Self) -> (r: Self) {
        low.wrapping_add(high).wrapping_sub(v)
    }

    proof fn lemma_constants() {
    }

    proof fn lemma_to_int_injective(a: Self, b: Self) {
    }

    proof fn lemma_mirror(low: Self, high: Self, v: Self) {
    }
}

impl Level for u128 {
    fn same(&self, other: &Self) -> (r: bool) {
        *self == *other
    }
}

impl NumLevel for u128 {
    open spec fn to_int(self) -> int {
        self as int
    }

    open spec fn spec_zero() -> Self {
        0
    }

    open spec fn spec_one() -> Self {
        1
    }

    open spec fn spec_mirror(low: Self, high: Self, v: Self) -> Self {
        vstd::wrapping::u128_specs::wrapping_sub(vstd::wrapping::u128_specs::wrapping_add(low, high), v)
    }

    fn zero() -> (r: Self) {
        0
    }

    fn one() -> (r: Self) {
        1
    }

    fn less(&self, other: &Self) -> (r: bool) {
        *self < *other
    }

    fn mirror(low: Self, high: Self, v: Self) -> (r: Self) {
        low.wrapping_add(high).wrapping_sub(v)
    }

    proof fn lemma_constants() {
    }

    proof fn lemma_to_int_injective(a: Self, b: Self) {
    }

    proof fn lemma_mirror(low: Self, high: Self, v: Self) {
    }
}

impl Level for i128 {
    fn same(&self, other: &Self) -> (r: bool) {
        *self == *other
    }
}

impl NumLevel for i128 {
    open spec fn to_int(self) -> int {
        self as int
    }

    open spec fn spec_zero() -> Self {
        0
    }

    open spec fn spec_one() -> Self {
        1
    }

    open spec fn spec_mirror(low: Self, high: Self, v: Self) -> Self {
        vstd::wrapping::i128_specs::wrapping_sub(vstd::wrapping::i128_specs::wrapping_add(low, high), v)
    }

    fn zero() -> (r: Self) {
        0
    }

    fn one() -> (r: Self) {
        1
    }

    fn less(&self, other: &Self) -> (r: bool) {
        *self < *other
    }

    fn mirror(low: Self, high: Self, v: Self) -> (r: Self) {
        low.wrapping_add(high).wrapping_sub(v)
    }

    proof fn lemma_constants() {
    }

    proof fn lemma_to_int_injective(a: Self, b: Self) {
    }

    proof fn lemma_mirror(low: Self, high: Self, v: Self) {
    }
}

} // verus!
