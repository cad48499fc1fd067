pub mod grammar;
pub mod decode;
pub mod value;
pub mod encode;
pub mod roundtrip;
pub mod hash;
pub mod text;


use vstd::prelude::*;

verus! {

/// An integer type that can be encoded and decoded.  The conversions pass
/// through `i128`, which holds every value of every such type.
pub trait Integer: Copy + Sized {
    spec fn lower() -> int;

    spec fn upper() -> int;

    spec fn int_value(self) -> int;

    proof fn lemma_range(x: Self)
        ensures
            Self::lower() <= x.int_value() <= Self::upper(),
    ;

    proof fn lemma_bounds()
        ensures
            i64::MIN <= Self::lower() <= 0,
            0 < Self::upper() <= u64::MAX,
    ;

    fn min_wide() -> (r: i128)
        ensures
            r == Self::lower(),
    ;

    fn max_wide() -> (r: i128)
        ensures
            r == Self::upper(),
    ;

    fn from_wide(v: i128) -> (r: Self)
        requires
            Self::lower() <= v <= Self::upper(),
        ensures
            r.int_value() == v,
    ;

    fn to_wide(self) -> (r: i128)
        ensures
            r == self.int_value(),
    ;
}

impl Integer for u8 {
    open spec fn lower() -> int {
        0 as int
    }

    open spec fn upper() -> int {
        u8::MAX as int
    }

    open spec fn int_value(self) -> int {
        self as int
    }

    proof fn lemma_range(x: Self) {
    }

    proof fn lemma_bounds() {
    }

    fn min_wide() -> (r: i128) {
        0 as i128
    }

    fn max_wide() -> (r: i128) {
        u8::MAX as i128
    }

    fn from_wide(v: i128) -> (r: Self) {
        v as u8
    }

    fn to_wide(self) -> (r: i128) {
        self as i128
    }
}

impl Integer for u16 {
    open spec fn lower() -> int {
        0 as int
    }

    open spec fn upper() -> int {
        u16::MAX as int
    }

    open spec fn int_value(self) -> int {
        self as int
    }

    proof fn lemma_range(x: Self) {
    }

    proof fn lemma_bounds() {
    }

    fn min_wide() -> (r: i128) {
        0 as i128
    }

    fn max_wide() -> (r: i128) {
        u16::MAX as i128
    }

    fn from_wide(v: i128) -> (r: Self) {
        v as u16
    }

    fn to_wide(self) -> (r: i128) {
        self as i128
    }
}

impl Integer for u32 {
    open spec fn lower() -> int {
        0 as int
    }

    open spec fn upper() -> int {
        u32::MAX as int
    }

    open spec fn int_value(self) -> int {
        self as int
    }

    proof fn lemma_range(x: Self) {
    }

    proof fn lemma_bounds() {
    }

    fn min_wide() -> (r: i128) {
        0 as i128
    }

    fn max_wide() -> (r: i128) {
        u32::MAX as i128
    }

    fn from_wide(v: i128) -> (r: Self) {
        v as u32
    }

    fn to_wide(self) -> (r: i128) {
        self as i128
    }
}

impl Integer for u64 {
    open spec fn lower() -> int {
        0 as int
    }

    open spec fn upper() -> int {
        u64::MAX as int
    }

    open spec fn int_value(self) -> int {
        self as int
    }

    proof fn lemma_range(x: Self) {
    }

    proof fn lemma_bounds() {
    }

    fn min_wide() -> (r: i128) {
        0 as i128
    }

    fn max_wide() -> (r: i128) {
        u64::MAX as i128
    }

    fn from_wide(v: i128) -> (r: Self) {
        v as u64
    }

    fn to_wide(self) -> (r: i128) {
        self as i128
    }
}

impl Integer for usize {
    open spec fn lower() -> int {
        0 as int
    }

    open spec fn upper() -> int {
        usize::MAX as int
    }

    open spec fn int_value(self) -> int {
        self as int
    }

    proof fn lemma_range(x: Self) {
    }

    proof fn lemma_bounds() {
    }

    fn min_wide() -> (r: i128) {
        0 as i128
    }

    fn max_wide() -> (r: i128) {
        usize::MAX as i128
    }

    fn from_wide(v: i128) -> (r: Self) {
        v as usize
    }

    fn to_wide(self) -> (r: i128) {
        self as i128
    }
}

impl Integer for i8 {
    open spec fn lower() -> int {
        i8::MIN as int
    }

    open spec fn upper() -> int {
        i8::MAX as int
    }

    open spec fn int_value(self) -> int {
        self as int
    }

    proof fn lemma_range(x: Self) {
    }

    proof fn lemma_bounds() {
    }

    fn min_wide() -> (r: i128) {
        i8::MIN as i128
    }

    fn max_wide() -> (r: i128) {
        i8::MAX as i128
    }

    fn from_wide(v: i128) -> (r: Self) {
        v as i8
    }

    fn to_wide(self) -> (r: i128) {
        self as i128
    }
}

impl Integer for i16 {
    open spec fn lower() -> int {
        i16::MIN as int
    }

    open spec fn upper() -> int {
        i16::MAX as int
    }

    open spec fn int_value(self) -> int {
        self as int
    }

    proof fn lemma_range(x: Self) {
    }

    proof fn lemma_bounds() {
    }

    fn min_wide() -> (r: i128) {
        i16::MIN as i128
    }

    fn max_wide() -> (r: i128) {
        i16::MAX as i128
    }

    fn from_wide(v: i128) -> (r: Self) {
        v as i16
    }

    fn to_wide(self) -> (r: i128) {
        self as i128
    }
}

impl Integer for i32 {
    open spec fn lower() -> int {
        i32::MIN as int
    }

    open spec fn upper() -> int {
        i32::MAX as int
    }

    open spec fn int_value(self) -> int {
        self as int
    }

    proof fn lemma_range(x: Self) {
    }

    proof fn lemma_bounds() {
    }

    fn min_wide() -> (r: i128) {
        i32::MIN as i128
    }

    fn max_wide() -> (r: i128) {
        i32::MAX as i128
    }

    fn from_wide(v: i128) -> (r: Self) {
        v as i32
    }

    fn to_wide(self) -> (r: i128) {
        self as i128
    }
}

impl Integer for i64 {
    open spec fn lower() -> int {
        i64::MIN as int
    }

    open spec fn upper() -> int {
        i64::MAX as int
    }

    open spec fn int_value(self) -> int {
        self as int
    }

    proof fn lemma_range(x: Self) {
    }

    proof fn lemma_bounds() {
    }

    fn min_wide() -> (r: i128) {
        i64::MIN as i128
    }

    fn max_wide() -> (r: i128) {
        i64::MAX as i128
    }

    fn from_wide(v: i128) -> (r: Self) {
        v as i64
    }

    fn to_wide(self) -> (r: i128) {
        self as i128
    }
}

impl Integer for isize {
    open spec fn lower() -> int {
        isize::MIN as int
    }

    open spec fn upper() -> int {
        isize::MAX as int
    }

    open spec fn int_value(self) -> int {
        self as int
    }

    proof fn lemma_range(x: Self) {
    }

    proof fn lemma_bounds() {
    }

    fn min_wide() -> (r: i128) {
        isize::MIN as i128
    }

    fn max_wide() -> (r: i128) {
        isize::MAX as i128
    }

    fn from_wide(v: i128) -> (r: Self) {
        v as isize
    }

    fn to_wide(self) -> (r: i128) {
        self as i128
    }
}

} // verus!
