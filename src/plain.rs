//! Plain scalars: values whose archived form is their own bytes, with no
//! indirection.
use vstd::prelude::*;
use crate::bytes::{pow256, lemma_pow256_16};

verus! {

/// A fixed-width value stored as the little-endian bytes of an unsigned
/// integer of `size()` bytes; its alignment is its size (one for size zero).
pub trait Plain: Sized {
    /// Number of bytes of the archived form.
    spec fn size() -> nat;

    /// The unsigned integer whose bytes are the archived form.
    spec fn bits(self) -> nat;

    /// The value that an archived form holding `b` stands for.
    spec fn from_bits(b: nat) -> Self;

    fn byte_size() -> (r: usize)
        ensures
            r as nat == Self::size(),
            r <= 16,
    ;

    fn to_bits(&self) -> (r: u128)
        ensures
            r as nat == self.bits(),
    ;

    fn from_le_bits(b: u128) -> (r: Self)
        requires
            (b as nat) < pow256(Self::size()),
        ensures
            r == Self::from_bits(b as nat),
    ;

    proof fn lemma_bits(v: Self)
        ensures
            Self::size() <= 16,
            v.bits() < pow256(Self::size()),
            Self::from_bits(v.bits()) == v,
    ;
}

/// Required alignment of the archived form of `T`.
pub open spec fn align_of<T: Plain>() -> nat {
    if T::size() == 0 {
        1
    } else {
        T::size()
    }
}

/// Required alignment of the archived form of `T`.
pub fn align_for<T: Plain>() -> (r: usize)
    ensures
        r as nat == align_of::<T>(),
        1 <= r <= 16,
{
    let n = T::byte_size();
    if n == 0 {
        1
    } else {
        n
    }
}

impl Plain for () {
    open spec fn size() -> nat {
        0
    }

    open spec fn bits(self) -> nat {
        0
    }

    open spec fn from_bits(b: nat) -> Self {
        ()
    }

    fn byte_size() -> (r: usize) {
        0
    }

    fn to_bits(&self) -> (r: u128) {
        0
    }

    fn from_le_bits(b: u128) -> (r: Self) {
        ()
    }

    proof fn lemma_bits(v: Self) {
        reveal_with_fuel(pow256, 1);
    }
}

impl Plain for bool {
    open spec fn size() -> nat {
        1
    }

    open spec fn bits(self) -> nat {
        if self {
            1
        } else {
            0
        }
    }

    open spec fn from_bits(b: nat) -> Self {
        b != 0
    }

    fn byte_size() -> (r: usize) {
        1
    }

    fn to_bits(&self) -> (r: u128) {
        if *self {
            1
        } else {
            0
        }
    }

    fn from_le_bits(b: u128) -> (r: Self) {
        b != 0
    }

    proof fn lemma_bits(v: Self) {
        reveal_with_fuel(pow256, 2);
    }
}

impl Plain for u8 {
    open spec fn size() -> nat {
        1
    }

    open spec fn bits(self) -> nat {
        self as nat
    }

    open spec fn from_bits(b: nat) -> Self {
        b as u8
    }

    fn byte_size() -> (r: usize) {
        1
    }

    fn to_bits(&self) -> (r: u128) {
        *self as u128
    }

    fn from_le_bits(b: u128) -> (r: Self) {
        proof {
            reveal_with_fuel(pow256, 2);
        }
        b as u8
    }

    proof fn lemma_bits(v: Self) {
        reveal_with_fuel(pow256, 2);
    }
}

impl Plain for u16 {
    open spec fn size() -> nat {
        2
    }

    open spec fn bits(self) -> nat {
        self as nat
    }

    open spec fn from_bits(b: nat) -> Self {
        b as u16
    }

    fn byte_size() -> (r: usize) {
        2
    }

    fn to_bits(&self) -> (r: u128) {
        *self as u128
    }

    fn from_le_bits(b: u128) -> (r: Self) {
        proof {
            reveal_with_fuel(pow256, 3);
        }
        b as u16
    }

    proof fn lemma_bits(v: Self) {
        reveal_with_fuel(pow256, 3);
    }
}

impl Plain for u32 {
    open spec fn size() -> nat {
        4
    }

    open spec fn bits(self) -> nat {
        self as nat
    }

    open spec fn from_bits(b: nat) -> Self {
        b as u32
    }

    fn byte_size() -> (r: usize) {
        4
    }

    fn to_bits(&self) -> (r: u128) {
        *self as u128
    }

    fn from_le_bits(b: u128) -> (r: Self) {
        proof {
            reveal_with_fuel(pow256, 5);
        }
        b as u32
    }

    proof fn lemma_bits(v: Self) {
        reveal_with_fuel(pow256, 5);
    }
}

impl Plain for u64 {
    open spec fn size() -> nat {
        8
    }

    open spec fn bits(self) -> nat {
        self as nat
    }

    open spec fn from_bits(b: nat) -> Self {
        b as u64
    }

    fn byte_size() -> (r: usize) {
        8
    }

    fn to_bits(&self) -> (r: u128) {
        *self as u128
    }

    fn from_le_bits(b: u128) -> (r: Self) {
        proof {
            reveal_with_fuel(pow256, 9);
        }
        b as u64
    }

    proof fn lemma_bits(v: Self) {
        reveal_with_fuel(pow256, 9);
    }
}

impl Plain for u128 {
    open spec fn size() -> nat {
        16
    }

    open spec fn bits(self) -> nat {
        self as nat
    }

    open spec fn from_bits(b: nat) -> Self {
        b as u128
    }

    fn byte_size() -> (r: usize) {
        16
    }

    fn to_bits(&self) -> (r: u128) {
        *self as u128
    }

    fn from_le_bits(b: u128) -> (r: Self) {
        proof {
            lemma_pow256_16();
        }
        b as u128
    }

    proof fn lemma_bits(v: Self) {
        lemma_pow256_16();
    }
}

impl Plain for i8 {
    open spec fn size() -> nat {
        1
    }

    open spec fn bits(self) -> nat {
        if self >= 0 {
            self as nat
        } else {
            (self + 0x100) as nat
        }
    }

    open spec fn from_bits(b: nat) -> Self {
        if b < 0x80 {
            b as i8
        } else {
            (b - 0x100) as i8
        }
    }

    fn byte_size() -> (r: usize) {
        1
    }

    fn to_bits(&self) -> (r: u128) {
        if *self >= 0 {
            *self as u128
        } else {
            (*self as i32 + 0x100) as u128
        }
    }

    fn from_le_bits(b: u128) -> (r: Self) {
        proof {
            reveal_with_fuel(pow256, 2);
        }
        if b < 0x80 {
            b as i8
        } else {
            (b as i32 - 0x100) as i8
        }
    }

    proof fn lemma_bits(v: Self) {
        reveal_with_fuel(pow256, 2);
    }
}

impl Plain for i16 {
    open spec fn size() -> nat {
        2
    }

    open spec fn bits(self) -> nat {
        if self >= 0 {
            self as nat
        } else {
            (self + 0x10000) as nat
        }
    }

    open spec fn from_bits(b: nat) -> Self {
        if b < 0x8000 {
            b as i16
        } else {
            (b - 0x10000) as i16
        }
    }

    fn byte_size() -> (r: usize) {
        2
    }

    fn to_bits(&self) -> (r: u128) {
        if *self >= 0 {
            *self as u128
        } else {
            (*self as i32 + 0x10000) as u128
        }
    }

    fn from_le_bits(b: u128) -> (r: Self) {
        proof {
            reveal_with_fuel(pow256, 3);
        }
        if b < 0x8000 {
            b as i16
        } else {
            (b as i32 - 0x10000) as i16
        }
    }

    proof fn lemma_bits(v: Self) {
        reveal_with_fuel(pow256, 3);
    }
}

impl Plain for i32 {
    open spec fn size() -> nat {
        4
    }

    open spec fn bits(self) -> nat {
        if self >= 0 {
            self as nat
        } else {
            (self + 0x100000000) as nat
        }
    }

    open spec fn from_bits(b: nat) -> Self {
        if b < 0x80000000 {
            b as i32
        } else {
            (b - 0x100000000) as i32
        }
    }

    fn byte_size() -> (r: usize) {
        4
    }

    fn to_bits(&self) -> (r: u128) {
        if *self >= 0 {
            *self as u128
        } else {
            (*self as i64 + 0x100000000) as u128
        }
    }

    fn from_le_bits(b: u128) -> (r: Self) {
        proof {
            reveal_with_fuel(pow256, 5);
        }
        if b < 0x80000000 {
            b as i32
        } else {
            (b as i64 - 0x100000000) as i32
        }
    }

    proof fn lemma_bits(v: Self) {
        reveal_with_fuel(pow256, 5);
    }
}

impl Plain for i64 {
    open spec fn size() -> nat {
        8
    }

    open spec fn bits(self) -> nat {
        if self >= 0 {
            self as nat
        } else {
            (self + 0x10000000000000000) as nat
        }
    }

    open spec fn from_bits(b: nat) -> Self {
        if b < 0x8000000000000000 {
            b as i64
        } else {
            (b - 0x10000000000000000) as i64
        }
    }

    fn byte_size() -> (r: usize) {
        8
    }

    fn to_bits(&self) -> (r: u128) {
        if *self >= 0 {
            *self as u128
        } else {
            (*self as i128 + 0x10000000000000000) as u128
        }
    }

    fn from_le_bits(b: u128) -> (r: Self) {
        proof {
            reveal_with_fuel(pow256, 9);
        }
        if b < 0x8000000000000000 {
            b as i64
        } else {
            (b as i128 - 0x10000000000000000) as i64
        }
    }

    proof fn lemma_bits(v: Self) {
        reveal_with_fuel(pow256, 9);
    }
}

impl Plain for i128 {
    open spec fn size() -> nat {
        16
    }

    open spec fn bits(self) -> nat {
        if self >= 0 {
            self as nat
        } else {
            (self + 0x1_0000_0000_0000_0000_0000_0000_0000_0000) as nat
        }
    }

    open spec fn from_bits(b: nat) -> Self {
        if b < 0x8000_0000_0000_0000_0000_0000_0000_0000 {
            b as i128
        } else {
            (b - 0x1_0000_0000_0000_0000_0000_0000_0000_0000) as i128
        }
    }

    fn byte_size() -> (r: usize) {
        16
    }

    fn to_bits(&self) -> (r: u128) {
        if *self >= 0 {
            *self as u128
        } else {
            u128::MAX - ((-(*self + 1)) as u128)
        }
    }

    fn from_le_bits(b: u128) -> (r: Self) {
        proof {
            lemma_pow256_16();
        }
        if b < 0x8000_0000_0000_0000_0000_0000_0000_0000 {
            b as i128
        } else {
            -((u128::MAX - b) as i128) - 1
        }
    }

    proof fn lemma_bits(v: Self) {
        lemma_pow256_16();
    }
}

} // verus!
