use crate::radix::{
    bit_distance, float_word, lemma_bit_distance_bound, lemma_float_word, lemma_bit_distance_concat, lemma_bit_distance_flip,
    lemma_concat_bound, lemma_concat_le, lemma_split_unique, word_similarity, Radix,
};
use std::cmp::Reverse;
use std::num::Wrapping;
use vstd::arithmetic::power2::{lemma2_to64, lemma2_to64_rest, lemma_pow2_adds, pow2};
use vstd::prelude::*;

verus! {

impl Radix for u8 {
    open spec fn radix_width() -> nat {
        8
    }

    open spec fn radix_word(&self) -> nat {
        *self as nat
    }

    proof fn lemma_radix_word(a: &Self, b: &Self) {
        lemma2_to64();
    }

    fn radix_bits() -> (r: u32) {
        8
    }

    fn radix_similarity(&self, other: &Self) -> (r: u32) {
        proof {
            lemma2_to64();
        }
        word_similarity(*self as u64, *other as u64, 8)
    }

    fn radix_le(&self, other: &Self) -> (r: bool) {
        *self <= *other
    }
}

impl Radix for u16 {
    open spec fn radix_width() -> nat {
        16
    }

    open spec fn radix_word(&self) -> nat {
        *self as nat
    }

    proof fn lemma_radix_word(a: &Self, b: &Self) {
        lemma2_to64();
    }

    fn radix_bits() -> (r: u32) {
        16
    }

    fn radix_similarity(&self, other: &Self) -> (r: u32) {
        proof {
            lemma2_to64();
        }
        word_similarity(*self as u64, *other as u64, 16)
    }

    fn radix_le(&self, other: &Self) -> (r: bool) {
        *self <= *other
    }
}

impl Radix for u32 {
    open spec fn radix_width() -> nat {
        32
    }

    open spec fn radix_word(&self) -> nat {
        *self as nat
    }

    proof fn lemma_radix_word(a: &Self, b: &Self) {
        lemma2_to64();
    }

    fn radix_bits() -> (r: u32) {
        32
    }

    fn radix_similarity(&self, other: &Self) -> (r: u32) {
        proof {
            lemma2_to64();
        }
        word_similarity(*self as u64, *other as u64, 32)
    }

    fn radix_le(&self, other: &Self) -> (r: bool) {
        *self <= *other
    }
}

impl Radix for u64 {
    open spec fn radix_width() -> nat {
        64
    }

    open spec fn radix_word(&self) -> nat {
        *self as nat
    }

    proof fn lemma_radix_word(a: &Self, b: &Self) {
        lemma2_to64();
    }

    fn radix_bits() -> (r: u32) {
        64
    }

    fn radix_similarity(&self, other: &Self) -> (r: u32) {
        proof {
            lemma2_to64();
        }
        word_similarity(*self as u64, *other as u64, 64)
    }

    fn radix_le(&self, other: &Self) -> (r: bool) {
        *self <= *other
    }
}

/// The bits of `a` with the sign bit flipped: `a + 2^7`, which orders
/// as `a` does.
fn offset_i8(a: i8) -> (r: u8)
    ensures
        r == a + 0x80,
{
    if a >= 0 {
        a as u8 + 0x80
    } else {
        (a + i8::MAX + 1) as u8
    }
}

impl Radix for i8 {
    open spec fn radix_width() -> nat {
        8
    }

    open spec fn radix_word(&self) -> nat {
        (*self + 0x80) as nat
    }

    proof fn lemma_radix_word(a: &Self, b: &Self) {
        lemma2_to64();
    }

    fn radix_bits() -> (r: u32) {
        8
    }

    fn radix_similarity(&self, other: &Self) -> (r: u32) {
        proof {
            lemma2_to64();
        }
        word_similarity(offset_i8(*self) as u64, offset_i8(*other) as u64, 8)
    }

    fn radix_le(&self, other: &Self) -> (r: bool) {
        *self <= *other
    }
}

/// The bits of `a` with the sign bit flipped: `a + 2^15`, which orders
/// as `a` does.
fn offset_i16(a: i16) -> (r: u16)
    ensures
        r == a + 0x8000,
{
    if a >= 0 {
        a as u16 + 0x8000
    } else {
        (a + i16::MAX + 1) as u16
    }
}

impl Radix for i16 {
    open spec fn radix_width() -> nat {
        16
    }

    open spec fn radix_word(&self) -> nat {
        (*self + 0x8000) as nat
    }

    proof fn lemma_radix_word(a: &Self, b: &Self) {
        lemma2_to64();
    }

    fn radix_bits() -> (r: u32) {
        16
    }

    fn radix_similarity(&self, other: &Self) -> (r: u32) {
        proof {
            lemma2_to64();
        }
        word_similarity(offset_i16(*self) as u64, offset_i16(*other) as u64, 16)
    }

    fn radix_le(&self, other: &Self) -> (r: bool) {
        *self <= *other
    }
}

/// The bits of `a` with the sign bit flipped: `a + 2^31`, which orders
/// as `a` does.
fn offset_i32(a: i32) -> (r: u32)
    ensures
        r == a + 0x8000_0000,
{
    if a >= 0 {
        a as u32 + 0x8000_0000
    } else {
        (a + i32::MAX + 1) as u32
    }
}

impl Radix for i32 {
    open spec fn radix_width() -> nat {
        32
    }

    open spec fn radix_word(&self) -> nat {
        (*self + 0x8000_0000) as nat
    }

    proof fn lemma_radix_word(a: &Self, b: &Self) {
        lemma2_to64();
    }

    fn radix_bits() -> (r: u32) {
        32
    }

    fn radix_similarity(&self, other: &Self) -> (r: u32) {
        proof {
            lemma2_to64();
        }
        word_similarity(offset_i32(*self) as u64, offset_i32(*other) as u64, 32)
    }

    fn radix_le(&self, other: &Self) -> (r: bool) {
        *self <= *other
    }
}

/// The bits of `a` with the sign bit flipped: `a + 2^63`, which orders
/// as `a` does.
fn offset_i64(a: i64) -> (r: u64)
    ensures
        r == a + 0x8000_0000_0000_0000,
{
    if a >= 0 {
        a as u64 + 0x8000_0000_0000_0000
    } else {
        (a + i64::MAX + 1) as u64
    }
}

impl Radix for i64 {
    open spec fn radix_width() -> nat {
        64
    }

    open spec fn radix_word(&self) -> nat {
        (*self + 0x8000_0000_0000_0000) as nat
    }

    proof fn lemma_radix_word(a: &Self, b: &Self) {
        lemma2_to64();
    }

    fn radix_bits() -> (r: u32) {
        64
    }

    fn radix_similarity(&self, other: &Self) -> (r: u32) {
        proof {
            lemma2_to64();
        }
        word_similarity(offset_i64(*self) as u64, offset_i64(*other) as u64, 64)
    }

    fn radix_le(&self, other: &Self) -> (r: bool) {
        *self <= *other
    }
}

/// `usize` is 32 or 64 bits wide.
proof fn lemma_usize_width()
    ensures
        usize::BITS <= 64,
        usize::MAX + 1 == pow2(usize::BITS as nat),
{
    lemma2_to64();
}

impl Radix for usize {
    open spec fn radix_width() -> nat {
        usize::BITS as nat
    }

    open spec fn radix_word(&self) -> nat {
        *self as nat
    }

    proof fn lemma_radix_word(a: &Self, b: &Self) {
        lemma_usize_width();
    }

    fn radix_bits() -> (r: u32) {
        usize::BITS
    }

    fn radix_similarity(&self, other: &Self) -> (r: u32) {
        proof {
            lemma_usize_width();
        }
        word_similarity(*self as u64, *other as u64, usize::BITS)
    }

    fn radix_le(&self, other: &Self) -> (r: bool) {
        *self <= *other
    }
}

/// The bits of `a` with the sign bit flipped: `a + 2^(BITS - 1)`, which
/// orders as `a` does.
fn offset_isize(a: isize) -> (r: usize)
    ensures
        r == a + usize::MAX / 2 + 1,
{
    if a >= 0 {
        a as usize + (isize::MAX as usize + 1)
    } else {
        (a + isize::MAX + 1) as usize
    }
}

impl Radix for isize {
    open spec fn radix_width() -> nat {
        usize::BITS as nat
    }

    open spec fn radix_word(&self) -> nat {
        (*self + usize::MAX / 2 + 1) as nat
    }

    proof fn lemma_radix_word(a: &Self, b: &Self) {
        lemma_usize_width();
    }

    fn radix_bits() -> (r: u32) {
        usize::BITS
    }

    fn radix_similarity(&self, other: &Self) -> (r: u32) {
        proof {
            lemma_usize_width();
        }
        word_similarity(offset_isize(*self) as u64, offset_isize(*other) as u64, usize::BITS)
    }

    fn radix_le(&self, other: &Self) -> (r: bool) {
        *self <= *other
    }
}

/// Similarity of two 128-bit words, from their 64-bit halves.
fn wide_similarity(a: u128, b: u128) -> (r: u32)
    ensures
        r == 128 - bit_distance(a as nat, b as nat),
{
    let ha = (a / 0x1_0000_0000_0000_0000) as u64;
    let la = (a % 0x1_0000_0000_0000_0000) as u64;
    let hb = (b / 0x1_0000_0000_0000_0000) as u64;
    let lb = (b % 0x1_0000_0000_0000_0000) as u64;
    proof {
        lemma2_to64();
        assert(a == ha * pow2(64) + la);
        assert(b == hb * pow2(64) + lb);
        lemma_bit_distance_concat(ha as nat, la as nat, hb as nat, lb as nat, 64);
    }
    if ha != hb {
        word_similarity(ha, hb, 64)
    } else {
        64 + word_similarity(la, lb, 64)
    }
}

/// `2^128`, the number of `u128` values.
proof fn lemma_pow2_128()
    ensures
        pow2(128) == 0x1_0000_0000_0000_0000 * 0x1_0000_0000_0000_0000,
        u128::MAX + 1 == pow2(128),
{
    lemma2_to64();
    lemma_pow2_adds(64, 64);
}

impl Radix for u128 {
    open spec fn radix_width() -> nat {
        128
    }

    open spec fn radix_word(&self) -> nat {
        *self as nat
    }

    proof fn lemma_radix_word(a: &Self, b: &Self) {
        lemma_pow2_128();
    }

    fn radix_bits() -> (r: u32) {
        128
    }

    fn radix_similarity(&self, other: &Self) -> (r: u32) {
        wide_similarity(*self, *other)
    }

    fn radix_le(&self, other: &Self) -> (r: bool) {
        *self <= *other
    }
}

/// The bits of `a` with the sign bit flipped: `a + 2^127`, which orders as
/// `a` does.
fn offset_i128(a: i128) -> (r: u128)
    ensures
        r == a + 0x8000_0000_0000_0000_0000_0000_0000_0000,
{
    if a >= 0 {
        a as u128 + 0x8000_0000_0000_0000_0000_0000_0000_0000
    } else {
        (a + i128::MAX + 1) as u128
    }
}

impl Radix for i128 {
    open spec fn radix_width() -> nat {
        128
    }

    open spec fn radix_word(&self) -> nat {
        (*self + 0x8000_0000_0000_0000_0000_0000_0000_0000) as nat
    }

    proof fn lemma_radix_word(a: &Self, b: &Self) {
        lemma_pow2_128();
    }

    fn radix_bits() -> (r: u32) {
        128
    }

    fn radix_similarity(&self, other: &Self) -> (r: u32) {
        wide_similarity(offset_i128(*self), offset_i128(*other))
    }

    fn radix_le(&self, other: &Self) -> (r: bool) {
        *self <= *other
    }
}

/// The empty key: every value is the same, so nothing sets two apart.
impl Radix for () {
    open spec fn radix_width() -> nat {
        0
    }

    open spec fn radix_word(&self) -> nat {
        0
    }

    proof fn lemma_radix_word(a: &Self, b: &Self) {
        lemma2_to64();
    }

    fn radix_bits() -> (r: u32) {
        0
    }

    fn radix_similarity(&self, other: &Self) -> (r: u32) {
        0
    }

    fn radix_le(&self, other: &Self) -> (r: bool) {
        true
    }
}

impl<A: Radix, B: Radix> Radix for (A, B) {
    open spec fn radix_width() -> nat {
        A::radix_width() + B::radix_width()
    }

    open spec fn radix_word(&self) -> nat {
        self.0.radix_word() * pow2(B::radix_width()) + self.1.radix_word()
    }

    proof fn lemma_radix_word(a: &Self, b: &Self) {
        A::lemma_radix_word(&a.0, &b.0);
        B::lemma_radix_word(&a.1, &b.1);
        lemma_concat_bound(a.0.radix_word(), a.1.radix_word(), A::radix_width(), B::radix_width());
        lemma_concat_bound(b.0.radix_word(), b.1.radix_word(), A::radix_width(), B::radix_width());
        if a.radix_word() == b.radix_word() {
            lemma_split_unique(
                a.0.radix_word(),
                a.1.radix_word(),
                b.0.radix_word(),
                b.1.radix_word(),
                B::radix_width(),
            );
        }
    }

    fn radix_bits() -> (r: u32) {
        A::radix_bits() + B::radix_bits()
    }

    fn radix_similarity(&self, other: &Self) -> (r: u32) {
        proof {
            A::lemma_radix_word(&self.0, &other.0);
            B::lemma_radix_word(&self.1, &other.1);
            lemma_bit_distance_bound(self.0.radix_word(), other.0.radix_word(), A::radix_width());
            lemma_bit_distance_concat(
                self.0.radix_word(),
                self.1.radix_word(),
                other.0.radix_word(),
                other.1.radix_word(),
                B::radix_width(),
            );
        }
        let s = self.0.radix_similarity(&other.0);
        if s < A::radix_bits() {
            return s;
        }
        s + self.1.radix_similarity(&other.1)
    }

    fn radix_le(&self, other: &Self) -> (r: bool) {
        proof {
            B::lemma_radix_word(&self.1, &other.1);
            lemma_concat_le(
                self.0.radix_word(),
                self.1.radix_word(),
                other.0.radix_word(),
                other.1.radix_word(),
                B::radix_width(),
            );
        }
        if self.0.radix_le(&other.0) {
            if other.0.radix_le(&self.0) {
                self.1.radix_le(&other.1)
            } else {
                true
            }
        } else {
            false
        }
    }
}

impl<A: Radix, B: Radix, C: Radix> Radix for (A, B, C) {
    open spec fn radix_width() -> nat {
        A::radix_width() + B::radix_width() + C::radix_width()
    }

    open spec fn radix_word(&self) -> nat {
        (self.0.radix_word() * pow2(B::radix_width()) + self.1.radix_word()) * pow2(
            C::radix_width(),
        ) + self.2.radix_word()
    }

    proof fn lemma_radix_word(a: &Self, b: &Self) {
        A::lemma_radix_word(&a.0, &b.0);
        B::lemma_radix_word(&a.1, &b.1);
        C::lemma_radix_word(&a.2, &b.2);
        let ha = a.0.radix_word() * pow2(B::radix_width()) + a.1.radix_word();
        let hb = b.0.radix_word() * pow2(B::radix_width()) + b.1.radix_word();
        lemma_concat_bound(a.0.radix_word(), a.1.radix_word(), A::radix_width(), B::radix_width());
        lemma_concat_bound(
            ha,
            a.2.radix_word(),
            A::radix_width() + B::radix_width(),
            C::radix_width(),
        );
        lemma_concat_bound(b.0.radix_word(), b.1.radix_word(), A::radix_width(), B::radix_width());
        lemma_concat_bound(
            hb,
            b.2.radix_word(),
            A::radix_width() + B::radix_width(),
            C::radix_width(),
        );
        if a.radix_word() == b.radix_word() {
            lemma_split_unique(ha, a.2.radix_word(), hb, b.2.radix_word(), C::radix_width());
            lemma_split_unique(
                a.0.radix_word(),
                a.1.radix_word(),
                b.0.radix_word(),
                b.1.radix_word(),
                B::radix_width(),
            );
        }
    }

    fn radix_bits() -> (r: u32) {
        A::radix_bits() + B::radix_bits() + C::radix_bits()
    }

    fn radix_similarity(&self, other: &Self) -> (r: u32) {
        let ghost ha = self.0.radix_word() * pow2(B::radix_width()) + self.1.radix_word();
        let ghost hb = other.0.radix_word() * pow2(B::radix_width()) + other.1.radix_word();
        proof {
            A::lemma_radix_word(&self.0, &other.0);
            B::lemma_radix_word(&self.1, &other.1);
            C::lemma_radix_word(&self.2, &other.2);
            lemma_bit_distance_bound(self.0.radix_word(), other.0.radix_word(), A::radix_width());
            lemma_bit_distance_bound(self.1.radix_word(), other.1.radix_word(), B::radix_width());
            lemma_bit_distance_concat(
                self.0.radix_word(),
                self.1.radix_word(),
                other.0.radix_word(),
                other.1.radix_word(),
                B::radix_width(),
            );
            lemma_bit_distance_concat(
                ha,
                self.2.radix_word(),
                hb,
                other.2.radix_word(),
                C::radix_width(),
            );
            if ha == hb {
                lemma_split_unique(
                    self.0.radix_word(),
                    self.1.radix_word(),
                    other.0.radix_word(),
                    other.1.radix_word(),
                    B::radix_width(),
                );
            }
        }
        let s0 = self.0.radix_similarity(&other.0);
        if s0 < A::radix_bits() {
            return s0;
        }
        let s1 = self.1.radix_similarity(&other.1);
        if s1 < B::radix_bits() {
            return s0 + s1;
        }
        s0 + s1 + self.2.radix_similarity(&other.2)
    }

    fn radix_le(&self, other: &Self) -> (r: bool) {
        proof {
            B::lemma_radix_word(&self.1, &other.1);
            C::lemma_radix_word(&self.2, &other.2);
            lemma_concat_le(
                self.0.radix_word(),
                self.1.radix_word(),
                other.0.radix_word(),
                other.1.radix_word(),
                B::radix_width(),
            );
            lemma_concat_le(
                self.0.radix_word() * pow2(B::radix_width()) + self.1.radix_word(),
                self.2.radix_word(),
                other.0.radix_word() * pow2(B::radix_width()) + other.1.radix_word(),
                other.2.radix_word(),
                C::radix_width(),
            );
            lemma_concat_le(
                other.0.radix_word(),
                other.1.radix_word(),
                self.0.radix_word(),
                self.1.radix_word(),
                B::radix_width(),
            );
        }
        if !self.0.radix_le(&other.0) {
            return false;
        }
        if !other.0.radix_le(&self.0) {
            return true;
        }
        if !self.1.radix_le(&other.1) {
            return false;
        }
        if !other.1.radix_le(&self.1) {
            return true;
        }
        self.2.radix_le(&other.2)
    }
}

#[verifier::external_type_specification]
#[verifier::reject_recursive_types(T)]
pub struct ExReverse<T>(Reverse<T>);

#[verifier::external_type_specification]
#[verifier::reject_recursive_types(T)]
pub struct ExWrapping<T>(Wrapping<T>);

/// The same bits as the wrapped key, in the opposite order: the word is the
/// complement of the wrapped key's word.
impl<T: Radix> Radix for Reverse<T> {
    open spec fn radix_width() -> nat {
        T::radix_width()
    }

    open spec fn radix_word(&self) -> nat {
        (pow2(T::radix_width()) - 1 - self.0.radix_word()) as nat
    }

    proof fn lemma_radix_word(a: &Self, b: &Self) {
        T::lemma_radix_word(&a.0, &b.0);
        T::lemma_radix_word(&b.0, &a.0);
    }

    fn radix_bits() -> (r: u32) {
        T::radix_bits()
    }

    fn radix_similarity(&self, other: &Self) -> (r: u32) {
        proof {
            T::lemma_radix_word(&self.0, &other.0);
            T::lemma_radix_word(&other.0, &self.0);
            lemma_bit_distance_flip(self.0.radix_word(), other.0.radix_word(), T::radix_width());
        }
        self.0.radix_similarity(&other.0)
    }

    fn radix_le(&self, other: &Self) -> (r: bool) {
        proof {
            T::lemma_radix_word(&self.0, &other.0);
            T::lemma_radix_word(&other.0, &self.0);
        }
        other.0.radix_le(&self.0)
    }
}

/// The wrapped key's bits and order.
impl<T: Radix> Radix for Wrapping<T> {
    open spec fn radix_width() -> nat {
        T::radix_width()
    }

    open spec fn radix_word(&self) -> nat {
        self.0.radix_word()
    }

    proof fn lemma_radix_word(a: &Self, b: &Self) {
        T::lemma_radix_word(&a.0, &b.0);
    }

    fn radix_bits() -> (r: u32) {
        T::radix_bits()
    }

    fn radix_similarity(&self, other: &Self) -> (r: u32) {
        self.0.radix_similarity(&other.0)
    }

    fn radix_le(&self, other: &Self) -> (r: bool) {
        self.0.radix_le(&other.0)
    }
}

/// A 32-bit float key, never NaN, held as its IEEE 754 bit pattern (what
/// `f32::to_bits` gives). Keys rank as the floats do, except that -0.0 ranks
/// just below 0.0.
#[derive(Clone, Copy, Debug, PartialEq, Eq, Hash)]
pub struct F32Key {
    pub bits: u32,
}

impl F32Key {
    /// The key of the float with the bit pattern `bits`.
    pub fn from_bits(bits: u32) -> (r: Self)
        ensures
            r.bits == bits,
    {
        F32Key { bits }
    }

    /// The bit pattern of the key's float.
    pub fn to_bits(&self) -> (r: u32)
        ensures
            r == self.bits,
    {
        self.bits
    }

    fn word(&self) -> (r: u32)
        ensures
            r == float_word(self.bits as nat, 32),
    {
        proof {
            lemma2_to64();
        }
        if self.bits >= 0x8000_0000 {
            u32::MAX - self.bits
        } else {
            self.bits + 0x8000_0000
        }
    }
}

impl Radix for F32Key {
    open spec fn radix_width() -> nat {
        32
    }

    open spec fn radix_word(&self) -> nat {
        float_word(self.bits as nat, 32)
    }

    proof fn lemma_radix_word(a: &Self, b: &Self) {
        lemma2_to64();
        lemma_float_word(a.bits as nat, b.bits as nat, 32);
        lemma_float_word(b.bits as nat, a.bits as nat, 32);
    }

    fn radix_bits() -> (r: u32) {
        32
    }

    fn radix_similarity(&self, other: &Self) -> (r: u32) {
        proof {
            lemma2_to64();
            lemma_float_word(self.bits as nat, other.bits as nat, 32);
        }
        word_similarity(self.bits as u64, other.bits as u64, 32)
    }

    fn radix_le(&self, other: &Self) -> (r: bool) {
        self.word() <= other.word()
    }
}

/// A 64-bit float key, never NaN, held as its IEEE 754 bit pattern (what
/// `f64::to_bits` gives). Keys rank as the floats do, except that -0.0 ranks
/// just below 0.0.
#[derive(Clone, Copy, Debug, PartialEq, Eq, Hash)]
pub struct F64Key {
    pub bits: u64,
}

impl F64Key {
    /// The key of the float with the bit pattern `bits`.
    pub fn from_bits(bits: u64) -> (r: Self)
        ensures
            r.bits == bits,
    {
        F64Key { bits }
    }

    /// The bit pattern of the key's float.
    pub fn to_bits(&self) -> (r: u64)
        ensures
            r == self.bits,
    {
        self.bits
    }

    fn word(&self) -> (r: u64)
        ensures
            r == float_word(self.bits as nat, 64),
    {
        proof {
            lemma2_to64();
            lemma2_to64_rest();
        }
        if self.bits >= 0x8000_0000_0000_0000 {
            u64::MAX - self.bits
        } else {
            self.bits + 0x8000_0000_0000_0000
        }
    }
}

impl Radix for F64Key {
    open spec fn radix_width() -> nat {
        64
    }

    open spec fn radix_word(&self) -> nat {
        float_word(self.bits as nat, 64)
    }

    proof fn lemma_radix_word(a: &Self, b: &Self) {
        lemma2_to64();
        lemma2_to64_rest();
        lemma_float_word(a.bits as nat, b.bits as nat, 64);
        lemma_float_word(b.bits as nat, a.bits as nat, 64);
    }

    fn radix_bits() -> (r: u32) {
        64
    }

    fn radix_similarity(&self, other: &Self) -> (r: u32) {
        proof {
            lemma2_to64();
            lemma2_to64_rest();
            lemma_float_word(self.bits as nat, other.bits as nat, 64);
        }
        word_similarity(self.bits, other.bits, 64)
    }

    fn radix_le(&self, other: &Self) -> (r: bool) {
        self.word() <= other.word()
    }
}

} // verus!
