use vstd::arithmetic::power2::{lemma2_to64, lemma_pow2_adds, lemma_pow2_unfold, pow2};
use vstd::prelude::*;
use vstd::std_specs::bits::u64_leading_zeros;

verus! {

/// How many low-order bits of `a` and `b` lie at or below their highest
/// differing bit: the length of the binary representation of `a ^ b`.
/// It is 0 exactly when `a == b`.
pub open spec fn bit_distance(a: nat, b: nat) -> nat
    decreases a + b,
{
    if a == b {
        0
    } else {
        1 + bit_distance(a / 2, b / 2)
    }
}

/// Length of the binary representation of `x` (0 for 0).
pub open spec fn bit_len(x: nat) -> nat
    decreases x,
{
    if x == 0 {
        0
    } else {
        1 + bit_len(x / 2)
    }
}

/// The distance is symmetric.
pub proof fn lemma_bit_distance_symmetric(a: nat, b: nat)
    ensures
        bit_distance(a, b) == bit_distance(b, a),
    decreases a + b,
{
    if a != b {
        lemma_bit_distance_symmetric(a / 2, b / 2);
    }
}

/// Two `w`-bit words are at most `w` apart.
pub proof fn lemma_bit_distance_bound(a: nat, b: nat, w: nat)
    requires
        a < pow2(w),
        b < pow2(w),
    ensures
        bit_distance(a, b) <= w,
    decreases w,
{
    if a != b {
        if w == 0 {
            lemma2_to64();
        } else {
            lemma_pow2_unfold(w);
            lemma_bit_distance_bound(a / 2, b / 2, (w - 1) as nat);
        }
    }
}

/// Bitwise complements within `w` bits are exactly `w` apart.
pub proof fn lemma_bit_distance_complement(a: nat, b: nat, w: nat)
    requires
        a + b + 1 == pow2(w),
    ensures
        bit_distance(a, b) == w,
    decreases w,
{
    if w == 0 {
        lemma2_to64();
    } else {
        lemma_pow2_unfold(w);
        assert(a / 2 + b / 2 + 1 == pow2((w - 1) as nat));
        lemma_bit_distance_complement(a / 2, b / 2, (w - 1) as nat);
    }
}

/// Below a common bound `t`, a word closer to `t` is the larger one.
pub proof fn lemma_bit_distance_order(a: nat, b: nat, t: nat)
    requires
        a <= t,
        b <= t,
        bit_distance(a, t) < bit_distance(b, t),
    ensures
        b < a,
    decreases t,
{
    if a != t {
        assert(b != t);
        assert(a / 2 <= t / 2 && b / 2 <= t / 2);
        lemma_bit_distance_order(a / 2, b / 2, t / 2);
    }
}

/// The distance is an ultrametric in which every triangle with two equal
/// nonzero sides has a shorter third side.
pub proof fn lemma_bit_distance_triangle(x: nat, y: nat, z: nat)
    ensures
        bit_distance(x, y) < bit_distance(y, z) ==> bit_distance(x, z) == bit_distance(y, z),
        bit_distance(y, z) < bit_distance(x, y) ==> bit_distance(x, z) == bit_distance(x, y),
        bit_distance(x, y) == bit_distance(y, z) && bit_distance(x, y) > 0 ==> bit_distance(x, z)
            < bit_distance(x, y),
    decreases x + y + z,
{
    lemma_bit_distance_symmetric(x, y);
    lemma_bit_distance_symmetric(y, z);
    lemma_bit_distance_symmetric(x, z);
    if x != y && y != z && x != z {
        lemma_bit_distance_triangle(x / 2, y / 2, z / 2);
        if x / 2 == y / 2 && y / 2 == z / 2 {
            assert(x % 2 != y % 2 && y % 2 != z % 2 && x % 2 != z % 2);
        }
    }
}

/// Halving a number written as `h * 2^k + l` with `l < 2^k`.
proof fn lemma_split_half(h: nat, l: nat, k: nat)
    requires
        k > 0,
        l < pow2(k),
    ensures
        (h * pow2(k) + l) / 2 == h * pow2((k - 1) as nat) + l / 2,
        l / 2 < pow2((k - 1) as nat),
{
    lemma_pow2_unfold(k);
    let p = pow2((k - 1) as nat);
    assert(h * pow2(k) == 2 * (h * p)) by (nonlinear_arith)
        requires
            pow2(k) == 2 * p,
    ;
}

/// The high and low parts of `h * 2^k + l` are determined by the number.
pub(crate) proof fn lemma_split_unique(ha: nat, la: nat, hb: nat, lb: nat, k: nat)
    requires
        la < pow2(k),
        lb < pow2(k),
        ha * pow2(k) + la == hb * pow2(k) + lb,
    ensures
        ha == hb,
        la == lb,
{
    let p = pow2(k);
    if ha < hb {
        assert(ha * p + p <= hb * p) by (nonlinear_arith)
            requires
                ha < hb,
        ;
    } else if hb < ha {
        assert(hb * p + p <= ha * p) by (nonlinear_arith)
            requires
                hb < ha,
        ;
    }
}

/// Distance between two words each made of a high part followed by a
/// `k`-bit low part: the high parts decide unless they are equal.
pub proof fn lemma_bit_distance_concat(ha: nat, la: nat, hb: nat, lb: nat, k: nat)
    requires
        la < pow2(k),
        lb < pow2(k),
    ensures
        bit_distance(ha * pow2(k) + la, hb * pow2(k) + lb) == if ha == hb {
            bit_distance(la, lb)
        } else {
            k + bit_distance(ha, hb)
        },
    decreases k,
{
    let a = ha * pow2(k) + la;
    let b = hb * pow2(k) + lb;
    if k == 0 {
        lemma2_to64();
        assert(la == 0 && lb == 0);
        assert(a == ha && b == hb);
    } else if a == b {
        lemma_split_unique(ha, la, hb, lb, k);
    } else {
        lemma_split_half(ha, la, k);
        lemma_split_half(hb, lb, k);
        lemma_bit_distance_concat(ha, la / 2, hb, lb / 2, (k - 1) as nat);
        if ha == hb {
            assert(la != lb);
        }
    }
}

/// A high part followed by a `k`-bit low part fits in the sum of the widths.
pub proof fn lemma_concat_bound(h: nat, l: nat, wh: nat, k: nat)
    requires
        h < pow2(wh),
        l < pow2(k),
    ensures
        h * pow2(k) + l < pow2(wh + k),
{
    let p = pow2(k);
    assert(h * p + p <= pow2(wh) * p) by (nonlinear_arith)
        requires
            h < pow2(wh),
    ;
    lemma_pow2_adds(wh, k);
}

/// Words made of a high part followed by a `k`-bit low part order
/// lexicographically.
pub proof fn lemma_concat_le(ha: nat, la: nat, hb: nat, lb: nat, k: nat)
    requires
        la < pow2(k),
        lb < pow2(k),
    ensures
        (ha * pow2(k) + la <= hb * pow2(k) + lb) == (ha < hb || (ha == hb && la <= lb)),
{
    let p = pow2(k);
    if ha < hb {
        assert(ha * p + p <= hb * p) by (nonlinear_arith)
            requires
                ha < hb,
        ;
    } else if hb < ha {
        assert(hb * p + p <= ha * p) by (nonlinear_arith)
            requires
                hb < ha,
        ;
    }
}

/// Complementing two `w`-bit words keeps their distance.
pub proof fn lemma_bit_distance_flip(x: nat, y: nat, w: nat)
    requires
        x < pow2(w),
        y < pow2(w),
    ensures
        bit_distance((pow2(w) - 1 - x) as nat, (pow2(w) - 1 - y) as nat) == bit_distance(x, y),
    decreases w,
{
    if x != y {
        if w == 0 {
            lemma2_to64();
        } else {
            lemma_pow2_unfold(w);
            let p = pow2((w - 1) as nat);
            assert((pow2(w) - 1 - x) as nat / 2 == (p - 1 - x / 2) as nat);
            assert((pow2(w) - 1 - y) as nat / 2 == (p - 1 - y / 2) as nat);
            lemma_bit_distance_flip(x / 2, y / 2, (w - 1) as nat);
        }
    }
}

proof fn lemma_u64_leading_zeros(x: u64)
    ensures
        u64_leading_zeros(x) == 64 - bit_len(x as nat),
        bit_len(x as nat) <= 64,
    decreases x,
{
    reveal(u64_leading_zeros);
    if x != 0 {
        lemma_u64_leading_zeros(x / 2);
        assert(u64_leading_zeros(x) == u64_leading_zeros(x / 2) - 1);
        assert(u64_leading_zeros(x) >= 0) by {
            vstd::std_specs::bits::axiom_u64_leading_zeros(x);
        }
    }
}

proof fn lemma_u64_xor_len(a: u64, b: u64)
    ensures
        bit_len((a ^ b) as nat) == bit_distance(a as nat, b as nat),
    decreases a + b,
{
    assert(a == b <==> a ^ b == 0) by (bit_vector);
    if a != b {
        assert((a ^ b) / 2 == (a / 2) ^ (b / 2)) by (bit_vector);
        lemma_u64_xor_len(a / 2, b / 2);
    }
}

/// Number of leading bits that `a` and `b`, read as `width`-bit words,
/// have in common.
pub(crate) fn word_similarity(a: u64, b: u64, width: u32) -> (r: u32)
    requires
        width <= 64,
        a < pow2(width as nat),
        b < pow2(width as nat),
    ensures
        r == width - bit_distance(a as nat, b as nat),
{
    proof {
        lemma_u64_leading_zeros(a ^ b);
        lemma_u64_xor_len(a, b);
        lemma_bit_distance_bound(a as nat, b as nat, width as nat);
    }
    let lz = (a ^ b).leading_zeros();
    lz - (64 - width)
}

/// The radix distance of any key type is a metric of the kind the heap
/// needs: a key is at distance 0 from itself, the distance does not depend
/// on the order of the two keys, and keys whose words are bitwise
/// complements are the full width apart.
pub proof fn lemma_radix_metric<K: Radix>(a: K, b: K)
    ensures
        bit_distance(a.radix_word(), a.radix_word()) == 0,
        bit_distance(a.radix_word(), b.radix_word()) == bit_distance(b.radix_word(), a.radix_word()),
        a.radix_word() + b.radix_word() + 1 == pow2(K::radix_width()) ==> bit_distance(
            a.radix_word(),
            b.radix_word(),
        ) == K::radix_width(),
{
    lemma_bit_distance_symmetric(a.radix_word(), b.radix_word());
    if a.radix_word() + b.radix_word() + 1 == pow2(K::radix_width()) {
        lemma_bit_distance_complement(a.radix_word(), b.radix_word(), K::radix_width());
    }
}

/// The word of an IEEE 754 bit pattern of `w` bits, chosen so that words
/// order as the floats do: negative patterns are complemented, others get
/// their sign bit set.
pub open spec fn float_word(bits: nat, w: nat) -> nat {
    if bits >= pow2((w - 1) as nat) {
        (pow2(w) - 1 - bits) as nat
    } else {
        bits + pow2((w - 1) as nat)
    }
}

/// Turning bit patterns into float words keeps them apart, within the
/// width, and at the same distance.
pub proof fn lemma_float_word(a: nat, b: nat, w: nat)
    requires
        w >= 1,
        a < pow2(w),
        b < pow2(w),
    ensures
        float_word(a, w) < pow2(w),
        float_word(a, w) == float_word(b, w) ==> a == b,
        bit_distance(float_word(a, w), float_word(b, w)) == bit_distance(a, b),
{
    let k = (w - 1) as nat;
    let h = pow2(k);
    lemma_pow2_unfold(w);
    let ha: nat = if a >= h { 1 } else { 0 };
    let hb: nat = if b >= h { 1 } else { 0 };
    let la = (a - ha * h) as nat;
    let lb = (b - hb * h) as nat;
    let fa: nat = if a >= h { (h - 1 - la) as nat } else { la };
    let fb: nat = if b >= h { (h - 1 - lb) as nat } else { lb };
    let ga: nat = if a >= h { 0 } else { 1 };
    let gb: nat = if b >= h { 0 } else { 1 };
    assert(a == ha * h + la && b == hb * h + lb);
    assert(la < h && lb < h);
    assert(float_word(a, w) == ga * h + fa);
    assert(float_word(b, w) == gb * h + fb);
    lemma_bit_distance_concat(ha, la, hb, lb, k);
    lemma_bit_distance_concat(ga, fa, gb, fb, k);
    if a >= h && b >= h {
        lemma_bit_distance_flip(la, lb, k);
    }
    if float_word(a, w) == float_word(b, w) {
        lemma_split_unique(ga, fa, gb, fb, k);
    }
    lemma_bit_distance_symmetric(0, 1);
}

/// A key type whose values can be placed by their radix distance.
///
/// Each key is read as a word of `radix_width()` bits (`radix_word`).
/// Distinct keys have distinct words, and the order of words is the order
/// in which the heap ranks keys.
pub trait Radix: Sized {
    /// Width in bits of the key's word.
    spec fn radix_width() -> nat;

    /// The key read as a word of `radix_width()` bits.
    spec fn radix_word(&self) -> nat;

    /// Words fit in the width and tell keys apart.
    proof fn lemma_radix_word(a: &Self, b: &Self)
        ensures
            a.radix_word() < pow2(Self::radix_width()),
            b.radix_word() < pow2(Self::radix_width()),
            a.radix_word() == b.radix_word() ==> a == b,
    ;

    /// The value returned by `radix_similarity` when all bits are equal.
    fn radix_bits() -> (r: u32)
        requires
            Self::radix_width() <= u32::MAX,
        ensures
            r == Self::radix_width(),
    ;

    /// The number of high bits in a row that this and `other` have in common.
    ///
    /// Eg. the radix similarity of 001001 and 000001 is 2 because they share
    /// the 2 high bits.
    fn radix_similarity(&self, other: &Self) -> (r: u32)
        requires
            Self::radix_width() <= u32::MAX,
        ensures
            r == Self::radix_width() - bit_distance(self.radix_word(), other.radix_word()),
    ;

    /// Opposite of `radix_similarity`: `radix_bits() - radix_similarity(other)`.
    fn radix_distance(&self, other: &Self) -> (r: u32)
        requires
            Self::radix_width() <= u32::MAX,
        ensures
            r == bit_distance(self.radix_word(), other.radix_word()),
    {
        proof {
            Self::lemma_radix_word(self, other);
            lemma_bit_distance_bound(self.radix_word(), other.radix_word(), Self::radix_width());
        }
        Self::radix_bits() - self.radix_similarity(other)
    }

    /// Whether this key ranks at or below `other`.
    fn radix_le(&self, other: &Self) -> (r: bool)
        ensures
            r == (self.radix_word() <= other.radix_word()),
    ;
}

} // verus!
