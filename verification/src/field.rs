//! The binary field `GF(2^128)` in its polynomial ("flat") basis and its
//! quadratic extension.
//!
//! An element is the 128-bit vector of its coefficients; addition is XOR and
//! multiplication is polynomial multiplication modulo
//! `x^128 + x^7 + x^2 + x + 1`.
use vstd::prelude::*;

verus! {

/// Multiplication by the generator `x`: one shift, folded by the modulus.
pub open spec fn xtime(a: u128) -> u128 {
    (a << 1) ^ (if (a >> 127) == 1 {
        0x87u128
    } else {
        0u128
    })
}

/// `a * x^n`.
pub open spec fn xpow(a: u128, n: nat) -> u128
    decreases n,
{
    if n == 0 {
        a
    } else {
        xtime(xpow(a, (n - 1) as nat))
    }
}

/// Coefficient `i` of `a`.
pub open spec fn bit_at(a: u128, i: u128) -> bool {
    (a >> i) & 1 == 1
}

/// The sum of `a * x^i` over the coefficients `i < n` that are set in `b`.
pub open spec fn partial_mul(a: u128, b: u128, n: nat) -> u128
    decreases n,
{
    if n == 0 {
        0
    } else {
        partial_mul(a, b, (n - 1) as nat) ^ (if bit_at(b, (n - 1) as u128) {
            xpow(a, (n - 1) as nat)
        } else {
            0u128
        })
    }
}

/// The field product.
#[verifier::opaque]
pub open spec fn fmul(a: u128, b: u128) -> u128 {
    partial_mul(a, b, 128)
}

/// `a^(2^k)`.
pub open spec fn square_n(a: u128, k: nat) -> u128
    decreases k,
{
    if k == 0 {
        a
    } else {
        fmul(square_n(a, (k - 1) as nat), square_n(a, (k - 1) as nat))
    }
}

/// Whether a field value is one of the two field bits.
pub open spec fn is_bit(a: u128) -> bool {
    a == 0 || a == 1
}

/// The field bit of a truth value.
pub open spec fn bit_of(b: bool) -> u128 {
    if b {
        1
    } else {
        0
    }
}

pub proof fn lemma_xor(a: u128, b: u128, c: u128)
    ensures
        a ^ b == b ^ a,
        (a ^ b) ^ c == a ^ (b ^ c),
        a ^ 0 == a,
        0 ^ a == a,
        a ^ a == 0,
        (a ^ b) ^ b == a,
        a ^ (a ^ b) == b,
        (a ^ b == 0) <==> a == b,
{
    assert(a ^ b == b ^ a && (a ^ b) ^ c == a ^ (b ^ c) && a ^ 0 == a && 0 ^ a == a && a ^ a == 0
        && (a ^ b) ^ b == a && a ^ (a ^ b) == b && ((a ^ b == 0) <==> a == b)) by (bit_vector);
}

/// `(a + b) + (c + d) = (a + c) + (b + d)`.
pub proof fn lemma_xor_swap(a: u128, b: u128, c: u128, d: u128)
    ensures
        (a ^ b) ^ (c ^ d) == (a ^ c) ^ (b ^ d),
{
    assert((a ^ b) ^ (c ^ d) == (a ^ c) ^ (b ^ d)) by (bit_vector);
}

/// XOR on field bits is exclusive or.
pub proof fn lemma_xor_bits(a: bool, b: bool)
    ensures
        bit_of(a) ^ bit_of(b) == bit_of(a != b),
{
    assert(0u128 ^ 0u128 == 0 && 0u128 ^ 1u128 == 1 && 1u128 ^ 0u128 == 1 && 1u128 ^ 1u128 == 0)
        by (bit_vector);
}

proof fn lemma_xtime_linear(a: u128, b: u128)
    ensures
        xtime(a ^ b) == xtime(a) ^ xtime(b),
        xtime(0) == 0,
{
    assert(xtime(a ^ b) == xtime(a) ^ xtime(b) && xtime(0) == 0) by (bit_vector);
}

proof fn lemma_xpow_linear(a: u128, b: u128, n: nat)
    ensures
        xpow(a ^ b, n) == xpow(a, n) ^ xpow(b, n),
        xpow(0, n) == 0,
        xpow(xtime(a), n) == xtime(xpow(a, n)),
    decreases n,
{
    if n > 0 {
        let m = (n - 1) as nat;
        lemma_xpow_linear(a, b, m);
        lemma_xtime_linear(xpow(a, m), xpow(b, m));
    }
}

proof fn lemma_partial_first(a: u128, c: u128, b: u128, n: nat)
    ensures
        partial_mul(a ^ c, b, n) == partial_mul(a, b, n) ^ partial_mul(c, b, n),
        partial_mul(0, b, n) == 0,
        partial_mul(xtime(a), b, n) == xtime(partial_mul(a, b, n)),
    decreases n,
{
    lemma_xtime_linear(0, 0);
    lemma_xor(0, 0, 0);
    if n > 0 {
        let m = (n - 1) as nat;
        lemma_partial_first(a, c, b, m);
        lemma_xpow_linear(a, c, m);
        let pa = partial_mul(a, b, m);
        let pc = partial_mul(c, b, m);
        lemma_xor_swap(pa, pc, xpow(a, m), xpow(c, m));
        lemma_xtime_linear(pa, xpow(a, m));
        lemma_xtime_linear(pa, 0);
        lemma_xor(pa ^ pc, 0, 0);
        lemma_xor(pa, 0, 0);
        lemma_xor(pc, 0, 0);
        lemma_xor(xtime(pa), 0, 0);
    }
}

proof fn lemma_partial_second(a: u128, b: u128, d: u128, n: nat)
    requires
        n <= 128,
    ensures
        partial_mul(a, b ^ d, n) == partial_mul(a, b, n) ^ partial_mul(a, d, n),
    decreases n,
{
    lemma_xor(0, 0, 0);
    if n > 0 {
        let m = (n - 1) as nat;
        lemma_partial_second(a, b, d, m);
        let i = m as u128;
        assert(bit_at(b ^ d, i) == (bit_at(b, i) != bit_at(d, i))) by (bit_vector);
        let pb = partial_mul(a, b, m);
        let pd = partial_mul(a, d, m);
        let x = xpow(a, m);
        let xb = if bit_at(b, i) {
            x
        } else {
            0
        };
        let xd = if bit_at(d, i) {
            x
        } else {
            0
        };
        lemma_xor_swap(pb, pd, xb, xd);
        lemma_xor(x, 0, 0);
    }
}

proof fn lemma_partial_xpow(a: u128, b: u128, n: nat, k: nat)
    ensures
        partial_mul(xpow(a, k), b, n) == xpow(partial_mul(a, b, n), k),
    decreases k,
{
    if k > 0 {
        lemma_partial_xpow(a, b, n, (k - 1) as nat);
        lemma_partial_first(xpow(a, (k - 1) as nat), 0, b, n);
    }
}

proof fn lemma_partial_commute(a: u128, b: u128, c: u128, n: nat, m: nat)
    ensures
        partial_mul(partial_mul(a, c, m), b, n) == partial_mul(partial_mul(a, b, n), c, m),
    decreases m,
{
    if m == 0 {
        lemma_partial_first(0, 0, b, n);
    } else {
        let k = (m - 1) as nat;
        lemma_partial_commute(a, b, c, n, k);
        let x = if bit_at(c, k as u128) {
            xpow(a, k)
        } else {
            0
        };
        lemma_partial_first(partial_mul(a, c, k), x, b, n);
        lemma_partial_first(0, 0, b, n);
        lemma_partial_xpow(a, b, n, k);
    }
}

/// The coefficients of `a` below `n`.
pub open spec fn low_bits(a: u128, n: nat) -> u128 {
    if n >= 128 {
        a
    } else {
        a & !(0xffff_ffff_ffff_ffff_ffff_ffff_ffff_ffffu128 << (n as u128))
    }
}

pub proof fn lemma_low_bits_step(a: u128, n: nat)
    requires
        n < 128,
    ensures
        low_bits(a, n + 1) == low_bits(a, n) ^ (if bit_at(a, n as u128) {
            1u128 << (n as u128)
        } else {
            0u128
        }),
        low_bits(a, 0) == 0,
{
    let i = n as u128;
    assert(a & !(0xffff_ffff_ffff_ffff_ffff_ffff_ffff_ffffu128 << 0u128) == 0) by (bit_vector);
    if n < 127 {
        let j = (n + 1) as u128;
        assert(a & !(0xffff_ffff_ffff_ffff_ffff_ffff_ffff_ffffu128 << j) == (a & !(
        0xffff_ffff_ffff_ffff_ffff_ffff_ffff_ffffu128 << i)) ^ (if bit_at(a, i) {
            1u128 << i
        } else {
            0u128
        })) by (bit_vector)
            requires
                i < 127,
                j == i + 1,
        ;
    } else {
        assert(a == (a & !(0xffff_ffff_ffff_ffff_ffff_ffff_ffff_ffffu128 << 127u128)) ^ (if bit_at(
            a,
            127,
        ) {
            1u128 << 127u128
        } else {
            0u128
        })) by (bit_vector);
    }
}

proof fn lemma_xpow_one(n: nat)
    requires
        n < 128,
    ensures
        xpow(1, n) == 1u128 << (n as u128),
    decreases n,
{
    if n == 0 {
        assert(1u128 << 0u128 == 1) by (bit_vector);
    } else {
        lemma_xpow_one((n - 1) as nat);
        let i = (n - 1) as u128;
        let j = n as u128;
        assert(xtime(1u128 << i) == 1u128 << j) by (bit_vector)
            requires
                i < 127,
                j == i + 1,
        ;
    }
}

proof fn lemma_partial_one(a: u128, n: nat)
    requires
        n <= 128,
    ensures
        partial_mul(1, a, n) == low_bits(a, n),
    decreases n,
{
    if n == 0 {
        lemma_low_bits_step(a, 0);
    } else {
        let m = (n - 1) as nat;
        lemma_partial_one(a, m);
        lemma_low_bits_step(a, m);
        lemma_xpow_one(m);
    }
}

/// Multiplication is commutative.
pub proof fn lemma_fmul_comm(a: u128, b: u128)
    ensures
        fmul(a, b) == fmul(b, a),
{
    reveal(fmul);
    lemma_partial_one(a, 128);
    lemma_partial_one(b, 128);
    lemma_partial_commute(1, b, a, 128, 128);
}

/// Multiplication is associative.
pub proof fn lemma_fmul_assoc(a: u128, b: u128, c: u128)
    ensures
        fmul(fmul(a, b), c) == fmul(a, fmul(b, c)),
{
    lemma_fmul_comm(a, fmul(b, c));
    lemma_fmul_comm(a, b);
    reveal(fmul);
    lemma_partial_commute(b, c, a, 128, 128);
}

/// Zero and one act as in any ring.
pub proof fn lemma_fmul_unit(a: u128)
    ensures
        fmul(a, 1) == a,
        fmul(1, a) == a,
        fmul(a, 0) == 0,
        fmul(0, a) == 0,
{
    lemma_fmul_comm(a, 1);
    lemma_fmul_comm(a, 0);
    reveal(fmul);
    lemma_partial_one(a, 128);
    lemma_partial_first(0, 0, a, 128);
}

/// Multiplication distributes over addition on both sides.
pub proof fn lemma_fmul_distrib(a: u128, b: u128, c: u128)
    ensures
        fmul(a ^ b, c) == fmul(a, c) ^ fmul(b, c),
        fmul(c, a ^ b) == fmul(c, a) ^ fmul(c, b),
{
    reveal(fmul);
    lemma_partial_first(a, b, c, 128);
    lemma_partial_second(c, a, b, 128);
}

/// On field bits multiplication is conjunction.
pub proof fn lemma_fmul_bits(a: bool, b: bool)
    ensures
        fmul(bit_of(a), bit_of(b)) == bit_of(a && b),
{
    lemma_fmul_unit(bit_of(a));
    lemma_fmul_unit(bit_of(b));
}

/// Spreads the low 64 coefficients to the even positions.
spec fn spread64(v: u128) -> u128 {
    let a0 = v & 0xffff_ffff_ffff_ffffu128;
    let a1 = (a0 ^ (a0 << 32)) & 0x00000000ffffffff00000000ffffffffu128;
    let a2 = (a1 ^ (a1 << 16)) & 0x0000ffff0000ffff0000ffff0000ffffu128;
    let a3 = (a2 ^ (a2 << 8)) & 0x00ff00ff00ff00ff00ff00ff00ff00ffu128;
    let a4 = (a3 ^ (a3 << 4)) & 0x0f0f0f0f0f0f0f0f0f0f0f0f0f0f0f0fu128;
    let a5 = (a4 ^ (a4 << 2)) & 0x33333333333333333333333333333333u128;
    (a5 ^ (a5 << 1)) & 0x55555555555555555555555555555555u128
}

/// Squaring, written as a linear map on coefficients.
spec fn square_bits(v: u128) -> u128 {
    let lo = spread64(v);
    let hi = spread64(v >> 64);
    let top = (hi >> 121) ^ (hi >> 126) ^ (hi >> 127);
    lo ^ hi ^ (hi << 1) ^ (hi << 2) ^ (hi << 7) ^ top ^ (top << 1) ^ (top << 2) ^ (top << 7)
}

/// Squaring is additive.
pub proof fn lemma_square_additive(a: u128, b: u128)
    ensures
        fmul(a ^ b, a ^ b) == fmul(a, a) ^ fmul(b, b),
{
    lemma_fmul_distrib(a, b, a ^ b);
    lemma_fmul_distrib(a, b, a);
    lemma_fmul_distrib(a, b, b);
    lemma_fmul_comm(a, b);
    let x = fmul(a, a);
    let y = fmul(b, b);
    let m = fmul(a, b);
    assert((x ^ m) ^ (m ^ y) == x ^ y) by (bit_vector);
}

proof fn lemma_fmul_generator(a: u128)
    ensures
        fmul(a, 2) == xtime(a),
        fmul(2, a) == xtime(a),
{
    lemma_fmul_comm(a, 2);
    lemma_partial_generator(a, 128);
    reveal(fmul);
}

proof fn lemma_partial_generator(a: u128, n: nat)
    requires
        n <= 128,
    ensures
        n >= 2 ==> partial_mul(a, 2, n) == xtime(a),
        n < 2 ==> partial_mul(a, 2, n) == 0,
    decreases n,
{
    lemma_xor(0, 0, 0);
    lemma_xor(xtime(a), 0, 0);
    if n > 0 {
        let m = (n - 1) as nat;
        lemma_partial_generator(a, m);
        let i = m as u128;
        assert(bit_at(2, i) == (i == 1)) by (bit_vector)
            requires
                i < 128,
        ;
        assert(xpow(a, 0) == a);
        assert(xpow(a, 1) == xtime(xpow(a, 0)));
    }
}

/// Squaring the monomial `x^n` and the coefficient form agree.
proof fn lemma_square_monomial(n: nat)
    requires
        n < 128,
    ensures
        fmul(1u128 << (n as u128), 1u128 << (n as u128)) == square_bits(1u128 << (n as u128)),
    decreases n,
{
    if n == 0 {
        assert(1u128 << 0u128 == 1) by (bit_vector);
        assert(square_bits(1) == 1) by (bit_vector);
        lemma_fmul_unit(1);
    } else {
        let m = (n - 1) as nat;
        lemma_square_monomial(m);
        let i = m as u128;
        let j = n as u128;
        let v = 1u128 << i;
        assert(1u128 << j == xtime(v) && square_bits(1u128 << j) == xtime(xtime(square_bits(v))))
            by (bit_vector)
            requires
                i < 127,
                j == i + 1,
                v == 1u128 << i,
        ;
        lemma_fmul_generator(v);
        lemma_fmul_generator(fmul(v, v));
        lemma_fmul_generator(xtime(fmul(v, v)));
        lemma_fmul_assoc(2, v, xtime(v));
        lemma_fmul_comm(v, xtime(v));
        lemma_fmul_assoc(2, v, v);
    }
}

proof fn lemma_square_low(a: u128, n: nat)
    requires
        n <= 128,
    ensures
        fmul(low_bits(a, n), low_bits(a, n)) == square_bits(low_bits(a, n)),
    decreases n,
{
    assert(square_bits(0) == 0) by (bit_vector);
    lemma_fmul_unit(0);
    if n == 0 {
        lemma_low_bits_step(a, 0);
    } else {
        let m = (n - 1) as nat;
        lemma_square_low(a, m);
        lemma_low_bits_step(a, m);
        lemma_square_monomial(m);
        let p = low_bits(a, m);
        let q = if bit_at(a, m as u128) {
            1u128 << (m as u128)
        } else {
            0
        };
        lemma_square_additive(p, q);
        assert(square_bits(p ^ q) == square_bits(p) ^ square_bits(q)) by (bit_vector);
    }
}

proof fn lemma_square(a: u128)
    ensures
        fmul(a, a) == square_bits(a),
{
    lemma_square_low(a, 128);
}

/// The only solutions of `a^2 = a` are zero and one.
pub proof fn lemma_idempotent(a: u128)
    ensures
        fmul(a, a) == a <==> is_bit(a),
{
    lemma_square(a);
    lemma_fmul_unit(a);
    assert(square_bits(a) == a ==> a == 0 || a == 1) by (bit_vector);
}

/// `a * (a + 1) = 0` exactly for field bits.
pub proof fn lemma_boolean(a: u128)
    ensures
        fmul(a, a ^ 1) == 0 <==> is_bit(a),
{
    lemma_fmul_distrib(a, 1, a);
    lemma_fmul_unit(a);
    lemma_idempotent(a);
    lemma_xor(fmul(a, a), a, 0);
}

proof fn lemma_square_n_mul(a: u128, b: u128, k: nat)
    ensures
        square_n(fmul(a, b), k) == fmul(square_n(a, k), square_n(b, k)),
        square_n(a ^ b, k) == square_n(a, k) ^ square_n(b, k),
    decreases k,
{
    if k > 0 {
        let m = (k - 1) as nat;
        lemma_square_n_mul(a, b, m);
        let p = square_n(a, m);
        let q = square_n(b, m);
        lemma_fmul_swap(p, q, p, q);
        lemma_square_additive(p, q);
    }
}

/// `(a b)(c d) = (a c)(b d)`.
pub proof fn lemma_fmul_swap(a: u128, b: u128, c: u128, d: u128)
    ensures
        fmul(fmul(a, b), fmul(c, d)) == fmul(fmul(a, c), fmul(b, d)),
{
    lemma_fmul_assoc(a, b, fmul(c, d));
    lemma_fmul_assoc(b, c, d);
    lemma_fmul_comm(b, c);
    lemma_fmul_assoc(c, b, d);
    lemma_fmul_assoc(a, c, fmul(b, d));
}

proof fn lemma_generator_step(v: u128, w: u128, k: nat)
    requires
        square_n(2, k) == v,
        square_bits(v) == w,
    ensures
        square_n(2, k + 1) == w,
{
    lemma_square(v);
}

/// `x^(2^128) = x`, by squaring step by step.
proof fn lemma_generator_order()
    ensures
        square_n(2, 128) == 2,
{
    assert(square_n(2, 0) == 2);
    assert(square_bits(0x2u128) == 0x4u128
        && square_bits(0x4u128) == 0x10u128
        && square_bits(0x10u128) == 0x100u128
        && square_bits(0x100u128) == 0x10000u128
        && square_bits(0x10000u128) == 0x100000000u128
        && square_bits(0x100000000u128) == 0x10000000000000000u128
        && square_bits(0x10000000000000000u128) == 0x87u128
        && square_bits(0x87u128) == 0x4015u128
        && square_bits(0x4015u128) == 0x10000111u128
        && square_bits(0x10000111u128) == 0x100000000010101u128
        && square_bits(0x100000000010101u128) == 0x10000000000000000000100010001u128
        && square_bits(0x10000000000000000000100010001u128) == 0x87000000010000000100000001u128
        && square_bits(0x87000000010000000100000001u128) == 0x21caea0000000000000086u128
        && square_bits(0x21caea0000000000000086u128) == 0x21cae93f7cfc8u128
        && square_bits(0x21cae93f7cfc8u128) == 0x4015044544105551550555040u128
        && square_bits(0x4015044544105551550555040u128) == 0x1001001111110961118fe6196978ef70u128
        && square_bits(0x1001001111110961118fe6196978ef70u128) == 0x860140d2541486c693c692c775187987u128
        && square_bits(0x860140d2541486c693c692c775187987u128) == 0x8b69509b312d6501ea618e11df04ea1eu128
        && square_bits(0x8b69509b312d6501ea618e11df04ea1eu128) == 0xb715594eb7756558cad0352d30b311b4u128
        && square_bits(0xb715594eb7756558cad0352d30b311b4u128) == 0x1afdeffd35e5fde54e1a6f865fe82b9u128
        && square_bits(0x1afdeffd35e5fde54e1a6f865fe82b9u128) == 0x11b4a30358935542218289f09c0659edu128
        && square_bits(0x11b4a30358935542218289f09c0659edu128) == 0x83a513579eda579397b14587eebe264du128
        && square_bits(0x83a513579eda579397b14587eebe264du128) == 0x83ad91f69582bddf38d15180f9de45adu128
        && square_bits(0x83ad91f69582bddf38d15180f9de45adu128) == 0xc7f8a41756ad614d1a97936b620f481du128
        && square_bits(0xc7f8a41756ad614d1a97936b620f481du128) == 0xbb844bf6957599a6e94bf5687ccf4c39u128
        && square_bits(0xbb844bf6957599a6e94bf5687ccf4c39u128) == 0x2c3bd83d0661350d5aadb3837634c244u128
        && square_bits(0x2c3bd83d0661350d5aadb3837634c244u128) == 0x24f6fc2353c7f2321f726995c3f33829u128
        && square_bits(0x24f6fc2353c7f2321f726995c3f33829u128) == 0x150e344316f35f82a5b7efc52c5e9c53u128
        && square_bits(0x150e344316f35f82a5b7efc52c5e9c53u128) == 0xcbe66ebbc72d228a891738c79d5ad319u128
        && square_bits(0xcbe66ebbc72d228a891738c79d5ad319u128) == 0xd331a77342cf2867fbb824714f38f6c2u128
        && square_bits(0xd331a77342cf2867fbb824714f38f6c2u128) == 0x60dcdee4d2f1fc9262609e6968de22b0u128
        && square_bits(0x60dcdee4d2f1fc9262609e6968de22b0u128) == 0x782d0a995dd3b01821777af80695052au128
        && square_bits(0x782d0a995dd3b01821777af80695052au128) == 0xcec3202236b9330fde0a74a95b11a7b2u128
        && square_bits(0xcec3202236b9330fde0a74a95b11a7b2u128) == 0xcad1b2dd09125a5f800a7b44dd8e7a70u128
        && square_bits(0xcad1b2dd09125a5f800a7b44dd8e7a70u128) == 0xd3f537e04c700e277016c540c190dd74u128
        && square_bits(0xd3f537e04c700e277016c540c190dd74u128) == 0x20b022e1c1d1bc0809bbaa007aff17a4u128
        && square_bits(0x20b022e1c1d1bc0809bbaa007aff17a4u128) == 0x1c621e475a73acaea5ea62f173a564deu128
        && square_bits(0x1c621e475a73acaea5ea62f173a564deu128) == 0xeaab3a58b8a02fe2c1d3ada9e183a6f8u128
        && square_bits(0xeaab3a58b8a02fe2c1d3ada9e183a6f8u128) == 0xdffeae5cfc8592a22ee29c077314ee0du128
        && square_bits(0xdffeae5cfc8592a22ee29c077314ee0du128) == 0x1854548bb6f4de8e1794c9c6116bca12u128
        && square_bits(0x1854548bb6f4de8e1794c9c6116bca12u128) == 0xa7ddbe68af10b36c5046371c4cc9eaa8u128
        && square_bits(0xa7ddbe68af10b36c5046371c4cc9eaa8u128) == 0xc7c20e0075b34cb3e77bd7620dd51099u128
        && square_bits(0xc7c20e0075b34cb3e77bd7620dd51099u128) == 0xeed7a7597ab9140ee385088258930c85u128
        && square_bits(0xeed7a7597ab9140ee385088258930c85u128) == 0xd3807dd9d6a39649d9bf3b428f207eecu128
        && square_bits(0xd3807dd9d6a39649d9bf3b428f207eecu128) == 0x64fb855fc75b066a7d1adaba58301148u128
        && square_bits(0x64fb855fc75b066a7d1adaba58301148u128) == 0x710a093e99bb9946aba3d15b0b675aaau128
        && square_bits(0x710a093e99bb9946aba3d15b0b675aaau128) == 0xafc267d97044a1c866216c6f770b3b1eu128
        && square_bits(0xafc267d97044a1c866216c6f770b3b1eu128) == 0xe316b61772920218fe1d7816d9eb81fdu128
        && square_bits(0xe316b61772920218fe1d7816d9eb81fdu128) == 0xfbcf8c1e442c8cf5b87c1159421de6c0u128
        && square_bits(0xfbcf8c1e442c8cf5b87c1159421de6c0u128) == 0x4d328e5ae8b1bde5687634c0bd8f66a6u128
        && square_bits(0x4d328e5ae8b1bde5687634c0bd8f66a6u128) == 0x4d758c29eeb484f7c8b21bf16608e4dbu128
        && square_bits(0x4d758c29eeb484f7c8b21bf16608e4dbu128) == 0x97da6d2e8f7686d939b53119c4b7496u128
        && square_bits(0x97da6d2e8f7686d939b53119c4b7496u128) == 0x60488351c7403436ccbb31a458da0423u128
        && square_bits(0x60488351c7403436ccbb31a458da0423u128) == 0x3c5814a4c792b3beaba321469362905fu128
        && square_bits(0x3c5814a4c792b3beaba321469362905fu128) == 0xf6fd92c58b52c44dfbcf513b18b860f7u128
        && square_bits(0xf6fd92c58b52c44dfbcf513b18b860f7u128) == 0x740252435434bd93e213b075ac781973u128
        && square_bits(0x740252435434bd93e213b075ac781973u128) == 0xb7740311b0146782bb228613735755a8u128
        && square_bits(0xb7740311b0146782bb228613735755a8u128) == 0x14a4e774428f86a14e059e6f77db9735u128
        && square_bits(0x14a4e774428f86a14e059e6f77db9735u128) == 0x9f07d44ae7b5f72d6728ba4f8b5ad996u128
        && square_bits(0x9f07d44ae7b5f72d6728ba4f8b5ad996u128) == 0x783e0e827a3c43a2e68d429870a86444u128
        && square_bits(0x783e0e827a3c43a2e68d429870a86444u128) == 0x9ed6f0fd3b898356dddef6f866a8cb3au128
        && square_bits(0x9ed6f0fd3b898356dddef6f866a8cb3au128) == 0x3dd46c137e3f5775ac6ea52692d6e84fu128
        && square_bits(0x3dd46c137e3f5775ac6ea52692d6e84fu128) == 0xf64e2b2e01a1818581aae137a9a1f2acu128
        && square_bits(0xf64e2b2e01a1818581aae137a9a1f2acu128) == 0x61651fea6b5832b944e598a795a299f6u128) by (bit_vector);
    lemma_generator_step(0x2, 0x4, 0);
    lemma_generator_step(0x4, 0x10, 1);
    lemma_generator_step(0x10, 0x100, 2);
    lemma_generator_step(0x100, 0x10000, 3);
    lemma_generator_step(0x10000, 0x100000000, 4);
    lemma_generator_step(0x100000000, 0x10000000000000000, 5);
    lemma_generator_step(0x10000000000000000, 0x87, 6);
    lemma_generator_step(0x87, 0x4015, 7);
    lemma_generator_step(0x4015, 0x10000111, 8);
    lemma_generator_step(0x10000111, 0x100000000010101, 9);
    lemma_generator_step(0x100000000010101, 0x10000000000000000000100010001, 10);
    lemma_generator_step(0x10000000000000000000100010001, 0x87000000010000000100000001, 11);
    lemma_generator_step(0x87000000010000000100000001, 0x21caea0000000000000086, 12);
    lemma_generator_step(0x21caea0000000000000086, 0x21cae93f7cfc8, 13);
    lemma_generator_step(0x21cae93f7cfc8, 0x4015044544105551550555040, 14);
    lemma_generator_step(0x4015044544105551550555040, 0x1001001111110961118fe6196978ef70, 15);
    lemma_generator_step(0x1001001111110961118fe6196978ef70, 0x860140d2541486c693c692c775187987, 16);
    lemma_generator_step(0x860140d2541486c693c692c775187987, 0x8b69509b312d6501ea618e11df04ea1e, 17);
    lemma_generator_step(0x8b69509b312d6501ea618e11df04ea1e, 0xb715594eb7756558cad0352d30b311b4, 18);
    lemma_generator_step(0xb715594eb7756558cad0352d30b311b4, 0x1afdeffd35e5fde54e1a6f865fe82b9, 19);
    lemma_generator_step(0x1afdeffd35e5fde54e1a6f865fe82b9, 0x11b4a30358935542218289f09c0659ed, 20);
    lemma_generator_step(0x11b4a30358935542218289f09c0659ed, 0x83a513579eda579397b14587eebe264d, 21);
    lemma_generator_step(0x83a513579eda579397b14587eebe264d, 0x83ad91f69582bddf38d15180f9de45ad, 22);
    lemma_generator_step(0x83ad91f69582bddf38d15180f9de45ad, 0xc7f8a41756ad614d1a97936b620f481d, 23);
    lemma_generator_step(0xc7f8a41756ad614d1a97936b620f481d, 0xbb844bf6957599a6e94bf5687ccf4c39, 24);
    lemma_generator_step(0xbb844bf6957599a6e94bf5687ccf4c39, 0x2c3bd83d0661350d5aadb3837634c244, 25);
    lemma_generator_step(0x2c3bd83d0661350d5aadb3837634c244, 0x24f6fc2353c7f2321f726995c3f33829, 26);
    lemma_generator_step(0x24f6fc2353c7f2321f726995c3f33829, 0x150e344316f35f82a5b7efc52c5e9c53, 27);
    lemma_generator_step(0x150e344316f35f82a5b7efc52c5e9c53, 0xcbe66ebbc72d228a891738c79d5ad319, 28);
    lemma_generator_step(0xcbe66ebbc72d228a891738c79d5ad319, 0xd331a77342cf2867fbb824714f38f6c2, 29);
    lemma_generator_step(0xd331a77342cf2867fbb824714f38f6c2, 0x60dcdee4d2f1fc9262609e6968de22b0, 30);
    lemma_generator_step(0x60dcdee4d2f1fc9262609e6968de22b0, 0x782d0a995dd3b01821777af80695052a, 31);
    lemma_generator_step(0x782d0a995dd3b01821777af80695052a, 0xcec3202236b9330fde0a74a95b11a7b2, 32);
    lemma_generator_step(0xcec3202236b9330fde0a74a95b11a7b2, 0xcad1b2dd09125a5f800a7b44dd8e7a70, 33);
    lemma_generator_step(0xcad1b2dd09125a5f800a7b44dd8e7a70, 0xd3f537e04c700e277016c540c190dd74, 34);
    lemma_generator_step(0xd3f537e04c700e277016c540c190dd74, 0x20b022e1c1d1bc0809bbaa007aff17a4, 35);
    lemma_generator_step(0x20b022e1c1d1bc0809bbaa007aff17a4, 0x1c621e475a73acaea5ea62f173a564de, 36);
    lemma_generator_step(0x1c621e475a73acaea5ea62f173a564de, 0xeaab3a58b8a02fe2c1d3ada9e183a6f8, 37);
    lemma_generator_step(0xeaab3a58b8a02fe2c1d3ada9e183a6f8, 0xdffeae5cfc8592a22ee29c077314ee0d, 38);
    lemma_generator_step(0xdffeae5cfc8592a22ee29c077314ee0d, 0x1854548bb6f4de8e1794c9c6116bca12, 39);
    lemma_generator_step(0x1854548bb6f4de8e1794c9c6116bca12, 0xa7ddbe68af10b36c5046371c4cc9eaa8, 40);
    lemma_generator_step(0xa7ddbe68af10b36c5046371c4cc9eaa8, 0xc7c20e0075b34cb3e77bd7620dd51099, 41);
    lemma_generator_step(0xc7c20e0075b34cb3e77bd7620dd51099, 0xeed7a7597ab9140ee385088258930c85, 42);
    lemma_generator_step(0xeed7a7597ab9140ee385088258930c85, 0xd3807dd9d6a39649d9bf3b428f207eec, 43);
    lemma_generator_step(0xd3807dd9d6a39649d9bf3b428f207eec, 0x64fb855fc75b066a7d1adaba58301148, 44);
    lemma_generator_step(0x64fb855fc75b066a7d1adaba58301148, 0x710a093e99bb9946aba3d15b0b675aaa, 45);
    lemma_generator_step(0x710a093e99bb9946aba3d15b0b675aaa, 0xafc267d97044a1c866216c6f770b3b1e, 46);
    lemma_generator_step(0xafc267d97044a1c866216c6f770b3b1e, 0xe316b61772920218fe1d7816d9eb81fd, 47);
    lemma_generator_step(0xe316b61772920218fe1d7816d9eb81fd, 0xfbcf8c1e442c8cf5b87c1159421de6c0, 48);
    lemma_generator_step(0xfbcf8c1e442c8cf5b87c1159421de6c0, 0x4d328e5ae8b1bde5687634c0bd8f66a6, 49);
    lemma_generator_step(0x4d328e5ae8b1bde5687634c0bd8f66a6, 0x4d758c29eeb484f7c8b21bf16608e4db, 50);
    lemma_generator_step(0x4d758c29eeb484f7c8b21bf16608e4db, 0x97da6d2e8f7686d939b53119c4b7496, 51);
    lemma_generator_step(0x97da6d2e8f7686d939b53119c4b7496, 0x60488351c7403436ccbb31a458da0423, 52);
    lemma_generator_step(0x60488351c7403436ccbb31a458da0423, 0x3c5814a4c792b3beaba321469362905f, 53);
    lemma_generator_step(0x3c5814a4c792b3beaba321469362905f, 0xf6fd92c58b52c44dfbcf513b18b860f7, 54);
    lemma_generator_step(0xf6fd92c58b52c44dfbcf513b18b860f7, 0x740252435434bd93e213b075ac781973, 55);
    lemma_generator_step(0x740252435434bd93e213b075ac781973, 0xb7740311b0146782bb228613735755a8, 56);
    lemma_generator_step(0xb7740311b0146782bb228613735755a8, 0x14a4e774428f86a14e059e6f77db9735, 57);
    lemma_generator_step(0x14a4e774428f86a14e059e6f77db9735, 0x9f07d44ae7b5f72d6728ba4f8b5ad996, 58);
    lemma_generator_step(0x9f07d44ae7b5f72d6728ba4f8b5ad996, 0x783e0e827a3c43a2e68d429870a86444, 59);
    lemma_generator_step(0x783e0e827a3c43a2e68d429870a86444, 0x9ed6f0fd3b898356dddef6f866a8cb3a, 60);
    lemma_generator_step(0x9ed6f0fd3b898356dddef6f866a8cb3a, 0x3dd46c137e3f5775ac6ea52692d6e84f, 61);
    lemma_generator_step(0x3dd46c137e3f5775ac6ea52692d6e84f, 0xf64e2b2e01a1818581aae137a9a1f2ac, 62);
    lemma_generator_step(0xf64e2b2e01a1818581aae137a9a1f2ac, 0x61651fea6b5832b944e598a795a299f6, 63);
    assert(square_bits(0x61651fea6b5832b944e598a795a299f6u128) == 0x7c9d30e6ed40cbc30e4292c6d87e2a65u128
        && square_bits(0x7c9d30e6ed40cbc30e4292c6d87e2a65u128) == 0xc2c57e31da2ff653d47f657d9736a3bcu128
        && square_bits(0xc2c57e31da2ff653d47f657d9736a3bcu128) == 0xe325ada8d4bf8eff55cb32146561a494u128
        && square_bits(0xe325ada8d4bf8eff55cb32146561a494u128) == 0xbf884491f010fcf92b42640baf97546au128
        && square_bits(0xbf884491f010fcf92b42640baf97546au128) == 0x744ff1cc6c4147e96f55c63e138b0f6au128
        && square_bits(0x744ff1cc6c4147e96f55c63e138b0f6au128) == 0xf72d4a117bba9cee44bd30ca7a959c35u128
        && square_bits(0xf72d4a117bba9cee44bd30ca7a959c35u128) == 0x31f9706e56dcd7c9dd3c39ec2fcb97ecu128
        && square_bits(0x31f9706e56dcd7c9dd3c39ec2fcb97ecu128) == 0xcafd0f1dee4b13f4f9104edc7cd7c419u128
        && square_bits(0xcafd0f1dee4b13f4f9104edc7cd7c419u128) == 0xc6b603373b7fff4c92f4024ed5a0366eu128
        && square_bits(0xc6b603373b7fff4c92f4024ed5a0366eu128) == 0xfb4b047c029d81bde9408400053759bbu128
        && square_bits(0xfb4b047c029d81bde9408400053759bbu128) == 0x5c12435b486ac2b0022c6b03d1e52223u128
        && square_bits(0x5c12435b486ac2b0022c6b03d1e52223u128) == 0xdeb4814466d6d45600cb1be4b63b5b3du128
        && square_bits(0xdeb4814466d6d45600cb1be4b63b5b3du128) == 0x1c8f0314c1ca2c6a235138002e3dec62u128
        && square_bits(0x1c8f0314c1ca2c6a235138002e3dec62u128) == 0xaa94fa2a07db8f59b4fa968f61ea5bd8u128
        && square_bits(0xaa94fa2a07db8f59b4fa968f61ea5bd8u128) == 0xbaed1a1f49ca7f891ec3403efa66966eu128
        && square_bits(0xbaed1a1f49ca7f891ec3403efa66966eu128) == 0x79a3d532b4dca977042a87c2811ee47au128
        && square_bits(0x79a3d532b4dca977042a87c2811ee47au128) == 0xca74daf67fe0c93b13581fc7a95df199u128
        && square_bits(0xca74daf67fe0c93b13581fc7a95df199u128) == 0x92d3f21915a271738441bd78c444ed45u128
        && square_bits(0x92d3f21915a271738441bd78c444ed45u128) == 0x52525b16c4db307dfc4ce06bfdce9edu128
        && square_bits(0x52525b16c4db307dfc4ce06bfdce9edu128) == 0x59a044e544805b9900ed08440dda5ebau128
        && square_bits(0x59a044e544805b9900ed08440dda5ebau128) == 0xd6648859781bb4ef7800914cc52e273bu128
        && square_bits(0xd6648859781bb4ef7800914cc52e273bu128) == 0x28266451a0c9c61d9ad1a02c574e9631u128
        && square_bits(0x28266451a0c9c61d9ad1a02c574e9631u128) == 0x7c8647672078f3f4cd3c813afb78aa38u128
        && square_bits(0x7c8647672078f3f4cd3c813afb78aa38u128) == 0x92c0cf343ae063ad494fdfab6df42306u128
        && square_bits(0x92c0cf343ae063ad494fdfab6df42306u128) == 0x5574a07cca7cd737aca6f91a6abde544u128
        && square_bits(0x5574a07cca7cd737aca6f91a6abde544u128) == 0xbbada747894bc3dd879287c869f885c3u128
        && square_bits(0xbbada747894bc3dd879287c869f885c3u128) == 0x386db41096f62a8af50e0632f2a35f5bu128
        && square_bits(0x386db41096f62a8af50e0632f2a35f5bu128) == 0xefdb4540536482251843656b2ea8f397u128
        && square_bits(0xefdb4540536482251843656b2ea8f397u128) == 0x864204566cee644df1c52011971b40b3u128
        && square_bits(0x864204566cee644df1c52011971b40b3u128) == 0x9f65220d0c78fc67048e86e374780c55u128
        && square_bits(0x9f65220d0c78fc67048e86e374780c55u128) == 0x6c3124a15e087d323caadfab02ea679du128
        && square_bits(0x6c3124a15e087d323caadfab02ea679du128) == 0x40e2dfc1450698cadca8758ed620dd7bu128
        && square_bits(0x40e2dfc1450698cadca8758ed620dd7bu128) == 0x217bea750913f0db29e30e4d37b882a1u128
        && square_bits(0x217bea750913f0db29e30e4d37b882a1u128) == 0x18cc9c758f82f3a62452c0f06b2d5154u128
        && square_bits(0x18cc9c758f82f3a62452c0f06b2d5154u128) == 0xa2f988953ebab6d6ff4fc66638b9c77cu128
        && square_bits(0xa2f988953ebab6d6ff4fc66638b9c77cu128) == 0x8b621a33b1f55be1b5cf3dbe01503955u128
        && square_bits(0x8b621a33b1f55be1b5cf3dbe01503955u128) == 0xa6403e49a18fdcec5bad32ffd131adf1u128
        && square_bits(0xa6403e49a18fdcec5bad32ffd131adf1u128) == 0xc7213453b5a004318da7ee035acac1d8u128
        && square_bits(0xc7213453b5a004318da7ee035acac1d8u128) == 0xfab85890c72cf5bd42908c445873de98u128
        && square_bits(0xfab85890c72cf5bd42908c445873de98u128) == 0x18fb3bc896b15739aba9209e72802626u128
        && square_bits(0x18fb3bc896b15739aba9209e72802626u128) == 0xe2ae4c18bc72d0b5584b1b8ff9fdbe53u128
        && square_bits(0xe2ae4c18bc72d0b5584b1b8ff9fdbe53u128) == 0xbf7fe7e158f5e6b627fbbc64727757a3u128
        && square_bits(0xbf7fe7e158f5e6b627fbbc64727757a3u128) == 0x74349545e390b89fc3ef36c9b75a0400u128
        && square_bits(0x74349545e390b89fc3ef36c9b75a0400u128) == 0xb377c7044aeb289debaf56677af1691du128
        && square_bits(0xb377c7044aeb289debaf56677af1691du128) == 0xdd4a597abff1c6d46b3da5829a07e0fu128
        && square_bits(0xdd4a597abff1c6d46b3da5829a07e0fu128) == 0x390a7a5685925c88fb31442bbbee4562u128
        && square_bits(0x390a7a5685925c88fb31442bbbee4562u128) == 0xef0226d7d8c4f9088d931140ce80f4cau128
        && square_bits(0xef0226d7d8c4f9088d931140ce80f4cau128) == 0xc77a431b17442dc246bdf85b5f5764d5u128
        && square_bits(0xc77a431b17442dc246bdf85b5f5764d5u128) == 0xaaf58d8527dbb51e9cb66967210ef752u128
        && square_bits(0xaaf58d8527dbb51e9cb66967210ef752u128) == 0xbea766c2fd57dce012c3142c06e2acc1u128
        && square_bits(0xbea766c2fd57dce012c3142c06e2acc1u128) == 0x718b86e46755b667022ba9c65acbed68u128
        && square_bits(0x718b86e46755b667022ba9c65acbed68u128) == 0xeba2e73f8e06f46e77a7af910537779du128
        && square_bits(0xeba2e73f8e06f46e77a7af910537779du128) == 0x9a6d9a22e2bcf10bebbd0f52366f13acu128
        && square_bits(0x9a6d9a22e2bcf10bebbd0f52366f13acu128) == 0x30930047648b0f33ab2b66ce2a82776cu128
        && square_bits(0x30930047648b0f33ab2b66ce2a82776cu128) == 0xdf6441de141c2ab56015a35f3e3c8cc5u128
        && square_bits(0xdf6441de141c2ab56015a35f3e3c8cc5u128) == 0x821656934ab0df98a24abe27faf17b9u128
        && square_bits(0x821656934ab0df98a24abe27faf17b9u128) == 0x6186189d20b819418606bb0e28094f06u128
        && square_bits(0x6186189d20b819418606bb0e28094f06u128) == 0x2cb2ca78e3a46e6118637a81b61a75a5u128
        && square_bits(0x2cb2ca78e3a46e6118637a81b61a75a5u128) == 0x34d34d3086928aeaebacd53e52b72998u128
        && square_bits(0x34d34d3086928aeaebacd53e52b72998u128) == 0xc71c71c308249e75db490028e7b6cf92u128
        && square_bits(0xc71c71c308249e75db490028e7b6cf92u128) == 0xebaebefbebaeb6db75d751453cf3b6acu128
        && square_bits(0xebaebefbebaeb6db75d751453cf3b6acu128) == 0x9a69a69a618618618a28a28a1451455au128
        && square_bits(0x9a69a69a618618618a28a28a1451455au128) == 0x24924924924924926db6db6db6db6da4u128
        && square_bits(0x24924924924924926db6db6db6db6da4u128) == 0x2u128) by (bit_vector);
    lemma_generator_step(0x61651fea6b5832b944e598a795a299f6, 0x7c9d30e6ed40cbc30e4292c6d87e2a65, 64);
    lemma_generator_step(0x7c9d30e6ed40cbc30e4292c6d87e2a65, 0xc2c57e31da2ff653d47f657d9736a3bc, 65);
    lemma_generator_step(0xc2c57e31da2ff653d47f657d9736a3bc, 0xe325ada8d4bf8eff55cb32146561a494, 66);
    lemma_generator_step(0xe325ada8d4bf8eff55cb32146561a494, 0xbf884491f010fcf92b42640baf97546a, 67);
    lemma_generator_step(0xbf884491f010fcf92b42640baf97546a, 0x744ff1cc6c4147e96f55c63e138b0f6a, 68);
    lemma_generator_step(0x744ff1cc6c4147e96f55c63e138b0f6a, 0xf72d4a117bba9cee44bd30ca7a959c35, 69);
    lemma_generator_step(0xf72d4a117bba9cee44bd30ca7a959c35, 0x31f9706e56dcd7c9dd3c39ec2fcb97ec, 70);
    lemma_generator_step(0x31f9706e56dcd7c9dd3c39ec2fcb97ec, 0xcafd0f1dee4b13f4f9104edc7cd7c419, 71);
    lemma_generator_step(0xcafd0f1dee4b13f4f9104edc7cd7c419, 0xc6b603373b7fff4c92f4024ed5a0366e, 72);
    lemma_generator_step(0xc6b603373b7fff4c92f4024ed5a0366e, 0xfb4b047c029d81bde9408400053759bb, 73);
    lemma_generator_step(0xfb4b047c029d81bde9408400053759bb, 0x5c12435b486ac2b0022c6b03d1e52223, 74);
    lemma_generator_step(0x5c12435b486ac2b0022c6b03d1e52223, 0xdeb4814466d6d45600cb1be4b63b5b3d, 75);
    lemma_generator_step(0xdeb4814466d6d45600cb1be4b63b5b3d, 0x1c8f0314c1ca2c6a235138002e3dec62, 76);
    lemma_generator_step(0x1c8f0314c1ca2c6a235138002e3dec62, 0xaa94fa2a07db8f59b4fa968f61ea5bd8, 77);
    lemma_generator_step(0xaa94fa2a07db8f59b4fa968f61ea5bd8, 0xbaed1a1f49ca7f891ec3403efa66966e, 78);
    lemma_generator_step(0xbaed1a1f49ca7f891ec3403efa66966e, 0x79a3d532b4dca977042a87c2811ee47a, 79);
    lemma_generator_step(0x79a3d532b4dca977042a87c2811ee47a, 0xca74daf67fe0c93b13581fc7a95df199, 80);
    lemma_generator_step(0xca74daf67fe0c93b13581fc7a95df199, 0x92d3f21915a271738441bd78c444ed45, 81);
    lemma_generator_step(0x92d3f21915a271738441bd78c444ed45, 0x52525b16c4db307dfc4ce06bfdce9ed, 82);
    lemma_generator_step(0x52525b16c4db307dfc4ce06bfdce9ed, 0x59a044e544805b9900ed08440dda5eba, 83);
    lemma_generator_step(0x59a044e544805b9900ed08440dda5eba, 0xd6648859781bb4ef7800914cc52e273b, 84);
    lemma_generator_step(0xd6648859781bb4ef7800914cc52e273b, 0x28266451a0c9c61d9ad1a02c574e9631, 85);
    lemma_generator_step(0x28266451a0c9c61d9ad1a02c574e9631, 0x7c8647672078f3f4cd3c813afb78aa38, 86);
    lemma_generator_step(0x7c8647672078f3f4cd3c813afb78aa38, 0x92c0cf343ae063ad494fdfab6df42306, 87);
    lemma_generator_step(0x92c0cf343ae063ad494fdfab6df42306, 0x5574a07cca7cd737aca6f91a6abde544, 88);
    lemma_generator_step(0x5574a07cca7cd737aca6f91a6abde544, 0xbbada747894bc3dd879287c869f885c3, 89);
    lemma_generator_step(0xbbada747894bc3dd879287c869f885c3, 0x386db41096f62a8af50e0632f2a35f5b, 90);
    lemma_generator_step(0x386db41096f62a8af50e0632f2a35f5b, 0xefdb4540536482251843656b2ea8f397, 91);
    lemma_generator_step(0xefdb4540536482251843656b2ea8f397, 0x864204566cee644df1c52011971b40b3, 92);
    lemma_generator_step(0x864204566cee644df1c52011971b40b3, 0x9f65220d0c78fc67048e86e374780c55, 93);
    lemma_generator_step(0x9f65220d0c78fc67048e86e374780c55, 0x6c3124a15e087d323caadfab02ea679d, 94);
    lemma_generator_step(0x6c3124a15e087d323caadfab02ea679d, 0x40e2dfc1450698cadca8758ed620dd7b, 95);
    lemma_generator_step(0x40e2dfc1450698cadca8758ed620dd7b, 0x217bea750913f0db29e30e4d37b882a1, 96);
    lemma_generator_step(0x217bea750913f0db29e30e4d37b882a1, 0x18cc9c758f82f3a62452c0f06b2d5154, 97);
    lemma_generator_step(0x18cc9c758f82f3a62452c0f06b2d5154, 0xa2f988953ebab6d6ff4fc66638b9c77c, 98);
    lemma_generator_step(0xa2f988953ebab6d6ff4fc66638b9c77c, 0x8b621a33b1f55be1b5cf3dbe01503955, 99);
    lemma_generator_step(0x8b621a33b1f55be1b5cf3dbe01503955, 0xa6403e49a18fdcec5bad32ffd131adf1, 100);
    lemma_generator_step(0xa6403e49a18fdcec5bad32ffd131adf1, 0xc7213453b5a004318da7ee035acac1d8, 101);
    lemma_generator_step(0xc7213453b5a004318da7ee035acac1d8, 0xfab85890c72cf5bd42908c445873de98, 102);
    lemma_generator_step(0xfab85890c72cf5bd42908c445873de98, 0x18fb3bc896b15739aba9209e72802626, 103);
    lemma_generator_step(0x18fb3bc896b15739aba9209e72802626, 0xe2ae4c18bc72d0b5584b1b8ff9fdbe53, 104);
    lemma_generator_step(0xe2ae4c18bc72d0b5584b1b8ff9fdbe53, 0xbf7fe7e158f5e6b627fbbc64727757a3, 105);
    lemma_generator_step(0xbf7fe7e158f5e6b627fbbc64727757a3, 0x74349545e390b89fc3ef36c9b75a0400, 106);
    lemma_generator_step(0x74349545e390b89fc3ef36c9b75a0400, 0xb377c7044aeb289debaf56677af1691d, 107);
    lemma_generator_step(0xb377c7044aeb289debaf56677af1691d, 0xdd4a597abff1c6d46b3da5829a07e0f, 108);
    lemma_generator_step(0xdd4a597abff1c6d46b3da5829a07e0f, 0x390a7a5685925c88fb31442bbbee4562, 109);
    lemma_generator_step(0x390a7a5685925c88fb31442bbbee4562, 0xef0226d7d8c4f9088d931140ce80f4ca, 110);
    lemma_generator_step(0xef0226d7d8c4f9088d931140ce80f4ca, 0xc77a431b17442dc246bdf85b5f5764d5, 111);
    lemma_generator_step(0xc77a431b17442dc246bdf85b5f5764d5, 0xaaf58d8527dbb51e9cb66967210ef752, 112);
    lemma_generator_step(0xaaf58d8527dbb51e9cb66967210ef752, 0xbea766c2fd57dce012c3142c06e2acc1, 113);
    lemma_generator_step(0xbea766c2fd57dce012c3142c06e2acc1, 0x718b86e46755b667022ba9c65acbed68, 114);
    lemma_generator_step(0x718b86e46755b667022ba9c65acbed68, 0xeba2e73f8e06f46e77a7af910537779d, 115);
    lemma_generator_step(0xeba2e73f8e06f46e77a7af910537779d, 0x9a6d9a22e2bcf10bebbd0f52366f13ac, 116);
    lemma_generator_step(0x9a6d9a22e2bcf10bebbd0f52366f13ac, 0x30930047648b0f33ab2b66ce2a82776c, 117);
    lemma_generator_step(0x30930047648b0f33ab2b66ce2a82776c, 0xdf6441de141c2ab56015a35f3e3c8cc5, 118);
    lemma_generator_step(0xdf6441de141c2ab56015a35f3e3c8cc5, 0x821656934ab0df98a24abe27faf17b9, 119);
    lemma_generator_step(0x821656934ab0df98a24abe27faf17b9, 0x6186189d20b819418606bb0e28094f06, 120);
    lemma_generator_step(0x6186189d20b819418606bb0e28094f06, 0x2cb2ca78e3a46e6118637a81b61a75a5, 121);
    lemma_generator_step(0x2cb2ca78e3a46e6118637a81b61a75a5, 0x34d34d3086928aeaebacd53e52b72998, 122);
    lemma_generator_step(0x34d34d3086928aeaebacd53e52b72998, 0xc71c71c308249e75db490028e7b6cf92, 123);
    lemma_generator_step(0xc71c71c308249e75db490028e7b6cf92, 0xebaebefbebaeb6db75d751453cf3b6ac, 124);
    lemma_generator_step(0xebaebefbebaeb6db75d751453cf3b6ac, 0x9a69a69a618618618a28a28a1451455a, 125);
    lemma_generator_step(0x9a69a69a618618618a28a28a1451455a, 0x24924924924924926db6db6db6db6da4, 126);
    lemma_generator_step(0x24924924924924926db6db6db6db6da4, 0x2, 127);
}

proof fn lemma_monomial_order(n: nat)
    requires
        n < 128,
    ensures
        square_n(1u128 << (n as u128), 128) == 1u128 << (n as u128),
    decreases n,
{
    if n == 0 {
        assert(1u128 << 0u128 == 1) by (bit_vector);
        lemma_square_n_one(128);
    } else {
        let m = (n - 1) as nat;
        lemma_monomial_order(m);
        lemma_xpow_one(m);
        lemma_xpow_one(n);
        let v = 1u128 << (m as u128);
        lemma_fmul_generator(v);
        lemma_square_n_mul(2, v, 128);
        lemma_generator_order();
    }
}

proof fn lemma_square_n_one(k: nat)
    ensures
        square_n(1, k) == 1,
        square_n(0, k) == 0,
    decreases k,
{
    lemma_fmul_unit(1);
    lemma_fmul_unit(0);
    if k > 0 {
        lemma_square_n_one((k - 1) as nat);
    }
}

proof fn lemma_order_low(a: u128, n: nat)
    requires
        n <= 128,
    ensures
        square_n(low_bits(a, n), 128) == low_bits(a, n),
    decreases n,
{
    lemma_square_n_one(128);
    if n == 0 {
        lemma_low_bits_step(a, 0);
    } else {
        let m = (n - 1) as nat;
        lemma_order_low(a, m);
        lemma_low_bits_step(a, m);
        lemma_monomial_order(m);
        let q = if bit_at(a, m as u128) {
            1u128 << (m as u128)
        } else {
            0
        };
        lemma_square_n_mul(low_bits(a, m), q, 128);
    }
}

/// Every element is its own `2^128`-th power.
pub proof fn lemma_field_order(a: u128)
    ensures
        square_n(a, 128) == a,
{
    lemma_order_low(a, 128);
}

/// The product of `a^(2^i)` over `1 <= i <= k`.
pub open spec fn conjugate_product(a: u128, k: nat) -> u128
    decreases k,
{
    if k == 0 {
        1
    } else {
        fmul(conjugate_product(a, (k - 1) as nat), square_n(a, k))
    }
}

proof fn lemma_conjugates(a: u128, k: nat)
    ensures
        fmul(a, fmul(a, conjugate_product(a, k))) == square_n(a, k + 1),
        fmul(fmul(a, conjugate_product(a, k)), fmul(a, conjugate_product(a, k))) == conjugate_product(
            a,
            k + 1,
        ),
    decreases k,
{
    let p = conjugate_product(a, k);
    if k == 0 {
        lemma_fmul_unit(a);
        lemma_fmul_unit(1);
        assert(square_n(a, 0) == a);
        assert(square_n(a, 1) == fmul(a, a));
        assert(conjugate_product(a, 0) == 1);
        assert(conjugate_product(a, 1) == fmul(1, square_n(a, 1)));
        lemma_fmul_unit(fmul(a, a));
    } else {
        let m = (k - 1) as nat;
        lemma_conjugates(a, m);
        let q = conjugate_product(a, m);
        let s = square_n(a, k);
        // a * (a * (q * s)) = (a * (a * q)) * s = s * s
        lemma_fmul_assoc(a, q, s);
        lemma_fmul_assoc(a, fmul(a, q), s);
        // (a q s)^2 = (a q)^2 s^2
        lemma_fmul_swap(fmul(a, q), s, fmul(a, q), s);
        assert(square_n(a, k + 1) == fmul(s, s));
    }
}

/// A nonzero element times the product of its other conjugates is one.
pub proof fn lemma_inverse(a: u128)
    requires
        a != 0,
    ensures
        fmul(a, conjugate_product(a, 127)) == 1,
{
    let p = conjugate_product(a, 127);
    let w = fmul(a, p);
    lemma_conjugates(a, 127);
    lemma_field_order(a);
    assert(conjugate_product(a, 128) == fmul(p, square_n(a, 128)));
    lemma_fmul_comm(p, a);
    lemma_idempotent(w);
    lemma_fmul_unit(a);
}

/// One element of `GF(2^128)`.
#[derive(Clone, Copy, Debug, PartialEq, Eq, Structural)]
pub struct F128 {
    pub bits: u128,
}

/// A product is zero only where a factor is.
pub proof fn lemma_no_zero_divisors(a: u128, b: u128)
    requires
        a != 0,
    ensures
        fmul(a, b) == 0 <==> b == 0,
{
    lemma_inverse(a);
    let r = conjugate_product(a, 127);
    lemma_fmul_comm(a, r);
    lemma_fmul_assoc(r, a, b);
    lemma_fmul_unit(b);
    lemma_fmul_unit(r);
    lemma_fmul_unit(a);
}

impl View for F128 {
    type V = u128;

    open spec fn view(&self) -> u128 {
        self.bits
    }
}

impl F128 {
    /// The element with low coefficient word `lo` and high word `hi`.
    pub fn new(lo: u64, hi: u64) -> (r: F128)
        ensures
            r@ == (lo as u128) | ((hi as u128) << 64),
    {
        F128 { bits: (lo as u128) | ((hi as u128) << 64) }
    }

    pub fn zero() -> (r: F128)
        ensures
            r@ == 0,
    {
        F128 { bits: 0 }
    }

    pub fn one() -> (r: F128)
        ensures
            r@ == 1,
    {
        F128 { bits: 1 }
    }

    /// The field bit of `value`.
    pub fn from_bool(value: bool) -> (r: F128)
        ensures
            r@ == bit_of(value),
    {
        if value {
            F128 { bits: 1 }
        } else {
            F128 { bits: 0 }
        }
    }

    pub fn plus(self, other: F128) -> (r: F128)
        ensures
            r@ == self@ ^ other@,
    {
        F128 { bits: self.bits ^ other.bits }
    }

    pub fn times(self, other: F128) -> (r: F128)
        ensures
            r@ == fmul(self@, other@),
    {
        let mut acc: u128 = 0;
        let mut power: u128 = self.bits;
        let mut i: u32 = 0;
        while i < 128
            invariant
                i <= 128,
                acc == partial_mul(self@, other@, i as nat),
                power == xpow(self@, i as nat),
            decreases 128 - i,
        {
            proof {
                lemma_xor(acc, 0, 0);
            }
            if (other.bits >> (i as u128)) & 1 == 1 {
                acc = acc ^ power;
            }
            let fold: u128 = if (power >> 127) == 1 {
                0x87
            } else {
                0
            };
            power = (power << 1) ^ fold;
            i = i + 1;
        }
        proof {
            reveal(fmul);
        }
        F128 { bits: acc }
    }

    /// The multiplicative inverse of a nonzero element, and zero for zero.
    pub fn inv(self) -> (r: F128)
        ensures
            self@ != 0 ==> fmul(self@, r@) == 1,
            self@ == 0 ==> r@ == 0,
    {
        if self.bits == 0 {
            return F128 { bits: 0 };
        }
        let mut power: F128 = self;
        let mut acc: F128 = F128 { bits: 1 };
        let mut i: u32 = 0;
        while i < 127
            invariant
                i <= 127,
                power@ == square_n(self@, i as nat),
                acc@ == conjugate_product(self@, i as nat),
            decreases 127 - i,
        {
            power = power.times(power);
            acc = acc.times(power);
            i = i + 1;
        }
        proof {
            lemma_inverse(self@);
        }
        acc
    }
}

} // verus!
