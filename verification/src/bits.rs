//! Little-endian bit vectors of field values and the integers they spell.
use crate::basis::FlatBasis;
use crate::circuit::{LinExpr, Wire};
use crate::field::{bit_at, bit_of, fmul, is_bit, low_bits, lemma_fmul_unit, lemma_low_bits_step, lemma_xor};
use vstd::arithmetic::power2::{lemma_pow2_adds, lemma_pow2_pos, lemma_pow2_unfold, pow2};
use vstd::prelude::*;

verus! {

/// Every entry is a field bit.
pub open spec fn all_bits(vals: Seq<u128>) -> bool {
    forall|i: int| 0 <= i < vals.len() ==> is_bit(#[trigger] vals[i])
}

/// The integer spelled by a little-endian bit vector.
pub open spec fn bits_nat(vals: Seq<u128>) -> nat
    decreases vals.len(),
{
    if vals.len() == 0 {
        0
    } else {
        bits_nat(vals.drop_last()) + if vals.last() == 1 {
            pow2((vals.len() - 1) as nat)
        } else {
            0
        }
    }
}

/// The values of a list of wires.
pub open spec fn wires_at(ws: Seq<Wire>, z: spec_fn(int) -> u128) -> Seq<u128> {
    Seq::new(ws.len(), |i: int| z(ws[i].index as int))
}

/// The values of a list of expressions.
pub open spec fn exprs_at(es: Seq<LinExpr>, z: spec_fn(int) -> u128) -> Seq<u128> {
    Seq::new(es.len(), |i: int| es[i].at(z))
}

/// All wires of a list are below `n`.
pub open spec fn wires_bounded(ws: Seq<Wire>, n: nat) -> bool {
    forall|i: int| 0 <= i < ws.len() ==> (#[trigger] ws[i]).index < n
}

/// All expressions of a list only read wires below `n`.
pub open spec fn exprs_bounded(es: Seq<LinExpr>, n: nat) -> bool {
    forall|i: int| 0 <= i < es.len() ==> (#[trigger] es[i]).bound() <= n
}

/// The field sum that places each entry at one power of two.
pub open spec fn packed_at(basis: FlatBasis, vals: Seq<u128>, shift: nat) -> u128
    decreases vals.len(),
{
    if vals.len() == 0 {
        0
    } else {
        packed_at(basis, vals.drop_last(), shift) ^ fmul(
            vals.last(),
            basis.flat(1u128 << ((vals.len() - 1 + shift) as u128)),
        )
    }
}

/// The bits of an integer, as field values.
pub open spec fn int_bits(v: u128, n: nat) -> Seq<u128> {
    Seq::new(n, |i: int| bit_of(bit_at(v, i as u128)))
}

pub proof fn lemma_shl_pow2(k: nat)
    requires
        k < 128,
    ensures
        1u128 << (k as u128) == pow2(k),
        pow2(k) <= u128::MAX,
    decreases k,
{
    if k == 0 {
        assert(1u128 << 0u128 == 1) by (bit_vector);
        vstd::arithmetic::power2::lemma2_to64();
    } else {
        lemma_shl_pow2((k - 1) as nat);
        let i = (k - 1) as u128;
        let j = k as u128;
        assert(1u128 << j == 2 * (1u128 << i)) by (bit_vector)
            requires
                i < 127,
                j == i + 1,
        ;
        lemma_pow2_unfold(k);
    }
}

pub proof fn lemma_pow2_128()
    ensures
        pow2(128) == u128::MAX + 1,
{
    lemma_shl_pow2(127);
    assert(1u128 << 127u128 == 0x8000_0000_0000_0000_0000_0000_0000_0000u128) by (bit_vector);
    lemma_pow2_unfold(128);
}

pub proof fn lemma_bits_bound(vals: Seq<u128>)
    ensures
        bits_nat(vals) < pow2(vals.len()),
    decreases vals.len(),
{
    if vals.len() == 0 {
        lemma_pow2_pos(0);
    } else {
        lemma_bits_bound(vals.drop_last());
        lemma_pow2_unfold(vals.len());
    }
}

pub proof fn lemma_bits_push(vals: Seq<u128>, b: u128)
    ensures
        bits_nat(vals.push(b)) == bits_nat(vals) + if b == 1 {
            pow2(vals.len())
        } else {
            0
        },
{
    assert(vals.push(b).drop_last() =~= vals);
}

/// The lowest bit counts once and the others twice.
pub proof fn lemma_bits_first(vals: Seq<u128>)
    requires
        vals.len() > 0,
    ensures
        bits_nat(vals) == 2 * bits_nat(vals.skip(1)) + if vals[0] == 1 {
            1nat
        } else {
            0
        },
    decreases vals.len(),
{
    if vals.len() == 1 {
        assert(vals.drop_last() =~= Seq::empty());
        assert(vals.skip(1) =~= Seq::empty());
        assert(bits_nat(Seq::<u128>::empty()) == 0);
        vstd::arithmetic::power2::lemma2_to64();
    } else {
        let rest = vals.drop_last();
        lemma_bits_first(rest);
        assert(vals.skip(1).drop_last() =~= rest.skip(1));
        lemma_pow2_unfold((vals.len() - 1) as nat);
    }
}

/// Bit vectors of one length that spell one integer are equal.
pub proof fn lemma_bits_injective(x: Seq<u128>, y: Seq<u128>)
    requires
        all_bits(x),
        all_bits(y),
        x.len() == y.len(),
        bits_nat(x) == bits_nat(y),
    ensures
        x == y,
    decreases x.len(),
{
    if x.len() > 0 {
        lemma_bits_bound(x.drop_last());
        lemma_bits_bound(y.drop_last());
        assert(is_bit(x[x.len() - 1]));
        assert(is_bit(y[y.len() - 1]));
        assert(x.last() == y.last());
        assert(all_bits(x.drop_last())) by {
            assert forall|i: int| 0 <= i < x.drop_last().len() implies is_bit(
                #[trigger] x.drop_last()[i],
            ) by {
                assert(is_bit(x[i]));
            }
        }
        assert(all_bits(y.drop_last())) by {
            assert forall|i: int| 0 <= i < y.drop_last().len() implies is_bit(
                #[trigger] y.drop_last()[i],
            ) by {
                assert(is_bit(y[i]));
            }
        }
        lemma_bits_injective(x.drop_last(), y.drop_last());
        assert(x =~= x.drop_last().push(x.last()));
        assert(y =~= y.drop_last().push(y.last()));
    } else {
        assert(x =~= y);
    }
}

/// The bits of an integer spell its low part.
pub proof fn lemma_int_bits(v: u128, n: nat)
    requires
        n <= 128,
    ensures
        all_bits(int_bits(v, n)),
        bits_nat(int_bits(v, n)) == low_bits(v, n),
        low_bits(v, n) < pow2(n),
        low_bits(v, n) <= v,
        v < pow2(n) <==> low_bits(v, n) == v,
    decreases n,
{
    let s = int_bits(v, n);
    assert forall|i: int| 0 <= i < s.len() implies is_bit(#[trigger] s[i]) by {}
    if n == 0 {
        lemma_low_bits_step(v, 0);
        vstd::arithmetic::power2::lemma2_to64();
    } else {
        let m = (n - 1) as nat;
        lemma_int_bits(v, m);
        lemma_low_bits_step(v, m);
        lemma_shl_pow2(m);
        lemma_pow2_unfold(n);
        assert(s.drop_last() =~= int_bits(v, m));
        let a = low_bits(v, m);
        let i = m as u128;
        assert(a ^ (1u128 << i) == a + (1u128 << i)) by (bit_vector)
            requires
                i < 128,
                a < (1u128 << i),
        ;
        lemma_xor(a, 0, 0);
        if n < 128 {
            let j = n as u128;
            assert((v & !(0xffff_ffff_ffff_ffff_ffff_ffff_ffff_ffffu128 << j)) <= v) by (bit_vector);
            lemma_shl_pow2(n);
            assert(v < (1u128 << j) ==> (v & !(0xffff_ffff_ffff_ffff_ffff_ffff_ffff_ffffu128 << j))
                == v) by (bit_vector)
                requires
                    j < 128,
            ;
        } else {
            lemma_pow2_128();
        }
    }
}

/// Packing bits is writing the integer they spell, moved up by the shift.
pub proof fn lemma_packed(basis: FlatBasis, vals: Seq<u128>, shift: nat)
    requires
        basis.wf(),
        all_bits(vals),
        vals.len() + shift <= 128,
    ensures
        bits_nat(vals) * pow2(shift) <= u128::MAX,
        bits_nat(vals) * pow2(shift) < pow2(vals.len() + shift),
        packed_at(basis, vals, shift) == basis.flat((bits_nat(vals) * pow2(shift)) as u128),
    decreases vals.len(),
{
    lemma_bits_bound(vals);
    lemma_pow2_adds(vals.len(), shift);
    lemma_pow2_pos(shift);
    assert(bits_nat(vals) * pow2(shift) < pow2(vals.len()) * pow2(shift)) by (nonlinear_arith)
        requires
            bits_nat(vals) < pow2(vals.len()),
            pow2(shift) > 0,
    ;
    lemma_pow2_128();
    if vals.len() + shift < 128 {
        vstd::arithmetic::power2::lemma_pow2_strictly_increases(vals.len() + shift, 128);
    }
    if vals.len() == 0 {
        assert(bits_nat(vals) * pow2(shift) == 0) by (nonlinear_arith)
            requires
                bits_nat(vals) == 0,
        ;
        basis.lemma_linear(0, 0);
    } else {
        let rest = vals.drop_last();
        assert(all_bits(rest)) by {
            assert forall|i: int| 0 <= i < rest.len() implies is_bit(#[trigger] rest[i]) by {
                assert(is_bit(vals[i]));
            }
        }
        lemma_packed(basis, rest, shift);
        assert(is_bit(vals[vals.len() - 1]));
        let k = (vals.len() - 1 + shift) as nat;
        lemma_shl_pow2(k);
        lemma_pow2_adds((vals.len() - 1) as nat, shift);
        let a = (bits_nat(rest) * pow2(shift)) as u128;
        let i = k as u128;
        assert(a ^ (1u128 << i) == a + (1u128 << i)) by (bit_vector)
            requires
                i < 128,
                a < (1u128 << i),
        ;
        basis.lemma_linear(a, 1u128 << i);
        lemma_fmul_unit(basis.flat(1u128 << i));
        lemma_xor(basis.flat(a), 0, 0);
        if vals.last() == 1 {
            assert((bits_nat(rest) + pow2((vals.len() - 1) as nat)) * pow2(shift) == bits_nat(rest)
                * pow2(shift) + pow2((vals.len() - 1) as nat) * pow2(shift)) by (nonlinear_arith);
        }
    }
}

pub proof fn lemma_packed_push(basis: FlatBasis, vals: Seq<u128>, b: u128, shift: nat)
    ensures
        packed_at(basis, vals.push(b), shift) == packed_at(basis, vals, shift) ^ fmul(
            b,
            basis.flat(1u128 << ((vals.len() + shift) as u128)),
        ),
{
    assert(vals.push(b).drop_last() =~= vals);
}

/// A bit vector spells its low part plus its shifted high part.
pub proof fn lemma_bits_split(vals: Seq<u128>, k: nat)
    requires
        k <= vals.len(),
    ensures
        bits_nat(vals) == bits_nat(vals.take(k as int)) + pow2(k) * bits_nat(vals.skip(k as int)),
    decreases vals.len(),
{
    if k == vals.len() {
        assert(vals.take(k as int) =~= vals);
        assert(vals.skip(k as int) =~= Seq::empty());
        assert(pow2(k) * 0 == 0);
    } else {
        let rest = vals.drop_last();
        lemma_bits_split(rest, k);
        assert(rest.take(k as int) =~= vals.take(k as int));
        assert(vals.skip(k as int).drop_last() =~= rest.skip(k as int));
        assert(vals.skip(k as int).last() == vals.last());
        let h = bits_nat(rest.skip(k as int));
        let top = pow2((vals.len() - 1 - k) as nat);
        lemma_pow2_adds(k, (vals.len() - 1 - k) as nat);
        assert(pow2(k) * (h + top) == pow2(k) * h + pow2(k) * top) by (nonlinear_arith);
    }
}

/// Reading a run of bits is a division and a remainder.
pub proof fn lemma_bits_field(vals: Seq<u128>, from: nat, to: nat)
    requires
        from <= to <= vals.len(),
    ensures
        bits_nat(vals.subrange(from as int, to as int)) == (bits_nat(vals) / pow2(from)) % pow2(
            (to - from) as nat,
        ),
{
    let high = vals.skip(from as int);
    let width = (to - from) as nat;
    lemma_bits_split(vals, from);
    lemma_bits_split(high, width);
    assert(high.take(width as int) =~= vals.subrange(from as int, to as int));
    lemma_bits_bound(vals.take(from as int));
    lemma_bits_bound(high.take(width as int));
    lemma_pow2_pos(from);
    lemma_pow2_pos(width);
    let x = bits_nat(vals) as int;
    let lo = bits_nat(vals.take(from as int)) as int;
    let h = bits_nat(high) as int;
    vstd::arithmetic::div_mod::lemma_fundamental_div_mod_converse(x, pow2(from) as int, h, lo);
    let m = bits_nat(high.take(width as int)) as int;
    let t = bits_nat(high.skip(width as int)) as int;
    vstd::arithmetic::div_mod::lemma_fundamental_div_mod_converse(h, pow2(width) as int, t, m);
}

/// The entry `k` is one and every other entry is zero.
pub open spec fn one_hot(vals: Seq<u128>, k: int) -> bool {
    &&& 0 <= k < vals.len()
    &&& forall|i: int| 0 <= i < vals.len() ==> #[trigger] vals[i] == bit_of(i == k)
}

/// The field inner product.
pub open spec fn dot(x: Seq<u128>, y: Seq<u128>) -> u128
    decreases x.len(),
{
    if x.len() == 0 {
        0
    } else {
        dot(x.drop_last(), y.drop_last()) ^ fmul(x.last(), y.last())
    }
}

/// Selecting by a one-hot vector picks one entry.
pub proof fn lemma_dot_one_hot(x: Seq<u128>, y: Seq<u128>, k: int)
    requires
        x.len() == y.len(),
        forall|i: int| 0 <= i < x.len() ==> #[trigger] x[i] == bit_of(i == k),
    ensures
        dot(x, y) == if 0 <= k < x.len() {
            y[k]
        } else {
            0
        },
    decreases x.len(),
{
    if x.len() > 0 {
        let n = x.len() - 1;
        assert forall|i: int| 0 <= i < n implies #[trigger] x.drop_last()[i] == bit_of(i == k) by {
            assert(x[i] == bit_of(i == k));
        }
        lemma_dot_one_hot(x.drop_last(), y.drop_last(), k);
        assert(x[n] == bit_of(n == k));
        lemma_fmul_unit(y.last());
        lemma_xor(y.last(), 0, 0);
        lemma_xor(0, 0, 0);
        if 0 <= k < n {
            lemma_xor(y[k], 0, 0);
        }
    }
}

} // verus!
