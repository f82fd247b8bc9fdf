//! The stateless development-allocation schedule as a circuit.
//!
//! While the allocation is active each block reserves two twentieths of its
//! reward. The reserve is paid out once per day of blocks; the miner keeps the
//! rest.
use crate::bits::{
    all_bits, bits_nat, exprs_at, exprs_bounded, int_bits, one_hot, wires_at, wires_bounded,
};
use crate::bits::{lemma_int_bits, lemma_packed};
use crate::circuit::{group_agree, FieldR1csBuilder, LinExpr, Wire};
use crate::field::{bit_of, low_bits, F128};
use crate::field::{lemma_fmul_unit, lemma_low_bits_step, lemma_xor};
use crate::trace::{
    all_zero, constant_bits, int_at, integer_add_no_overflow, lemma_bit_ops, lemma_exprs_kept,
    lemma_wires_kept, less_than_bits, mux, pack_bits, pin_eq, pin_lt_strict, range_check_bits,
    refines, wire_exprs,
};
use crate::circuit::{
    const_form, form_add, form_add_const, form_scale, forms, wire_forms, wires_from, LinForm, Shape,
};
use crate::trace::{
    add_step, all_zero_step, borrow_step, constant_forms, mul_step, mux_step, pack_form, pin_eq_step,
    pin_lt_step, range_step,
};
use vstd::arithmetic::power2::{lemma_pow2_adds, lemma_pow2_pos, pow2};
use vstd::prelude::*;

verus! {

broadcast use group_agree;

pub const HEIGHT_BITS: usize = 64;

pub const TARGET_BLOCKS_PER_DAY: u64 = 4320;

/// The state depth of a block: its value and one selector per depth.
pub struct StateDepthTrace {
    pub value: LinExpr,
    pub one_hot: Vec<LinExpr>,
}

/// Allocates a wire that carries an integer.
pub fn alloc_block(b: &mut FieldR1csBuilder, value: u128) -> (r: LinExpr)
    requires
        old(b).wf(),
    ensures
        refines(*final(b), *old(b)),
        r.bound() <= final(b).wires(),
        final(b).wires() == old(b).wires() + 1,
        r.at(final(b).witness()) == old(b).flat_basis().flat(value),
        int_at(*old(b), r@, final(b).witness()) == value,
        forall|z: spec_fn(int) -> u128| #[trigger] final(b).holds(z) <==> old(b).holds(z),
        forall|z: spec_fn(int) -> u128| #[trigger] r.at(z) == z(old(b).wires() as int),
        final(b).honest() <==> old(b).honest(),
        r@ == old(b).shape().next(),
        final(b).shape() == old(b).shape().free(),
{
    let flat = b.basis().to_flat(value);
    let w = b.alloc_f128(flat);
    proof {
        old(b).lemma_basis_wf();
        old(b).flat_basis().lemma_inverse(value);
    }
    LinExpr::from_wire(w)
}

/// A constant integer as an expression.
pub fn const_block(b: &FieldR1csBuilder, value: u128) -> (r: LinExpr)
    requires
        b.wf(),
    ensures
        r.bound() == 0,
        forall|z: spec_fn(int) -> u128| #[trigger] r.at(z) == b.flat_basis().flat(value),
        forall|z: spec_fn(int) -> u128| #[trigger] int_at(*b, r@, z) == value,
        r@ == const_form(b.flat_basis().flat(value)),
{
    let r = LinExpr::constant(b.basis().to_flat(value));
    assert forall|z: spec_fn(int) -> u128| #[trigger] int_at(*b, r@, z) == value by {
        b.lemma_basis_wf();
        b.flat_basis().lemma_inverse(value);
        assert(r.at(z) == b.flat_basis().flat(value));
    }
    r
}

/// The bits, moved up by `shift`, as one integer.
pub fn shifted_integer_from_bits(b: &FieldR1csBuilder, bits: &[Wire], shift: usize) -> (r: LinExpr)
    requires
        b.wf(),
        bits@.len() + shift <= 64,
        wires_bounded(bits@, b.wires()),
    ensures
        r.bound() <= b.wires(),
        forall|z: spec_fn(int) -> u128| #[trigger]
            all_bits(wires_at(bits@, z)) ==> int_at(*b, r@, z) == bits_nat(wires_at(bits@, z))
                * pow2(shift as nat),
        r@ == pack_form(b.flat_basis().flat_fn(), wire_forms(bits@), shift as nat, bits@.len()),
{
    let r = pack_bits(b, bits, shift);
    assert forall|z: spec_fn(int) -> u128| #[trigger]
        all_bits(wires_at(bits@, z)) implies int_at(*b, r@, z) == bits_nat(wires_at(bits@, z))
        * pow2(shift as nat) by {
        b.lemma_basis_wf();
        lemma_packed(b.flat_basis(), wires_at(bits@, z), shift as nat);
        assert(r.at(z) == b.flat_basis().flat(
            (bits_nat(wires_at(bits@, z)) * pow2(shift as nat)) as u128,
        ));
        b.flat_basis().lemma_inverse((bits_nat(wires_at(bits@, z)) * pow2(shift as nat)) as u128);
    }
    r
}

/// The form of the entry of a table that the first `n` selectors choose.
#[verifier::opaque]
pub open spec fn table_form(
    flat: spec_fn(u128) -> u128,
    selectors: Seq<LinForm>,
    values: Seq<u64>,
    n: nat,
) -> LinForm
    decreases n,
{
    if n == 0 {
        const_form(0)
    } else {
        form_add(
            table_form(flat, selectors, values, (n - 1) as nat),
            form_scale(selectors[n - 1], flat(values[n - 1] as u128)),
        )
    }
}

/// The constant of the selected depth.
pub fn selected_depth_constant(
    b: &FieldR1csBuilder,
    selectors: &[LinExpr],
    values: &[u64],
) -> (r: LinExpr)
    requires
        b.wf(),
        selectors@.len() == values@.len(),
        exprs_bounded(selectors@, b.wires()),
    ensures
        r.bound() <= b.wires(),
        forall|z: spec_fn(int) -> u128, d: int|
            #![trigger one_hot(exprs_at(selectors@, z), d), r.at(z)]
            one_hot(exprs_at(selectors@, z), d) ==> r.at(z) == b.flat_basis().flat(
                values@[d] as u128,
            ),
        r@ == table_form(b.flat_basis().flat_fn(), forms(selectors@), values@, selectors@.len()),
{
    reveal(table_form);
    let mut sum = LinExpr::zero();
    let mut i: usize = 0;
    while i < selectors.len()
        invariant
            i <= selectors@.len(),
            b.wf(),
            selectors@.len() == values@.len(),
            exprs_bounded(selectors@, b.wires()),
            sum.bound() <= b.wires(),
            forall|z: spec_fn(int) -> u128, d: int|
                #![trigger one_hot(exprs_at(selectors@, z), d), sum.at(z)]
                one_hot(exprs_at(selectors@, z), d) ==> sum.at(z) == if d < i {
                    b.flat_basis().flat(values@[d] as u128)
                } else {
                    0
                },
            sum@ == table_form(b.flat_basis().flat_fn(), forms(selectors@), values@, i as nat),
        decreases selectors@.len() - i,
    {
        reveal(table_form);
        assert(selectors@[i as int].bound() <= b.wires());
        let weight = b.basis().to_flat(values[i] as u128);
        let ghost sum0 = sum;
        let term = selectors[i].scale(weight);
        sum = sum.add(&term);
        proof {
            assert forall|z: spec_fn(int) -> u128, d: int|
                #![trigger one_hot(exprs_at(selectors@, z), d), sum.at(z)]
                one_hot(exprs_at(selectors@, z), d) implies sum.at(z) == if d < i + 1 {
                b.flat_basis().flat(values@[d] as u128)
            } else {
                0
            } by {
                assert(sum0.at(z) == if d < i {
                    b.flat_basis().flat(values@[d] as u128)
                } else {
                    0
                });
                assert(exprs_at(selectors@, z)[i as int] == bit_of(i == d));
                lemma_fmul_unit(weight@);
                lemma_xor(weight@, 0, 0);
                lemma_xor(sum0.at(z), 0, 0);
            }
        }
        i = i + 1;
    }
    sum
}

/// The sum of the powers of two at the first `n` listed shifts.
pub open spec fn shift_sum(shifts: Seq<usize>, n: nat) -> nat
    decreases n,
{
    if n == 0 {
        0
    } else {
        shift_sum(shifts, (n - 1) as nat) + pow2(shifts[n - 1] as nat)
    }
}

proof fn lemma_shift_sum_prefix(x: Seq<usize>, y: Seq<usize>, n: nat)
    requires
        n <= x.len(),
        n <= y.len(),
        forall|k: int| 0 <= k < n ==> x[k] == y[k],
    ensures
        shift_sum(x, n) == shift_sum(y, n),
    decreases n,
{
    if n > 0 {
        lemma_shift_sum_prefix(x, y, (n - 1) as nat);
    }
}

proof fn lemma_shift_sum_mono(x: Seq<usize>, m: nat, n: nat)
    requires
        m <= n <= x.len(),
    ensures
        shift_sum(x, m) <= shift_sum(x, n),
    decreases n - m,
{
    if m < n {
        lemma_shift_sum_mono(x, m, (n - 1) as nat);
    }
}

/// The set bits of an interval from bit `i` on, highest first.
pub open spec fn shifts_from(interval: u64, i: nat) -> Seq<usize>
    decreases 64 - i,
{
    if i >= 64 {
        Seq::empty()
    } else if (interval as u128 >> (i as u128)) & 1 == 1 {
        shifts_from(interval, i + 1).push(i as usize)
    } else {
        shifts_from(interval, i + 1)
    }
}

/// The set bits of an interval, highest first.
pub fn set_shifts(interval: u64) -> (shifts: Vec<usize>)
    requires
        interval > 0,
    ensures
        shifts@.len() > 0,
        shift_sum(shifts@, shifts@.len()) == interval,
        forall|k: int| 0 <= k < shifts@.len() ==> (#[trigger] shifts@[k]) <= shifts@[0] < 64,
        pow2(shifts@[0] as nat) <= interval < pow2(shifts@[0] as nat + 1),
        shifts@ == shifts_from(interval, 0),
{
    let wide = interval as u128;
    let mut shifts: Vec<usize> = Vec::new();
    let mut i: usize = 64;
    proof {
        vstd::arithmetic::power2::lemma2_to64();
        vstd::arithmetic::power2::lemma2_to64_rest();
        lemma_int_bits(wide, 64);
    }
    while i > 0
        invariant
            i <= 64,
            wide == interval as u128,
            shift_sum(shifts@, shifts@.len()) + low_bits(wide, i as nat) == wide,
            shifts@.len() == 0 ==> low_bits(wide, i as nat) == wide,
            forall|k: int|
                0 <= k < shifts@.len() ==> i <= (#[trigger] shifts@[k]) <= shifts@[0] < 64,
            shifts@.len() > 0 ==> pow2(shifts@[0] as nat) <= interval < pow2(shifts@[0] as nat + 1),
            shifts@ == shifts_from(interval, i as nat),
        decreases i,
    {
        i = i - 1;
        proof {
            lemma_low_bits_step(wide, i as nat);
            lemma_int_bits(wide, i as nat);
            lemma_int_bits(wide, (i + 1) as nat);
            assert(int_bits(wide, (i + 1) as nat).drop_last() =~= int_bits(wide, i as nat));
        }
        if (wide >> (i as u128)) & 1 == 1 {
            let ghost old_shifts = shifts@;
            shifts.push(i);
            proof {
                lemma_shift_sum_prefix(old_shifts, shifts@, old_shifts.len());
                assert(int_bits(wide, (i + 1) as nat).last() == 1);
                assert(low_bits(wide, (i + 1) as nat) == low_bits(wide, i as nat) + pow2(
                    i as nat,
                ));
            }
        } else {
            proof {
                assert(int_bits(wide, (i + 1) as nat).last() == 0);
            }
        }
    }
    proof {
        lemma_int_bits(wide, 0);
        vstd::arithmetic::power2::lemma2_to64();
    }
    shifts
}

/// The rows that add the products of a quotient with the first `k` bits of an
/// interval, and their sum.
#[verifier::opaque]
pub open spec fn product_step(s: Shape, quotient: Seq<LinForm>, shifts: Seq<usize>, k: nat) -> (
    Shape,
    LinForm,
)
    decreases k,
{
    if k <= 1 {
        (s, pack_form(s.flat, quotient, shifts[0] as nat, quotient.len()))
    } else {
        let (t, sum) = product_step(s, quotient, shifts, (k - 1) as nat);
        let term = pack_form(s.flat, quotient, shifts[k - 1] as nat, quotient.len());
        add_step(t, sum, term, 64)
    }
}

/// The rows of a division by an interval, and whether nothing remains.
#[verifier::opaque]
pub open spec fn boundary_step(s: Shape, height: LinForm, interval: u64) -> (Shape, LinForm) {
    let shifts = shifts_from(interval, 0);
    let top = shifts[0] as nat;
    let s1 = s.free();
    let quotient = wire_forms(wires_from(s1.n(), (64 - top) as nat));
    let s2 = range_step(s1, s.next(), (64 - top) as nat);
    let s3 = s2.free();
    let remainder = wire_forms(wires_from(s3.n(), top + 1));
    let s4 = range_step(s3, s2.next(), top + 1);
    let divisor = wire_forms(wires_from(s4.n(), top + 1));
    let s5 = range_step(s4, const_form((s.flat)(interval as u128)), top + 1);
    let s6 = pin_lt_step(s5, remainder, divisor);
    let (s7, product) = product_step(s6, quotient, shifts, shifts.len());
    let (s8, whole) = add_step(s7, product, s2.next(), 64);
    let s9 = pin_eq_step(s8, height, whole);
    all_zero_step(s9, remainder, top + 1)
}

/// One exactly when the integer in `height` is a multiple of `interval`. The
/// quotient and remainder are recomposed in integer arithmetic.
pub fn payout_boundary_for(
    b: &mut FieldR1csBuilder,
    height: &LinExpr,
    native_height: u64,
    interval: u64,
) -> (r: LinExpr)
    requires
        old(b).wf(),
        interval > 0,
        height.bound() <= old(b).wires(),
    ensures
        refines(*final(b), *old(b)),
        r.bound() <= final(b).wires(),
        forall|z: spec_fn(int) -> u128| #[trigger]
            final(b).holds(z) && old(b).live(z) ==> r.at(z) == bit_of(
                int_at(*old(b), height@, z) % interval as nat == 0,
            ),
        old(b).live(old(b).witness()) && native_height == int_at(
            *old(b),
            height@,
            old(b).witness(),
        ) ==> (final(b).honest() <==> old(b).honest()),
        boundary_step(old(b).shape(), height@, interval) == (final(b).shape(), r@),
{
    reveal(product_step);
    reveal(boundary_step);
    let ghost before = *b;
    let ghost t = b.flat_basis();
    let shifts = set_shifts(interval);
    let top = shifts[0];
    proof {
        b.lemma_basis_wf();
        assert(shifts@[0] <= shifts@[0] < 64);
    }
    let quotient = alloc_block(b, (native_height / interval) as u128);
    let ghost b1 = *b;
    let quotient_bits = range_check_bits(b, &quotient, HEIGHT_BITS - top);
    let ghost b2 = *b;
    let remainder = alloc_block(b, (native_height % interval) as u128);
    let ghost b3 = *b;
    let remainder_bits = range_check_bits(b, &remainder, top + 1);
    let ghost b4 = *b;
    let divisor = const_block(b, interval as u128);
    let divisor_bits = range_check_bits(b, &divisor, top + 1);
    let ghost b5 = *b;
    proof {
        assert forall|k: int| 0 <= k < remainder_bits@.len() implies (#[trigger] remainder_bits@[k]).index
            < b5.wires() by {
            assert(remainder_bits@[k].index < b4.wires());
        }
        assert forall|z: spec_fn(int) -> u128| #[trigger] b5.holds(z) implies all_bits(
            wires_at(remainder_bits@, z),
        ) && all_bits(wires_at(divisor_bits@, z)) by {
            assert(b4.holds(z));
        }
    }
    pin_lt_strict(b, remainder_bits.as_slice(), divisor_bits.as_slice());
    let ghost b6 = *b;
    proof {
        assert forall|k: int| 0 <= k < quotient_bits@.len() implies (#[trigger] quotient_bits@[k]).index
            < b6.wires() by {
            assert(quotient_bits@[k].index < b2.wires());
        }
        lemma_wires_kept(b6, b2, quotient_bits@);
    }
    let ghost w = before.witness();
    let ghost good = before.live(w) && native_height == int_at(before, height@, w);
    let ghost quot = |z: spec_fn(int) -> u128| bits_nat(wires_at(quotient_bits@, z));
    proof {
        vstd::arithmetic::power2::lemma2_to64();
        vstd::arithmetic::power2::lemma2_to64_rest();
        assert forall|z: spec_fn(int) -> u128| #[trigger] b6.holds(z) && before.live(z) implies {
            &&& all_bits(wires_at(quotient_bits@, z))
            &&& all_bits(wires_at(remainder_bits@, z))
            &&& int_at(before, quotient@, z) == quot(z)
            &&& int_at(before, remainder@, z) == bits_nat(wires_at(remainder_bits@, z))
            &&& int_at(before, remainder@, z) < interval
        } by {
            assert(b5.holds(z) && b4.holds(z) && b3.holds(z) && b2.holds(z) && b1.holds(z));
            assert(b1.live(z) && b3.live(z) && b4.live(z) && b5.live(z));
            assert(int_at(b4, divisor@, z) == interval);
        }
        if before.live(w) {
            lemma_quotient_fits(native_height as nat, interval as nat, top as nat);
            assert(b1.live(b1.witness()) && b3.live(b3.witness()) && b4.live(b4.witness())
                && b5.live(b5.witness()));
            assert(int_at(b1, quotient@, b1.witness()) == native_height / interval);
            assert(b2.honest() <==> before.honest());
            assert(int_at(b3, remainder@, b3.witness()) == native_height % interval);
            assert(b4.honest() <==> before.honest());
            assert(int_at(b4, divisor@, b4.witness()) == interval);
            assert(b5.honest() <==> before.honest());
            lemma_wires_kept(b5, b4, remainder_bits@);
            lemma_int_bits((native_height % interval) as u128, (top + 1) as nat);
            lemma_int_bits(interval as u128, (top + 1) as nat);
            assert(bits_nat(wires_at(remainder_bits@, b5.witness())) == native_height % interval);
            assert(bits_nat(wires_at(divisor_bits@, b5.witness())) == interval);
            assert(b6.honest() <==> before.honest());
        }
    }
    let ghost shape0 = b.shape();
    let mut product = shifted_integer_from_bits(b, quotient_bits.as_slice(), top);
    let mut k: usize = 1;
    proof {
        assert(shift_sum(shifts@, 1) == shift_sum(shifts@, 0) + pow2(shifts@[0] as nat));
        assert forall|z: spec_fn(int) -> u128| #[trigger]
            b6.holds(z) && before.live(z) implies int_at(before, product@, z) == quot(z) * shift_sum(
            shifts@,
            1,
        ) by {
            assert(all_bits(wires_at(quotient_bits@, z)));
        }
    }
    while k < shifts.len()
        invariant
            1 <= k <= shifts@.len(),
            interval > 0,
            pow2(64) == 0x1_0000_0000_0000_0000,
            before.wf(),
            b6.wf(),
            t == before.flat_basis(),
            w == before.witness(),
            refines(b6, before),
            refines(*b, b6),
            top == shifts@[0],
            quotient_bits@.len() == 64 - top,
            wires_bounded(quotient_bits@, b6.wires()),
            forall|j: int| 0 <= j < shifts@.len() ==> (#[trigger] shifts@[j]) <= shifts@[0] < 64,
            shift_sum(shifts@, shifts@.len()) == interval,
            product.bound() <= b.wires(),
            quot == (|z: spec_fn(int) -> u128| bits_nat(wires_at(quotient_bits@, z))),
            forall|z: spec_fn(int) -> u128| #[trigger]
                b6.holds(z) && before.live(z) ==> all_bits(wires_at(quotient_bits@, z)),
            forall|z: spec_fn(int) -> u128| #[trigger]
                b.holds(z) && before.live(z) ==> int_at(before, product@, z) == quot(z) * shift_sum(
                    shifts@,
                    k as nat,
                ),
            good ==> before.live(w),
            good ==> (b.honest() <==> before.honest()),
            good && before.honest() ==> quot(b6.witness()) == native_height / interval,
            product_step(shape0, wire_forms(quotient_bits@), shifts@, k as nat) == (b.shape(), product@),
            shape0.flat == b.flat_basis().flat_fn(),
        decreases shifts@.len() - k,
    {
        reveal(product_step);
        let ghost start = *b;
        let ghost product0 = product@;
        let shift = shifts[k];
        assert(shifts@[k as int] <= shifts@[0]);
        proof {
            assert forall|j: int| 0 <= j < quotient_bits@.len() implies (#[trigger] quotient_bits@[j]).index
                < start.wires() by {
                assert(quotient_bits@[j].index < b6.wires());
            }
        }
        let term = shifted_integer_from_bits(b, quotient_bits.as_slice(), shift);
        product = integer_add_no_overflow(b, &product, &term, HEIGHT_BITS);
        proof {
            let sum = shift_sum(shifts@, k as nat);
            assert(shift_sum(shifts@, (k + 1) as nat) == sum + pow2(shift as nat));
            assert forall|z: spec_fn(int) -> u128|
                #[trigger] quot(z) * sum + quot(z) * pow2(shift as nat) == quot(z) * (sum + pow2(
                    shift as nat,
                )) by {
                assert(quot(z) * sum + quot(z) * pow2(shift as nat) == quot(z) * (sum + pow2(
                    shift as nat,
                ))) by (nonlinear_arith);
            }
            assert forall|z: spec_fn(int) -> u128| #[trigger]
                b.holds(z) && before.live(z) implies int_at(before, product@, z) == quot(z)
                * shift_sum(shifts@, (k + 1) as nat) by {
                assert(start.holds(z) && b6.holds(z));
                assert(start.live(z));
                assert(all_bits(wires_at(quotient_bits@, z)));
                assert(int_at(start, product@, z) == int_at(start, product0, z) + int_at(
                    start,
                    term@,
                    z,
                ));
            }
            if good && before.honest() {
                let v = start.witness();
                assert(start.honest());
                assert(start.holds(v) && b6.holds(v) && before.live(v));
                assert(all_bits(wires_at(quotient_bits@, v)));
                lemma_wires_kept(start, b6, quotient_bits@);
                assert(quot(v) == quot(b6.witness()));
                lemma_shift_sum_mono(shifts@, (k + 1) as nat, shifts@.len());
                lemma_partial_product(
                    native_height as nat,
                    interval as nat,
                    shift_sum(shifts@, (k + 1) as nat),
                );
                assert(int_at(start, product0, v) + int_at(start, term@, v) < pow2(64));
            }
        }
        k = k + 1;
    }
    let ghost b7 = *b;
    let recomposed = integer_add_no_overflow(b, &product, &remainder, HEIGHT_BITS);
    let ghost b8 = *b;
    pin_eq(b, height, &recomposed);
    let ghost b9 = *b;
    proof {
        if good && before.honest() {
            let v = b7.witness();
            assert(b7.honest());
            assert(b7.holds(v) && b6.holds(v) && before.live(v));
            lemma_wires_kept(b7, b6, quotient_bits@);
            lemma_partial_product(native_height as nat, interval as nat, interval as nat);
            vstd::arithmetic::div_mod::lemma_fundamental_div_mod(
                native_height as int,
                interval as int,
            );
            assert(remainder.at(v) == remainder.at(b3.witness()));
            assert(quot(v) * interval + native_height % interval == native_height);
            assert(b8.honest());
            let u = b8.witness();
            assert(b8.holds(u) && b7.holds(u) && b7.live(u) && before.live(u));
            assert(height.at(u) == height.at(w));
            assert(product.at(u) == product.at(v));
            assert(remainder.at(u) == remainder.at(v));
            assert(int_at(before, recomposed@, u) == native_height);
            t.lemma_inverse(height.at(u));
            t.lemma_inverse(recomposed.at(u));
            assert(b9.honest());
        }
        if good && b9.honest() {
            assert(b8.honest() && b7.honest() && b6.honest() && before.honest());
        }
    }
    let remainder_exprs = wire_exprs(remainder_bits.as_slice());
    proof {
        assert(wires_bounded(remainder_bits@, b4.wires()));
        assert forall|k: int| 0 <= k < remainder_exprs@.len() implies (#[trigger] remainder_exprs@[k]).bound()
            <= b9.wires() by {
            assert(exprs_bounded(remainder_exprs@, b4.wires()));
        }
    }
    let r = all_zero(b, remainder_exprs.as_slice());
    proof {
        assert forall|z: spec_fn(int) -> u128| #[trigger]
            b.holds(z) && before.live(z) implies r.at(z) == bit_of(
            int_at(before, height@, z) % interval as nat == 0,
        ) by {
            assert(b9.holds(z) && b8.holds(z) && b7.holds(z) && b6.holds(z));
            assert(b6.live(z) && b7.live(z) && b8.live(z));
            assert(exprs_at(remainder_exprs@, z) == wires_at(remainder_bits@, z));
            let q = quot(z);
            let m = int_at(before, remainder@, z);
            assert(int_at(before, height@, z) == int_at(before, recomposed@, z));
            assert(int_at(before, height@, z) == q * interval + m);
            vstd::arithmetic::div_mod::lemma_fundamental_div_mod_converse(
                int_at(before, height@, z) as int,
                interval as int,
                q as int,
                m as int,
            );
        }
    }
    r
}

proof fn lemma_quotient_fits(v: nat, interval: nat, top: nat)
    requires
        v < pow2(64),
        top < 64,
        pow2(top) <= interval < pow2(top + 1),
    ensures
        v / interval < pow2((64 - top) as nat),
        v % interval < pow2(top + 1),
        v % interval < interval,
{
    lemma_pow2_pos(top);
    lemma_pow2_adds((64 - top) as nat, top);
    let q = v / interval;
    vstd::arithmetic::div_mod::lemma_fundamental_div_mod(v as int, interval as int);
    if q >= pow2((64 - top) as nat) {
        assert(q * interval >= pow2((64 - top) as nat) * pow2(top)) by (nonlinear_arith)
            requires
                q >= pow2((64 - top) as nat),
                interval >= pow2(top),
        ;
        assert(interval * q == q * interval) by (nonlinear_arith);
    }
    vstd::arithmetic::div_mod::lemma_mod_bound(v as int, interval as int);
}

proof fn lemma_partial_product(v: nat, interval: nat, part: nat)
    requires
        0 < interval,
        part <= interval,
    ensures
        (v / interval) * part <= v,
        (v / interval) * interval == interval * (v / interval),
{
    vstd::arithmetic::div_mod::lemma_fundamental_div_mod(v as int, interval as int);
    let q = v / interval;
    assert(q * part <= q * interval) by (nonlinear_arith)
        requires
            part <= interval,
    ;
    assert(q * interval == interval * q) by (nonlinear_arith);
}

/// The reward of each state depth and the last height of the allocation.
pub struct AllocationSchedule {
    pub rewards: Vec<u64>,
    pub end_height: u64,
}

impl AllocationSchedule {
    /// Every amount of the schedule is a 64-bit integer.
    pub open spec fn wf(&self) -> bool {
        &&& self.end_height < u64::MAX
        &&& forall|i: int|
            0 <= i < self.rewards@.len() ==> share(#[trigger] self.rewards@[i] as nat)
                * TARGET_BLOCKS_PER_DAY <= u64::MAX
    }
}

/// The allocation runs from height one to its last height.
pub open spec fn is_active(height: nat, end_height: nat) -> bool {
    1 <= height <= end_height
}

/// A payout falls on every full day of blocks while the allocation runs.
pub open spec fn is_payout_height(height: nat, end_height: nat) -> bool {
    is_active(height, end_height) && height % TARGET_BLOCKS_PER_DAY as nat == 0
}

/// One twentieth of the reward, rounded down.
pub open spec fn share(reward: nat) -> nat {
    reward / 20
}

/// What the miner keeps.
pub open spec fn miner_part(reward: nat, active: bool) -> nat {
    if active {
        (reward - 2 * share(reward)) as nat
    } else {
        reward
    }
}

/// Nothing of a reward is lost or made: the miner's part and two shares are the
/// whole reward while the allocation runs, and the miner keeps it all otherwise.
pub proof fn lemma_reward_split(reward: nat, active: bool)
    ensures
        miner_part(reward, active) + (if active {
            2 * share(reward)
        } else {
            0
        }) == reward,
{
}

/// The schedule outputs of one block.
pub struct DevelopmentAllocationTrace {
    /// The bits of the block height, lowest first.
    pub height_bits: Vec<Wire>,
    pub active: LinExpr,
    pub payout_due: LinExpr,
    pub share_each: LinExpr,
    pub miner_subsidy: LinExpr,
    pub payout_each: LinExpr,
}

/// What an allocation trace reads.
pub struct AllocationForms {
    pub height_bits: Seq<Wire>,
    pub v2_active: LinForm,
    pub active: LinForm,
    pub payout_due: LinForm,
    pub share_each: LinForm,
    pub miner_subsidy: LinForm,
    pub payout_each: LinForm,
}

impl DevelopmentAllocationTrace {
    /// What the trace reads.
    pub open spec fn forms(&self) -> AllocationForms {
        AllocationForms {
            height_bits: self.height_bits@,
            v2_active: const_form(0),
            active: self.active@,
            payout_due: self.payout_due@,
            share_each: self.share_each@,
            miner_subsidy: self.miner_subsidy@,
            payout_each: self.payout_each@,
        }
    }

    pub open spec fn bounded(&self, n: nat) -> bool {
        &&& self.height_bits@.len() == 64
        &&& wires_bounded(self.height_bits@, n)
        &&& self.active.bound() <= n
        &&& self.payout_due.bound() <= n
        &&& self.share_each.bound() <= n
        &&& self.miner_subsidy.bound() <= n
        &&& self.payout_each.bound() <= n
    }

    /// The outputs are those of the schedule at a height and a reward.
    pub open spec fn matches_schedule(
        &self,
        b: FieldR1csBuilder,
        z: spec_fn(int) -> u128,
        height: nat,
        reward: nat,
        end_height: nat,
    ) -> bool {
        let active = is_active(height, end_height);
        let due = is_payout_height(height, end_height);
        &&& all_bits(wires_at(self.height_bits@, z))
        &&& bits_nat(wires_at(self.height_bits@, z)) == height
        &&& self.active.at(z) == bit_of(active)
        &&& self.payout_due.at(z) == bit_of(due)
        &&& int_at(b, self.share_each@, z) == if active {
            share(reward)
        } else {
            0
        }
        &&& int_at(b, self.miner_subsidy@, z) == miner_part(reward, active)
        &&& int_at(b, self.payout_each@, z) == if due {
            share(reward) * TARGET_BLOCKS_PER_DAY as nat
        } else {
            0
        }
    }
}

/// The per-depth share, daily payout and miner amounts.
fn amount_tables(rewards: &Vec<u64>) -> (r: (Vec<u64>, Vec<u64>, Vec<u64>))
    requires
        forall|i: int|
            0 <= i < rewards@.len() ==> share(#[trigger] rewards@[i] as nat)
                * TARGET_BLOCKS_PER_DAY <= u64::MAX,
    ensures
        r.0@.len() == rewards@.len(),
        r.1@.len() == rewards@.len(),
        r.2@.len() == rewards@.len(),
        forall|i: int| 0 <= i < rewards@.len() ==> #[trigger] r.0@[i] == share(rewards@[i] as nat),
        forall|i: int|
            0 <= i < rewards@.len() ==> #[trigger] r.1@[i] == share(rewards@[i] as nat)
                * TARGET_BLOCKS_PER_DAY,
        forall|i: int|
            0 <= i < rewards@.len() ==> #[trigger] r.2@[i] == miner_part(rewards@[i] as nat, true),
        r.0@ == rewards@.map_values(|reward: u64| share(reward as nat) as u64),
        r.1@ == rewards@.map_values(
            |reward: u64| (share(reward as nat) * TARGET_BLOCKS_PER_DAY) as u64,
        ),
        r.2@ == rewards@.map_values(|reward: u64| miner_part(reward as nat, true) as u64),
{
    let mut shares: Vec<u64> = Vec::new();
    let mut payouts: Vec<u64> = Vec::new();
    let mut miner: Vec<u64> = Vec::new();
    let mut i: usize = 0;
    while i < rewards.len()
        invariant
            i <= rewards@.len(),
            shares@.len() == i,
            payouts@.len() == i,
            miner@.len() == i,
            forall|k: int|
                0 <= k < rewards@.len() ==> share(#[trigger] rewards@[k] as nat)
                    * TARGET_BLOCKS_PER_DAY <= u64::MAX,
            forall|k: int| 0 <= k < i ==> #[trigger] shares@[k] == share(rewards@[k] as nat),
            forall|k: int|
                0 <= k < i ==> #[trigger] payouts@[k] == share(rewards@[k] as nat)
                    * TARGET_BLOCKS_PER_DAY,
            forall|k: int|
                0 <= k < i ==> #[trigger] miner@[k] == miner_part(rewards@[k] as nat, true),
        decreases rewards@.len() - i,
    {
        let reward = rewards[i];
        let part: u64 = reward / 20;
        assert(share(rewards@[i as int] as nat) * TARGET_BLOCKS_PER_DAY <= u64::MAX);
        shares.push(part);
        payouts.push(part * TARGET_BLOCKS_PER_DAY);
        miner.push(reward - 2 * part);
        i = i + 1;
    }
    assert(shares@ =~= rewards@.map_values(|reward: u64| share(reward as nat) as u64));
    assert(payouts@ =~= rewards@.map_values(
        |reward: u64| (share(reward as nat) * TARGET_BLOCKS_PER_DAY) as u64,
    ));
    assert(miner@ =~= rewards@.map_values(|reward: u64| miner_part(reward as nat, true) as u64));
    (shares, payouts, miner)
}

/// The rows of the allocation, and what its trace reads. The height, the depth
/// and the amounts enter as forms only: no row depends on their values.
#[verifier::opaque]
pub open spec fn allocation_step(
    s: Shape,
    height: LinForm,
    depth: Seq<LinForm>,
    raw: LinForm,
    schedule: AllocationSchedule,
) -> (Shape, AllocationForms) {
    let rewards = schedule.rewards@;
    let bits = wires_from(s.n(), 64);
    let s1 = range_step(s, height, 64);
    let bound = constant_forms((schedule.end_height + 1) as u64, 64);
    let (s2, below) = borrow_step(s1, wire_forms(bits), bound, 64);
    let (s3, zero) = all_zero_step(s2, wire_forms(bits), 64);
    let (s4, active) = mul_step(s3, below, form_add_const(zero, 1));
    let (s5, boundary) = boundary_step(s4, height, TARGET_BLOCKS_PER_DAY);
    let (s6, payout_due) = mul_step(s5, active, boundary);
    let full = table_form(s.flat, depth, rewards, depth.len());
    let share_each = table_form(
        s.flat,
        depth,
        rewards.map_values(|reward: u64| share(reward as nat) as u64),
        depth.len(),
    );
    let daily = table_form(
        s.flat,
        depth,
        rewards.map_values(|reward: u64| (share(reward as nat) * TARGET_BLOCKS_PER_DAY) as u64),
        depth.len(),
    );
    let reduced = table_form(
        s.flat,
        depth,
        rewards.map_values(|reward: u64| miner_part(reward as nat, true) as u64),
        depth.len(),
    );
    let (s7, miner_subsidy) = mux_step(s6, active, reduced, full);
    let (s8, current) = mul_step(s7, active, share_each);
    let (s9, expected) = mul_step(s8, payout_due, daily);
    let (s10, selected) = mul_step(s9, payout_due, raw);
    (
        pin_eq_step(s10, selected, expected),
        AllocationForms {
            height_bits: bits,
            v2_active: const_form(0),
            active,
            payout_due,
            share_each: current,
            miner_subsidy,
            payout_each: expected,
        },
    )
}

/// Binds the miner share and the daily development payout of one block. The
/// raw amount is constrained only at a payout height.
pub fn bind_development_allocation(
    b: &mut FieldR1csBuilder,
    child_height: &LinExpr,
    child_depth: &StateDepthTrace,
    payout_raw_amount: &LinExpr,
    schedule: &AllocationSchedule,
) -> (r: DevelopmentAllocationTrace)
    requires
        old(b).wf(),
        schedule.wf(),
        child_depth.one_hot@.len() == schedule.rewards@.len(),
        exprs_bounded(child_depth.one_hot@, old(b).wires()),
        child_height.bound() <= old(b).wires(),
        payout_raw_amount.bound() <= old(b).wires(),
        int_at(*old(b), child_height@, old(b).witness()) < pow2(64),
    ensures
        refines(*final(b), *old(b)),
        r.bounded(final(b).wires()),
        forall|z: spec_fn(int) -> u128, d: int|
            #![trigger final(b).holds(z), one_hot(exprs_at(child_depth.one_hot@, z), d)]
            final(b).holds(z) && old(b).live(z) && one_hot(exprs_at(child_depth.one_hot@, z), d)
                ==> {
                let height = int_at(*old(b), child_height@, z);
                let reward = schedule.rewards@[d] as nat;
                let end = schedule.end_height as nat;
                &&& height < pow2(64)
                &&& r.matches_schedule(*old(b), z, height, reward, end)
                &&& is_payout_height(height, end) ==> int_at(*old(b), payout_raw_amount@, z)
                    == share(reward) * TARGET_BLOCKS_PER_DAY as nat
            },
        forall|d: int|
            old(b).live(old(b).witness()) && #[trigger] one_hot(
                exprs_at(child_depth.one_hot@, old(b).witness()),
                d,
            ) ==> (final(b).honest() <==> old(b).honest() && (is_payout_height(
                int_at(*old(b), child_height@, old(b).witness()),
                schedule.end_height as nat,
            ) ==> int_at(*old(b), payout_raw_amount@, old(b).witness()) == share(
                schedule.rewards@[d] as nat,
            ) * TARGET_BLOCKS_PER_DAY as nat)),
        allocation_step(
            old(b).shape(),
            child_height@,
            forms(child_depth.one_hot@),
            payout_raw_amount@,
            *schedule,
        ) == (final(b).shape(), r.forms()),
{
    reveal(allocation_step);
    let ghost before = *b;
    let ghost t = b.flat_basis();
    let ghost w = b.witness();
    let ghost sel = child_depth.one_hot@;
    let ghost end = schedule.end_height as nat;
    proof {
        b.lemma_basis_wf();
        vstd::arithmetic::power2::lemma2_to64();
        vstd::arithmetic::power2::lemma2_to64_rest();
    }
    let flat = b.value_of(child_height);
    let native_height: u64 = b.basis().to_tower(flat) as u64;
    let height_wires = range_check_bits(b, child_height, HEIGHT_BITS);
    let ghost b1 = *b;
    let height_bits = wire_exprs(height_wires.as_slice());
    proof {
        assert(wires_bounded(height_wires@, b1.wires()));
    }
    let bound_bits = constant_bits(schedule.end_height + 1, HEIGHT_BITS);
    let below_end = less_than_bits(b, height_bits.as_slice(), bound_bits.as_slice());
    let ghost b2 = *b;
    proof {
        lemma_exprs_mono(height_bits@, b1.wires(), b2.wires());
    }
    let height_is_zero = all_zero(b, height_bits.as_slice());
    let ghost b3 = *b;
    let nonzero = height_is_zero.add_const(F128::one());
    let active = crate::trace::mul(b, &below_end, &nonzero);
    let ghost b4 = *b;
    let interval_boundary = payout_boundary_for(
        b,
        child_height,
        native_height,
        TARGET_BLOCKS_PER_DAY,
    );
    let ghost b5 = *b;
    let payout_due = crate::trace::mul(b, &active, &interval_boundary);
    let ghost b6 = *b;
    proof {
        assert forall|z: spec_fn(int) -> u128| #[trigger] b6.holds(z) && before.live(z) implies {
            let h = int_at(before, child_height@, z);
            &&& h < pow2(64)
            &&& all_bits(wires_at(height_wires@, z))
            &&& bits_nat(wires_at(height_wires@, z)) == h
            &&& active.at(z) == bit_of(is_active(h, end))
            &&& payout_due.at(z) == bit_of(is_payout_height(h, end))
        } by {
            assert(b5.holds(z) && b4.holds(z) && b3.holds(z) && b2.holds(z) && b1.holds(z));
            assert(b4.live(z));
            let h = int_at(before, child_height@, z);
            assert(exprs_at(height_bits@, z) == wires_at(height_wires@, z));
            lemma_int_bits((end + 1) as u128, 64);
            assert(exprs_at(bound_bits@, z) == int_bits((schedule.end_height + 1) as u128, 64));
            assert(below_end.at(z) == bit_of(h < end + 1));
            assert(height_is_zero.at(z) == bit_of(h == 0));
            lemma_bit_ops(height_is_zero.at(z), 1);
            lemma_bit_ops(below_end.at(z), nonzero.at(z));
            assert(int_at(b4, child_height@, z) == h);
            lemma_bit_ops(active.at(z), interval_boundary.at(z));
        }
        if before.live(w) {
            assert(b1.honest() <==> before.honest());
            assert(child_height.at(b4.witness()) == child_height.at(w));
            assert(b6.honest() <==> before.honest());
        }
    }
    let (shares, daily_payouts, miner_active) = amount_tables(&schedule.rewards);
    proof {
        lemma_exprs_mono(sel, before.wires(), b6.wires());
    }
    let full_subsidy = selected_depth_constant(
        b,
        child_depth.one_hot.as_slice(),
        schedule.rewards.as_slice(),
    );
    let share_each = selected_depth_constant(b, child_depth.one_hot.as_slice(), shares.as_slice());
    let daily_payout_each = selected_depth_constant(
        b,
        child_depth.one_hot.as_slice(),
        daily_payouts.as_slice(),
    );
    let active_miner = selected_depth_constant(
        b,
        child_depth.one_hot.as_slice(),
        miner_active.as_slice(),
    );
    let miner_subsidy = mux(b, &active, &active_miner, &full_subsidy);
    let ghost b7 = *b;
    let current_share = crate::trace::mul(b, &active, &share_each);
    let ghost b8 = *b;
    let expected_payout = crate::trace::mul(b, &payout_due, &daily_payout_each);
    let ghost b9 = *b;
    let selected_payout = crate::trace::mul(b, &payout_due, payout_raw_amount);
    let ghost b10 = *b;
    pin_eq(b, &selected_payout, &expected_payout);
    let r = DevelopmentAllocationTrace {
        height_bits: height_wires,
        active,
        payout_due,
        share_each: current_share,
        miner_subsidy,
        payout_each: expected_payout,
    };
    proof {
        assert forall|z: spec_fn(int) -> u128, d: int|
            #![trigger b10.holds(z), one_hot(exprs_at(sel, z), d)]
            b10.holds(z) && before.live(z) && one_hot(exprs_at(sel, z), d) implies {
            let h = int_at(before, child_height@, z);
            let reward = schedule.rewards@[d] as nat;
            &&& h < pow2(64)
            &&& r.matches_schedule(before, z, h, reward, end)
            &&& selected_payout.at(z) == expected_payout.at(z) <==> (is_payout_height(h, end)
                ==> int_at(before, payout_raw_amount@, z) == share(reward)
                * TARGET_BLOCKS_PER_DAY as nat)
        } by {
            assert(b9.holds(z) && b8.holds(z) && b7.holds(z) && b6.holds(z));
            let h = int_at(before, child_height@, z);
            let reward = schedule.rewards@[d] as nat;
            assert(full_subsidy.at(z) == t.flat(reward as u128));
            assert(shares@[d] == share(reward));
            assert(share_each.at(z) == t.flat(share(reward) as u128));
            assert(daily_payouts@[d] == share(reward) * TARGET_BLOCKS_PER_DAY);
            assert(daily_payout_each.at(z) == t.flat(
                (share(reward) * TARGET_BLOCKS_PER_DAY) as u128,
            ));
            assert(miner_active@[d] == miner_part(reward, true));
            assert(active_miner.at(z) == t.flat(miner_part(reward, true) as u128));
            t.lemma_inverse(reward as u128);
            t.lemma_inverse(share(reward) as u128);
            t.lemma_inverse((share(reward) * TARGET_BLOCKS_PER_DAY) as u128);
            t.lemma_inverse(miner_part(reward, true) as u128);
            t.lemma_inverse(payout_raw_amount.at(z));
            t.lemma_linear(0, 0);
            lemma_fmul_unit(share_each.at(z));
            lemma_fmul_unit(daily_payout_each.at(z));
            lemma_fmul_unit(payout_raw_amount.at(z));
        }
        assert forall|d: int|
            before.live(w) && #[trigger] one_hot(exprs_at(sel, w), d) implies (b.honest()
            <==> before.honest() && (is_payout_height(int_at(before, child_height@, w), end)
            ==> int_at(before, payout_raw_amount@, w) == share(schedule.rewards@[d] as nat)
            * TARGET_BLOCKS_PER_DAY as nat)) by {
            let v = b10.witness();
            lemma_exprs_kept(b10, before, sel);
            assert(one_hot(exprs_at(sel, v), d));
            assert(child_height.at(v) == child_height.at(w));
            assert(payout_raw_amount.at(v) == payout_raw_amount.at(w));
            assert(b10.honest() <==> before.honest());
            if b10.honest() {
                assert(b10.holds(v) && before.live(v));
            }
        }
    }
    r
}

pub proof fn lemma_exprs_mono(es: Seq<LinExpr>, n: nat, m: nat)
    requires
        exprs_bounded(es, n),
        n <= m,
    ensures
        exprs_bounded(es, m),
{
    assert forall|i: int| 0 <= i < es.len() implies (#[trigger] es[i]).bound() <= m by {
        assert(es[i].bound() <= n);
    }
}

} // verus!
