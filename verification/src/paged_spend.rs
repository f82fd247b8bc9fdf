//! The paged-spend scanner as a circuit.
//!
//! Physical pages stay in body order. The scanner proves the partition of the
//! live pages into groups from a start page to an end page, the continuity of
//! every group, dense and minimal packing, and one checked balance per group.
//! The end records are then compacted into the prefix of live groups.
use crate::bits::{all_bits, bits_nat, exprs_at, exprs_bounded, wires_at, wires_bounded};
use crate::bits::{lemma_bits_bound, lemma_bits_push, lemma_int_bits, lemma_packed, lemma_pow2_128};
use crate::circuit::{agree, group_agree, FieldR1csBuilder, LinExpr, LinForm, Wire};
use crate::development_allocation::{alloc_block, const_block, lemma_exprs_mono};
use crate::dyadic::{checked_next_power_of_two, covers};
use crate::field::{bit_of, fmul, is_bit, F128};
use crate::field::{lemma_fmul_unit, lemma_xor};
use crate::integer_program::lemma_bit_int;
use crate::trace::{
    all_zero, int_at, integer_add_no_overflow, lemma_bit_ops, lemma_exprs_kept, lemma_wires_kept,
    lt_strict_expr, mux, pack_exprs, pin_eq, pin_lt_strict, pin_zero, range_check_bits, refines,
    wire_exprs,
};
use crate::circuit::{
    const_form, form_add, form_add_const, form_scale, forms, wire_forms, wires_from, Shape,
};
use crate::trace::{
    add_step, all_zero_step, lt_step, mul_step, mux_step, pack_form, pin_eq_step, pin_lt_step,
    pin_zero_step, range_step,
};
use vstd::arithmetic::power2::{lemma_pow2_unfold, pow2};
use vstd::prelude::*;

verus! {

broadcast use group_agree;

pub const COUNT_BITS: usize = 11;

pub const OUTPUT_COUNT_BITS: usize = 9;

pub const MONEY_BITS: usize = 74;

pub const PAGE_COUNT_BITS: usize = 8;

/// The integer an expression carries under the recorded witness.
pub fn tower_value(b: &FieldR1csBuilder, expression: &LinExpr) -> (r: u128)
    requires
        b.wf(),
        expression.bound() <= b.wires(),
    ensures
        r == int_at(*b, expression@, b.witness()),
{
    b.basis().to_tower(b.value_of(expression))
}

/// The truth value of a selector under the recorded witness.
pub fn native_bool(b: &FieldR1csBuilder, expression: &LinExpr) -> (r: bool)
    requires
        b.wf(),
        expression.bound() <= b.wires(),
        is_bit(expression.at(b.witness())),
    ensures
        expression.at(b.witness()) == bit_of(r),
{
    b.value_of(expression).bits == 1
}

/// The rows of a pin that a selector turns on.
#[verifier::opaque]
pub open spec fn pin_when_step(s: Shape, selector: LinForm, e: LinForm) -> Shape {
    let (t, violation) = mul_step(s, selector, e);
    pin_zero_step(t, violation)
}

/// Asserts that an expression is zero when a selector bit is one.
pub fn pin_when(b: &mut FieldR1csBuilder, selector: &LinExpr, expr: &LinExpr)
    requires
        old(b).wf(),
        selector.bound() <= old(b).wires(),
        expr.bound() <= old(b).wires(),
    ensures
        refines(*final(b), *old(b)),
        forall|z: spec_fn(int) -> u128| #[trigger]
            final(b).holds(z) && old(b).live(z) ==> (selector.at(z) == 1 ==> expr.at(z) == 0),
        old(b).live(old(b).witness()) && is_bit(selector.at(old(b).witness())) ==> (
        final(b).honest() <==> old(b).honest() && (selector.at(old(b).witness()) == 1 ==> expr.at(
            old(b).witness(),
        ) == 0)),
        final(b).shape() == pin_when_step(old(b).shape(), selector@, expr@),
{
    reveal(pin_when_step);
    let ghost before = *b;
    let violation = crate::trace::mul(b, selector, expr);
    let ghost mid = *b;
    pin_zero(b, &violation);
    proof {
        assert forall|z: spec_fn(int) -> u128| #[trigger]
            b.holds(z) && before.live(z) implies (selector.at(z) == 1 ==> expr.at(z) == 0) by {
            assert(mid.holds(z) && mid.live(z));
            lemma_fmul_unit(expr.at(z));
        }
        lemma_fmul_unit(expr.at(before.witness()));
    }
}

/// The rows of an increment of the first `n` bits: the carry and the sum.
#[verifier::opaque]
pub open spec fn increment_loop(s: Shape, bits: Seq<LinForm>, n: nat) -> (
    Shape,
    LinForm,
    Seq<LinForm>,
)
    decreases n,
{
    if n == 0 {
        (s, const_form(1), Seq::empty())
    } else {
        let (t, carry, sums) = increment_loop(s, bits, (n - 1) as nat);
        let (u, next) = mul_step(t, bits[n - 1], carry);
        (u, next, sums.push(form_add(bits[n - 1], carry)))
    }
}

/// The rows of an increment without overflow, and its result.
#[verifier::opaque]
pub open spec fn increment_step(s: Shape, bits: Seq<LinForm>) -> (Shape, LinForm) {
    let (t, carry, sums) = increment_loop(s, bits, bits.len());
    (pin_zero_step(t, carry), pack_form(s.flat, sums, 0, bits.len()))
}

/// The integer of the bits plus one; the carry out is zero.
pub fn increment_from_bits(b: &mut FieldR1csBuilder, bits: &[Wire]) -> (r: LinExpr)
    requires
        old(b).wf(),
        bits@.len() <= 128,
        wires_bounded(bits@, old(b).wires()),
        forall|z: spec_fn(int) -> u128| #[trigger]
            old(b).holds(z) ==> all_bits(wires_at(bits@, z)),
    ensures
        refines(*final(b), *old(b)),
        r.bound() <= final(b).wires(),
        forall|z: spec_fn(int) -> u128| #[trigger]
            final(b).holds(z) && old(b).live(z) ==> int_at(*old(b), r@, z) == bits_nat(
                wires_at(bits@, z),
            ) + 1,
        old(b).live(old(b).witness()) ==> (final(b).honest() <==> old(b).honest() && bits_nat(
            wires_at(bits@, old(b).witness()),
        ) + 1 < pow2(bits@.len())),
        increment_step(old(b).shape(), wire_forms(bits@)) == (final(b).shape(), r@),
{
    reveal(increment_loop);
    reveal(increment_step);
    let ghost entry = *b;
    assert(forms(Seq::<LinExpr>::empty()) =~= Seq::empty());
    let ghost before = *b;
    let mut carry = LinExpr::one();
    let mut sums: Vec<LinExpr> = Vec::new();
    let mut i: usize = 0;
    proof {
        vstd::arithmetic::power2::lemma2_to64();
        assert forall|z: spec_fn(int) -> u128| #[trigger] b.holds(z) implies {
            &&& bits_nat(exprs_at(sums@, z)) + pow2(0) == bits_nat(wires_at(bits@, z).take(0)) + 1
        } by {
            assert(exprs_at(sums@, z) =~= Seq::empty());
            assert(wires_at(bits@, z).take(0) =~= Seq::empty());
        }
    }
    while i < bits.len()
        invariant
            i <= bits@.len() <= 128,
            before.wf(),
            refines(*b, before),
            b.honest() <==> before.honest(),
            wires_bounded(bits@, before.wires()),
            carry.bound() <= b.wires(),
            sums@.len() == i,
            exprs_bounded(sums@, b.wires()),
            forall|z: spec_fn(int) -> u128| #[trigger]
                before.holds(z) ==> all_bits(wires_at(bits@, z)),
            forall|z: spec_fn(int) -> u128| #[trigger]
                b.holds(z) ==> {
                    &&& is_bit(carry.at(z))
                    &&& all_bits(exprs_at(sums@, z))
                    &&& bits_nat(exprs_at(sums@, z)) + (if carry.at(z) == 1 {
                        pow2(i as nat)
                    } else {
                        0
                    }) == bits_nat(wires_at(bits@, z).take(i as int)) + 1
                },
            increment_loop(entry.shape(), wire_forms(bits@), i as nat) == (
                b.shape(),
                carry@,
                forms(sums@),
            ),
        decreases bits@.len() - i,
    {
        reveal(increment_loop);
        let ghost start = *b;
        let ghost carry0 = carry@;
        let ghost sums0 = sums@;
        assert(bits@[i as int].index < before.wires());
        let value = LinExpr::from_wire(bits[i]);
        let next = value.add(&carry);
        carry = crate::trace::mul(b, &value, &carry);
        sums.push(next);
        proof {
            assert forall|z: spec_fn(int) -> u128| #[trigger] b.holds(z) implies {
                &&& is_bit(carry.at(z))
                &&& all_bits(exprs_at(sums@, z))
                &&& bits_nat(exprs_at(sums@, z)) + (if carry.at(z) == 1 {
                    pow2((i + 1) as nat)
                } else {
                    0
                }) == bits_nat(wires_at(bits@, z).take(i + 1)) + 1
            } by {
                assert(start.holds(z) && before.holds(z));
                let vals = wires_at(bits@, z);
                let x = vals[i as int];
                assert(is_bit(x));
                let c = carry0.at(z);
                lemma_bit_ops(x, c);
                assert(vals.take(i + 1) =~= vals.take(i as int).push(x));
                lemma_bits_push(vals.take(i as int), x);
                let s = exprs_at(sums0, z);
                assert(exprs_at(sums@, z) =~= s.push(x ^ c));
                lemma_bits_push(s, x ^ c);
                lemma_pow2_unfold((i + 1) as nat);
                assert forall|k: int| 0 <= k < exprs_at(sums@, z).len() implies is_bit(
                    #[trigger] exprs_at(sums@, z)[k],
                ) by {
                    if k < i {
                        assert(is_bit(s[k]));
                    }
                }
            }
        }
        i = i + 1;
    }
    let ghost added = *b;
    pin_zero(b, &carry);
    let r = pack_exprs(b, sums.as_slice(), 0);
    proof {
        vstd::arithmetic::power2::lemma2_to64();
        lemma_pow2_128();
        assert forall|z: spec_fn(int) -> u128| #[trigger] added.holds(z) implies {
            &&& carry.at(z) == 0 <==> bits_nat(wires_at(bits@, z)) + 1 < pow2(bits@.len())
            &&& carry.at(z) == 0 ==> int_at(before, r@, z) == bits_nat(wires_at(bits@, z)) + 1
        } by {
            let vals = wires_at(bits@, z);
            assert(vals.take(i as int) =~= vals);
            let s = exprs_at(sums@, z);
            lemma_bits_bound(s);
            before.lemma_basis_wf();
            lemma_packed(before.flat_basis(), s, 0);
            assert(bits_nat(s) * pow2(0) == bits_nat(s));
            assert(r.at(z) == before.flat_basis().flat(bits_nat(s) as u128));
            before.flat_basis().lemma_inverse(bits_nat(s) as u128);
        }
        lemma_wires_kept(added, before, bits@);
        assert(added.honest() ==> added.holds(added.witness()));
    }
    r
}

/// The rows of a running total, and the total.
#[verifier::opaque]
pub open spec fn rolling_step(
    s: Shape,
    previous: LinForm,
    current: LinForm,
    start: LinForm,
    live: LinForm,
    width: nat,
) -> (Shape, LinForm) {
    let (s1, continued) = add_step(s, previous, current, width);
    let (s2, grouped) = mux_step(s1, start, current, continued);
    mul_step(s2, live, grouped)
}

/// A running total: restarted at a start page, continued otherwise, and zero
/// on a dead page. The continued total never wraps.
pub fn rolling_sum(
    b: &mut FieldR1csBuilder,
    previous: &LinExpr,
    current: &LinExpr,
    start: &LinExpr,
    live: &LinExpr,
    width: usize,
) -> (r: LinExpr)
    requires
        old(b).wf(),
        1 <= width <= 128,
        previous.bound() <= old(b).wires(),
        current.bound() <= old(b).wires(),
        start.bound() <= old(b).wires(),
        live.bound() <= old(b).wires(),
    ensures
        refines(*final(b), *old(b)),
        r.bound() <= final(b).wires(),
        forall|z: spec_fn(int) -> u128| #[trigger]
            final(b).holds(z) && old(b).live(z) && is_bit(start.at(z)) && is_bit(live.at(z)) ==> {
                let p = int_at(*old(b), previous@, z);
                let c = int_at(*old(b), current@, z);
                &&& p + c < pow2(width as nat)
                &&& int_at(*old(b), r@, z) == rolled(p, c, start.at(z) == 1, live.at(z) == 1)
            },
        old(b).live(old(b).witness()) ==> (final(b).honest() <==> old(b).honest() && int_at(
            *old(b),
            previous@,
            old(b).witness(),
        ) + int_at(*old(b), current@, old(b).witness()) < pow2(width as nat)),
        rolling_step(old(b).shape(), previous@, current@, start@, live@, width as nat) == (
            final(b).shape(),
            r@,
        ),
{
    reveal(rolling_step);
    let ghost before = *b;
    let continued = integer_add_no_overflow(b, previous, current, width);
    let ghost b1 = *b;
    let grouped = mux(b, start, current, &continued);
    let ghost b2 = *b;
    let r = crate::trace::mul(b, live, &grouped);
    proof {
        assert forall|z: spec_fn(int) -> u128| #[trigger]
            b.holds(z) && before.live(z) && is_bit(start.at(z)) && is_bit(live.at(z)) implies {
            let p = int_at(before, previous@, z);
            let c = int_at(before, current@, z);
            &&& p + c < pow2(width as nat)
            &&& int_at(before, r@, z) == rolled(p, c, start.at(z) == 1, live.at(z) == 1)
        } by {
            assert(b2.holds(z) && b1.holds(z));
            assert(int_at(before, continued@, z) == int_at(before, previous@, z) + int_at(
                before,
                current@,
                z,
            ));
            lemma_fmul_unit(grouped.at(z));
            lemma_bit_int(before, 0);
            assert(r.at(z) == fmul(live.at(z), grouped.at(z)));
        }
    }
    r
}

/// The next value of a running total.
pub open spec fn rolled(previous: nat, current: nat, start: bool, live: bool) -> nat {
    if !live {
        0
    } else if start {
        current
    } else {
        previous + current
    }
}

/// No set bit follows a clear one.
pub open spec fn dense(vals: Seq<u128>) -> bool {
    forall|i: int| 0 <= i < vals.len() - 1 ==> (#[trigger] vals[i + 1] == 1 ==> vals[i] == 1)
}

/// The rows that forbid a set bit behind a clear one, for the first `n` pairs.
#[verifier::opaque]
pub open spec fn prefix_step(s: Shape, bits: Seq<LinForm>, n: nat) -> Shape
    decreases n,
{
    if n == 0 {
        s
    } else {
        pin_when_step(
            prefix_step(s, bits, (n - 1) as nat),
            bits[n as int],
            form_add_const(bits[n - 1], 1),
        )
    }
}

/// The pairs of neighbours in a list.
pub open spec fn pairs(n: nat) -> nat {
    if n == 0 {
        0
    } else {
        (n - 1) as nat
    }
}

/// Asserts that no set bit follows a clear one.
pub fn prefix_bits(b: &mut FieldR1csBuilder, bits: &[LinExpr])
    requires
        old(b).wf(),
        exprs_bounded(bits@, old(b).wires()),
    ensures
        refines(*final(b), *old(b)),
        forall|z: spec_fn(int) -> u128| #[trigger]
            final(b).holds(z) && old(b).live(z) && all_bits(exprs_at(bits@, z)) ==> dense(
                exprs_at(bits@, z),
            ),
        old(b).live(old(b).witness()) && all_bits(exprs_at(bits@, old(b).witness())) ==> (
        final(b).honest() <==> old(b).honest() && dense(exprs_at(bits@, old(b).witness()))),
        final(b).shape() == prefix_step(old(b).shape(), forms(bits@), pairs(bits@.len())),
{
    reveal(prefix_step);
    let ghost entry = *b;
    let ghost before = *b;
    let ghost w = b.witness();
    if bits.len() == 0 {
        return;
    }
    let mut i: usize = 0;
    while i < bits.len() - 1
        invariant
            i < bits@.len(),
            before.wf(),
            w == before.witness(),
            refines(*b, before),
            exprs_bounded(bits@, before.wires()),
            forall|z: spec_fn(int) -> u128, k: int|
                #![trigger b.holds(z), bits@[k + 1]]
                b.holds(z) && before.live(z) && all_bits(exprs_at(bits@, z)) && 0 <= k < i ==> (
                bits@[k + 1].at(z) == 1 ==> bits@[k].at(z) == 1),
            before.live(w) && all_bits(exprs_at(bits@, w)) ==> (b.honest() <==> before.honest() && (
            forall|k: int|
                0 <= k < i ==> ((#[trigger] bits@[k + 1]).at(w) == 1 ==> bits@[k].at(w) == 1))),
            b.shape() == prefix_step(entry.shape(), forms(bits@), i as nat),
        decreases bits@.len() - i,
    {
        reveal(prefix_step);
        let ghost start = *b;
        assert(bits@[i as int].bound() <= before.wires() && bits@[i + 1].bound() <= before.wires());
        let absent = bits[i].add_const(F128::one());
        pin_when(b, &bits[i + 1], &absent);
        proof {
            assert forall|z: spec_fn(int) -> u128, k: int|
                #![trigger b.holds(z), bits@[k + 1]]
                b.holds(z) && before.live(z) && all_bits(exprs_at(bits@, z)) && 0 <= k < i + 1
                implies (bits@[k + 1].at(z) == 1 ==> bits@[k].at(z) == 1) by {
                assert(start.holds(z) && start.live(z));
                if k == i {
                    lemma_xor(bits@[k].at(z), 1, 0);
                }
            }
            lemma_exprs_kept(start, before, bits@);
            assert(bits@[i as int].at(start.witness()) == bits@[i as int].at(w));
            assert(bits@[i + 1].at(start.witness()) == bits@[i + 1].at(w));
            lemma_xor(bits@[i as int].at(w), 1, 0);
            if all_bits(exprs_at(bits@, w)) {
                assert(is_bit(exprs_at(bits@, w)[i + 1]));
            }
        }
        i = i + 1;
    }
    proof {
        assert forall|z: spec_fn(int) -> u128| #[trigger]
            b.holds(z) && before.live(z) && all_bits(exprs_at(bits@, z)) implies dense(
            exprs_at(bits@, z),
        ) by {
            let vals = exprs_at(bits@, z);
            assert forall|k: int| 0 <= k < vals.len() - 1 implies (#[trigger] vals[k + 1] == 1
                ==> vals[k] == 1) by {
                assert(bits@[k + 1].at(z) == vals[k + 1]);
            }
        }
        let vals = exprs_at(bits@, w);
        if dense(vals) {
            assert forall|k: int| 0 <= k < i implies ((#[trigger] bits@[k + 1]).at(w) == 1
                ==> bits@[k].at(w) == 1) by {
                assert(vals[k + 1] == bits@[k + 1].at(w));
            }
        }
        if forall|k: int|
            0 <= k < i ==> ((#[trigger] bits@[k + 1]).at(w) == 1 ==> bits@[k].at(w) == 1) {
            assert forall|k: int| 0 <= k < vals.len() - 1 implies (#[trigger] vals[k + 1] == 1
                ==> vals[k] == 1) by {
                assert(bits@[k + 1].at(w) == vals[k + 1]);
            }
        }
    }
}

/// The rows that forbid zero while a selector is on.
#[verifier::opaque]
pub open spec fn nonzero_step(s: Shape, selector: LinForm, bits: Seq<LinForm>) -> Shape {
    let (t, zero) = all_zero_step(s, bits, bits.len());
    pin_when_step(t, selector, zero)
}

/// Asserts that the bits do not spell zero when a selector bit is one.
pub fn nonzero_when(b: &mut FieldR1csBuilder, selector: &LinExpr, bits: &[Wire])
    requires
        old(b).wf(),
        selector.bound() <= old(b).wires(),
        wires_bounded(bits@, old(b).wires()),
        forall|z: spec_fn(int) -> u128| #[trigger]
            old(b).holds(z) ==> all_bits(wires_at(bits@, z)),
    ensures
        refines(*final(b), *old(b)),
        forall|z: spec_fn(int) -> u128| #[trigger]
            final(b).holds(z) && old(b).live(z) ==> (selector.at(z) == 1 ==> bits_nat(
                wires_at(bits@, z),
            ) != 0),
        old(b).live(old(b).witness()) && is_bit(selector.at(old(b).witness())) ==> (
        final(b).honest() <==> old(b).honest() && (selector.at(old(b).witness()) == 1 ==> bits_nat(
            wires_at(bits@, old(b).witness()),
        ) != 0)),
        final(b).shape() == nonzero_step(old(b).shape(), selector@, wire_forms(bits@)),
{
    reveal(nonzero_step);
    let ghost before = *b;
    let exprs = wire_exprs(bits);
    assert(wires_bounded(bits@, before.wires()));
    let zero = all_zero(b, exprs.as_slice());
    let ghost mid = *b;
    pin_when(b, selector, &zero);
    proof {
        assert forall|z: spec_fn(int) -> u128| #[trigger] mid.holds(z) implies zero.at(z) == bit_of(
            bits_nat(wires_at(bits@, z)) == 0,
        ) by {
            assert(before.holds(z));
            assert(exprs_at(exprs@, z) == wires_at(bits@, z));
        }
        lemma_wires_kept(mid, before, bits@);
        if mid.honest() {
            assert(mid.holds(mid.witness()));
        }
    }
}

/// A page position when the page is live, zero otherwise.
pub fn selected_index(b: &FieldR1csBuilder, live: &LinExpr, one_based_index: usize) -> (r: LinExpr)
    requires
        b.wf(),
    ensures
        r.bound() <= live.bound(),
        forall|z: spec_fn(int) -> u128| #[trigger]
            r.at(z) == fmul(live.at(z), b.flat_basis().flat(one_based_index as u128)),
        forall|z: spec_fn(int) -> u128|
            is_bit(live.at(z)) ==> #[trigger] int_at(*b, r@, z) == if live.at(z) == 1 {
                one_based_index as nat
            } else {
                0
            },
        r@ == form_scale(live@, b.flat_basis().flat(one_based_index as u128)),
{
    let weight = b.basis().to_flat(one_based_index as u128);
    let r = live.scale(weight);
    assert forall|z: spec_fn(int) -> u128|
        is_bit(live.at(z)) implies #[trigger] int_at(*b, r@, z) == if live.at(z) == 1 {
        one_based_index as nat
    } else {
        0
    } by {
        b.lemma_basis_wf();
        b.flat_basis().lemma_inverse(one_based_index as u128);
        b.flat_basis().lemma_linear(0, 0);
        lemma_fmul_unit(weight@);
        assert(r.at(z) == fmul(live.at(z), weight@));
    }
    r
}

/// The expressions of one physical page.
pub struct PageTrace {
    pub live: LinExpr,
    pub start: LinExpr,
    pub end: LinExpr,
    /// Which input and output positions the page uses.
    pub raw_inputs: Vec<LinExpr>,
    pub raw_outputs: Vec<LinExpr>,
    pub owner: [LinExpr; 2],
    pub epoch: [LinExpr; 2],
    /// The fee field of the page, and the fee that a start page pays.
    pub fee: LinExpr,
    pub paid_fee: LinExpr,
    pub live_input_count: LinExpr,
    pub live_output_count: LinExpr,
    pub input_sum: LinExpr,
    pub output_sum: LinExpr,
}

/// What a page reads.
pub struct PageForms {
    pub live: LinForm,
    pub start: LinForm,
    pub end: LinForm,
    pub raw_inputs: Seq<LinForm>,
    pub raw_outputs: Seq<LinForm>,
    pub owner: (LinForm, LinForm),
    pub epoch: (LinForm, LinForm),
    pub fee: LinForm,
    pub paid_fee: LinForm,
    pub live_input_count: LinForm,
    pub live_output_count: LinForm,
    pub input_sum: LinForm,
    pub output_sum: LinForm,
}

impl PageTrace {
    /// What the page reads.
    pub open spec fn forms(&self) -> PageForms {
        PageForms {
            live: self.live@,
            start: self.start@,
            end: self.end@,
            raw_inputs: forms(self.raw_inputs@),
            raw_outputs: forms(self.raw_outputs@),
            owner: (self.owner@[0]@, self.owner@[1]@),
            epoch: (self.epoch@[0]@, self.epoch@[1]@),
            fee: self.fee@,
            paid_fee: self.paid_fee@,
            live_input_count: self.live_input_count@,
            live_output_count: self.live_output_count@,
            input_sum: self.input_sum@,
            output_sum: self.output_sum@,
        }
    }

    pub open spec fn bounded(&self, n: nat) -> bool {
        &&& self.live.bound() <= n
        &&& self.start.bound() <= n
        &&& self.end.bound() <= n
        &&& self.raw_inputs@.len() >= 1
        &&& self.raw_outputs@.len() >= 1
        &&& exprs_bounded(self.raw_inputs@, n)
        &&& exprs_bounded(self.raw_outputs@, n)
        &&& self.owner@[0].bound() <= n
        &&& self.owner@[1].bound() <= n
        &&& self.epoch@[0].bound() <= n
        &&& self.epoch@[1].bound() <= n
        &&& self.fee.bound() <= n
        &&& self.paid_fee.bound() <= n
        &&& self.live_input_count.bound() <= n
        &&& self.live_output_count.bound() <= n
        &&& self.input_sum.bound() <= n
        &&& self.output_sum.bound() <= n
    }

    /// The markers and position flags of the page are bits.
    pub open spec fn flags_ok(&self, z: spec_fn(int) -> u128) -> bool {
        &&& is_bit(self.live.at(z))
        &&& is_bit(self.start.at(z))
        &&& is_bit(self.end.at(z))
        &&& all_bits(exprs_at(self.raw_inputs@, z))
        &&& all_bits(exprs_at(self.raw_outputs@, z))
    }

    /// What the page says.
    pub open spec fn value(&self, b: FieldR1csBuilder, z: spec_fn(int) -> u128) -> PageValue {
        PageValue {
            live: self.live.at(z) == 1,
            start: self.start.at(z) == 1,
            end: self.end.at(z) == 1,
            raw_inputs: exprs_at(self.raw_inputs@, z),
            raw_outputs: exprs_at(self.raw_outputs@, z),
            owner: (self.owner@[0].at(z), self.owner@[1].at(z)),
            epoch: (self.epoch@[0].at(z), self.epoch@[1].at(z)),
            fee: int_at(b, self.fee@, z),
            paid_fee: int_at(b, self.paid_fee@, z),
            input_count: int_at(b, self.live_input_count@, z),
            output_count: int_at(b, self.live_output_count@, z),
            input_sum: int_at(b, self.input_sum@, z),
            output_sum: int_at(b, self.output_sum@, z),
        }
    }
}

/// What one page says.
pub struct PageValue {
    pub live: bool,
    pub start: bool,
    pub end: bool,
    pub raw_inputs: Seq<u128>,
    pub raw_outputs: Seq<u128>,
    pub owner: (u128, u128),
    pub epoch: (u128, u128),
    pub fee: nat,
    pub paid_fee: nat,
    pub input_count: nat,
    pub output_count: nat,
    pub input_sum: nat,
    pub output_sum: nat,
}

/// What the scanner carries from one page to the next.
pub struct RunValue {
    pub remaining: nat,
    pub end: bool,
    pub full_inputs: bool,
    pub full_outputs: bool,
    pub owner: (u128, u128),
    pub epoch: (u128, u128),
    pub input_count: nat,
    pub output_count: nat,
    pub input_sum: nat,
    pub output_sum: nat,
    pub fee: nat,
}

/// The running totals of one group, as expressions.
pub struct RunTrace {
    pub remaining: LinExpr,
    pub end: LinExpr,
    pub last_input: LinExpr,
    pub last_output: LinExpr,
    pub owner: [LinExpr; 2],
    pub epoch: [LinExpr; 2],
    pub input_count: LinExpr,
    pub output_count: LinExpr,
    pub input_sum: LinExpr,
    pub output_sum: LinExpr,
    pub fee: LinExpr,
}

/// What the running state of a group reads.
pub struct RunForms {
    pub remaining: LinForm,
    pub end: LinForm,
    pub last_input: LinForm,
    pub last_output: LinForm,
    pub owner: (LinForm, LinForm),
    pub epoch: (LinForm, LinForm),
    pub input_count: LinForm,
    pub output_count: LinForm,
    pub input_sum: LinForm,
    pub output_sum: LinForm,
    pub fee: LinForm,
}

impl RunTrace {
    /// What the running state reads.
    pub open spec fn forms(&self) -> RunForms {
        RunForms {
            remaining: self.remaining@,
            end: self.end@,
            last_input: self.last_input@,
            last_output: self.last_output@,
            owner: (self.owner@[0]@, self.owner@[1]@),
            epoch: (self.epoch@[0]@, self.epoch@[1]@),
            input_count: self.input_count@,
            output_count: self.output_count@,
            input_sum: self.input_sum@,
            output_sum: self.output_sum@,
            fee: self.fee@,
        }
    }

    pub open spec fn bounded(&self, n: nat) -> bool {
        &&& self.remaining.bound() <= n
        &&& self.end.bound() <= n
        &&& self.last_input.bound() <= n
        &&& self.last_output.bound() <= n
        &&& self.owner@[0].bound() <= n
        &&& self.owner@[1].bound() <= n
        &&& self.epoch@[0].bound() <= n
        &&& self.epoch@[1].bound() <= n
        &&& self.input_count.bound() <= n
        &&& self.output_count.bound() <= n
        &&& self.input_sum.bound() <= n
        &&& self.output_sum.bound() <= n
        &&& self.fee.bound() <= n
    }

    /// The carried markers are bits.
    pub open spec fn flags_ok(&self, z: spec_fn(int) -> u128) -> bool {
        &&& is_bit(self.end.at(z))
        &&& is_bit(self.last_input.at(z))
        &&& is_bit(self.last_output.at(z))
    }

    pub open spec fn value(&self, b: FieldR1csBuilder, z: spec_fn(int) -> u128) -> RunValue {
        RunValue {
            remaining: int_at(b, self.remaining@, z),
            end: self.end.at(z) == 1,
            full_inputs: self.last_input.at(z) == 1,
            full_outputs: self.last_output.at(z) == 1,
            owner: (self.owner@[0].at(z), self.owner@[1].at(z)),
            epoch: (self.epoch@[0].at(z), self.epoch@[1].at(z)),
            input_count: int_at(b, self.input_count@, z),
            output_count: int_at(b, self.output_count@, z),
            input_sum: int_at(b, self.input_sum@, z),
            output_sum: int_at(b, self.output_sum@, z),
            fee: int_at(b, self.fee@, z),
        }
    }
}

/// Before the first page nothing is carried, and the previous page counts as
/// an end.
pub open spec fn initial_run() -> RunValue {
    RunValue {
        remaining: 0,
        end: true,
        full_inputs: true,
        full_outputs: true,
        owner: (0, 0),
        epoch: (0, 0),
        input_count: 0,
        output_count: 0,
        input_sum: 0,
        output_sum: 0,
        fee: 0,
    }
}

/// The page continues the group of the previous page.
pub open spec fn continues(p: PageValue) -> bool {
    p.live && !p.start
}

/// The totals after a page.
pub open spec fn next_run(prev: RunValue, p: PageValue, remaining: nat) -> RunValue {
    RunValue {
        remaining,
        end: p.end,
        full_inputs: p.raw_inputs.last() == 1,
        full_outputs: p.raw_outputs.last() == 1,
        owner: p.owner,
        epoch: p.epoch,
        input_count: rolled(prev.input_count, p.input_count, p.start, p.live),
        output_count: rolled(prev.output_count, p.output_count, p.start, p.live),
        input_sum: rolled(prev.input_sum, p.input_sum, p.start, p.live),
        output_sum: rolled(prev.output_sum, p.output_sum, p.start, p.live),
        fee: if !p.live {
            0
        } else if p.start {
            p.paid_fee
        } else {
            prev.fee
        },
    }
}

/// The countdown of a page: below the cap, zero on a dead page, one on an end
/// page, and one less than before on a continuation page.
pub open spec fn countdown_ok(prev: RunValue, p: PageValue, remaining: nat, cap: nat) -> bool {
    &&& remaining < cap
    &&& !p.live ==> remaining == 0
    &&& p.end ==> remaining == 1
    &&& continues(p) ==> prev.remaining == remaining + 1
}

/// A start page is a live page after an end page; the last live page is an
/// end page.
pub open spec fn markers_ok(prev: RunValue, p: PageValue, next_live: bool) -> bool {
    &&& p.start == (p.live && prev.end)
    &&& p.live && !next_live ==> p.end
}

/// A continuation page repeats owner and epoch and pays no fee of its own.
pub open spec fn continuity_ok(prev: RunValue, p: PageValue) -> bool {
    continues(p) ==> p.owner == prev.owner && p.epoch == prev.epoch && p.fee == 0
}

/// Positions are used without gaps, across pages too, and a page is only
/// followed by another of its group when one of its dimensions is full.
pub open spec fn packing_ok(prev: RunValue, p: PageValue) -> bool {
    &&& dense(p.raw_inputs)
    &&& dense(p.raw_outputs)
    &&& continues(p) && p.raw_inputs[0] == 1 ==> prev.full_inputs
    &&& continues(p) && p.raw_outputs[0] == 1 ==> prev.full_outputs
    &&& p.live && !p.end ==> p.raw_inputs.last() == 1 || p.raw_outputs.last() == 1
}

/// No total wraps; an end page closes a group with at least one input whose
/// inputs are its outputs and its fee.
pub open spec fn totals_ok(prev: RunValue, p: PageValue, run: RunValue) -> bool {
    &&& prev.input_count + p.input_count < pow2(11)
    &&& prev.output_count + p.output_count < pow2(9)
    &&& prev.input_sum + p.input_sum < pow2(74)
    &&& prev.output_sum + p.output_sum < pow2(74)
    &&& run.input_count < pow2(11)
    &&& run.output_sum + run.fee < pow2(74)
    &&& p.end ==> run.input_count != 0
    &&& p.end ==> run.input_sum == run.output_sum + run.fee
}

/// Everything the scanner checks of one page.
#[verifier::opaque]
pub open spec fn page_ok(
    prev: RunValue,
    p: PageValue,
    remaining: nat,
    next_live: bool,
    cap: nat,
) -> bool {
    &&& countdown_ok(prev, p, remaining, cap)
    &&& markers_ok(prev, p, next_live)
    &&& continuity_ok(prev, p)
    &&& packing_ok(prev, p)
    &&& totals_ok(prev, p, next_run(prev, p, remaining))
}

proof fn lemma_page_kept(after: FieldR1csBuilder, before: FieldR1csBuilder, page: PageTrace)
    requires
        before.wf(),
        after.extends(&before),
        page.bounded(before.wires()),
    ensures
        page.value(before, after.witness()) == page.value(before, before.witness()),
        page.flags_ok(after.witness()) == page.flags_ok(before.witness()),
{
    let v = after.witness();
    let w = before.witness();
    lemma_exprs_kept(after, before, page.raw_inputs@);
    lemma_exprs_kept(after, before, page.raw_outputs@);
    assert(agree(v, w, before.wires()));
    assert(page.owner@[0].at(v) == page.owner@[0].at(w));
    assert(page.owner@[1].at(v) == page.owner@[1].at(w));
    assert(page.epoch@[0].at(v) == page.epoch@[0].at(w));
    assert(page.epoch@[1].at(v) == page.epoch@[1].at(w));
}

proof fn lemma_run_kept(after: FieldR1csBuilder, before: FieldR1csBuilder, run: RunTrace)
    requires
        before.wf(),
        after.extends(&before),
        run.bounded(before.wires()),
    ensures
        run.value(before, after.witness()) == run.value(before, before.witness()),
        run.flags_ok(after.witness()) == run.flags_ok(before.witness()),
{
    let v = after.witness();
    let w = before.witness();
    assert(agree(v, w, before.wires()));
    assert(run.owner@[0].at(v) == run.owner@[0].at(w));
    assert(run.owner@[1].at(v) == run.owner@[1].at(w));
    assert(run.epoch@[0].at(v) == run.epoch@[0].at(w));
    assert(run.epoch@[1].at(v) == run.epoch@[1].at(w));
}

proof fn lemma_page_bounded(page: PageTrace, n: nat, m: nat)
    requires
        page.bounded(n),
        n <= m,
    ensures
        page.bounded(m),
{
    lemma_exprs_mono(page.raw_inputs@, n, m);
    lemma_exprs_mono(page.raw_outputs@, n, m);
}

/// The rows of a countdown.
#[verifier::opaque]
pub open spec fn countdown_step(s: Shape, live: LinForm, cap: Seq<LinForm>) -> Shape {
    let s1 = s.free();
    let s2 = range_step(s1, s.next(), 8);
    let s3 = pin_lt_step(s2, wire_forms(wires_from(s1.n(), 8)), cap);
    pin_when_step(s3, form_add_const(live, 1), s.next())
}

/// Allocates the countdown of a page: below the cap, and zero on a dead page.
fn bind_countdown(
    b: &mut FieldR1csBuilder,
    live: &LinExpr,
    remaining_native: u8,
    cap: u8,
    cap_bits: &Vec<Wire>,
) -> (r: (LinExpr, Vec<Wire>))
    requires
        old(b).wf(),
        live.bound() <= old(b).wires(),
        cap_bits@.len() == 8,
        wires_bounded(cap_bits@, old(b).wires()),
        forall|z: spec_fn(int) -> u128| #[trigger]
            old(b).holds(z) ==> all_bits(wires_at(cap_bits@, z)),
        forall|z: spec_fn(int) -> u128| #[trigger]
            old(b).holds(z) && old(b).live(z) ==> bits_nat(wires_at(cap_bits@, z)) == cap,
    ensures
        refines(*final(b), *old(b)),
        r.0.bound() <= final(b).wires(),
        r.1@.len() == 8,
        wires_bounded(r.1@, final(b).wires()),
        forall|z: spec_fn(int) -> u128| #[trigger]
            final(b).holds(z) ==> all_bits(wires_at(r.1@, z)),
        forall|z: spec_fn(int) -> u128| #[trigger]
            final(b).holds(z) && old(b).live(z) && is_bit(live.at(z)) ==> {
                let v = int_at(*old(b), r.0@, z);
                &&& bits_nat(wires_at(r.1@, z)) == v
                &&& v < cap
                &&& live.at(z) == 0 ==> v == 0
            },
        int_at(*old(b), r.0@, final(b).witness()) == remaining_native,
        old(b).live(old(b).witness()) && is_bit(live.at(old(b).witness())) ==> (final(b).honest()
            <==> old(b).honest() && remaining_native < cap && (live.at(old(b).witness()) == 0
            ==> remaining_native == 0)),
        final(b).shape() == countdown_step(old(b).shape(), live@, wire_forms(cap_bits@)),
        r.0@ == old(b).shape().next(),
        r.1@ == wires_from(old(b).shape().free().n(), 8),
{
    reveal(countdown_step);
    let ghost before = *b;
    let ghost w = b.witness();
    let remaining = alloc_block(b, remaining_native as u128);
    let ghost b1 = *b;
    let remaining_bits = range_check_bits(b, &remaining, PAGE_COUNT_BITS);
    let ghost b2 = *b;
    proof {
        vstd::arithmetic::power2::lemma2_to64();
        assert forall|k: int| 0 <= k < cap_bits@.len() implies (#[trigger] cap_bits@[k]).index
            < b2.wires() by {
            assert(cap_bits@[k].index < before.wires());
        }
        assert forall|z: spec_fn(int) -> u128| #[trigger] b2.holds(z) implies all_bits(
            wires_at(remaining_bits@, z),
        ) && all_bits(wires_at(cap_bits@, z)) by {
            assert(b1.holds(z) && before.holds(z));
        }
    }
    pin_lt_strict(b, remaining_bits.as_slice(), cap_bits.as_slice());
    let ghost b3 = *b;
    let dead = live.add_const(F128::one());
    pin_when(b, &dead, &remaining);
    proof {
        assert forall|z: spec_fn(int) -> u128| #[trigger]
            b.holds(z) && before.live(z) && is_bit(live.at(z)) implies {
            let v = int_at(before, remaining@, z);
            &&& bits_nat(wires_at(remaining_bits@, z)) == v
            &&& v < cap
            &&& live.at(z) == 0 ==> v == 0
        } by {
            assert(b3.holds(z) && b2.holds(z) && b1.holds(z) && before.holds(z));
            assert(b1.live(z) && b2.live(z) && b3.live(z));
            lemma_bit_ops(live.at(z), 1);
            lemma_bit_int(before, remaining.at(z));
            lemma_bit_int(before, 0);
        }
        assert forall|z: spec_fn(int) -> u128| #[trigger] b.holds(z) implies all_bits(
            wires_at(remaining_bits@, z),
        ) by {
            assert(b3.holds(z) && b2.holds(z));
        }
        assert(remaining.at(b.witness()) == remaining.at(b1.witness()));
        if before.live(w) && is_bit(live.at(w)) {
            assert(int_at(b1, remaining@, b1.witness()) == remaining_native);
            assert(b2.honest() <==> before.honest());
            lemma_wires_kept(b2, before, cap_bits@);
            lemma_int_bits(remaining_native as u128, 8);
            if before.honest() {
                assert(before.holds(w));
                assert(bits_nat(wires_at(cap_bits@, b2.witness())) == cap);
                assert(bits_nat(wires_at(remaining_bits@, b2.witness())) == remaining_native);
            }
            assert(live.at(b3.witness()) == live.at(w));
            assert(remaining.at(b3.witness()) == remaining.at(b1.witness()));
            lemma_bit_ops(live.at(w), 1);
            lemma_bit_int(before, remaining.at(b1.witness()));
            lemma_bit_int(before, 0);
        }
    }
    (remaining, remaining_bits)
}

/// The rows of the start and end marks of a page.
#[verifier::opaque]
pub open spec fn markers_step(
    s: Shape,
    page: PageForms,
    previous_end: LinForm,
    next_live: LinForm,
) -> Shape {
    let (s1, expected) = mul_step(s, page.live, previous_end);
    let s2 = pin_eq_step(s1, page.start, expected);
    let (s3, last) = mul_step(s2, page.live, form_add_const(next_live, 1));
    pin_when_step(s3, last, form_add_const(page.end, 1))
}

/// Binds the start and end markers of a page.
fn bind_markers(
    b: &mut FieldR1csBuilder,
    page: &PageTrace,
    previous_end: &LinExpr,
    next_live: &LinExpr,
)
    requires
        old(b).wf(),
        page.bounded(old(b).wires()),
        previous_end.bound() <= old(b).wires(),
        next_live.bound() <= old(b).wires(),
    ensures
        refines(*final(b), *old(b)),
        forall|z: spec_fn(int) -> u128| #[trigger]
            final(b).holds(z) && old(b).live(z) && page.flags_ok(z) && is_bit(previous_end.at(z))
                && is_bit(next_live.at(z)) ==> {
                &&& (page.start.at(z) == 1) == (page.live.at(z) == 1 && previous_end.at(z) == 1)
                &&& page.live.at(z) == 1 && next_live.at(z) == 0 ==> page.end.at(z) == 1
            },
        ({
            let w = old(b).witness();
            old(b).live(w) && page.flags_ok(w) && is_bit(previous_end.at(w)) && is_bit(
                next_live.at(w),
            ) ==> (final(b).honest() <==> old(b).honest() && ((page.start.at(w) == 1) == (
            page.live.at(w) == 1 && previous_end.at(w) == 1)) && (page.live.at(w) == 1
                && next_live.at(w) == 0 ==> page.end.at(w) == 1))
        }),
        final(b).shape() == markers_step(
            old(b).shape(),
            page.forms(),
            previous_end@,
            next_live@,
        ),
{
    reveal(markers_step);
    let ghost before = *b;
    let ghost w = b.witness();
    let expected_start = crate::trace::mul(b, &page.live, previous_end);
    let ghost b1 = *b;
    pin_eq(b, &page.start, &expected_start);
    let ghost b2 = *b;
    let no_next = next_live.add_const(F128::one());
    let last_live = crate::trace::mul(b, &page.live, &no_next);
    let ghost b3 = *b;
    let not_end = page.end.add_const(F128::one());
    pin_when(b, &last_live, &not_end);
    proof {
        assert forall|z: spec_fn(int) -> u128| #[trigger]
            b3.holds(z) && page.flags_ok(z) && is_bit(previous_end.at(z)) && is_bit(
                next_live.at(z),
            ) implies {
            &&& expected_start.at(z) == bit_of(
                page.live.at(z) == 1 && previous_end.at(z) == 1,
            )
            &&& last_live.at(z) == bit_of(page.live.at(z) == 1 && next_live.at(z) == 0)
            &&& not_end.at(z) == bit_of(page.end.at(z) != 1)
        } by {
            assert(b2.holds(z) && b1.holds(z));
            lemma_bit_ops(page.live.at(z), previous_end.at(z));
            lemma_bit_ops(next_live.at(z), 1);
            lemma_bit_ops(page.live.at(z), no_next.at(z));
            lemma_bit_ops(page.end.at(z), 1);
        }
        assert forall|z: spec_fn(int) -> u128| #[trigger]
            b.holds(z) && before.live(z) && page.flags_ok(z) && is_bit(previous_end.at(z))
                && is_bit(next_live.at(z)) implies {
            &&& (page.start.at(z) == 1) == (page.live.at(z) == 1 && previous_end.at(z) == 1)
            &&& page.live.at(z) == 1 && next_live.at(z) == 0 ==> page.end.at(z) == 1
        } by {
            assert(b3.holds(z) && b2.holds(z) && b1.holds(z));
            assert(b1.live(z) && b3.live(z));
        }
        if before.live(w) && page.flags_ok(w) && is_bit(previous_end.at(w)) && is_bit(
            next_live.at(w),
        ) {
            lemma_page_kept(b3, before, *page);
            assert(previous_end.at(b3.witness()) == previous_end.at(w));
            assert(next_live.at(b3.witness()) == next_live.at(w));
            lemma_bit_ops(page.live.at(w), previous_end.at(w));
            assert(page.start.at(b1.witness()) == page.start.at(w));
            assert(page.live.at(b3.witness()) == page.live.at(w));
            assert(page.end.at(b3.witness()) == page.end.at(w));
            if b2.honest() {
                assert(b3.honest());
                assert(b3.holds(b3.witness()));
            }
        }
    }
}

/// The rows that tie a page to the page before, and whether it continues a group.
#[verifier::opaque]
pub open spec fn continuity_step(
    s: Shape,
    page: PageForms,
    previous: RunForms,
    remaining: LinForm,
    bits: Seq<LinForm>,
) -> (Shape, LinForm) {
    let s1 = pin_when_step(s, page.end, form_add_const(remaining, 1));
    let (s2, continuation) = mul_step(s1, page.live, form_add_const(page.start, 1));
    let (s3, incremented) = increment_step(s2, bits);
    let s4 = pin_when_step(s3, continuation, form_add(previous.remaining, incremented));
    let s5 = pin_when_step(s4, continuation, form_add(page.owner.0, previous.owner.0));
    let s6 = pin_when_step(s5, continuation, form_add(page.epoch.0, previous.epoch.0));
    let s7 = pin_when_step(s6, continuation, form_add(page.owner.1, previous.owner.1));
    let s8 = pin_when_step(s7, continuation, form_add(page.epoch.1, previous.epoch.1));
    (pin_when_step(s8, continuation, page.fee), continuation)
}

/// Binds a continuation page to the page before it.
fn bind_continuity(
    b: &mut FieldR1csBuilder,
    page: &PageTrace,
    previous: &RunTrace,
    remaining: &LinExpr,
    remaining_bits: &Vec<Wire>,
) -> (continuation: LinExpr)
    requires
        old(b).wf(),
        page.bounded(old(b).wires()),
        previous.bounded(old(b).wires()),
        remaining.bound() <= old(b).wires(),
        remaining_bits@.len() == 8,
        wires_bounded(remaining_bits@, old(b).wires()),
        forall|z: spec_fn(int) -> u128| #[trigger]
            old(b).holds(z) ==> all_bits(wires_at(remaining_bits@, z)),
        forall|z: spec_fn(int) -> u128| #[trigger]
            old(b).holds(z) && old(b).live(z) && page.flags_ok(z) ==> bits_nat(
                wires_at(remaining_bits@, z),
            ) == int_at(*old(b), remaining@, z),
    ensures
        refines(*final(b), *old(b)),
        continuation.bound() <= final(b).wires(),
        forall|z: spec_fn(int) -> u128| #[trigger]
            final(b).holds(z) && page.flags_ok(z) ==> continuation.at(z) == bit_of(
                continues(page.value(*old(b), z)),
            ),
        forall|z: spec_fn(int) -> u128| #[trigger]
            final(b).holds(z) && old(b).live(z) && page.flags_ok(z) ==> {
                let p = page.value(*old(b), z);
                let prev = previous.value(*old(b), z);
                let v = int_at(*old(b), remaining@, z);
                &&& p.end ==> v == 1
                &&& continues(p) ==> prev.remaining == v + 1
                &&& continuity_ok(prev, p)
            },
        ({
            let w = old(b).witness();
            let p = page.value(*old(b), w);
            let prev = previous.value(*old(b), w);
            let v = int_at(*old(b), remaining@, w);
            old(b).live(w) && page.flags_ok(w) && v < 255 ==> (final(b).honest() <==> old(
                b,
            ).honest() && (p.end ==> v == 1) && (continues(p) ==> prev.remaining == v + 1)
                && continuity_ok(prev, p))
        }),
        continuity_step(
            old(b).shape(),
            page.forms(),
            previous.forms(),
            remaining@,
            wire_forms(remaining_bits@),
        ) == (final(b).shape(), continuation@),
{
    reveal(continuity_step);
    let ghost before = *b;
    let ghost w = b.witness();
    let ghost t = b.flat_basis();
    let not_one = remaining.add_const(F128::one());
    pin_when(b, &page.end, &not_one);
    let ghost b1 = *b;
    let not_start = page.start.add_const(F128::one());
    let continuation = crate::trace::mul(b, &page.live, &not_start);
    let ghost b2 = *b;
    proof {
        assert forall|k: int| 0 <= k < remaining_bits@.len() implies (#[trigger] remaining_bits@[k]).index
            < b2.wires() by {
            assert(remaining_bits@[k].index < before.wires());
        }
        assert forall|z: spec_fn(int) -> u128| #[trigger] b2.holds(z) implies all_bits(
            wires_at(remaining_bits@, z),
        ) by {
            assert(b1.holds(z) && before.holds(z));
        }
    }
    let incremented = increment_from_bits(b, remaining_bits.as_slice());
    let ghost b3 = *b;
    let countdown_delta = previous.remaining.add(&incremented);
    pin_when(b, &continuation, &countdown_delta);
    let ghost b4 = *b;
    let owner_delta0 = page.owner[0].add(&previous.owner[0]);
    pin_when(b, &continuation, &owner_delta0);
    let ghost b5 = *b;
    let epoch_delta0 = page.epoch[0].add(&previous.epoch[0]);
    pin_when(b, &continuation, &epoch_delta0);
    let ghost b6 = *b;
    let owner_delta1 = page.owner[1].add(&previous.owner[1]);
    pin_when(b, &continuation, &owner_delta1);
    let ghost b7 = *b;
    let epoch_delta1 = page.epoch[1].add(&previous.epoch[1]);
    pin_when(b, &continuation, &epoch_delta1);
    let ghost b8 = *b;
    pin_when(b, &continuation, &page.fee);
    proof {
        before.lemma_basis_wf();
        assert forall|z: spec_fn(int) -> u128| #[trigger]
            b2.holds(z) && page.flags_ok(z) implies continuation.at(z) == bit_of(
            continues(page.value(before, z)),
        ) by {
            assert(b1.holds(z));
            lemma_bit_ops(page.start.at(z), 1);
            lemma_bit_ops(page.live.at(z), not_start.at(z));
        }
        assert forall|z: spec_fn(int) -> u128| {
            &&& #[trigger] owner_delta0.at(z) == 0 <==> page.owner@[0].at(z) == previous.owner@[0].at(z)
        } by {
            lemma_xor(page.owner@[0].at(z), previous.owner@[0].at(z), 0);
        }
        assert forall|z: spec_fn(int) -> u128| {
            &&& #[trigger] owner_delta1.at(z) == 0 <==> page.owner@[1].at(z) == previous.owner@[1].at(z)
        } by {
            lemma_xor(page.owner@[1].at(z), previous.owner@[1].at(z), 0);
        }
        assert forall|z: spec_fn(int) -> u128| {
            &&& #[trigger] epoch_delta0.at(z) == 0 <==> page.epoch@[0].at(z) == previous.epoch@[0].at(z)
        } by {
            lemma_xor(page.epoch@[0].at(z), previous.epoch@[0].at(z), 0);
        }
        assert forall|z: spec_fn(int) -> u128| {
            &&& #[trigger] epoch_delta1.at(z) == 0 <==> page.epoch@[1].at(z) == previous.epoch@[1].at(z)
        } by {
            lemma_xor(page.epoch@[1].at(z), previous.epoch@[1].at(z), 0);
        }
        assert forall|z: spec_fn(int) -> u128| {
            &&& #[trigger] page.fee.at(z) == 0 <==> int_at(before, page.fee@, z) == 0
        } by {
            lemma_bit_int(before, page.fee.at(z));
            lemma_bit_int(before, 0);
        }
        assert forall|z: spec_fn(int) -> u128| {
            &&& #[trigger] not_one.at(z) == 0 <==> int_at(before, remaining@, z) == 1
        } by {
            lemma_bit_int(before, remaining.at(z));
            lemma_bit_int(before, 1);
            lemma_xor(remaining.at(z), 1, 0);
        }
        assert forall|z: spec_fn(int) -> u128| {
            &&& #[trigger] countdown_delta.at(z) == 0 <==> int_at(before, previous.remaining@, z)
                == int_at(before, incremented@, z)
        } by {
            lemma_bit_int(before, previous.remaining.at(z));
            lemma_bit_int(before, incremented.at(z));
            lemma_xor(previous.remaining.at(z), incremented.at(z), 0);
        }
        assert forall|z: spec_fn(int) -> u128| #[trigger]
            b.holds(z) && before.live(z) && page.flags_ok(z) implies {
            let p = page.value(before, z);
            let prev = previous.value(before, z);
            let v = int_at(before, remaining@, z);
            &&& p.end ==> v == 1
            &&& continues(p) ==> prev.remaining == v + 1
            &&& continuity_ok(prev, p)
        } by {
            assert(b8.holds(z) && b7.holds(z) && b6.holds(z) && b5.holds(z) && b4.holds(z)
                && b3.holds(z) && b2.holds(z) && b1.holds(z) && before.holds(z));
            assert(b2.live(z) && b3.live(z) && b4.live(z) && b5.live(z) && b6.live(z) && b7.live(z)
                && b8.live(z));
            assert(int_at(b2, incremented@, z) == bits_nat(wires_at(remaining_bits@, z)) + 1);
            assert(not_one.at(z) == 0 <==> int_at(before, remaining@, z) == 1);
            assert(countdown_delta.at(z) == 0 <==> int_at(before, previous.remaining@, z) == int_at(
                before,
                incremented@,
                z,
            ));
            assert(owner_delta0.at(z) == 0 <==> page.owner@[0].at(z) == previous.owner@[0].at(z));
            assert(owner_delta1.at(z) == 0 <==> page.owner@[1].at(z) == previous.owner@[1].at(z));
            assert(epoch_delta0.at(z) == 0 <==> page.epoch@[0].at(z) == previous.epoch@[0].at(z));
            assert(epoch_delta1.at(z) == 0 <==> page.epoch@[1].at(z) == previous.epoch@[1].at(z));
            assert(page.fee.at(z) == 0 <==> int_at(before, page.fee@, z) == 0);
        }
        let p = page.value(before, w);
        let prev = previous.value(before, w);
        let v = int_at(before, remaining@, w);
        if before.live(w) && page.flags_ok(w) && v < 255 {
            vstd::arithmetic::power2::lemma2_to64();
            assert(not_one.at(w) == 0 <==> int_at(before, remaining@, w) == 1);
            assert(b1.honest() <==> before.honest() && (p.end ==> v == 1));
            lemma_page_kept(b2, before, *page);
            lemma_wires_kept(b2, before, remaining_bits@);
            if before.honest() {
                assert(before.holds(w));
                assert(b3.honest() <==> b1.honest());
            }
            if b2.honest() {
                assert(b2.holds(b2.witness()));
                assert(continuation.at(b2.witness()) == bit_of(continues(p)));
            }
            lemma_page_kept(b8, before, *page);
            lemma_run_kept(b8, before, *previous);
            if b1.honest() {
                assert(b2.honest() && b3.honest());
                let u = b3.witness();
                assert(b3.holds(u) && b2.live(u));
                assert(remaining.at(u) == remaining.at(w));
                lemma_wires_kept(b3, before, remaining_bits@);
                assert(int_at(b2, incremented@, u) == v + 1);
                assert(previous.remaining.at(u) == previous.remaining.at(w));
                assert(countdown_delta.at(u) == 0 <==> int_at(before, previous.remaining@, u)
                    == int_at(before, incremented@, u));
                assert(continuation.at(u) == bit_of(continues(p)));
                assert(continuation.at(b4.witness()) == continuation.at(u));
                assert(continuation.at(b5.witness()) == continuation.at(u));
                assert(continuation.at(b6.witness()) == continuation.at(u));
                assert(continuation.at(b7.witness()) == continuation.at(u));
                assert(continuation.at(b8.witness()) == continuation.at(u));
                assert(owner_delta0.at(b4.witness()) == owner_delta0.at(w));
                assert(epoch_delta0.at(b5.witness()) == epoch_delta0.at(w));
                assert(owner_delta1.at(b6.witness()) == owner_delta1.at(w));
                assert(epoch_delta1.at(b7.witness()) == epoch_delta1.at(w));
                assert(page.fee.at(b8.witness()) == page.fee.at(w));
                assert(owner_delta0.at(w) == 0 <==> page.owner@[0].at(w) == previous.owner@[0].at(w));
                assert(owner_delta1.at(w) == 0 <==> page.owner@[1].at(w) == previous.owner@[1].at(w));
                assert(epoch_delta0.at(w) == 0 <==> page.epoch@[0].at(w) == previous.epoch@[0].at(w));
                assert(epoch_delta1.at(w) == 0 <==> page.epoch@[1].at(w) == previous.epoch@[1].at(w));
                assert(page.fee.at(w) == 0 <==> int_at(before, page.fee@, w) == 0);
            }
        }
    }
    continuation
}

/// The rows of dense and minimal packing.
#[verifier::opaque]
pub open spec fn packing_step(
    s: Shape,
    page: PageForms,
    previous: RunForms,
    continuation: LinForm,
    first: bool,
) -> Shape {
    let s1 = prefix_step(s, page.raw_inputs, pairs(page.raw_inputs.len()));
    let s2 = prefix_step(s1, page.raw_outputs, pairs(page.raw_outputs.len()));
    let s6 = if first {
        s2
    } else {
        let (s3, gap) = mul_step(
            s2,
            page.raw_inputs[0],
            form_add_const(previous.last_input, 1),
        );
        let s4 = pin_when_step(s3, continuation, gap);
        let (s5, output_gap) = mul_step(
            s4,
            page.raw_outputs[0],
            form_add_const(previous.last_output, 1),
        );
        pin_when_step(s5, continuation, output_gap)
    };
    let (s7, needs_next) = mul_step(s6, page.live, form_add_const(page.end, 1));
    let (s8, neither) = mul_step(
        s7,
        form_add_const(page.raw_inputs.last(), 1),
        form_add_const(page.raw_outputs.last(), 1),
    );
    pin_when_step(s8, needs_next, neither)
}

/// Binds dense positions inside a page, across a continuation, and the need
/// for another page.
fn bind_packing(
    b: &mut FieldR1csBuilder,
    page: &PageTrace,
    previous: &RunTrace,
    continuation: &LinExpr,
    first: bool,
)
    requires
        old(b).wf(),
        page.bounded(old(b).wires()),
        previous.bounded(old(b).wires()),
        continuation.bound() <= old(b).wires(),
    ensures
        refines(*final(b), *old(b)),
        forall|z: spec_fn(int) -> u128| #[trigger]
            final(b).holds(z) && old(b).live(z) && page.flags_ok(z) && previous.flags_ok(z)
                && continuation.at(z) == bit_of(continues(page.value(*old(b), z))) && (first
                ==> !continues(page.value(*old(b), z))) ==> packing_ok(
                previous.value(*old(b), z),
                page.value(*old(b), z),
            ),
        ({
            let w = old(b).witness();
            old(b).live(w) && page.flags_ok(w) && previous.flags_ok(w) && continuation.at(w)
                == bit_of(continues(page.value(*old(b), w))) && (first ==> !continues(
                page.value(*old(b), w),
            )) ==> (final(b).honest() <==> old(b).honest() && packing_ok(
                previous.value(*old(b), w),
                page.value(*old(b), w),
            ))
        }),
        final(b).shape() == packing_step(
            old(b).shape(),
            page.forms(),
            previous.forms(),
            continuation@,
            first,
        ),
{
    reveal(packing_step);
    let ghost before = *b;
    let ghost w = b.witness();
    prefix_bits(b, page.raw_inputs.as_slice());
    let ghost b1 = *b;
    proof {
        lemma_page_bounded(*page, before.wires(), b1.wires());
    }
    prefix_bits(b, page.raw_outputs.as_slice());
    let ghost b2 = *b;
    let n_in = page.raw_inputs.len();
    let n_out = page.raw_outputs.len();
    proof {
        assert(page.raw_inputs@[0].bound() <= before.wires());
        assert(page.raw_inputs@[n_in - 1].bound() <= before.wires());
        assert(page.raw_outputs@[0].bound() <= before.wires());
        assert(page.raw_outputs@[n_out - 1].bound() <= before.wires());
    }
    let mut crosses_input_gap = LinExpr::zero();
    let mut crosses_output_gap = LinExpr::zero();
    let ghost mut b3 = *b;
    let ghost mut b4 = *b;
    let ghost mut b5 = *b;
    let ghost mut b6 = *b;
    if !first {
        let input_room = previous.last_input.add_const(F128::one());
        crosses_input_gap = crate::trace::mul(b, &page.raw_inputs[0], &input_room);
        proof {
            b3 = *b;
        }
        pin_when(b, continuation, &crosses_input_gap);
        proof {
            b4 = *b;
        }
        let output_room = previous.last_output.add_const(F128::one());
        crosses_output_gap = crate::trace::mul(b, &page.raw_outputs[0], &output_room);
        proof {
            b5 = *b;
        }
        pin_when(b, continuation, &crosses_output_gap);
        proof {
            b6 = *b;
            assert forall|z: spec_fn(int) -> u128| #[trigger]
                b3.holds(z) && page.flags_ok(z) && previous.flags_ok(z)
                implies crosses_input_gap.at(z) == bit_of(
                exprs_at(page.raw_inputs@, z)[0] == 1 && previous.last_input.at(z) != 1,
            ) by {
                assert(is_bit(exprs_at(page.raw_inputs@, z)[0]));
                lemma_bit_ops(previous.last_input.at(z), 1);
                lemma_bit_ops(page.raw_inputs@[0].at(z), input_room.at(z));
            }
            assert forall|z: spec_fn(int) -> u128| #[trigger]
                b5.holds(z) && page.flags_ok(z) && previous.flags_ok(z)
                implies crosses_output_gap.at(z) == bit_of(
                exprs_at(page.raw_outputs@, z)[0] == 1 && previous.last_output.at(z) != 1,
            ) by {
                assert(is_bit(exprs_at(page.raw_outputs@, z)[0]));
                lemma_bit_ops(previous.last_output.at(z), 1);
                lemma_bit_ops(page.raw_outputs@[0].at(z), output_room.at(z));
            }
        }
    }
    let not_end = page.end.add_const(F128::one());
    let needs_next = crate::trace::mul(b, &page.live, &not_end);
    let ghost b7 = *b;
    let no_full_input = page.raw_inputs[n_in - 1].add_const(F128::one());
    let no_full_output = page.raw_outputs[n_out - 1].add_const(F128::one());
    let neither_full = crate::trace::mul(b, &no_full_input, &no_full_output);
    let ghost b8 = *b;
    pin_when(b, &needs_next, &neither_full);
    proof {
        assert forall|z: spec_fn(int) -> u128| #[trigger] b8.holds(z) && page.flags_ok(z) implies {
            &&& needs_next.at(z) == bit_of(page.live.at(z) == 1 && page.end.at(z) != 1)
            &&& neither_full.at(z) == bit_of(
                exprs_at(page.raw_inputs@, z).last() != 1 && exprs_at(page.raw_outputs@, z).last()
                    != 1,
            )
        } by {
            assert(b7.holds(z));
            lemma_bit_ops(page.end.at(z), 1);
            lemma_bit_ops(page.live.at(z), not_end.at(z));
            let vi = exprs_at(page.raw_inputs@, z);
            let vo = exprs_at(page.raw_outputs@, z);
            assert(is_bit(vi[n_in - 1]) && is_bit(vo[n_out - 1]));
            lemma_bit_ops(vi[n_in - 1], 1);
            lemma_bit_ops(vo[n_out - 1], 1);
            lemma_bit_ops(no_full_input.at(z), no_full_output.at(z));
        }
        assert forall|z: spec_fn(int) -> u128| #[trigger]
            b.holds(z) && before.live(z) && page.flags_ok(z) && previous.flags_ok(z)
                && continuation.at(z) == bit_of(continues(page.value(before, z))) && (first
                ==> !continues(page.value(before, z))) implies packing_ok(
            previous.value(before, z),
            page.value(before, z),
        ) by {
            assert(b8.holds(z) && b7.holds(z) && b6.holds(z) && b5.holds(z) && b4.holds(z)
                && b3.holds(z) && b2.holds(z) && b1.holds(z));
            assert(b1.live(z) && b3.live(z) && b5.live(z) && b8.live(z));
        }
        if before.live(w) && page.flags_ok(w) && previous.flags_ok(w) && continuation.at(w)
            == bit_of(continues(page.value(before, w))) && (first ==> !continues(
            page.value(before, w),
        )) {
            lemma_page_kept(b1, before, *page);
            lemma_exprs_kept(b1, before, page.raw_outputs@);
            lemma_page_kept(b3, before, *page);
            lemma_run_kept(b3, before, *previous);
            lemma_page_kept(b5, before, *page);
            lemma_run_kept(b5, before, *previous);
            lemma_page_kept(b8, before, *page);
            lemma_exprs_kept(b3, before, page.raw_inputs@);
            lemma_exprs_kept(b5, before, page.raw_outputs@);
            lemma_exprs_kept(b8, before, page.raw_inputs@);
            lemma_exprs_kept(b8, before, page.raw_outputs@);
            assert(continuation.at(b3.witness()) == continuation.at(w));
            assert(continuation.at(b5.witness()) == continuation.at(w));
            assert(page.live.at(b8.witness()) == page.live.at(w));
            assert(page.end.at(b8.witness()) == page.end.at(w));
            assert(previous.last_input.at(b3.witness()) == previous.last_input.at(w));
            assert(previous.last_output.at(b5.witness()) == previous.last_output.at(w));
            if b2.honest() {
                assert(b3.honest());
                assert(b3.holds(b3.witness()));
            }
            if b4.honest() {
                assert(b5.honest());
                assert(b5.holds(b5.witness()));
            }
            if b6.honest() {
                assert(b8.honest());
                assert(b8.holds(b8.witness()));
            }
        }
    }
}

/// The rows of the running totals and of the balance, and the next state.
#[verifier::opaque]
pub open spec fn totals_step(s: Shape, page: PageForms, previous: RunForms, remaining: LinForm) -> (
    Shape,
    RunForms,
) {
    let (s1, input_count) = rolling_step(
        s,
        previous.input_count,
        page.live_input_count,
        page.start,
        page.live,
        11,
    );
    let (s2, output_count) = rolling_step(
        s1,
        previous.output_count,
        page.live_output_count,
        page.start,
        page.live,
        9,
    );
    let (s3, input_sum) = rolling_step(
        s2,
        previous.input_sum,
        page.input_sum,
        page.start,
        page.live,
        74,
    );
    let (s4, output_sum) = rolling_step(
        s3,
        previous.output_sum,
        page.output_sum,
        page.start,
        page.live,
        74,
    );
    let (s5, grouped) = mux_step(s4, page.start, page.paid_fee, previous.fee);
    let (s6, fee) = mul_step(s5, page.live, grouped);
    let s7 = range_step(s6, input_count, 11);
    let s8 = nonzero_step(s7, page.end, wire_forms(wires_from(s6.n(), 11)));
    let (s9, spent) = add_step(s8, output_sum, fee, 74);
    (
        pin_when_step(s9, page.end, form_add(input_sum, spent)),
        RunForms {
            remaining,
            end: page.end,
            last_input: page.raw_inputs.last(),
            last_output: page.raw_outputs.last(),
            owner: page.owner,
            epoch: page.epoch,
            input_count,
            output_count,
            input_sum,
            output_sum,
            fee,
        },
    )
}

/// Binds the running totals of a page and, on an end page, the balance.
fn bind_totals(
    b: &mut FieldR1csBuilder,
    page: &PageTrace,
    previous: &RunTrace,
    remaining: LinExpr,
) -> (run: RunTrace)
    requires
        old(b).wf(),
        page.bounded(old(b).wires()),
        previous.bounded(old(b).wires()),
        remaining.bound() <= old(b).wires(),
    ensures
        refines(*final(b), *old(b)),
        run.bounded(final(b).wires()),
        run.remaining@ == remaining@,
        forall|z: spec_fn(int) -> u128| #[trigger]
            final(b).holds(z) && old(b).live(z) && page.flags_ok(z) ==> {
                let p = page.value(*old(b), z);
                let prev = previous.value(*old(b), z);
                let next = next_run(prev, p, int_at(*old(b), remaining@, z));
                &&& run.flags_ok(z)
                &&& run.value(*old(b), z) == next
                &&& totals_ok(prev, p, next)
            },
        ({
            let w = old(b).witness();
            let p = page.value(*old(b), w);
            let prev = previous.value(*old(b), w);
            old(b).live(w) && page.flags_ok(w) ==> (final(b).honest() <==> old(b).honest()
                && totals_ok(prev, p, next_run(prev, p, int_at(*old(b), remaining@, w))))
        }),
        totals_step(old(b).shape(), page.forms(), previous.forms(), remaining@) == (
            final(b).shape(),
            run.forms(),
        ),
{
    reveal(totals_step);
    let ghost before = *b;
    let ghost w = b.witness();
    let ghost t = b.flat_basis();
    let input_count = rolling_sum(
        b,
        &previous.input_count,
        &page.live_input_count,
        &page.start,
        &page.live,
        COUNT_BITS,
    );
    let ghost b1 = *b;
    let output_count = rolling_sum(
        b,
        &previous.output_count,
        &page.live_output_count,
        &page.start,
        &page.live,
        OUTPUT_COUNT_BITS,
    );
    let ghost b2 = *b;
    let input_sum = rolling_sum(
        b,
        &previous.input_sum,
        &page.input_sum,
        &page.start,
        &page.live,
        MONEY_BITS,
    );
    let ghost b3 = *b;
    let output_sum = rolling_sum(
        b,
        &previous.output_sum,
        &page.output_sum,
        &page.start,
        &page.live,
        MONEY_BITS,
    );
    let ghost b4 = *b;
    let grouped_fee = mux(b, &page.start, &page.paid_fee, &previous.fee);
    let ghost b5 = *b;
    let fee = crate::trace::mul(b, &page.live, &grouped_fee);
    let ghost b6 = *b;
    let input_count_bits = range_check_bits(b, &input_count, COUNT_BITS);
    let ghost b7 = *b;
    nonzero_when(b, &page.end, input_count_bits.as_slice());
    let ghost b8 = *b;
    let output_plus_fee = integer_add_no_overflow(b, &output_sum, &fee, MONEY_BITS);
    let ghost b9 = *b;
    let imbalance = input_sum.add(&output_plus_fee);
    pin_when(b, &page.end, &imbalance);
    let n_in = page.raw_inputs.len();
    let n_out = page.raw_outputs.len();
    proof {
        assert(page.raw_inputs@[n_in - 1].bound() <= before.wires());
        assert(page.raw_outputs@[n_out - 1].bound() <= before.wires());
        assert(page.owner@.len() == 2 && page.epoch@.len() == 2);
    }
    let run = RunTrace {
        remaining,
        end: page.end.clone(),
        last_input: page.raw_inputs[n_in - 1].clone(),
        last_output: page.raw_outputs[n_out - 1].clone(),
        owner: [page.owner[0].clone(), page.owner[1].clone()],
        epoch: [page.epoch[0].clone(), page.epoch[1].clone()],
        input_count,
        output_count,
        input_sum,
        output_sum,
        fee,
    };
    proof {
        before.lemma_basis_wf();
        // What the totals are, at every assignment that satisfies their rows.
        assert forall|z: spec_fn(int) -> u128| #[trigger]
            b6.holds(z) && before.live(z) && page.flags_ok(z) implies {
            let p = page.value(before, z);
            let prev = previous.value(before, z);
            let next = next_run(prev, p, int_at(before, remaining@, z));
            &&& run.flags_ok(z)
            &&& run.value(before, z) == next
            &&& prev.input_count + p.input_count < pow2(11)
            &&& prev.output_count + p.output_count < pow2(9)
            &&& prev.input_sum + p.input_sum < pow2(74)
            &&& prev.output_sum + p.output_sum < pow2(74)
        } by {
            assert(b5.holds(z) && b4.holds(z) && b3.holds(z) && b2.holds(z) && b1.holds(z));
            assert(b1.live(z) && b2.live(z) && b3.live(z));
            let vi = exprs_at(page.raw_inputs@, z);
            let vo = exprs_at(page.raw_outputs@, z);
            assert(is_bit(vi[n_in - 1]) && is_bit(vo[n_out - 1]));
            lemma_fmul_unit(grouped_fee.at(z));
            lemma_bit_int(before, 0);
            assert(fee.at(z) == fmul(page.live.at(z), grouped_fee.at(z)));
            assert(int_at(before, input_count@, z) == rolled(
                int_at(before, previous.input_count@, z),
                int_at(before, page.live_input_count@, z),
                page.start.at(z) == 1,
                page.live.at(z) == 1,
            ));
            assert(int_at(b1, output_count@, z) == rolled(
                int_at(b1, previous.output_count@, z),
                int_at(b1, page.live_output_count@, z),
                page.start.at(z) == 1,
                page.live.at(z) == 1,
            ));
            assert(int_at(b2, input_sum@, z) == rolled(
                int_at(b2, previous.input_sum@, z),
                int_at(b2, page.input_sum@, z),
                page.start.at(z) == 1,
                page.live.at(z) == 1,
            ));
            assert(int_at(b3, output_sum@, z) == rolled(
                int_at(b3, previous.output_sum@, z),
                int_at(b3, page.output_sum@, z),
                page.start.at(z) == 1,
                page.live.at(z) == 1,
            ));
        }
        assert forall|z: spec_fn(int) -> u128| {
            &&& #[trigger] imbalance.at(z) == 0 <==> int_at(before, input_sum@, z) == int_at(
                before,
                output_plus_fee@,
                z,
            )
        } by {
            lemma_bit_int(before, input_sum.at(z));
            lemma_bit_int(before, output_plus_fee.at(z));
            lemma_xor(input_sum.at(z), output_plus_fee.at(z), 0);
        }
        assert forall|z: spec_fn(int) -> u128| #[trigger]
            b.holds(z) && before.live(z) && page.flags_ok(z) implies {
            let p = page.value(before, z);
            let prev = previous.value(before, z);
            let next = next_run(prev, p, int_at(before, remaining@, z));
            &&& run.flags_ok(z)
            &&& run.value(before, z) == next
            &&& totals_ok(prev, p, next)
        } by {
            assert(b9.holds(z) && b8.holds(z) && b7.holds(z) && b6.holds(z));
            assert(b6.live(z) && b7.live(z) && b8.live(z) && b9.live(z));
            assert(int_at(b6, input_count@, z) == bits_nat(wires_at(input_count_bits@, z)));
            assert(int_at(b8, output_plus_fee@, z) == int_at(b8, output_sum@, z) + int_at(
                b8,
                fee@,
                z,
            ));
            assert(imbalance.at(z) == 0 <==> int_at(before, input_sum@, z) == int_at(
                before,
                output_plus_fee@,
                z,
            ));
        }
        if before.live(w) && page.flags_ok(w) {
            let p = page.value(before, w);
            let prev = previous.value(before, w);
            let next = next_run(prev, p, int_at(before, remaining@, w));
            lemma_page_kept(b1, before, *page);
            lemma_run_kept(b1, before, *previous);
            lemma_page_kept(b2, before, *page);
            lemma_run_kept(b2, before, *previous);
            lemma_page_kept(b3, before, *page);
            lemma_run_kept(b3, before, *previous);
            assert(b6.honest() <==> before.honest() && prev.input_count + p.input_count < pow2(11)
                && prev.output_count + p.output_count < pow2(9) && prev.input_sum + p.input_sum
                < pow2(74) && prev.output_sum + p.output_sum < pow2(74));
            if b6.honest() {
                let u = b6.witness();
                assert(b6.holds(u) && before.live(u));
                lemma_page_kept(b6, before, *page);
                lemma_run_kept(b6, before, *previous);
                assert(remaining.at(u) == remaining.at(w));
                assert(run.value(before, u) == next);
                assert(int_at(before, input_count@, u) == next.input_count);
                assert(b7.honest() <==> next.input_count < pow2(11));
                if b7.honest() {
                    let u7 = b7.witness();
                    assert(b7.holds(u7) && b6.live(u7));
                    assert(input_count.at(u7) == input_count.at(u));
                    assert(int_at(b6, input_count@, u7) == bits_nat(
                        wires_at(input_count_bits@, u7),
                    ));
                    assert(page.end.at(u7) == page.end.at(w));
                    assert(b8.honest() <==> (p.end ==> next.input_count != 0));
                    let u8 = b8.witness();
                    assert(output_sum.at(u8) == output_sum.at(u));
                    assert(fee.at(u8) == fee.at(u));
                    if b9.honest() {
                        let u9 = b9.witness();
                        assert(b9.holds(u9) && b8.live(u9));
                        assert(output_sum.at(u9) == output_sum.at(u));
                        assert(fee.at(u9) == fee.at(u));
                        assert(input_sum.at(u9) == input_sum.at(u));
                        assert(page.end.at(u9) == page.end.at(w));
                        assert(int_at(b8, output_plus_fee@, u9) == next.output_sum + next.fee);
                        assert(imbalance.at(u9) == 0 <==> int_at(before, input_sum@, u9) == int_at(
                            before,
                            output_plus_fee@,
                            u9,
                        ));
                    }
                }
            }
        }
    }
    run
}

/// The rows of one page, and the state it leaves.
#[verifier::opaque]
pub open spec fn page_step(
    s: Shape,
    page: PageForms,
    previous: RunForms,
    next_live: LinForm,
    cap: Seq<LinForm>,
    first: bool,
) -> (Shape, RunForms) {
    let s1 = countdown_step(s, page.live, cap);
    let s2 = markers_step(s1, page, previous.end, next_live);
    let bits = wire_forms(wires_from(s.free().n(), 8));
    let (s3, continuation) = continuity_step(s2, page, previous, s.next(), bits);
    let s4 = packing_step(s3, page, previous, continuation, first);
    totals_step(s4, page, previous, s.next())
}

/// Binds one page: countdown, markers, continuity, packing and totals.
pub fn bind_page(
    b: &mut FieldR1csBuilder,
    page: &PageTrace,
    previous: &RunTrace,
    next_live: &LinExpr,
    remaining_native: u8,
    cap: u8,
    cap_bits: &Vec<Wire>,
    first: bool,
) -> (run: RunTrace)
    requires
        old(b).wf(),
        page.bounded(old(b).wires()),
        previous.bounded(old(b).wires()),
        next_live.bound() <= old(b).wires(),
        first ==> forall|z: spec_fn(int) -> u128| #[trigger] previous.end.at(z) == 1,
        cap_bits@.len() == 8,
        wires_bounded(cap_bits@, old(b).wires()),
        forall|z: spec_fn(int) -> u128| #[trigger]
            old(b).holds(z) ==> all_bits(wires_at(cap_bits@, z)),
        forall|z: spec_fn(int) -> u128| #[trigger]
            old(b).holds(z) && old(b).live(z) ==> bits_nat(wires_at(cap_bits@, z)) == cap,
    ensures
        refines(*final(b), *old(b)),
        run.bounded(final(b).wires()),
        forall|z: spec_fn(int) -> u128| #[trigger]
            final(b).holds(z) && old(b).live(z) && page.flags_ok(z) && previous.flags_ok(z)
                && is_bit(next_live.at(z)) ==> {
                let p = page.value(*old(b), z);
                let prev = previous.value(*old(b), z);
                let v = int_at(*old(b), run.remaining@, z);
                &&& run.flags_ok(z)
                &&& run.value(*old(b), z) == next_run(prev, p, v)
                &&& page_ok(prev, p, v, next_live.at(z) == 1, cap as nat)
            },
        int_at(*old(b), run.remaining@, final(b).witness()) == remaining_native,
        ({
            let w = old(b).witness();
            let p = page.value(*old(b), w);
            let prev = previous.value(*old(b), w);
            old(b).live(w) && page.flags_ok(w) && previous.flags_ok(w) && is_bit(next_live.at(w))
                ==> (final(b).honest() <==> old(b).honest() && page_ok(
                prev,
                p,
                remaining_native as nat,
                next_live.at(w) == 1,
                cap as nat,
            ))
        }),
        page_step(
            old(b).shape(),
            page.forms(),
            previous.forms(),
            next_live@,
            wire_forms(cap_bits@),
            first,
        ) == (final(b).shape(), run.forms()),
{
    reveal(page_step);
    let ghost before = *b;
    let ghost w = b.witness();
    let (remaining, remaining_bits) = bind_countdown(
        b,
        &page.live,
        remaining_native,
        cap,
        cap_bits,
    );
    let ghost b1 = *b;
    proof {
        lemma_page_bounded(*page, before.wires(), b1.wires());
    }
    bind_markers(b, page, &previous.end, next_live);
    let ghost b2 = *b;
    proof {
        lemma_page_bounded(*page, before.wires(), b2.wires());
        assert forall|k: int| 0 <= k < remaining_bits@.len() implies (#[trigger] remaining_bits@[k]).index
            < b2.wires() by {
            assert(remaining_bits@[k].index < b1.wires());
        }
        assert forall|z: spec_fn(int) -> u128| #[trigger] b2.holds(z) implies all_bits(
            wires_at(remaining_bits@, z),
        ) by {
            assert(b1.holds(z));
        }
        assert forall|z: spec_fn(int) -> u128| #[trigger]
            b2.holds(z) && b2.live(z) && page.flags_ok(z) implies bits_nat(
            wires_at(remaining_bits@, z),
        ) == int_at(b2, remaining@, z) by {
            assert(b1.holds(z) && before.live(z));
        }
    }
    let continuation = bind_continuity(b, page, previous, &remaining, &remaining_bits);
    let ghost b3 = *b;
    proof {
        lemma_page_bounded(*page, before.wires(), b3.wires());
    }
    bind_packing(b, page, previous, &continuation, first);
    let ghost b4 = *b;
    proof {
        lemma_page_bounded(*page, before.wires(), b4.wires());
    }
    let ghost rem = remaining@;
    let run = bind_totals(b, page, previous, remaining);
    proof {
        reveal(page_ok);
        assert forall|z: spec_fn(int) -> u128| #[trigger]
            b.holds(z) && before.live(z) && page.flags_ok(z) && previous.flags_ok(z) && is_bit(
                next_live.at(z),
            ) implies {
            let p = page.value(before, z);
            let prev = previous.value(before, z);
            let v = int_at(before, run.remaining@, z);
            &&& run.flags_ok(z)
            &&& run.value(before, z) == next_run(prev, p, v)
            &&& page_ok(prev, p, v, next_live.at(z) == 1, cap as nat)
        } by {
            assert(b4.holds(z) && b3.holds(z) && b2.holds(z) && b1.holds(z));
            assert(b1.live(z) && b2.live(z) && b3.live(z) && b4.live(z));
            lemma_value_basis(before, b2, *page, *previous, z);
            lemma_value_basis(before, b3, *page, *previous, z);
            lemma_value_basis(before, b4, *page, *previous, z);
            lemma_run_basis(before, b4, run, z);
            if first {
                assert(previous.end.at(z) == 1);
            }
        }
        assert(rem.at(b.witness()) == rem.at(b1.witness()));
        if before.live(w) && page.flags_ok(w) && previous.flags_ok(w) && is_bit(next_live.at(w)) {
            let p = page.value(before, w);
            let prev = previous.value(before, w);
            vstd::arithmetic::power2::lemma2_to64();
            lemma_page_kept(b1, before, *page);
            assert(previous.end.at(b1.witness()) == previous.end.at(w));
            assert(next_live.at(b1.witness()) == next_live.at(w));
            assert(page.start.at(b1.witness()) == page.start.at(w));
            assert(page.live.at(b1.witness()) == page.live.at(w));
            assert(page.end.at(b1.witness()) == page.end.at(w));
            lemma_page_kept(b2, before, *page);
            lemma_run_kept(b2, before, *previous);
            lemma_page_kept(b3, before, *page);
            lemma_run_kept(b3, before, *previous);
            lemma_page_kept(b4, before, *page);
            lemma_run_kept(b4, before, *previous);
            lemma_value_basis(before, b2, *page, *previous, b2.witness());
            lemma_value_basis(before, b3, *page, *previous, b3.witness());
            lemma_value_basis(before, b4, *page, *previous, b4.witness());
            assert(rem.at(b2.witness()) == rem.at(b1.witness()));
            assert(rem.at(b4.witness()) == rem.at(b1.witness()));
            if first {
                assert(previous.end.at(w) == 1);
            }
            if b3.honest() {
                assert(b3.holds(b3.witness()));
                assert(b2.honest() && b1.honest());
            }
        }
    }
    run
}

/// What a page and a run carry depends on the builder only through its basis.
proof fn lemma_value_basis(
    x: FieldR1csBuilder,
    y: FieldR1csBuilder,
    page: PageTrace,
    run: RunTrace,
    z: spec_fn(int) -> u128,
)
    requires
        x.flat_basis() == y.flat_basis(),
    ensures
        page.value(x, z) == page.value(y, z),
        run.value(x, z) == run.value(y, z),
{
}

proof fn lemma_run_basis(
    x: FieldR1csBuilder,
    y: FieldR1csBuilder,
    run: RunTrace,
    z: spec_fn(int) -> u128,
)
    requires
        x.flat_basis() == y.flat_basis(),
    ensures
        run.value(x, z) == run.value(y, z),
{
}

/// The totals before page `n`.
pub open spec fn run_at(pages: Seq<PageValue>, remaining: Seq<nat>, n: nat) -> RunValue
    decreases n,
{
    if n == 0 {
        initial_run()
    } else {
        next_run(run_at(pages, remaining, (n - 1) as nat), pages[n - 1], remaining[n - 1])
    }
}

/// The page after page `i` is live.
pub open spec fn next_is_live(pages: Seq<PageValue>, i: int) -> bool {
    i + 1 < pages.len() && pages[i + 1].live
}

/// The first `n` pages pass the scanner with the given countdowns.
pub open spec fn stream_ok(
    pages: Seq<PageValue>,
    remaining: Seq<nat>,
    cap: nat,
    n: nat,
) -> bool {
    forall|i: int|
        0 <= i < n ==> page_ok(
            run_at(pages, remaining, i as nat),
            #[trigger] pages[i],
            remaining[i],
            next_is_live(pages, i),
            cap,
        )
}

/// A page stream is valid when some countdowns pass.
pub open spec fn stream_valid(pages: Seq<PageValue>, cap: nat) -> bool {
    exists|remaining: Seq<nat>|
        remaining.len() == pages.len() && #[trigger] stream_ok(
            pages,
            remaining,
            cap,
            pages.len(),
        )
}

/// The countdown of a page: one on an end page, one more than the next page's
/// on another live page, zero on a dead page.
pub open spec fn countdown(pages: Seq<PageValue>, i: int) -> nat
    decreases pages.len() - i,
{
    if i < 0 || i >= pages.len() || !pages[i].live {
        0
    } else if pages[i].end {
        1
    } else {
        countdown(pages, i + 1) + 1
    }
}

/// Countdowns that pass are the distances to the end of each group.
pub proof fn lemma_countdown_unique(
    pages: Seq<PageValue>,
    remaining: Seq<nat>,
    cap: nat,
    i: int,
)
    requires
        remaining.len() == pages.len(),
        stream_ok(pages, remaining, cap, pages.len()),
        0 <= i < pages.len(),
    ensures
        remaining[i] == countdown(pages, i),
        remaining[i] < cap,
    decreases pages.len() - i,
{
    reveal(page_ok);
    assert(page_ok(
        run_at(pages, remaining, i as nat),
        pages[i],
        remaining[i],
        next_is_live(pages, i),
        cap,
    ));
    if pages[i].live && !pages[i].end {
        assert(next_is_live(pages, i));
        let j = i + 1;
        assert(page_ok(
            run_at(pages, remaining, j as nat),
            pages[j],
            remaining[j],
            next_is_live(pages, j),
            cap,
        ));
        assert(run_at(pages, remaining, j as nat) == next_run(
            run_at(pages, remaining, i as nat),
            pages[i],
            remaining[i],
        ));
        lemma_countdown_unique(pages, remaining, cap, j);
    }
}

/// The page values of a list of pages.
pub open spec fn pages_at(
    b: FieldR1csBuilder,
    pages: Seq<PageTrace>,
    z: spec_fn(int) -> u128,
) -> Seq<PageValue> {
    Seq::new(pages.len(), |i: int| pages[i].value(b, z))
}

pub open spec fn pages_bounded(pages: Seq<PageTrace>, n: nat) -> bool {
    forall|i: int| 0 <= i < pages.len() ==> (#[trigger] pages[i]).bounded(n)
}

pub open spec fn pages_flags_ok(pages: Seq<PageTrace>, z: spec_fn(int) -> u128) -> bool {
    forall|i: int| 0 <= i < pages.len() ==> (#[trigger] pages[i]).flags_ok(z)
}

/// The countdown of every page under the recorded witness, capped at 255.
pub fn native_remaining_counts(b: &FieldR1csBuilder, pages: &Vec<PageTrace>) -> (r: Vec<u8>)
    requires
        b.wf(),
        pages_bounded(pages@, b.wires()),
        pages_flags_ok(pages@, b.witness()),
    ensures
        r@.len() == pages@.len(),
        forall|i: int|
            0 <= i < pages@.len() ==> #[trigger] r@[i] == {
                let c = countdown(pages_at(*b, pages@, b.witness()), i);
                if c < 255 {
                    c as u8
                } else {
                    255u8
                }
            },
{
    let n = pages.len();
    let ghost vals = pages_at(*b, pages@, b.witness());
    let mut reversed: Vec<u8> = Vec::new();
    let mut next: u8 = 0;
    let mut i: usize = n;
    while i > 0
        invariant
            i <= n,
            n == pages@.len(),
            b.wf(),
            vals == pages_at(*b, pages@, b.witness()),
            pages_bounded(pages@, b.wires()),
            pages_flags_ok(pages@, b.witness()),
            reversed@.len() == n - i,
            next == (if countdown(vals, i as int) < 255 {
                countdown(vals, i as int) as u8
            } else {
                255u8
            }),
            forall|k: int|
                0 <= k < n - i ==> #[trigger] reversed@[k] == {
                    let c = countdown(vals, n - 1 - k);
                    if c < 255 {
                        c as u8
                    } else {
                        255u8
                    }
                },
        decreases i,
    {
        i = i - 1;
        assert(pages@[i as int].bounded(b.wires()));
        assert(pages@[i as int].flags_ok(b.witness()));
        let live = native_bool(b, &pages[i].live);
        let end = native_bool(b, &pages[i].end);
        assert(vals[i as int] == pages@[i as int].value(*b, b.witness()));
        next =
        if !live {
            0
        } else if end {
            1
        } else if next < 255 {
            next + 1
        } else {
            255
        };
        reversed.push(next);
    }
    let mut r: Vec<u8> = Vec::new();
    let mut k: usize = 0;
    while k < n
        invariant
            k <= n,
            n == pages@.len(),
            reversed@.len() == n,
            vals == pages_at(*b, pages@, b.witness()),
            r@.len() == k,
            forall|j: int|
                0 <= j < n ==> #[trigger] reversed@[j] == {
                    let c = countdown(vals, n - 1 - j);
                    if c < 255 {
                        c as u8
                    } else {
                        255u8
                    }
                },
            forall|j: int|
                0 <= j < k ==> #[trigger] r@[j] == {
                    let c = countdown(vals, j);
                    if c < 255 {
                        c as u8
                    } else {
                        255u8
                    }
                },
        decreases n - k,
    {
        assert(reversed@[n - 1 - k] == {
            let c = countdown(vals, n - 1 - (n - 1 - k));
            if c < 255 {
                c as u8
            } else {
                255u8
            }
        });
        r.push(reversed[n - 1 - k]);
        k = k + 1;
    }
    r
}

/// What the state before the first page reads.
pub open spec fn initial_forms() -> RunForms {
    RunForms {
        remaining: const_form(0),
        end: const_form(1),
        last_input: const_form(1),
        last_output: const_form(1),
        owner: (const_form(0), const_form(0)),
        epoch: (const_form(0), const_form(0)),
        input_count: const_form(0),
        output_count: const_form(0),
        input_sum: const_form(0),
        output_sum: const_form(0),
        fee: const_form(0),
    }
}

/// The totals before the first page.
fn initial_trace() -> (r: RunTrace)
    ensures
        r.bounded(0),
        forall|z: spec_fn(int) -> u128| #[trigger] r.end.at(z) == 1,
        forall|z: spec_fn(int) -> u128| #[trigger] r.flags_ok(z),
        forall|b: FieldR1csBuilder, z: spec_fn(int) -> u128|
            b.wf() ==> #[trigger] r.value(b, z) == initial_run(),
        r.forms() == initial_forms(),
{
    let r = RunTrace {
        remaining: LinExpr::zero(),
        end: LinExpr::one(),
        last_input: LinExpr::one(),
        last_output: LinExpr::one(),
        owner: [LinExpr::zero(), LinExpr::zero()],
        epoch: [LinExpr::zero(), LinExpr::zero()],
        input_count: LinExpr::zero(),
        output_count: LinExpr::zero(),
        input_sum: LinExpr::zero(),
        output_sum: LinExpr::zero(),
        fee: LinExpr::zero(),
    };
    assert forall|z: spec_fn(int) -> u128| #[trigger] r.flags_ok(z) by {
        assert(r.end.at(z) == 1 && r.last_input.at(z) == 1 && r.last_output.at(z) == 1);
    }
    assert forall|b: FieldR1csBuilder, z: spec_fn(int) -> u128|
        b.wf() implies #[trigger] r.value(b, z) == initial_run() by {
        lemma_bit_int(b, 0);
        assert(r.remaining.at(z) == 0 && r.input_count.at(z) == 0 && r.output_count.at(z) == 0);
        assert(r.input_sum.at(z) == 0 && r.output_sum.at(z) == 0 && r.fee.at(z) == 0);
        assert(r.end.at(z) == 1 && r.last_input.at(z) == 1 && r.last_output.at(z) == 1);
        assert(r.owner@[0].at(z) == 0 && r.owner@[1].at(z) == 0);
        assert(r.epoch@[0].at(z) == 0 && r.epoch@[1].at(z) == 0);
    }
    r
}

/// The countdowns that the runs carry.
pub open spec fn remaining_at(
    b: FieldR1csBuilder,
    runs: Seq<RunTrace>,
    z: spec_fn(int) -> u128,
) -> Seq<nat> {
    Seq::new(runs.len(), |i: int| int_at(b, runs[i].remaining@, z))
}

proof fn lemma_run_at_prefix(pages: Seq<PageValue>, x: Seq<nat>, y: Seq<nat>, n: nat)
    requires
        forall|i: int| 0 <= i < n ==> x[i] == y[i],
    ensures
        run_at(pages, x, n) == run_at(pages, y, n),
    decreases n,
{
    if n > 0 {
        lemma_run_at_prefix(pages, x, y, (n - 1) as nat);
    }
}

proof fn lemma_pages_kept(
    after: FieldR1csBuilder,
    before: FieldR1csBuilder,
    pages: Seq<PageTrace>,
)
    requires
        before.wf(),
        after.extends(&before),
        pages_bounded(pages, before.wires()),
    ensures
        pages_at(before, pages, after.witness()) == pages_at(before, pages, before.witness()),
        pages_flags_ok(pages, after.witness()) == pages_flags_ok(pages, before.witness()),
{
    assert forall|i: int| 0 <= i < pages.len() implies (#[trigger] pages[i]).value(
        before,
        after.witness(),
    ) == pages[i].value(before, before.witness()) && pages[i].flags_ok(after.witness())
        == pages[i].flags_ok(before.witness()) by {
        lemma_page_kept(after, before, pages[i]);
    }
    assert(pages_at(before, pages, after.witness()) =~= pages_at(before, pages, before.witness()));
}

/// The first `n` pages pass with the countdowns of the distances.
pub open spec fn prefix_ok(pages: Seq<PageValue>, cap: nat, n: nat) -> bool {
    let remaining = Seq::new(pages.len(), |i: int| countdown(pages, i));
    stream_ok(pages, remaining, cap, n)
}

/// What the pages of a stream read.
pub open spec fn page_forms(pages: Seq<PageTrace>) -> Seq<PageForms> {
    pages.map_values(|p: PageTrace| p.forms())
}

/// What the states after the pages read.
pub open spec fn run_forms(runs: Seq<RunTrace>) -> Seq<RunForms> {
    runs.map_values(|r: RunTrace| r.forms())
}

/// The rows of the first `n` pages, each followed by what `host` records for
/// it, and the states they leave.
#[verifier::opaque]
pub open spec fn pages_step(
    s: Shape,
    pages: Seq<PageForms>,
    cap: Seq<LinForm>,
    host: spec_fn(Shape, int, RunForms) -> Shape,
    n: nat,
) -> (Shape, Seq<RunForms>)
    decreases n,
{
    if n == 0 {
        (s, Seq::empty())
    } else {
        let (t, runs) = pages_step(s, pages, cap, host, (n - 1) as nat);
        let (u, run) = page_step(
            t,
            pages[n - 1],
            previous_forms(runs),
            next_form(pages, n - 1),
            cap,
            n == 1,
        );
        (host(u, n - 1, run), runs.push(run))
    }
}

/// What the state before the next page reads.
pub open spec fn previous_forms(runs: Seq<RunForms>) -> RunForms {
    if runs.len() == 0 {
        initial_forms()
    } else {
        runs.last()
    }
}

/// The live mark of the page behind page `i`.
pub open spec fn next_form(pages: Seq<PageForms>, i: int) -> LinForm {
    if i + 1 < pages.len() {
        pages[i + 1].live
    } else {
        const_form(0)
    }
}

/// The rows that open a stream: the bits of its page cap.
#[verifier::opaque]
pub open spec fn open_step(s: Shape, max_pages: u8) -> Shape {
    range_step(s, const_form((s.flat)((max_pages + 1) as u128)), 8)
}

/// The rows of a whole stream of pages with the host's rows in between, and the
/// states they leave. They depend on the number of pages and their forms: not
/// on how the pages are grouped, nor on any amount.
#[verifier::opaque]
pub open spec fn stream_step(
    s: Shape,
    pages: Seq<PageForms>,
    max_pages: u8,
    host: spec_fn(Shape, int, RunForms) -> Shape,
) -> (Shape, Seq<RunForms>) {
    pages_step(
        open_step(s, max_pages),
        pages,
        wire_forms(wires_from(s.n(), 8)),
        host,
        pages.len(),
    )
}

/// One page more, and the host's rows behind it, lead from the rows of `n` pages to
/// those of the next.
pub proof fn lemma_next_rows(
    s: Shape,
    pages: Seq<PageForms>,
    cap: Seq<LinForm>,
    host: spec_fn(Shape, int, RunForms) -> Shape,
    n: nat,
)
    ensures
        pages_step(s, pages, cap, host, 0) == (s, Seq::<RunForms>::empty()),
        ({
            let (t, runs) = pages_step(s, pages, cap, host, n);
            let (u, run) = page_step(
                t,
                pages[n as int],
                previous_forms(runs),
                next_form(pages, n as int),
                cap,
                n == 0,
            );
            pages_step(s, pages, cap, host, n + 1) == (host(u, n as int, run), runs.push(run))
        }),
{
    reveal_with_fuel(pages_step, 2);
}

/// A stream of physical pages that is being bound page by page.
pub struct PagedSpendStream {
    /// One more than the pages that a group may have, and its bits.
    pub cap: u8,
    pub cap_bits: Vec<Wire>,
    /// The countdown of every page under the recorded witness, capped at 255.
    pub remaining: Vec<u8>,
    /// The running totals after every page that has been bound.
    pub runs: Vec<RunTrace>,
}

/// What the rows force of the pages that have been bound.
pub open spec fn pages_forced(
    b: FieldR1csBuilder,
    pages: Seq<PageTrace>,
    runs: Seq<RunTrace>,
    cap: nat,
    z: spec_fn(int) -> u128,
) -> bool {
    let vals = pages_at(b, pages, z);
    let remaining = remaining_at(b, runs, z);
    &&& stream_ok(vals, remaining, cap, runs.len())
    &&& forall|k: int|
        0 <= k < runs.len() ==> (#[trigger] runs[k]).flags_ok(z) && runs[k].value(b, z) == run_at(
            vals,
            remaining,
            (k + 1) as nat,
        )
}

impl PagedSpendStream {
    /// What holds of a stream between two pages: the rows of `b` force the pages
    /// bound so far, and if the recorded witness satisfies them its pages pass.
    pub open spec fn scanned(&self, b: FieldR1csBuilder, pages: Seq<PageTrace>) -> bool {
        let w = b.witness();
        let vals = pages_at(b, pages, w);
        &&& b.wf()
        &&& self.cap > 0
        &&& self.runs@.len() <= pages.len()
        &&& pages_bounded(pages, b.wires())
        &&& pages_flags_ok(pages, w)
        &&& self.cap_bits@.len() == 8
        &&& wires_bounded(self.cap_bits@, b.wires())
        &&& forall|z: spec_fn(int) -> u128| #[trigger]
            b.holds(z) ==> all_bits(wires_at(self.cap_bits@, z))
        &&& forall|z: spec_fn(int) -> u128| #[trigger]
            b.holds(z) && b.live(z) ==> bits_nat(wires_at(self.cap_bits@, z)) == self.cap
        &&& forall|k: int|
            0 <= k < self.runs@.len() ==> (#[trigger] self.runs@[k]).bounded(b.wires())
        &&& self.remaining@.len() == pages.len()
        &&& forall|k: int|
            0 <= k < pages.len() ==> #[trigger] self.remaining@[k] == {
                let c = countdown(vals, k);
                if c < 255 {
                    c as u8
                } else {
                    255u8
                }
            }
        &&& forall|z: spec_fn(int) -> u128| #[trigger]
            b.holds(z) && b.live(z) && pages_flags_ok(pages, z) ==> pages_forced(
                b,
                pages,
                self.runs@,
                self.cap as nat,
                z,
            )
        &&& (b.live(w) && b.honest() ==> prefix_ok(vals, self.cap as nat, self.runs@.len()))
        &&& (b.live(w) && b.honest() ==> forall|k: int|
            0 <= k < self.runs@.len() ==> int_at(b, (#[trigger] self.runs@[k]).remaining@, w)
                == countdown(vals, k))
    }

    /// A stream stays scanned while others record rows.
    pub proof fn lemma_scanned_kept(
        &self,
        after: FieldR1csBuilder,
        before: FieldR1csBuilder,
        pages: Seq<PageTrace>,
    )
        requires
            self.scanned(before, pages),
            refines(after, before),
        ensures
            self.scanned(after, pages),
    {
        let w = before.witness();
        let v = after.witness();
        lemma_pages_kept(after, before, pages);
        assert forall|z: spec_fn(int) -> u128| pages_at(after, pages, z) == #[trigger] pages_at(
            before,
            pages,
            z,
        ) by {
            lemma_pages_basis(after, before, pages, z);
        }
        assert forall|i: int| 0 <= i < pages.len() implies (#[trigger] pages[i]).bounded(
            after.wires(),
        ) by {
            lemma_page_bounded(pages[i], before.wires(), after.wires());
        }
        assert forall|k: int| 0 <= k < self.cap_bits@.len() implies (
        #[trigger] self.cap_bits@[k]).index < after.wires() by {
            assert(self.cap_bits@[k].index < before.wires());
        }
        assert forall|z: spec_fn(int) -> u128| #[trigger] after.holds(z) implies all_bits(
            wires_at(self.cap_bits@, z),
        ) by {
            assert(before.holds(z));
        }
        assert forall|z: spec_fn(int) -> u128| #[trigger]
            after.holds(z) && after.live(z) implies bits_nat(wires_at(self.cap_bits@, z))
            == self.cap by {
            assert(before.holds(z) && before.live(z));
        }
        assert forall|k: int| 0 <= k < self.runs@.len() implies (
        #[trigger] self.runs@[k]).bounded(after.wires()) by {
            assert(self.runs@[k].bounded(before.wires()));
        }
        assert forall|z: spec_fn(int) -> u128| #[trigger]
            after.holds(z) && after.live(z) && pages_flags_ok(pages, z) implies pages_forced(
            after,
            pages,
            self.runs@,
            self.cap as nat,
            z,
        ) by {
            assert(before.holds(z) && before.live(z));
            assert(pages_at(after, pages, z) == pages_at(before, pages, z));
            assert(remaining_at(after, self.runs@, z) =~= remaining_at(before, self.runs@, z));
            assert forall|k: int| 0 <= k < self.runs@.len() implies self.runs@[k].value(after, z)
                == (#[trigger] self.runs@[k]).value(before, z) by {
                lemma_run_basis(after, before, self.runs@[k], z);
            }
        }
        if after.live(v) && after.honest() {
            assert(before.holds(v));
            assert(before.honest() && before.live(w));
            assert forall|k: int| 0 <= k < self.runs@.len() implies int_at(
                after,
                (#[trigger] self.runs@[k]).remaining@,
                v,
            ) == countdown(pages_at(after, pages, v), k) by {
                assert(self.runs@[k].remaining@.at(v) == self.runs@[k].remaining@.at(w));
            }
        }
    }

    /// A stream whose pages have all been bound forces valid pages: whatever was
    /// recorded in between, every assignment that satisfies the rows carries a
    /// valid stream.
    pub proof fn lemma_stream_forced(
        &self,
        b: FieldR1csBuilder,
        pages: Seq<PageTrace>,
        z: spec_fn(int) -> u128,
    )
        requires
            self.scanned(b, pages),
            self.runs@.len() == pages.len(),
            b.holds(z),
            b.live(z),
            pages_flags_ok(pages, z),
        ensures
            stream_valid(pages_at(b, pages, z), self.cap as nat),
    {
        let vals = pages_at(b, pages, z);
        let remaining = remaining_at(b, self.runs@, z);
        assert(pages_forced(b, pages, self.runs@, self.cap as nat, z));
        assert(stream_ok(vals, remaining, self.cap as nat, vals.len()));
    }

    /// Binds the next page. `b` may hold rows that others recorded since the
    /// last one.
    pub fn next_page(&mut self, b: &mut FieldR1csBuilder, pages: &Vec<PageTrace>)
        requires
            old(self).scanned(*old(b), pages@),
            old(self).runs@.len() < pages@.len(),
        ensures
            refines(*final(b), *old(b)),
            final(self).scanned(*final(b), pages@),
            final(self).cap == old(self).cap,
            final(self).cap_bits@ == old(self).cap_bits@,
            final(self).runs@.len() == old(self).runs@.len() + 1,
            final(self).runs@.drop_last() == old(self).runs@,
            old(b).live(old(b).witness()) ==> (final(b).honest() <==> old(b).honest()
                && prefix_ok(
                pages_at(*old(b), pages@, old(b).witness()),
                old(self).cap as nat,
                final(self).runs@.len(),
            )),
            page_step(
                old(b).shape(),
                page_forms(pages@)[old(self).runs@.len() as int],
                previous_forms(run_forms(old(self).runs@)),
                next_form(page_forms(pages@), old(self).runs@.len() as int),
                wire_forms(old(self).cap_bits@),
                old(self).runs@.len() == 0,
            ) == (final(b).shape(), final(self).runs@.last().forms()),
    {
        let ghost start = *b;
        let ghost w = b.witness();
        let ghost cap = self.cap as nat;
        let ghost runs0 = self.runs@;
        let ghost wvals = pages_at(start, pages@, w);
        let n = pages.len();
        let i = self.runs.len();
        let previous = if i == 0 {
            initial_trace()
        } else {
            clone_run(&self.runs[i - 1])
        };
        assert(pages@[i as int].bounded(start.wires()));
        let next_live = if i + 1 < n {
            assert(pages@[i + 1].bounded(start.wires()));
            pages[i + 1].live.clone()
        } else {
            LinExpr::zero()
        };
        proof {
            start.lemma_basis_wf();
            assert(previous.forms() == previous_forms(run_forms(runs0)));
            if i > 0 {
                assert(runs0[i - 1].bounded(start.wires()));
            }
            assert forall|z: spec_fn(int) -> u128| #[trigger]
                start.holds(z) && start.live(z) && pages_flags_ok(pages@, z) implies {
                let vals = pages_at(start, pages@, z);
                let remaining = remaining_at(start, runs0, z);
                &&& previous.flags_ok(z)
                &&& previous.value(start, z) == run_at(vals, remaining, i as nat)
            } by {
                assert(pages_forced(start, pages@, runs0, cap, z));
                if i == 0 {
                    assert(previous.value(start, z) == initial_run());
                } else {
                    assert(runs0[i - 1].flags_ok(z));
                    assert(previous.flags_ok(z) == runs0[i - 1].flags_ok(z));
                    assert(previous.value(start, z) == runs0[i - 1].value(start, z));
                }
            }
        }
        let run = bind_page(
            b,
            &pages[i],
            &previous,
            &next_live,
            self.remaining[i],
            self.cap,
            &self.cap_bits,
            i == 0,
        );
        proof {
            assert forall|z: spec_fn(int) -> u128| #[trigger] pages_flags_ok(pages@, z) implies {
                &&& is_bit(next_live.at(z))
                &&& (next_live.at(z) == 1) == next_is_live(pages_at(start, pages@, z), i as int)
            } by {
                if i + 1 < n {
                    assert(pages@[i + 1].flags_ok(z));
                }
            }
            self.lemma_scanned_kept(*b, start, pages@);
            assert forall|z: spec_fn(int) -> u128| #[trigger]
                b.holds(z) && b.live(z) && pages_flags_ok(pages@, z) implies pages_forced(
                *b,
                pages@,
                runs0.push(run),
                cap,
                z,
            ) by {
                assert(start.holds(z) && start.live(z));
                assert(pages@[i as int].flags_ok(z));
                assert(is_bit(next_live.at(z)));
                assert(pages_forced(start, pages@, runs0, cap, z));
                lemma_stream_step(start, pages@, runs0, run, cap, z);
                lemma_forced_basis(*b, start, pages@, runs0.push(run), cap, z);
            }
            if start.live(w) {
                if start.honest() {
                    assert(start.holds(start.witness()));
                }
                lemma_stream_honest(
                    start,
                    start,
                    *b,
                    pages@,
                    runs0,
                    run,
                    previous,
                    next_live@,
                    self.remaining@[i as int],
                    cap,
                );
            }
            lemma_pages_kept(*b, start, pages@);
            lemma_pages_basis(*b, start, pages@, b.witness());
        }
        self.runs.push(run);
        proof {
            assert(self.runs@ == runs0.push(run));
            assert(self.runs@.drop_last() =~= runs0);
            assert forall|k: int| 0 <= k < self.runs@.len() implies (
            #[trigger] self.runs@[k]).bounded(b.wires()) by {
                if k < i {
                    assert(runs0[k].bounded(b.wires()));
                }
            }
            if b.live(b.witness()) && b.honest() {
                assert(start.live(w));
                assert forall|k: int| 0 <= k < self.runs@.len() implies int_at(
                    *b,
                    (#[trigger] self.runs@[k]).remaining@,
                    b.witness(),
                ) == countdown(wvals, k) by {
                    assert(int_at(start, runs0.push(run)[k].remaining@, b.witness()) == countdown(
                        wvals,
                        k,
                    ));
                }
            }
        }
    }
}

/// Opens the binding of one class-sized stream of physical pages: the bits of
/// its page cap. Every page then follows with `next_page`, and the host records
/// the hash and the end record of a page right behind it.
pub fn bind_paged_spend_stream(
    b: &mut FieldR1csBuilder,
    pages: &Vec<PageTrace>,
    max_pages: u8,
) -> (stream: PagedSpendStream)
    requires
        old(b).wf(),
        max_pages < 255,
        pages_bounded(pages@, old(b).wires()),
        pages_flags_ok(pages@, old(b).witness()),
    ensures
        refines(*final(b), *old(b)),
        stream.scanned(*final(b), pages@),
        stream.cap == max_pages + 1,
        stream.runs@.len() == 0,
        stream.cap_bits@ == wires_from(old(b).shape().n(), 8),
        old(b).live(old(b).witness()) ==> (final(b).honest() <==> old(b).honest()),
        final(b).shape() == open_step(old(b).shape(), max_pages),
{
    reveal(open_step);
    let ghost before = *b;
    let ghost w = b.witness();
    let remaining = native_remaining_counts(b, pages);
    let cap: u8 = max_pages + 1;
    let cap_expr = const_block(b, cap as u128);
    let cap_bits = range_check_bits(b, &cap_expr, PAGE_COUNT_BITS);
    proof {
        before.lemma_basis_wf();
        vstd::arithmetic::power2::lemma2_to64();
        assert forall|z: spec_fn(int) -> u128| #[trigger]
            b.holds(z) && b.live(z) implies bits_nat(wires_at(cap_bits@, z)) == cap by {
            assert(before.live(z));
            assert(int_at(before, cap_expr@, z) == cap);
        }
        assert(int_at(before, cap_expr@, w) == cap);
        lemma_pages_kept(*b, before, pages@);
        lemma_pages_basis(*b, before, pages@, b.witness());
        assert forall|i: int| 0 <= i < pages@.len() implies (#[trigger] pages@[i]).bounded(
            b.wires(),
        ) by {
            lemma_page_bounded(pages@[i], before.wires(), b.wires());
        }
    }
    PagedSpendStream { cap, cap_bits, remaining, runs: Vec::new() }
}

/// The pages all pass with their own countdowns exactly when the stream is
/// valid.
pub proof fn lemma_prefix_valid(pages: Seq<PageValue>, cap: nat)
    ensures
        prefix_ok(pages, cap, pages.len()) <==> stream_valid(pages, cap),
{
    let own = Seq::new(pages.len(), |k: int| countdown(pages, k));
    if prefix_ok(pages, cap, pages.len()) {
        assert(stream_ok(pages, own, cap, pages.len()));
    }
    if stream_valid(pages, cap) {
        let other = choose|remaining: Seq<nat>|
            remaining.len() == pages.len() && #[trigger] stream_ok(
                pages,
                remaining,
                cap,
                pages.len(),
            );
        assert forall|k: int| 0 <= k < pages.len() implies other[k] == own[k] by {
            lemma_countdown_unique(pages, other, cap, k);
        }
        assert(other =~= own);
    }
}

/// The values of pages depend on the basis of a builder alone.
proof fn lemma_pages_basis(
    after: FieldR1csBuilder,
    before: FieldR1csBuilder,
    pages: Seq<PageTrace>,
    z: spec_fn(int) -> u128,
)
    requires
        after.flat_basis() == before.flat_basis(),
    ensures
        pages_at(after, pages, z) == pages_at(before, pages, z),
{
    assert(pages_at(after, pages, z) =~= pages_at(before, pages, z));
}

proof fn lemma_forced_basis(
    after: FieldR1csBuilder,
    before: FieldR1csBuilder,
    pages: Seq<PageTrace>,
    runs: Seq<RunTrace>,
    cap: nat,
    z: spec_fn(int) -> u128,
)
    requires
        after.flat_basis() == before.flat_basis(),
        pages_forced(before, pages, runs, cap, z),
    ensures
        pages_forced(after, pages, runs, cap, z),
{
    lemma_pages_basis(after, before, pages, z);
    assert(remaining_at(after, runs, z) =~= remaining_at(before, runs, z));
    assert forall|k: int| 0 <= k < runs.len() implies (#[trigger] runs[k]).value(after, z)
        == runs[k].value(before, z) by {
        lemma_run_basis(after, before, runs[k], z);
    }
}

/// A countdown that does not fit a byte passes no check, and neither does the
/// largest byte.
proof fn lemma_capped_countdown(
    prev: RunValue,
    p: PageValue,
    exact: nat,
    capped: u8,
    next_live: bool,
    cap: nat,
)
    requires
        cap <= 255,
        capped == (if exact < 255 {
            exact as u8
        } else {
            255u8
        }),
    ensures
        page_ok(prev, p, capped as nat, next_live, cap) <==> page_ok(
            prev,
            p,
            exact,
            next_live,
            cap,
        ),
        page_ok(prev, p, exact, next_live, cap) ==> exact < cap,
{
    reveal(page_ok);
}

/// One more page extends a stream that passes.
proof fn lemma_stream_step(
    before: FieldR1csBuilder,
    pages: Seq<PageTrace>,
    runs: Seq<RunTrace>,
    run: RunTrace,
    cap: nat,
    z: spec_fn(int) -> u128,
)
    requires
        runs.len() < pages.len(),
        ({
            let vals = pages_at(before, pages, z);
            let remaining = remaining_at(before, runs, z);
            let i = runs.len();
            let v = int_at(before, run.remaining@, z);
            &&& stream_ok(vals, remaining, cap, i)
            &&& forall|k: int|
                0 <= k < i ==> (#[trigger] runs[k]).flags_ok(z) && runs[k].value(before, z)
                    == run_at(vals, remaining, (k + 1) as nat)
            &&& run.flags_ok(z)
            &&& run.value(before, z) == next_run(run_at(vals, remaining, i), vals[i as int], v)
            &&& page_ok(
                run_at(vals, remaining, i),
                vals[i as int],
                v,
                next_is_live(vals, i as int),
                cap,
            )
        }),
    ensures
        ({
            let vals = pages_at(before, pages, z);
            let more = runs.push(run);
            let remaining = remaining_at(before, more, z);
            &&& stream_ok(vals, remaining, cap, more.len())
            &&& run.value(before, z) == run_at(vals, remaining, more.len())
            &&& forall|k: int|
                0 <= k < more.len() ==> (#[trigger] more[k]).flags_ok(z) && more[k].value(
                    before,
                    z,
                ) == run_at(vals, remaining, (k + 1) as nat)
        }),
{
    let vals = pages_at(before, pages, z);
    let more = runs.push(run);
    let earlier = remaining_at(before, runs, z);
    let remaining = remaining_at(before, more, z);
    let i = runs.len();
    assert(remaining[i as int] == int_at(before, run.remaining@, z));
    lemma_run_at_prefix(vals, remaining, earlier, i);
    assert forall|k: int| 0 <= k < i + 1 implies page_ok(
        run_at(vals, remaining, k as nat),
        #[trigger] vals[k],
        remaining[k],
        next_is_live(vals, k),
        cap,
    ) by {
        if k < i {
            lemma_run_at_prefix(vals, remaining, earlier, k as nat);
            assert(more[k] == runs[k]);
        }
    }
    assert forall|k: int| 0 <= k < i + 1 implies (#[trigger] more[k]).flags_ok(z) && more[k].value(
        before,
        z,
    ) == run_at(vals, remaining, (k + 1) as nat) by {
        if k < i {
            assert(more[k] == runs[k]);
            lemma_run_at_prefix(vals, remaining, earlier, (k + 1) as nat);
        }
    }
}

/// The witness side of one more page.
#[verifier::rlimit(80)]
proof fn lemma_stream_honest(
    before: FieldR1csBuilder,
    start: FieldR1csBuilder,
    after: FieldR1csBuilder,
    pages: Seq<PageTrace>,
    runs: Seq<RunTrace>,
    run: RunTrace,
    previous: RunTrace,
    next_live: LinForm,
    capped: u8,
    cap: nat,
)
    requires
        before.wf(),
        start.wf(),
        refines(start, before),
        refines(after, start),
        cap <= 255,
        runs.len() < pages.len(),
        pages_bounded(pages, before.wires()),
        pages_flags_ok(pages, before.witness()),
        before.live(before.witness()),
        previous.bounded(start.wires()),
        forall|k: int| 0 <= k < runs.len() ==> (#[trigger] runs[k]).bounded(start.wires()),
        forall|z: spec_fn(int) -> u128| #[trigger]
            pages_flags_ok(pages, z) ==> is_bit(next_live.at(z)) && (next_live.at(z) == 1)
                == next_is_live(pages_at(before, pages, z), runs.len() as int),
        capped == ({
            let c = countdown(pages_at(before, pages, before.witness()), runs.len() as int);
            if c < 255 {
                c as u8
            } else {
                255u8
            }
        }),
        start.honest() ==> {
            let v = start.witness();
            let vals = pages_at(before, pages, v);
            &&& previous.flags_ok(v)
            &&& previous.value(before, v) == run_at(vals, remaining_at(before, runs, v), runs.len())
            &&& forall|k: int|
                0 <= k < runs.len() ==> int_at(before, (#[trigger] runs[k]).remaining@, v)
                    == countdown(pages_at(before, pages, before.witness()), k)
        },
        start.honest() <==> before.honest() && prefix_ok(
            pages_at(before, pages, before.witness()),
            cap,
            runs.len(),
        ),
        int_at(start, run.remaining@, after.witness()) == capped,
        ({
            let v = start.witness();
            let page = pages[runs.len() as int];
            start.live(v) && page.flags_ok(v) && previous.flags_ok(v) && is_bit(next_live.at(v))
                ==> (after.honest() <==> start.honest() && page_ok(
                previous.value(start, v),
                page.value(start, v),
                capped as nat,
                next_live.at(v) == 1,
                cap,
            ))
        }),
    ensures
        ({
            let wvals = pages_at(before, pages, before.witness());
            let more = runs.push(run);
            &&& after.honest() <==> before.honest() && prefix_ok(wvals, cap, more.len())
            &&& after.honest() ==> forall|k: int|
                0 <= k < more.len() ==> int_at(
                    before,
                    (#[trigger] more[k]).remaining@,
                    after.witness(),
                ) == countdown(wvals, k)
        }),
{
    let w = before.witness();
    let v = start.witness();
    let i = runs.len() as int;
    let wvals = pages_at(before, pages, w);
    let more = runs.push(run);
    let page = pages[i];
    lemma_pages_kept(start, before, pages);
    assert(pages_flags_ok(pages, v));
    assert(page.flags_ok(v));
    lemma_value_basis(before, start, page, previous, v);
    assert(pages_at(before, pages, v)[i] == page.value(before, v));
    let rem = Seq::new(wvals.len(), |k: int| countdown(wvals, k));
    let c = countdown(wvals, i);
    lemma_capped_countdown(
        run_at(wvals, rem, i as nat),
        wvals[i],
        c,
        capped,
        next_is_live(wvals, i),
        cap,
    );
    if start.honest() {
        let earlier = remaining_at(before, runs, v);
        assert forall|k: int| 0 <= k < i implies earlier[k] == rem[k] by {
            assert(earlier[k] == int_at(before, runs[k].remaining@, v));
        }
        lemma_run_at_prefix(wvals, earlier, rem, i as nat);
        assert(after.honest() <==> page_ok(
            run_at(wvals, rem, i as nat),
            wvals[i],
            rem[i],
            next_is_live(wvals, i),
            cap,
        ));
    } else {
        assert(!after.honest()) by {
            if after.honest() {
                assert(start.holds(after.witness()));
            }
        }
    }
    assert(prefix_ok(wvals, cap, (i + 1) as nat) <==> prefix_ok(wvals, cap, i as nat) && page_ok(
        run_at(wvals, rem, i as nat),
        wvals[i],
        rem[i],
        next_is_live(wvals, i),
        cap,
    )) by {
        if prefix_ok(wvals, cap, (i + 1) as nat) {
            assert(page_ok(
                run_at(wvals, rem, i as nat),
                wvals[i],
                rem[i],
                next_is_live(wvals, i),
                cap,
            ));
        }
    }
    if after.honest() {
        assert forall|k: int| 0 <= k < more.len() implies int_at(
            before,
            (#[trigger] more[k]).remaining@,
            after.witness(),
        ) == countdown(wvals, k) by {
            if k < i {
                assert(more[k] == runs[k]);
                assert(runs[k].bounded(start.wires()));
                assert(runs[k].remaining.at(after.witness()) == runs[k].remaining.at(v));
            }
        }
    }
}

fn clone_run(run: &RunTrace) -> (r: RunTrace)
    ensures
        r.remaining@ == run.remaining@,
        forall|n: nat| #[trigger] run.bounded(n) ==> r.bounded(n),
        forall|z: spec_fn(int) -> u128| #[trigger] r.flags_ok(z) == run.flags_ok(z),
        forall|b: FieldR1csBuilder, z: spec_fn(int) -> u128| #[trigger]
            r.value(b, z) == run.value(b, z),
        r.forms() == run.forms(),
{
    RunTrace {
        remaining: run.remaining.clone(),
        end: run.end.clone(),
        last_input: run.last_input.clone(),
        last_output: run.last_output.clone(),
        owner: [run.owner[0].clone(), run.owner[1].clone()],
        epoch: [run.epoch[0].clone(), run.epoch[1].clone()],
        input_count: run.input_count.clone(),
        output_count: run.output_count.clone(),
        input_sum: run.input_sum.clone(),
        output_sum: run.output_sum.clone(),
        fee: run.fee.clone(),
    }
}

/// The sum of the first `n` entries of one total over the pages from `s` on.
pub open spec fn input_total(pages: Seq<PageValue>, s: int, n: nat) -> nat
    decreases n,
{
    if n == 0 {
        0
    } else {
        input_total(pages, s, (n - 1) as nat) + pages[s + n - 1].input_sum
    }
}

/// The outputs of `n` pages from `s` on.
pub open spec fn output_total(pages: Seq<PageValue>, s: int, n: nat) -> nat
    decreases n,
{
    if n == 0 {
        0
    } else {
        output_total(pages, s, (n - 1) as nat) + pages[s + n - 1].output_sum
    }
}

/// Pages `s..=e` form one group: they are live, only the first is a start page
/// and only the last is an end page.
pub open spec fn is_group(pages: Seq<PageValue>, s: int, e: int) -> bool {
    &&& 0 <= s <= e < pages.len()
    &&& pages[s].start
    &&& pages[e].end
    &&& forall|i: int| s <= i <= e ==> (#[trigger] pages[i]).live
    &&& forall|i: int| s < i <= e ==> !(#[trigger] pages[i]).start
    &&& forall|i: int| s <= i < e ==> !(#[trigger] pages[i]).end
}

/// The whole stream passes the scanner with the given countdowns.
#[verifier::opaque]
spec fn stream_held(pages: Seq<PageValue>, remaining: Seq<nat>, cap: nat) -> bool {
    stream_ok(pages, remaining, cap, pages.len())
}

/// What a page that passes says of the totals and of the owner.
proof fn lemma_held_page(pages: Seq<PageValue>, remaining: Seq<nat>, cap: nat, i: int)
    requires
        stream_held(pages, remaining, cap),
        0 <= i < pages.len(),
    ensures
        continuity_ok(run_at(pages, remaining, i as nat), pages[i]),
        run_at(pages, remaining, (i + 1) as nat) == next_run(
            run_at(pages, remaining, i as nat),
            pages[i],
            remaining[i],
        ),
{
    reveal(stream_held);
    assert(page_ok(
        run_at(pages, remaining, i as nat),
        pages[i],
        remaining[i],
        next_is_live(pages, i),
        cap,
    ));
    reveal(page_ok);
}

/// The totals inside a group are sums over its pages, and its fee is the fee
/// of its start page.
proof fn lemma_group_run(
    pages: Seq<PageValue>,
    remaining: Seq<nat>,
    cap: nat,
    s: int,
    e: int,
    i: int,
)
    requires
        remaining.len() == pages.len(),
        stream_held(pages, remaining, cap),
        is_group(pages, s, e),
        s <= i <= e,
    ensures
        run_at(pages, remaining, (i + 1) as nat).input_sum == input_total(
            pages,
            s,
            (i + 1 - s) as nat,
        ),
        run_at(pages, remaining, (i + 1) as nat).output_sum == output_total(
            pages,
            s,
            (i + 1 - s) as nat,
        ),
        run_at(pages, remaining, (i + 1) as nat).fee == pages[s].paid_fee,
        pages[i].owner == pages[s].owner,
        pages[i].epoch == pages[s].epoch,
    decreases i - s,
{
    lemma_held_page(pages, remaining, cap, i);
    assert(pages[i].live);
    if i == s {
        reveal_with_fuel(input_total, 2);
        reveal_with_fuel(output_total, 2);
    } else {
        lemma_group_run(pages, remaining, cap, s, e, i - 1);
        lemma_held_page(pages, remaining, cap, i - 1);
        assert(!pages[i].start);
    }
}

/// Every group of a valid stream balances: its inputs are its outputs and the
/// fee of its start page. All its pages have one owner and one epoch.
pub proof fn lemma_group_balance(pages: Seq<PageValue>, cap: nat, s: int, e: int)
    requires
        stream_valid(pages, cap),
        is_group(pages, s, e),
    ensures
        input_total(pages, s, (e + 1 - s) as nat) == output_total(pages, s, (e + 1 - s) as nat)
            + pages[s].paid_fee,
        forall|i: int|
            s <= i <= e ==> (#[trigger] pages[i]).owner == pages[s].owner && pages[i].epoch
                == pages[s].epoch,
{
    let remaining = choose|remaining: Seq<nat>|
        remaining.len() == pages.len() && #[trigger] stream_ok(pages, remaining, cap, pages.len());
    assert(stream_held(pages, remaining, cap)) by {
        reveal(stream_held);
    }
    lemma_group_run(pages, remaining, cap, s, e, e);
    reveal(page_ok);
    assert(page_ok(
        run_at(pages, remaining, e as nat),
        pages[e],
        remaining[e],
        next_is_live(pages, e),
        cap,
    ));
    assert forall|i: int| s <= i <= e implies (#[trigger] pages[i]).owner == pages[s].owner
        && pages[i].epoch == pages[s].epoch by {
        lemma_group_run(pages, remaining, cap, s, e, i);
    }
}

/// Every live page of a valid stream lies in a group: it is an end page, or
/// the next page is live, continues it and repeats its owner and epoch.
pub proof fn lemma_live_page_continues(pages: Seq<PageValue>, cap: nat, i: int)
    requires
        stream_valid(pages, cap),
        0 <= i < pages.len(),
        pages[i].live,
    ensures
        pages[i].end || (i + 1 < pages.len() && continues(pages[i + 1])),
        pages[i].start == (i == 0 || pages[i - 1].end),
        countdown(pages, i) < cap,
{
    let remaining = choose|remaining: Seq<nat>|
        remaining.len() == pages.len() && #[trigger] stream_ok(pages, remaining, cap, pages.len());
    lemma_countdown_unique(pages, remaining, cap, i);
    reveal(page_ok);
    assert(page_ok(
        run_at(pages, remaining, i as nat),
        pages[i],
        remaining[i],
        next_is_live(pages, i),
        cap,
    ));
    if i > 0 {
        assert(run_at(pages, remaining, i as nat) == next_run(
            run_at(pages, remaining, (i - 1) as nat),
            pages[i - 1],
            remaining[i - 1],
        ));
    }
    if !pages[i].end {
        assert(page_ok(
            run_at(pages, remaining, (i + 1) as nat),
            pages[i + 1],
            remaining[i + 1],
            next_is_live(pages, i + 1),
            cap,
        ));
        assert(run_at(pages, remaining, (i + 1) as nat) == next_run(
            run_at(pages, remaining, i as nat),
            pages[i],
            remaining[i],
        ));
    }
}

/// A group of a valid stream has at most `cap - 1` pages.
pub proof fn lemma_group_length(pages: Seq<PageValue>, cap: nat, s: int, e: int)
    requires
        stream_valid(pages, cap),
        is_group(pages, s, e),
    ensures
        e - s + 1 < cap,
{
    lemma_countdown_distance(pages, s, e, s);
    lemma_live_page_continues(pages, cap, s);
}

proof fn lemma_countdown_distance(pages: Seq<PageValue>, s: int, e: int, i: int)
    requires
        is_group(pages, s, e),
        s <= i <= e,
    ensures
        countdown(pages, i) == e - i + 1,
    decreases e - i,
{
    assert(pages[i].live);
    if i < e {
        lemma_countdown_distance(pages, s, e, i + 1);
    }
}

/// The lanes that start the hash of a group.
#[verifier::opaque]
pub open spec fn seed_forms(
    flat: spec_fn(u128) -> u128,
    version: u128,
    remaining: LinForm,
    capacity: [u128; 2],
) -> Seq<LinForm> {
    Seq::empty().push(const_form(flat(version))).push(remaining).push(
        const_form(flat(capacity@[0])),
    ).push(const_form(flat(capacity@[1])))
}

/// The seed of a group hash: version, countdown and the capacity words.
pub fn hash_seed(
    b: &FieldR1csBuilder,
    version: u128,
    remaining: &LinExpr,
    capacity: [u128; 2],
) -> (r: [LinExpr; 4])
    requires
        b.wf(),
    ensures
        forall|z: spec_fn(int) -> u128| #[trigger] r@[0].at(z) == b.flat_basis().flat(version),
        r@[1]@ == remaining@,
        forall|z: spec_fn(int) -> u128| #[trigger]
            r@[2].at(z) == b.flat_basis().flat(capacity@[0]),
        forall|z: spec_fn(int) -> u128| #[trigger]
            r@[3].at(z) == b.flat_basis().flat(capacity@[1]),
        forall|n: nat| remaining.bound() <= n ==> #[trigger] state_bounded(r, n),
        forms(r@) == seed_forms(b.flat_basis().flat_fn(), version, remaining@, capacity),
{
    reveal(seed_forms);
    let r = [
        const_block(b, version),
        remaining.clone(),
        const_block(b, capacity[0]),
        const_block(b, capacity[1]),
    ];
    assert(forms(r@) =~= seed_forms(b.flat_basis().flat_fn(), version, remaining@, capacity));
    r
}

/// All four lanes of a hash state only read wires below `n`.
pub open spec fn state_bounded(state: [LinExpr; 4], n: nat) -> bool {
    &&& state@[0].bound() <= n
    &&& state@[1].bound() <= n
    &&& state@[2].bound() <= n
    &&& state@[3].bound() <= n
}

/// The rows that absorb the hash of a page, and the lanes they leave.
#[verifier::opaque]
pub open spec fn absorb_step(
    s: Shape,
    start: LinForm,
    seeded: Seq<LinForm>,
    previous: Seq<LinForm>,
    page_hash: Seq<LinForm>,
) -> (Shape, Seq<LinForm>) {
    let (s1, lane0) = mux_step(s, start, seeded[0], previous[0]);
    let (s2, lane1) = mux_step(s1, start, seeded[1], previous[1]);
    let (s3, lane2) = mux_step(s2, start, seeded[2], previous[2]);
    let (s4, lane3) = mux_step(s3, start, seeded[3], previous[3]);
    (
        s4,
        Seq::empty().push(form_add(lane0, page_hash[0])).push(form_add(lane1, page_hash[1])).push(
            lane2,
        ).push(lane3),
    )
}

/// The hash state that absorbs a page: the permuted seed on a start page, the
/// previous state otherwise, with the page hash added to the rate lanes.
pub fn hash_absorb(
    b: &mut FieldR1csBuilder,
    start: &LinExpr,
    seeded: &[LinExpr; 4],
    previous: &[LinExpr; 4],
    page_hash: &[LinExpr; 2],
) -> (r: [LinExpr; 4])
    requires
        old(b).wf(),
        start.bound() <= old(b).wires(),
        state_bounded(*seeded, old(b).wires()),
        state_bounded(*previous, old(b).wires()),
        page_hash@[0].bound() <= old(b).wires(),
        page_hash@[1].bound() <= old(b).wires(),
    ensures
        refines(*final(b), *old(b)),
        final(b).honest() <==> old(b).honest(),
        state_bounded(r, final(b).wires()),
        forall|z: spec_fn(int) -> u128| #[trigger]
            final(b).holds(z) && is_bit(start.at(z)) ==> {
                let from = if start.at(z) == 1 {
                    *seeded
                } else {
                    *previous
                };
                &&& r@[0].at(z) == from@[0].at(z) ^ page_hash@[0].at(z)
                &&& r@[1].at(z) == from@[1].at(z) ^ page_hash@[1].at(z)
                &&& r@[2].at(z) == from@[2].at(z)
                &&& r@[3].at(z) == from@[3].at(z)
            },
        absorb_step(
            old(b).shape(),
            start@,
            forms(seeded@),
            forms(previous@),
            forms(page_hash@),
        ) == (final(b).shape(), forms(r@)),
{
    let ghost b0 = *b;
    reveal(absorb_step);
    let lane0 = mux(b, start, &seeded[0], &previous[0]);
    let ghost b1 = *b;
    let lane1 = mux(b, start, &seeded[1], &previous[1]);
    let ghost b2 = *b;
    let lane2 = mux(b, start, &seeded[2], &previous[2]);
    let ghost b3 = *b;
    let lane3 = mux(b, start, &seeded[3], &previous[3]);
    let r = [lane0.add(&page_hash[0]), lane1.add(&page_hash[1]), lane2, lane3];
    proof {
        assert forall|z: spec_fn(int) -> u128| #[trigger]
            b.holds(z) && is_bit(start.at(z)) implies {
            let from = if start.at(z) == 1 {
                *seeded
            } else {
                *previous
            };
            &&& r@[0].at(z) == from@[0].at(z) ^ page_hash@[0].at(z)
            &&& r@[1].at(z) == from@[1].at(z) ^ page_hash@[1].at(z)
            &&& r@[2].at(z) == from@[2].at(z)
            &&& r@[3].at(z) == from@[3].at(z)
        } by {
            assert(b3.holds(z) && b2.holds(z) && b1.holds(z));
        }
    }
    assert(forms(r@) =~= absorb_step(
        b0.shape(),
        start@,
        forms(seeded@),
        forms(previous@),
        forms(page_hash@),
    ).1);
    r
}

/// The rows that keep a hash on live pages, and the lanes they leave.
#[verifier::opaque]
pub open spec fn carry_step(s: Shape, live: LinForm, absorbed: Seq<LinForm>) -> (
    Shape,
    Seq<LinForm>,
) {
    let (s1, lane0) = mul_step(s, live, absorbed[0]);
    let (s2, lane1) = mul_step(s1, live, absorbed[1]);
    let (s3, lane2) = mul_step(s2, live, absorbed[2]);
    let (s4, lane3) = mul_step(s3, live, absorbed[3]);
    (s4, Seq::empty().push(lane0).push(lane1).push(lane2).push(lane3))
}

/// The hash state carried past a page: zero on a dead page.
pub fn hash_carry(b: &mut FieldR1csBuilder, live: &LinExpr, absorbed: &[LinExpr; 4]) -> (r: [LinExpr;
    4])
    requires
        old(b).wf(),
        live.bound() <= old(b).wires(),
        state_bounded(*absorbed, old(b).wires()),
    ensures
        refines(*final(b), *old(b)),
        final(b).honest() <==> old(b).honest(),
        state_bounded(r, final(b).wires()),
        forall|z: spec_fn(int) -> u128, lane: int|
            #![trigger final(b).holds(z), r@[lane]]
            final(b).holds(z) && 0 <= lane < 4 ==> r@[lane].at(z) == fmul(
                live.at(z),
                absorbed@[lane].at(z),
            ),
        carry_step(old(b).shape(), live@, forms(absorbed@)) == (final(b).shape(), forms(r@)),
{
    let ghost b0 = *b;
    reveal(carry_step);
    let lane0 = crate::trace::mul(b, live, &absorbed[0]);
    let ghost b1 = *b;
    let lane1 = crate::trace::mul(b, live, &absorbed[1]);
    let ghost b2 = *b;
    let lane2 = crate::trace::mul(b, live, &absorbed[2]);
    let ghost b3 = *b;
    let lane3 = crate::trace::mul(b, live, &absorbed[3]);
    let r = [lane0, lane1, lane2, lane3];
    proof {
        assert forall|z: spec_fn(int) -> u128, lane: int|
            #![trigger b.holds(z), r@[lane]]
            b.holds(z) && 0 <= lane < 4 implies r@[lane].at(z) == fmul(
            live.at(z),
            absorbed@[lane].at(z),
        ) by {
            assert(b3.holds(z) && b2.holds(z) && b1.holds(z));
            assert(lane == 0 || lane == 1 || lane == 2 || lane == 3);
        }
    }
    assert(forms(r@) =~= carry_step(b0.shape(), live@, forms(absorbed@)).1);
    r
}

/// The lanes of a hash with its padding.
#[verifier::opaque]
pub open spec fn pad_forms(flat: spec_fn(u128) -> u128, state: Seq<LinForm>) -> Seq<LinForm> {
    Seq::empty().push(form_add_const(state[0], flat(0x80))).push(
        form_add_const(state[1], flat(0x0100_0000_0000_0000_0000_0000_0000_0000)),
    ).push(state[2]).push(state[3])
}

/// The state that the final permutation of a group hash reads: the carried
/// state with the two padding words added to the rate lanes.
pub fn hash_pad(b: &FieldR1csBuilder, state: &[LinExpr; 4]) -> (r: [LinExpr; 4])
    requires
        b.wf(),
        state_bounded(*state, b.wires()),
    ensures
        state_bounded(r, b.wires()),
        forall|z: spec_fn(int) -> u128| #[trigger]
            r@[0].at(z) == state@[0].at(z) ^ b.flat_basis().flat(0x80),
        forall|z: spec_fn(int) -> u128| #[trigger]
            r@[1].at(z) == state@[1].at(z) ^ b.flat_basis().flat(
                0x0100_0000_0000_0000_0000_0000_0000_0000,
            ),
        r@[2]@ == state@[2]@,
        r@[3]@ == state@[3]@,
        forms(r@) == pad_forms(b.flat_basis().flat_fn(), forms(state@)),
{
    reveal(pad_forms);
    let r = [
        state[0].add_const(b.basis().to_flat(0x80)),
        state[1].add_const(b.basis().to_flat(0x0100_0000_0000_0000_0000_0000_0000_0000)),
        state[2].clone(),
        state[3].clone(),
    ];
    assert(forms(r@) =~= pad_forms(b.flat_basis().flat_fn(), forms(state@)));
    r
}

/// One compacted logical group. A dead record is zero in every lane.
pub struct PagedSpendGroupTrace {
    pub live: LinExpr,
    pub logical_txid: [LinExpr; 2],
    pub input_owner: [LinExpr; 2],
    pub fee: LinExpr,
    pub live_input_count: LinExpr,
    pub live_output_count: LinExpr,
    pub end_page: LinExpr,
}

impl PagedSpendGroupTrace {
    /// The lanes of the record, in order.
    pub open spec fn lanes(&self) -> Seq<LinForm> {
        seq![
            self.live@,
            self.logical_txid@[0]@,
            self.logical_txid@[1]@,
            self.input_owner@[0]@,
            self.input_owner@[1]@,
            self.fee@,
            self.live_input_count@,
            self.live_output_count@,
            self.end_page@,
        ]
    }

    pub open spec fn bounded(&self, n: nat) -> bool {
        forall|k: int| 0 <= k < 9 ==> (#[trigger] self.lanes()[k]).bound() <= n
    }
}

/// The record of no group.
pub fn zero_group() -> (r: PagedSpendGroupTrace)
    ensures
        r.bounded(0),
        forall|k: int, z: spec_fn(int) -> u128|
            0 <= k < 9 ==> #[trigger] r.lanes()[k].at(z) == 0,
{
    let r = PagedSpendGroupTrace {
        live: LinExpr::zero(),
        logical_txid: [LinExpr::zero(), LinExpr::zero()],
        input_owner: [LinExpr::zero(), LinExpr::zero()],
        fee: LinExpr::zero(),
        live_input_count: LinExpr::zero(),
        live_output_count: LinExpr::zero(),
        end_page: LinExpr::zero(),
    };
    assert forall|k: int, z: spec_fn(int) -> u128|
        0 <= k < 9 implies #[trigger] r.lanes()[k].at(z) == 0 by {
        assert(r.live.at(z) == 0 && r.logical_txid@[0].at(z) == 0 && r.logical_txid@[1].at(z) == 0
            && r.input_owner@[0].at(z) == 0 && r.input_owner@[1].at(z) == 0 && r.fee.at(z) == 0
            && r.live_input_count.at(z) == 0 && r.live_output_count.at(z) == 0 && r.end_page.at(z)
            == 0);
    }
    r
}

/// The lanes of a record as a list.
pub fn group_lanes(group: PagedSpendGroupTrace) -> (r: Vec<LinExpr>)
    ensures
        r@.len() == 9,
        forall|k: int| 0 <= k < 9 ==> (#[trigger] r@[k])@ == group.lanes()[k],
{
    let mut r: Vec<LinExpr> = Vec::new();
    r.push(group.live);
    r.push(group.logical_txid[0].clone());
    r.push(group.logical_txid[1].clone());
    r.push(group.input_owner[0].clone());
    r.push(group.input_owner[1].clone());
    r.push(group.fee);
    r.push(group.live_input_count);
    r.push(group.live_output_count);
    r.push(group.end_page);
    r
}

/// The record of a list of lanes.
pub fn group_from_lanes(lanes: Vec<LinExpr>) -> (r: PagedSpendGroupTrace)
    requires
        lanes@.len() == 9,
    ensures
        forall|k: int| 0 <= k < 9 ==> (#[trigger] r.lanes()[k]) == lanes@[k]@,
{
    PagedSpendGroupTrace {
        live: lanes[0].clone(),
        logical_txid: [lanes[1].clone(), lanes[2].clone()],
        input_owner: [lanes[3].clone(), lanes[4].clone()],
        fee: lanes[5].clone(),
        live_input_count: lanes[6].clone(),
        live_output_count: lanes[7].clone(),
        end_page: lanes[8].clone(),
    }
}

/// The rows of the record of a page, and its lanes.
#[verifier::opaque]
pub open spec fn record_step(
    s: Shape,
    page: PageForms,
    run: RunForms,
    finalized: Seq<LinForm>,
    index: nat,
) -> (Shape, Seq<LinForm>) {
    let (s1, live) = mul_step(s, page.live, page.end);
    let (s2, txid0) = mul_step(s1, live, finalized[0]);
    let (s3, txid1) = mul_step(s2, live, finalized[1]);
    let (s4, owner0) = mul_step(s3, live, page.owner.0);
    let (s5, owner1) = mul_step(s4, live, page.owner.1);
    let (s6, fee) = mul_step(s5, live, run.fee);
    let (s7, inputs) = mul_step(s6, live, run.input_count);
    let (s8, outputs) = mul_step(s7, live, run.output_count);
    let end_page = form_scale(live, (s.flat)((index + 1) as u128));
    (s8, seq![live, txid0, txid1, owner0, owner1, fee, inputs, outputs, end_page])
}

/// The record that page `index` closes, zero unless it is a live end page.
pub fn end_record(
    b: &mut FieldR1csBuilder,
    page: &PageTrace,
    run: &RunTrace,
    finalized: &[LinExpr; 2],
    index: usize,
) -> (r: PagedSpendGroupTrace)
    requires
        old(b).wf(),
        index < usize::MAX,
        page.bounded(old(b).wires()),
        run.bounded(old(b).wires()),
        finalized@[0].bound() <= old(b).wires(),
        finalized@[1].bound() <= old(b).wires(),
    ensures
        refines(*final(b), *old(b)),
        final(b).honest() <==> old(b).honest(),
        r.bounded(final(b).wires()),
        forall|z: spec_fn(int) -> u128| #[trigger]
            final(b).holds(z) && page.flags_ok(z) ==> {
                let closes = page.live.at(z) == 1 && page.end.at(z) == 1;
                let full = seq![
                    1u128,
                    finalized@[0].at(z),
                    finalized@[1].at(z),
                    page.owner@[0].at(z),
                    page.owner@[1].at(z),
                    run.fee.at(z),
                    run.input_count.at(z),
                    run.output_count.at(z),
                    old(b).flat_basis().flat((index + 1) as u128),
                ];
                forall|k: int|
                    0 <= k < 9 ==> (#[trigger] r.lanes()[k]).at(z) == if closes {
                        full[k]
                    } else {
                        0
                    }
            },
        record_step(
            old(b).shape(),
            page.forms(),
            run.forms(),
            forms(finalized@),
            index as nat,
        ) == (final(b).shape(), r.lanes()),
{
    reveal(record_step);
    let ghost entry = *b;
    let ghost before = *b;
    let end_live = crate::trace::mul(b, &page.live, &page.end);
    let ghost b1 = *b;
    let txid0 = crate::trace::mul(b, &end_live, &finalized[0]);
    let ghost b2 = *b;
    let txid1 = crate::trace::mul(b, &end_live, &finalized[1]);
    let ghost b3 = *b;
    let owner0 = crate::trace::mul(b, &end_live, &page.owner[0]);
    let ghost b4 = *b;
    let owner1 = crate::trace::mul(b, &end_live, &page.owner[1]);
    let ghost b5 = *b;
    let fee = crate::trace::mul(b, &end_live, &run.fee);
    let ghost b6 = *b;
    let live_input_count = crate::trace::mul(b, &end_live, &run.input_count);
    let ghost b7 = *b;
    let live_output_count = crate::trace::mul(b, &end_live, &run.output_count);
    let end_page = selected_index(b, &end_live, index + 1);
    let r = PagedSpendGroupTrace {
        live: end_live,
        logical_txid: [txid0, txid1],
        input_owner: [owner0, owner1],
        fee,
        live_input_count,
        live_output_count,
        end_page,
    };
    proof {
        assert forall|z: spec_fn(int) -> u128| #[trigger] b.holds(z) && page.flags_ok(z) implies {
            let closes = page.live.at(z) == 1 && page.end.at(z) == 1;
            let full = seq![
                1u128,
                finalized@[0].at(z),
                finalized@[1].at(z),
                page.owner@[0].at(z),
                page.owner@[1].at(z),
                run.fee.at(z),
                run.input_count.at(z),
                run.output_count.at(z),
                before.flat_basis().flat((index + 1) as u128),
            ];
            forall|k: int|
                0 <= k < 9 ==> (#[trigger] r.lanes()[k]).at(z) == if closes {
                    full[k]
                } else {
                    0
                }
        } by {
            assert(b7.holds(z) && b6.holds(z) && b5.holds(z) && b4.holds(z) && b3.holds(z)
                && b2.holds(z) && b1.holds(z));
            lemma_bit_ops(page.live.at(z), page.end.at(z));
            lemma_fmul_unit(finalized@[0].at(z));
            lemma_fmul_unit(finalized@[1].at(z));
            lemma_fmul_unit(page.owner@[0].at(z));
            lemma_fmul_unit(page.owner@[1].at(z));
            lemma_fmul_unit(run.fee.at(z));
            lemma_fmul_unit(run.input_count.at(z));
            lemma_fmul_unit(run.output_count.at(z));
            lemma_fmul_unit(before.flat_basis().flat((index + 1) as u128));
            assert(end_page.at(z) == fmul(
                end_live.at(z),
                before.flat_basis().flat((index + 1) as u128),
            ));
        }
    }
    assert(r.lanes() =~= record_step(
        entry.shape(),
        page.forms(),
        run.forms(),
        forms(finalized@),
        index as nat,
    ).1);
    r
}

/// The sort key of a record: live records first, by closing page.
#[derive(Clone, Copy, Debug, PartialEq, Eq, Structural)]
pub struct RecordKey {
    pub dead: bool,
    pub end_page: u128,
}

/// Record `i` comes before record `j`.
pub open spec fn comes_before(keys: Seq<RecordKey>, i: int, j: int) -> bool {
    if keys[i].dead != keys[j].dead {
        keys[j].dead
    } else if keys[i].end_page != keys[j].end_page {
        keys[i].end_page < keys[j].end_page
    } else {
        i < j
    }
}

/// How many of the first `n` records come before record `i`.
pub open spec fn rank(keys: Seq<RecordKey>, i: int, n: nat) -> nat
    decreases n,
{
    if n == 0 {
        0
    } else {
        rank(keys, i, (n - 1) as nat) + if comes_before(keys, n - 1, i) {
            1nat
        } else {
            0
        }
    }
}

proof fn lemma_rank_order(keys: Seq<RecordKey>, i: int, j: int, n: nat)
    requires
        comes_before(keys, i, j),
        0 <= i,
        0 <= j,
        i != j,
    ensures
        rank(keys, i, n) + (if i < n {
            1nat
        } else {
            0
        }) <= rank(keys, j, n),
    decreases n,
{
    if n > 0 {
        lemma_rank_order(keys, i, j, (n - 1) as nat);
    }
}

proof fn lemma_rank_bound(keys: Seq<RecordKey>, i: int, n: nat)
    requires
        0 <= i,
    ensures
        rank(keys, i, n) + (if i < n {
            1nat
        } else {
            0
        }) <= n,
    decreases n,
{
    if n > 0 {
        lemma_rank_bound(keys, i, (n - 1) as nat);
    }
}

/// The position of every record in the compacted order: `r[i] < r[j]` exactly
/// when record `i` comes before record `j`.
pub fn record_positions(keys: &Vec<RecordKey>) -> (r: Vec<usize>)
    ensures
        r@.len() == keys@.len(),
        forall|i: int| 0 <= i < r@.len() ==> #[trigger] r@[i] < r@.len(),
        forall|i: int, j: int|
            0 <= i < r@.len() && 0 <= j < r@.len() && i != j ==> (#[trigger] r@[i]
                < #[trigger] r@[j] <==> comes_before(keys@, i, j)),
        forall|i: int, j: int|
            0 <= i < r@.len() && 0 <= j < r@.len() && i != j ==> #[trigger] r@[i]
                != #[trigger] r@[j],
{
    let n = keys.len();
    let mut r: Vec<usize> = Vec::new();
    let mut i: usize = 0;
    while i < n
        invariant
            i <= n,
            n == keys@.len(),
            r@.len() == i,
            forall|k: int| 0 <= k < i ==> #[trigger] r@[k] == rank(keys@, k, n as nat),
        decreases n - i,
    {
        let mut count: usize = 0;
        let mut j: usize = 0;
        while j < n
            invariant
                j <= n,
                i < n,
                n == keys@.len(),
                count == rank(keys@, i as int, j as nat),
                count <= j,
            decreases n - j,
        {
            let before = if keys[j].dead != keys[i].dead {
                keys[i].dead
            } else if keys[j].end_page != keys[i].end_page {
                keys[j].end_page < keys[i].end_page
            } else {
                j < i
            };
            if before {
                count = count + 1;
            }
            j = j + 1;
        }
        r.push(count);
        i = i + 1;
    }
    proof {
        assert forall|a: int| 0 <= a < r@.len() implies #[trigger] r@[a] < r@.len() by {
            lemma_rank_bound(keys@, a, n as nat);
        }
        assert forall|a: int, c: int|
            0 <= a < r@.len() && 0 <= c < r@.len() && a != c implies (#[trigger] r@[a]
            < #[trigger] r@[c] <==> comes_before(keys@, a, c)) && r@[a] != r@[c] by {
            if comes_before(keys@, a, c) {
                lemma_rank_order(keys@, a, c, n as nat);
            } else {
                assert(comes_before(keys@, c, a));
                lemma_rank_order(keys@, c, a, n as nat);
            }
        }
    }
    r
}

/// Pads the end records with zero records to the dyadic width that also holds
/// one more record, and computes the stable order that puts the live records
/// first.
pub fn compact_end_records(
    b: &FieldR1csBuilder,
    candidates: Vec<PagedSpendGroupTrace>,
) -> (r: (Vec<PagedSpendGroupTrace>, Vec<usize>))
    requires
        b.wf(),
        candidates@.len() < 0x4000_0000,
        forall|i: int|
            0 <= i < candidates@.len() ==> (#[trigger] candidates@[i]).bounded(b.wires()) && is_bit(
                candidates@[i].live.at(b.witness()),
            ),
    ensures
        r.0@.len() == r.1@.len(),
        exists|k: nat|
            #[trigger] covers(k, candidates@.len() + 1) && r.0@.len()
                == vstd::arithmetic::power2::pow2(k),
        forall|i: int| 0 <= i < candidates@.len() ==> #[trigger] r.0@[i] == candidates@[i],
        forall|i: int, k: int, z: spec_fn(int) -> u128|
            candidates@.len() <= i < r.0@.len() && 0 <= k < 9 ==> #[trigger] r.0@[i].lanes()[k].at(
                z,
            ) == 0,
        forall|i: int| 0 <= i < r.1@.len() ==> #[trigger] r.1@[i] < r.1@.len(),
        forall|i: int, j: int|
            0 <= i < r.1@.len() && 0 <= j < r.1@.len() && i != j ==> (#[trigger] r.1@[i]
                < #[trigger] r.1@[j] <==> comes_before(record_keys(*b, r.0@), i, j)),
{
    let mut groups = candidates;
    let pages = groups.len();
    let ghost given = groups@;
    let width = match checked_next_power_of_two(pages + 1) {
        Some(d) => d,
        None => {
            proof {
                vstd::arithmetic::power2::lemma2_to64();
                vstd::arithmetic::power2::lemma2_to64_rest();
                assert(pow2(30) >= pages + 1);
            }
            return (groups, Vec::new());
        },
    };
    while groups.len() < width.size
        invariant
            given.len() <= groups@.len() <= width.size,
            width.size >= given.len() + 1,
            forall|i: int| 0 <= i < given.len() ==> #[trigger] groups@[i] == given[i],
            forall|i: int|
                0 <= i < groups@.len() ==> (#[trigger] groups@[i]).bounded(b.wires()) && is_bit(
                    groups@[i].live.at(b.witness()),
                ),
            forall|i: int, k: int, z: spec_fn(int) -> u128|
                given.len() <= i < groups@.len() && 0 <= k < 9
                    ==> #[trigger] groups@[i].lanes()[k].at(z) == 0,
        decreases width.size - groups.len(),
    {
        let group = zero_group();
        proof {
            assert(group.lanes()[0].at(b.witness()) == 0);
            assert forall|k: int| 0 <= k < 9 implies (#[trigger] group.lanes()[k]).bound()
                <= b.wires() by {
                assert(group.lanes()[k].bound() <= 0);
            }
        }
        groups.push(group);
    }
    let mut keys: Vec<RecordKey> = Vec::new();
    let mut i: usize = 0;
    while i < groups.len()
        invariant
            i <= groups@.len(),
            b.wf(),
            forall|k: int|
                0 <= k < groups@.len() ==> (#[trigger] groups@[k]).bounded(b.wires()) && is_bit(
                    groups@[k].live.at(b.witness()),
                ),
            keys@.len() == i,
            forall|k: int| 0 <= k < i ==> #[trigger] keys@[k] == record_keys(*b, groups@)[k],
        decreases groups@.len() - i,
    {
        assert(groups@[i as int].bounded(b.wires()));
        assert(groups@[i as int].lanes()[0].bound() <= b.wires());
        assert(groups@[i as int].lanes()[8].bound() <= b.wires());
        let live = native_bool(b, &groups[i].live);
        let end_page = if live {
            tower_value(b, &groups[i].end_page)
        } else {
            0
        };
        keys.push(RecordKey { dead: !live, end_page });
        i = i + 1;
    }
    assert(keys@ =~= record_keys(*b, groups@));
    let positions = record_positions(&keys);
    assert(covers(width.log as nat, given.len() + 1));
    (groups, positions)
}

/// The sort keys of a list of records under the recorded witness.
pub open spec fn record_keys(b: FieldR1csBuilder, groups: Seq<PagedSpendGroupTrace>) -> Seq<
    RecordKey,
> {
    Seq::new(
        groups.len(),
        |i: int|
            RecordKey {
                dead: groups[i].live.at(b.witness()) != 1,
                end_page: if groups[i].live.at(b.witness()) == 1 {
                    b.flat_basis().tower(groups[i].end_page.at(b.witness()))
                } else {
                    0
                },
            },
    )
}

/// The liveness of every record.
pub open spec fn lives_at(groups: Seq<PagedSpendGroupTrace>, z: spec_fn(int) -> u128) -> Seq<u128> {
    Seq::new(groups.len(), |i: int| groups[i].live.at(z))
}

/// The live records form a prefix and their closing pages increase.
pub open spec fn compacted(
    b: FieldR1csBuilder,
    groups: Seq<PagedSpendGroupTrace>,
    z: spec_fn(int) -> u128,
) -> bool {
    &&& dense(lives_at(groups, z))
    &&& forall|i: int|
        0 <= i < groups.len() ==> int_at(b, (#[trigger] groups[i]).end_page@, z) < pow2(32)
    &&& forall|i: int|
        0 <= i < groups.len() - 1 ==> ((#[trigger] groups[i + 1]).live.at(z) == 1
            && groups[i].live.at(z) == 1 ==> int_at(b, groups[i].end_page@, z) < int_at(
            b,
            groups[i + 1].end_page@,
            z,
        ))
}

pub open spec fn groups_bounded(groups: Seq<PagedSpendGroupTrace>, n: nat) -> bool {
    forall|i: int|
        0 <= i < groups.len() ==> (#[trigger] groups[i]).live.bound() <= n
            && groups[i].end_page.bound() <= n
}

/// The lanes of a list of records.
pub open spec fn group_forms(groups: Seq<PagedSpendGroupTrace>) -> Seq<Seq<LinForm>> {
    groups.map_values(|g: PagedSpendGroupTrace| g.lanes())
}

/// One lane of every record.
pub open spec fn lane_forms(groups: Seq<Seq<LinForm>>, lane: int) -> Seq<LinForm> {
    groups.map_values(|g: Seq<LinForm>| g[lane])
}

/// The rows of the range checks of the first `n` end pages, and their bits.
#[verifier::opaque]
pub open spec fn ends_step(s: Shape, ends: Seq<LinForm>, n: nat) -> (Shape, Seq<Seq<LinForm>>)
    decreases n,
{
    if n == 0 {
        (s, Seq::empty())
    } else {
        let (t, bits) = ends_step(s, ends, (n - 1) as nat);
        (range_step(t, ends[n - 1], 32), bits.push(wire_forms(wires_from(t.n(), 32))))
    }
}

/// The rows that order the first `n` pairs of neighbours by end page.
#[verifier::opaque]
pub open spec fn order_step(
    s: Shape,
    lives: Seq<LinForm>,
    bits: Seq<Seq<LinForm>>,
    n: nat,
) -> Shape
    decreases n,
{
    if n == 0 {
        s
    } else {
        let s0 = order_step(s, lives, bits, (n - 1) as nat);
        let (s1, both) = mul_step(s0, lives[n - 1], lives[n as int]);
        let (s2, less) = lt_step(s1, bits[n - 1], bits[n as int]);
        pin_when_step(s2, both, form_add_const(less, 1))
    }
}

/// The rows of compacted records: live ones first, in body order.
#[verifier::opaque]
pub open spec fn compacted_step(s: Shape, groups: Seq<Seq<LinForm>>) -> Shape {
    let lives = lane_forms(groups, 0);
    let s1 = prefix_step(s, lives, pairs(groups.len()));
    let (s2, bits) = ends_step(s1, lane_forms(groups, 8), groups.len());
    order_step(s2, lives, bits, pairs(groups.len()))
}

/// The forms of lists of wires.
pub open spec fn all_wire_forms(bits: Seq<Vec<Wire>>) -> Seq<Seq<LinForm>> {
    bits.map_values(|v: Vec<Wire>| wire_forms(v@))
}

/// Different positions below their number are all positions below it.
proof fn lemma_positions_onto(positions: Seq<usize>, p: int) -> (i: int)
    requires
        forall|i: int| 0 <= i < positions.len() ==> #[trigger] positions[i] < positions.len(),
        forall|i: int, j: int|
            0 <= i < positions.len() && 0 <= j < positions.len() && i != j
                ==> #[trigger] positions[i] != #[trigger] positions[j],
        0 <= p < positions.len(),
    ensures
        0 <= i < positions.len(),
        positions[i] == p,
{
    let list = Seq::new(positions.len(), |i: int| positions[i] as int);
    let all = vstd::set_lib::set_int_range(0, positions.len() as int);
    vstd::set_lib::lemma_int_range(0, positions.len() as int);
    assert(list.no_duplicates());
    list.unique_seq_to_set();
    assert(list.to_set().subset_of(all)) by {
        assert forall|x: int| #[trigger] list.to_set().contains(x) implies all.contains(x) by {
            let i = choose|i: int| 0 <= i < list.len() && list[i] == x;
            assert(positions[i] < positions.len());
        }
    }
    vstd::set_lib::lemma_subset_equality(list.to_set(), all);
    assert(all.contains(p));
    assert(list.contains(p));
    choose|i: int| 0 <= i < list.len() && list[i] == p
}

/// A record at a place carries what it carried before it was placed.
pub open spec fn carried(
    b: FieldR1csBuilder,
    record: PagedSpendGroupTrace,
    c: FieldR1csBuilder,
    placed: PagedSpendGroupTrace,
) -> bool {
    &&& placed.live.at(c.witness()) == record.live.at(b.witness())
    &&& int_at(c, placed.end_page@, c.witness()) == int_at(b, record.end_page@, b.witness())
}

/// Compaction: records placed at the computed positions are compacted. The live
/// ones come first, by closing page, as long as no two of them close on the
/// same page.
pub proof fn lemma_placed_compacted(
    b: FieldR1csBuilder,
    records: Seq<PagedSpendGroupTrace>,
    positions: Seq<usize>,
    c: FieldR1csBuilder,
    placed: Seq<PagedSpendGroupTrace>,
)
    requires
        positions.len() == records.len(),
        placed.len() == records.len(),
        forall|i: int| 0 <= i < positions.len() ==> #[trigger] positions[i] < positions.len(),
        forall|i: int, j: int|
            0 <= i < positions.len() && 0 <= j < positions.len() && i != j ==> (
            #[trigger] positions[i] < #[trigger] positions[j] <==> comes_before(
                record_keys(b, records),
                i,
                j,
            )),
        forall|i: int|
            0 <= i < records.len() ==> carried(
                b,
                #[trigger] records[i],
                c,
                placed[positions[i] as int],
            ) && is_bit(records[i].live.at(b.witness())) && int_at(
                b,
                records[i].end_page@,
                b.witness(),
            ) < pow2(32),
        forall|i: int, j: int|
            0 <= i < j < records.len() && (#[trigger] records[i]).live.at(b.witness()) == 1 && (
            #[trigger] records[j]).live.at(b.witness()) == 1 ==> int_at(
                b,
                records[i].end_page@,
                b.witness(),
            ) != int_at(b, records[j].end_page@, b.witness()),
    ensures
        compacted(c, placed, c.witness()),
        all_bits(lives_at(placed, c.witness())),
{
    let keys = record_keys(b, records);
    let n = records.len() as int;
    let z = c.witness();
    assert forall|i: int, j: int| 0 <= i < n && 0 <= j < n && i != j implies #[trigger] positions[i]
        != #[trigger] positions[j] by {
        assert(comes_before(keys, i, j) || comes_before(keys, j, i));
        assert(positions[i] < positions[j] || positions[j] < positions[i]);
    }
    assert forall|p: int| 0 <= p < n implies int_at(c, (#[trigger] placed[p]).end_page@, z) < pow2(
        32,
    ) && is_bit(placed[p].live.at(z)) by {
        let i = lemma_positions_onto(positions, p);
        assert(carried(b, records[i], c, placed[positions[i] as int]));
    }
    assert forall|p: int| 0 <= p < n - 1 && (#[trigger] placed[p + 1]).live.at(z) == 1 implies {
        &&& placed[p].live.at(z) == 1
        &&& int_at(c, placed[p].end_page@, z) < int_at(c, placed[p + 1].end_page@, z)
    } by {
        let i = lemma_positions_onto(positions, p);
        let j = lemma_positions_onto(positions, p + 1);
        assert(carried(b, records[i], c, placed[positions[i] as int]));
        assert(carried(b, records[j], c, placed[positions[j] as int]));
        assert(positions[i] < positions[j]);
        assert(comes_before(keys, i, j));
        if i < j {
            assert(records[i].live.at(b.witness()) == 1 ==> int_at(
                b,
                records[i].end_page@,
                b.witness(),
            ) != int_at(b, records[j].end_page@, b.witness()));
        } else {
            assert(records[j].live.at(b.witness()) == 1);
        }
    }
    assert(dense(lives_at(placed, z))) by {
        assert forall|p: int| 0 <= p < n - 1 && #[trigger] lives_at(placed, z)[p + 1] == 1 implies
            lives_at(placed, z)[p] == 1 by {
            assert(placed[p + 1].live.at(z) == 1);
        }
    }
}

/// Asserts that routed records are compacted.
#[verifier::rlimit(40)]
pub fn bind_compacted_groups(b: &mut FieldR1csBuilder, groups: &Vec<PagedSpendGroupTrace>)
    requires
        old(b).wf(),
        groups_bounded(groups@, old(b).wires()),
    ensures
        refines(*final(b), *old(b)),
        forall|z: spec_fn(int) -> u128| #[trigger]
            final(b).holds(z) && old(b).live(z) && all_bits(lives_at(groups@, z)) ==> compacted(
                *old(b),
                groups@,
                z,
            ),
        old(b).live(old(b).witness()) && all_bits(lives_at(groups@, old(b).witness())) ==> (
        final(b).honest() <==> old(b).honest() && compacted(*old(b), groups@, old(b).witness())),
        final(b).shape() == compacted_step(old(b).shape(), group_forms(groups@)),
{
    reveal(ends_step);
    reveal(order_step);
    reveal(compacted_step);
    let ghost before = *b;
    let ghost w = b.witness();
    let n = groups.len();
    let mut lives: Vec<LinExpr> = Vec::new();
    let mut ends: Vec<LinExpr> = Vec::new();
    let mut i: usize = 0;
    while i < n
        invariant
            i <= n,
            n == groups@.len(),
            lives@.len() == i,
            ends@.len() == i,
            forall|k: int|
                0 <= k < i ==> (#[trigger] lives@[k])@ == groups@[k].live@ && ends@[k]@
                    == groups@[k].end_page@,
            forall|k: int| 0 <= k < i ==> (#[trigger] ends@[k])@ == groups@[k].end_page@,
        decreases n - i,
    {
        lives.push(groups[i].live.clone());
        ends.push(groups[i].end_page.clone());
        i = i + 1;
    }
    proof {
        assert forall|k: int| 0 <= k < n implies (#[trigger] lives@[k]).bound() <= before.wires() by {
            assert(groups@[k].live.bound() <= before.wires());
        }
        assert forall|k: int| 0 <= k < n implies (#[trigger] ends@[k]).bound() <= before.wires() by {
            assert(groups@[k].end_page.bound() <= before.wires());
        }
        assert forall|z: spec_fn(int) -> u128| #[trigger]
            exprs_at(lives@, z) == lives_at(groups@, z) by {
            assert(exprs_at(lives@, z) =~= lives_at(groups@, z));
        }
    }
    assert(forms(lives@) =~= lane_forms(group_forms(groups@), 0));
    assert(forms(ends@) =~= lane_forms(group_forms(groups@), 8));
    prefix_bits(b, lives.as_slice());
    let ghost b1 = *b;
    let mut end_bits: Vec<Vec<Wire>> = Vec::new();
    assert(all_wire_forms(end_bits@) =~= Seq::empty());
    let mut k: usize = 0;
    while k < n
        invariant
            k <= n,
            n == ends@.len(),
            before.wf(),
            b1.wf(),
            refines(b1, before),
            refines(*b, b1),
            exprs_bounded(ends@, before.wires()),
            end_bits@.len() == k,
            forall|j: int|
                0 <= j < k ==> (#[trigger] end_bits@[j])@.len() == 32 && wires_bounded(
                    end_bits@[j]@,
                    b.wires(),
                ),
            forall|z: spec_fn(int) -> u128, j: int|
                #![trigger b.holds(z), end_bits@[j]]
                b.holds(z) && 0 <= j < k ==> all_bits(wires_at(end_bits@[j]@, z)),
            forall|z: spec_fn(int) -> u128, j: int|
                #![trigger b.holds(z), end_bits@[j]]
                b.holds(z) && before.live(z) && 0 <= j < k ==> int_at(before, ends@[j]@, z)
                    == bits_nat(wires_at(end_bits@[j]@, z)) && int_at(before, ends@[j]@, z) < pow2(
                    32,
                ),
            before.live(before.witness()) ==> (b.honest() <==> b1.honest() && forall|j: int|
                0 <= j < k ==> int_at(before, (#[trigger] ends@[j])@, before.witness()) < pow2(
                    32,
                )),
            ends_step(b1.shape(), forms(ends@), k as nat) == (b.shape(), all_wire_forms(end_bits@)),
        decreases n - k,
    {
        reveal(ends_step);
        let ghost start = *b;
        let ghost bits0 = end_bits@;
        assert(ends@[k as int].bound() <= before.wires());
        let bits = range_check_bits(b, &ends[k], 32);
        end_bits.push(bits);
        proof {
            assert(ends@[k as int].at(start.witness()) == ends@[k as int].at(before.witness()));
            assert forall|j: int| 0 <= j < k + 1 implies (#[trigger] end_bits@[j])@.len() == 32
                && wires_bounded(end_bits@[j]@, b.wires()) by {
                if j < k {
                    assert(end_bits@[j] == bits0[j]);
                    assert forall|m: int| 0 <= m < bits0[j]@.len() implies (#[trigger] bits0[j]@[m]).index
                        < b.wires() by {
                        assert(bits0[j]@[m].index < start.wires());
                    }
                }
            }
            assert forall|z: spec_fn(int) -> u128, j: int|
                #![trigger b.holds(z), end_bits@[j]]
                b.holds(z) && 0 <= j < k + 1 implies all_bits(wires_at(end_bits@[j]@, z)) && (
            before.live(z) ==> int_at(before, ends@[j]@, z) == bits_nat(
                wires_at(end_bits@[j]@, z),
            ) && int_at(before, ends@[j]@, z) < pow2(32)) by {
                assert(start.holds(z));
                if before.live(z) {
                    assert(start.live(z));
                }
                if j < k {
                    assert(end_bits@[j] == bits0[j]);
                }
            }
        }
        k = k + 1;
        assert(all_wire_forms(end_bits@) =~= all_wire_forms(bits0).push(
            wire_forms(end_bits@[k - 1]@),
        ));
    }
    let ghost b2 = *b;
    let ghost shape2 = b.shape();
    if n == 0 {
        proof {
            assert(dense(lives_at(groups@, w)));
        }
        return;
    }
    let mut m: usize = 0;
    while m < n - 1
        invariant
            m < n,
            n == groups@.len(),
            n == ends@.len(),
            n == lives@.len(),
            before.wf(),
            w == before.witness(),
            b2.wf(),
            refines(b2, before),
            refines(*b, b2),
            exprs_bounded(ends@, before.wires()),
            exprs_bounded(lives@, before.wires()),
            end_bits@.len() == n,
            forall|j: int|
                0 <= j < n ==> (#[trigger] end_bits@[j])@.len() == 32 && wires_bounded(
                    end_bits@[j]@,
                    b2.wires(),
                ),
            forall|z: spec_fn(int) -> u128, j: int|
                #![trigger b2.holds(z), end_bits@[j]]
                b2.holds(z) && 0 <= j < n ==> all_bits(wires_at(end_bits@[j]@, z)),
            forall|z: spec_fn(int) -> u128, j: int|
                #![trigger b2.holds(z), end_bits@[j]]
                b2.holds(z) && before.live(z) && 0 <= j < n ==> int_at(before, ends@[j]@, z)
                    == bits_nat(wires_at(end_bits@[j]@, z)) && int_at(before, ends@[j]@, z) < pow2(
                    32,
                ),
            forall|z: spec_fn(int) -> u128, j: int|
                #![trigger b.holds(z), ends@[j + 1]]
                b.holds(z) && before.live(z) && all_bits(exprs_at(lives@, z)) && 0 <= j < m ==> (
                lives@[j + 1].at(z) == 1 && lives@[j].at(z) == 1 ==> int_at(before, ends@[j]@, z)
                    < int_at(before, ends@[j + 1]@, z)),
            before.live(w) && all_bits(exprs_at(lives@, w)) ==> (b.honest() <==> b2.honest()
                && forall|j: int|
                0 <= j < m ==> (lives@[j + 1].at(w) == 1 && lives@[j].at(w) == 1 ==> int_at(
                    before,
                    ends@[j]@,
                    w,
                ) < int_at(before, (#[trigger] ends@[j + 1])@, w))),
            b.shape() == order_step(shape2, forms(lives@), all_wire_forms(end_bits@), m as nat),
        decreases n - m,
    {
        reveal(order_step);
        let ghost start = *b;
        let ghost mi = m as int;
        assert(lives@[mi].bound() <= before.wires() && lives@[mi + 1].bound() <= before.wires());
        assert(ends@[mi].bound() <= before.wires() && ends@[mi + 1].bound() <= before.wires());
        proof {
            assert(end_bits@[mi]@.len() == 32 && end_bits@[mi + 1]@.len() == 32);
            assert forall|q: int| 0 <= q < 32 implies (#[trigger] end_bits@[mi]@[q]).index
                < start.wires() by {
                assert(end_bits@[mi]@[q].index < b2.wires());
            }
        }
        let both_live = crate::trace::mul(b, &lives[m], &lives[m + 1]);
        let ghost mid1 = *b;
        proof {
            assert forall|q: int| 0 <= q < 32 implies (#[trigger] end_bits@[mi]@[q]).index
                < mid1.wires() by {
                assert(end_bits@[mi]@[q].index < b2.wires());
            }
            assert forall|q: int| 0 <= q < 32 implies (#[trigger] end_bits@[mi + 1]@[q]).index
                < mid1.wires() by {
                assert(end_bits@[mi + 1]@[q].index < b2.wires());
            }
        }
        let less = lt_strict_expr(b, end_bits[m].as_slice(), end_bits[m + 1].as_slice());
        let ghost mid2 = *b;
        let not_less = less.add_const(F128::one());
        pin_when(b, &both_live, &not_less);
        proof {
            assert forall|z: spec_fn(int) -> u128| #[trigger]
                mid2.holds(z) && before.live(z) && all_bits(exprs_at(lives@, z)) implies {
                &&& both_live.at(z) == bit_of(lives@[mi].at(z) == 1 && lives@[mi + 1].at(z) == 1)
                &&& not_less.at(z) == 0 <==> int_at(before, ends@[mi]@, z) < int_at(
                    before,
                    ends@[mi + 1]@,
                    z,
                )
            } by {
                assert(mid1.holds(z) && start.holds(z) && b2.holds(z));
                assert(is_bit(exprs_at(lives@, z)[mi]) && is_bit(exprs_at(lives@, z)[mi + 1]));
                lemma_bit_ops(lives@[mi].at(z), lives@[mi + 1].at(z));
                assert(all_bits(wires_at(end_bits@[mi]@, z)));
                assert(all_bits(wires_at(end_bits@[mi + 1]@, z)));
                lemma_bit_ops(less.at(z), 1);
            }
            assert forall|z: spec_fn(int) -> u128, j: int|
                #![trigger b.holds(z), ends@[j + 1]]
                b.holds(z) && before.live(z) && all_bits(exprs_at(lives@, z)) && 0 <= j < m + 1
                implies (lives@[j + 1].at(z) == 1 && lives@[j].at(z) == 1 ==> int_at(
                before,
                ends@[j]@,
                z,
            ) < int_at(before, ends@[j + 1]@, z)) by {
                assert(mid2.holds(z) && mid1.holds(z) && start.holds(z));
                assert(mid2.live(z));
            }
            if before.live(w) && all_bits(exprs_at(lives@, w)) {
                lemma_exprs_kept(mid2, before, lives@);
                let v = mid2.witness();
                assert(lives@[mi].at(v) == lives@[mi].at(w));
                assert(lives@[mi + 1].at(v) == lives@[mi + 1].at(w));
                assert(ends@[mi].at(v) == ends@[mi].at(w));
                assert(ends@[mi + 1].at(v) == ends@[mi + 1].at(w));
                if start.honest() {
                    assert(mid2.honest());
                    assert(mid2.holds(v) && before.live(v));
                }
            }
        }
        m = m + 1;
    }
    proof {
        assert forall|z: spec_fn(int) -> u128| #[trigger]
            b.holds(z) && before.live(z) && all_bits(lives_at(groups@, z)) implies compacted(
            before,
            groups@,
            z,
        ) by {
            assert(b2.holds(z) && b1.holds(z));
            assert(exprs_at(lives@, z) == lives_at(groups@, z));
            assert forall|j: int| 0 <= j < n implies int_at(
                before,
                (#[trigger] groups@[j]).end_page@,
                z,
            ) < pow2(32) by {
                assert(end_bits@[j]@.len() == 32);
                assert(ends@[j]@ == groups@[j].end_page@);
            }
            assert forall|j: int| 0 <= j < n - 1 implies ((#[trigger] groups@[j + 1]).live.at(z)
                == 1 && groups@[j].live.at(z) == 1 ==> int_at(before, groups@[j].end_page@, z)
                < int_at(before, groups@[j + 1].end_page@, z)) by {
                assert(ends@[j + 1]@ == groups@[j + 1].end_page@);
                assert(ends@[j]@ == groups@[j].end_page@);
                assert(lives@[j]@ == groups@[j].live@ && lives@[j + 1]@ == groups@[j + 1].live@);
            }
        }
        if before.live(w) && all_bits(lives_at(groups@, w)) {
            assert(exprs_at(lives@, w) == lives_at(groups@, w));
            if compacted(before, groups@, w) {
                assert forall|j: int| 0 <= j < n implies int_at(
                    before,
                    (#[trigger] ends@[j])@,
                    w,
                ) < pow2(32) by {
                    assert(ends@[j]@ == groups@[j].end_page@);
                }
                assert forall|j: int| 0 <= j < n - 1 implies (lives@[j + 1].at(w) == 1
                    && lives@[j].at(w) == 1 ==> int_at(before, ends@[j]@, w) < int_at(
                    before,
                    (#[trigger] ends@[j + 1])@,
                    w,
                )) by {
                    assert(ends@[j + 1]@ == groups@[j + 1].end_page@);
                    assert(ends@[j]@ == groups@[j].end_page@);
                    assert(lives@[j]@ == groups@[j].live@ && lives@[j + 1]@
                        == groups@[j + 1].live@);
                }
            }
            if b.honest() {
                let v = b.witness();
                assert(b.holds(v) && before.live(v));
                lemma_exprs_kept(*b, before, lives@);
                lemma_exprs_kept(*b, before, ends@);
                assert(exprs_at(lives@, v) == lives_at(groups@, v));
                assert(compacted(before, groups@, v));
                assert forall|j: int| 0 <= j < n implies (#[trigger] groups@[j]).live.at(v)
                    == groups@[j].live.at(w) && groups@[j].end_page.at(v)
                    == groups@[j].end_page.at(w) by {
                    assert(lives@[j]@ == groups@[j].live@);
                    assert(ends@[j]@ == groups@[j].end_page@);
                    assert(lives@[j].at(v) == lives@[j].at(w));
                    assert(ends@[j].at(v) == ends@[j].at(w));
                }
                assert(compacted(before, groups@, w)) by {
                    assert(lives_at(groups@, v) =~= lives_at(groups@, w));
                }
            }
        }
    }
}

/// How many of the first `n` entries are one.
pub open spec fn count_live(lives: Seq<u128>, n: nat) -> nat
    decreases n,
{
    if n == 0 {
        0
    } else {
        count_live(lives, (n - 1) as nat) + if lives[n - 1] == 1 {
            1nat
        } else {
            0
        }
    }
}

proof fn lemma_count_mono(lives: Seq<u128>, m: nat, n: nat)
    requires
        m <= n,
    ensures
        count_live(lives, m) <= count_live(lives, n),
    decreases n,
{
    if m < n {
        lemma_count_mono(lives, m, (n - 1) as nat);
    }
}

/// The rows that count the first `n` live forms, and the count.
#[verifier::opaque]
pub open spec fn count_step(s: Shape, lives: Seq<LinForm>, n: nat) -> (Shape, LinForm)
    decreases n,
{
    if n == 0 {
        (s, const_form(0))
    } else {
        let (t, sum) = count_step(s, lives, (n - 1) as nat);
        add_step(t, sum, lives[n - 1], 9)
    }
}

/// The number of live records among the first `n`, in nine bits.
pub fn sum_live_prefix(
    b: &mut FieldR1csBuilder,
    groups: &Vec<PagedSpendGroupTrace>,
    n: usize,
) -> (r: LinExpr)
    requires
        old(b).wf(),
        n <= groups@.len(),
        groups_bounded(groups@, old(b).wires()),
    ensures
        refines(*final(b), *old(b)),
        r.bound() <= final(b).wires(),
        forall|z: spec_fn(int) -> u128| #[trigger]
            final(b).holds(z) && old(b).live(z) && all_bits(lives_at(groups@, z)) ==> int_at(
                *old(b),
                r@,
                z,
            ) == count_live(lives_at(groups@, z), n as nat),
        old(b).live(old(b).witness()) && all_bits(lives_at(groups@, old(b).witness())) ==> (
        final(b).honest() <==> old(b).honest() && count_live(
            lives_at(groups@, old(b).witness()),
            n as nat,
        ) < pow2(9)),
        count_step(old(b).shape(), lane_forms(group_forms(groups@), 0), n as nat) == (
            final(b).shape(),
            r@,
        ),
{
    reveal(count_step);
    let ghost entry = *b;
    let ghost before = *b;
    let ghost w = b.witness();
    let mut sum = LinExpr::zero();
    let mut i: usize = 0;
    proof {
        lemma_bit_int(before, 0);
        vstd::arithmetic::power2::lemma2_to64();
        assert forall|z: spec_fn(int) -> u128| #[trigger]
            b.holds(z) implies int_at(before, sum@, z) == 0 by {
            assert(sum.at(z) == 0);
        }
    }
    while i < n
        invariant
            i <= n <= groups@.len(),
            before.wf(),
            w == before.witness(),
            pow2(9) == 512,
            refines(*b, before),
            groups_bounded(groups@, before.wires()),
            sum.bound() <= b.wires(),
            forall|z: spec_fn(int) -> u128| #[trigger]
                b.holds(z) && before.live(z) && all_bits(lives_at(groups@, z)) ==> int_at(
                    before,
                    sum@,
                    z,
                ) == count_live(lives_at(groups@, z), i as nat),
            before.live(w) && all_bits(lives_at(groups@, w)) ==> (b.honest() <==> before.honest()
                && count_live(lives_at(groups@, w), i as nat) < 512),
            count_step(entry.shape(), lane_forms(group_forms(groups@), 0), i as nat) == (
                b.shape(),
                sum@,
            ),
        decreases n - i,
    {
        reveal(count_step);
        let ghost start = *b;
        let ghost sum0 = sum@;
        assert(groups@[i as int].live.bound() <= before.wires());
        sum = integer_add_no_overflow(b, &sum, &groups[i].live, 9);
        proof {
            assert forall|z: spec_fn(int) -> u128| #[trigger]
                b.holds(z) && before.live(z) && all_bits(lives_at(groups@, z)) implies int_at(
                before,
                sum@,
                z,
            ) == count_live(lives_at(groups@, z), (i + 1) as nat) by {
                assert(start.holds(z) && start.live(z));
                assert(is_bit(lives_at(groups@, z)[i as int]));
                lemma_bit_int(before, groups@[i as int].live.at(z));
                assert(int_at(start, sum@, z) == int_at(start, sum0, z) + int_at(
                    start,
                    groups@[i as int].live@,
                    z,
                ));
            }
            if before.live(w) && all_bits(lives_at(groups@, w)) {
                let v = start.witness();
                assert(is_bit(lives_at(groups@, w)[i as int]));
                lemma_bit_int(before, groups@[i as int].live.at(w));
                assert(groups@[i as int].live.at(v) == groups@[i as int].live.at(w));
                lemma_count_mono(lives_at(groups@, w), i as nat, (i + 1) as nat);
                if start.honest() {
                    assert(start.holds(v) && before.live(v));
                    lemma_lives_kept(start, before, groups@);
                }
            }
        }
        i = i + 1;
    }
    sum
}

proof fn lemma_lives_kept(
    after: FieldR1csBuilder,
    before: FieldR1csBuilder,
    groups: Seq<PagedSpendGroupTrace>,
)
    requires
        before.wf(),
        after.extends(&before),
        groups_bounded(groups, before.wires()),
    ensures
        lives_at(groups, after.witness()) == lives_at(groups, before.witness()),
        compacted(before, groups, after.witness()) == compacted(before, groups, before.witness()),
{
    let v = after.witness();
    let w = before.witness();
    assert forall|i: int| 0 <= i < groups.len() implies (#[trigger] groups[i]).live.at(v)
        == groups[i].live.at(w) && groups[i].end_page.at(v) == groups[i].end_page.at(w) by {
        assert(groups[i].live.bound() <= before.wires());
    }
    assert(lives_at(groups, v) =~= lives_at(groups, w));
}

/// The scan result: the compacted records and the number of live ones.
pub struct PagedSpendBlockTrace {
    pub groups: Vec<PagedSpendGroupTrace>,
    pub logical_count: LinExpr,
}

/// The records past the page count are dead.
pub open spec fn suffix_dead(lives: Seq<u128>, tier: int) -> bool {
    forall|i: int| tier <= i < lives.len() ==> #[trigger] lives[i] == 0
}

/// The rows that pin the forms from `from` up to `to`.
#[verifier::opaque]
pub open spec fn dead_step(s: Shape, lives: Seq<LinForm>, from: nat, to: nat) -> Shape
    decreases to,
{
    if to <= from {
        s
    } else {
        pin_zero_step(dead_step(s, lives, from, (to - 1) as nat), lives[to - 1])
    }
}

/// The rows of the records of a block, and their count.
#[verifier::opaque]
pub open spec fn groups_step(s: Shape, groups: Seq<Seq<LinForm>>, tier: nat) -> (Shape, LinForm) {
    let lives = lane_forms(groups, 0);
    let s1 = compacted_step(s, groups);
    let s2 = dead_step(s1, lives, tier, groups.len());
    count_step(s2, lives, tier)
}

/// Binds the routed records of a block with `tier` pages: compacted, dead past
/// the page count, and counted.
pub fn bind_paged_spend_groups(
    b: &mut FieldR1csBuilder,
    groups: Vec<PagedSpendGroupTrace>,
    tier: usize,
) -> (r: PagedSpendBlockTrace)
    requires
        old(b).wf(),
        tier <= groups@.len(),
        groups_bounded(groups@, old(b).wires()),
    ensures
        refines(*final(b), *old(b)),
        r.groups@ == groups@,
        r.logical_count.bound() <= final(b).wires(),
        forall|z: spec_fn(int) -> u128| #[trigger]
            final(b).holds(z) && old(b).live(z) && all_bits(lives_at(groups@, z)) ==> {
                let lives = lives_at(groups@, z);
                &&& compacted(*old(b), groups@, z)
                &&& suffix_dead(lives, tier as int)
                &&& int_at(*old(b), r.logical_count@, z) == count_live(lives, tier as nat)
            },
        ({
            let w = old(b).witness();
            let lives = lives_at(groups@, w);
            old(b).live(w) && all_bits(lives) ==> (final(b).honest() <==> old(b).honest()
                && compacted(*old(b), groups@, w) && suffix_dead(lives, tier as int) && count_live(
                lives,
                tier as nat,
            ) < pow2(9))
        }),
        groups_step(old(b).shape(), group_forms(groups@), tier as nat) == (
            final(b).shape(),
            r.logical_count@,
        ),
{
    reveal(dead_step);
    reveal(groups_step);
    let ghost before = *b;
    let ghost w = b.witness();
    bind_compacted_groups(b, &groups);
    let ghost b1 = *b;
    let ghost shape1 = b.shape();
    let n = groups.len();
    let mut i: usize = tier;
    while i < n
        invariant
            tier <= i <= n,
            n == groups@.len(),
            before.wf(),
            w == before.witness(),
            b1.wf(),
            refines(b1, before),
            refines(*b, b1),
            groups_bounded(groups@, before.wires()),
            forall|z: spec_fn(int) -> u128, k: int|
                #![trigger b.holds(z), groups@[k]]
                b.holds(z) && before.live(z) && tier <= k < i ==> groups@[k].live.at(z) == 0,
            before.live(w) ==> (b.honest() <==> b1.honest() && forall|k: int|
                tier <= k < i ==> (#[trigger] groups@[k]).live.at(w) == 0),
            b.shape() == dead_step(
                shape1,
                lane_forms(group_forms(groups@), 0),
                tier as nat,
                i as nat,
            ),
        decreases n - i,
    {
        reveal(dead_step);
        let ghost start = *b;
        assert(groups@[i as int].live.bound() <= before.wires());
        pin_zero(b, &groups[i].live);
        proof {
            assert forall|z: spec_fn(int) -> u128, k: int|
                #![trigger b.holds(z), groups@[k]]
                b.holds(z) && before.live(z) && tier <= k < i + 1 implies groups@[k].live.at(z)
                == 0 by {
                assert(start.holds(z) && start.live(z));
            }
            assert(groups@[i as int].live.at(start.witness()) == groups@[i as int].live.at(w));
        }
        i = i + 1;
    }
    let ghost b2 = *b;
    proof {
        assert forall|k: int| 0 <= k < n implies (#[trigger] groups@[k]).live.bound() <= b2.wires()
            && groups@[k].end_page.bound() <= b2.wires() by {
            assert(groups@[k].live.bound() <= before.wires());
        }
    }
    let logical_count = sum_live_prefix(b, &groups, tier);
    proof {
        assert forall|z: spec_fn(int) -> u128| #[trigger]
            b.holds(z) && before.live(z) && all_bits(lives_at(groups@, z)) implies {
            let lives = lives_at(groups@, z);
            &&& compacted(before, groups@, z)
            &&& suffix_dead(lives, tier as int)
            &&& int_at(before, logical_count@, z) == count_live(lives, tier as nat)
        } by {
            assert(b2.holds(z) && b1.holds(z));
            assert(b2.live(z));
            let lives = lives_at(groups@, z);
            assert forall|k: int| tier <= k < lives.len() implies #[trigger] lives[k] == 0 by {
                assert(groups@[k].live.at(z) == 0);
            }
        }
        if before.live(w) && all_bits(lives_at(groups@, w)) {
            lemma_lives_kept(b2, before, groups@);
            let lives = lives_at(groups@, w);
            if suffix_dead(lives, tier as int) {
                assert forall|k: int| tier <= k < n implies (#[trigger] groups@[k]).live.at(w)
                    == 0 by {
                    assert(lives[k] == 0);
                }
            }
            if forall|k: int| tier <= k < n ==> (#[trigger] groups@[k]).live.at(w) == 0 {
                assert forall|k: int| tier <= k < lives.len() implies #[trigger] lives[k] == 0 by {
                    assert(groups@[k].live.at(w) == 0);
                }
            }
        }
    }
    PagedSpendBlockTrace { groups, logical_count }
}

} // verus!
