//! The bounded integer interpreter as a circuit.
//!
//! A program is a list of instructions over four 64-bit registers. The circuit
//! has one fixed shape: every instruction and every check is present, and an
//! instruction that its predicate turns off changes nothing and rejects
//! nothing but malformed code.
use crate::bits::{
    all_bits, bits_nat, dot, exprs_at, exprs_bounded, int_bits, one_hot, wires_at, wires_bounded,
};
use crate::bits::{
    lemma_bits_bound, lemma_bits_field, lemma_bits_push, lemma_bits_split, lemma_dot_one_hot,
    lemma_int_bits, lemma_packed, lemma_pow2_128,
};
use crate::circuit::{agree, group_agree, FieldR1csBuilder, LinExpr, LinForm, Wire};
use crate::field::{bit_of, fmul, is_bit, F128};
use crate::field::{lemma_fmul_unit, lemma_xor};
use crate::trace::{
    adder_inv, boolean, int_at, lemma_adder_start, lemma_adder_step, lemma_bit_ops,
    lemma_exprs_kept, lemma_wires_kept, pack_bits, pack_exprs, pin_zero, range_check_bits, refines,
};
use crate::circuit::{
    const_form, form_add, form_add_const, forms, wire_form, wire_forms, wires_from, Shape,
};
use crate::trace::{boolean_step, mul_step, pack_form, pin_zero_step, range_step};
use vstd::arithmetic::power2::{lemma_pow2_unfold, pow2};
use vstd::prelude::*;

verus! {

broadcast use group_agree;

/// The rows that split the first `n` forms by a bit: those where it is zero,
/// and those where it is one.
#[verifier::opaque]
pub open spec fn split_step(s: Shape, values: Seq<LinForm>, bit: LinForm, n: nat) -> (
    Shape,
    Seq<LinForm>,
    Seq<LinForm>,
)
    decreases n,
{
    if n == 0 {
        (s, Seq::empty(), Seq::empty())
    } else {
        let (t, low, high) = split_step(s, values, bit, (n - 1) as nat);
        let (u, one) = mul_step(t, values[n - 1], bit);
        (u, low.push(form_add(values[n - 1], one)), high.push(one))
    }
}

/// The rows of the selectors of the first `n` bits.
#[verifier::opaque]
pub open spec fn tensor_step(s: Shape, bits: Seq<LinForm>, n: nat) -> (Shape, Seq<LinForm>)
    decreases n,
{
    if n == 0 {
        (s, Seq::empty().push(const_form(1)))
    } else {
        let (t, values) = tensor_step(s, bits, (n - 1) as nat);
        let (u, low, high) = split_step(t, values, bits[n - 1], values.len());
        (u, low + high)
    }
}

/// The sum of the forms from `from` up to `to`.
#[verifier::opaque]
pub open spec fn range_sum(values: Seq<LinForm>, from: nat, to: nat) -> LinForm
    decreases to,
{
    if to <= from {
        const_form(0)
    } else {
        form_add(range_sum(values, from, (to - 1) as nat), values[to - 1])
    }
}

/// The rows of the selectors of the allowed indices, and the selectors.
#[verifier::opaque]
pub open spec fn selectors_step(s: Shape, bits: Seq<LinForm>, allowed: nat) -> (
    Shape,
    Seq<LinForm>,
) {
    let (t, values) = tensor_step(s, bits, bits.len());
    (
        pin_zero_step(t, range_sum(values, allowed, values.len())),
        values.take(allowed as int),
    )
}

/// Selector expressions of the bits: entry `i` is one exactly when the bits
/// spell `i`. An index at or past `allowed` is rejected.
pub fn selectors(b: &mut FieldR1csBuilder, bits: &[Wire], allowed: usize) -> (values: Vec<LinExpr>)
    requires
        old(b).wf(),
        bits@.len() < 32,
        allowed <= pow2(bits@.len()),
        wires_bounded(bits@, old(b).wires()),
        forall|z: spec_fn(int) -> u128| #[trigger]
            old(b).holds(z) ==> all_bits(wires_at(bits@, z)),
    ensures
        refines(*final(b), *old(b)),
        values@.len() == allowed,
        exprs_bounded(values@, final(b).wires()),
        forall|z: spec_fn(int) -> u128, i: int|
            #![trigger final(b).holds(z), values@[i]]
            final(b).holds(z) && 0 <= i < allowed ==> values@[i].at(z) == bit_of(
                i == bits_nat(wires_at(bits@, z)),
            ),
        forall|z: spec_fn(int) -> u128| #[trigger]
            final(b).holds(z) && old(b).live(z) ==> bits_nat(wires_at(bits@, z)) < allowed,
        old(b).live(old(b).witness()) ==> (final(b).honest() <==> old(b).honest() && bits_nat(
            wires_at(bits@, old(b).witness()),
        ) < allowed),
        selectors_step(old(b).shape(), wire_forms(bits@), allowed as nat) == (
            final(b).shape(),
            forms(values@),
        ),
{
    reveal(split_step);
    reveal(tensor_step);
    reveal(range_sum);
    reveal(selectors_step);
    assert(forms(Seq::<LinExpr>::empty()) =~= Seq::empty());
    let ghost before = *b;
    let mut values: Vec<LinExpr> = Vec::new();
    values.push(LinExpr::one());
    let mut done: usize = 0;
    let mut len: usize = 1;
    proof {
        vstd::arithmetic::power2::lemma2_to64();
        assert forall|z: spec_fn(int) -> u128| #[trigger]
            b.holds(z) implies bits_nat(wires_at(bits@, z).take(0)) == 0 by {}
    }
    while done < bits.len()
        invariant
            done <= bits@.len() < 32,
            before.wf(),
            refines(*b, before),
            b.honest() <==> before.honest(),
            wires_bounded(bits@, before.wires()),
            len == pow2(done as nat),
            values@.len() == len,
            exprs_bounded(values@, b.wires()),
            forall|z: spec_fn(int) -> u128| #[trigger]
                before.holds(z) ==> all_bits(wires_at(bits@, z)),
            forall|z: spec_fn(int) -> u128, i: int|
                #![trigger b.holds(z), values@[i]]
                b.holds(z) && 0 <= i < len ==> values@[i].at(z) == bit_of(
                    i == bits_nat(wires_at(bits@, z).take(done as int)),
                ),
            tensor_step(before.shape(), wire_forms(bits@), done as nat) == (b.shape(), forms(values@)),
        decreases bits@.len() - done,
    {
        reveal(split_step);
        reveal(tensor_step);
        assert(forms(Seq::<LinExpr>::empty()) =~= Seq::empty());
        let ghost start = *b;
        assert(bits@[done as int].index < before.wires());
        let bit = LinExpr::from_wire(bits[done]);
        let mut low: Vec<LinExpr> = Vec::new();
        let mut high: Vec<LinExpr> = Vec::new();
        proof {
            lemma_pow2_unfold((done + 1) as nat);
            assert(pow2(done as nat) <= pow2(31)) by {
                if done < 31 {
                    vstd::arithmetic::power2::lemma_pow2_strictly_increases(done as nat, 31);
                }
            }
            vstd::arithmetic::power2::lemma2_to64();
        }
        let mut index: usize = 0;
        while index < len
            invariant
                index <= len,
                len == pow2(done as nat),
                done < bits@.len(),
                bit.bound() <= before.wires(),
                forall|z: spec_fn(int) -> u128| #[trigger] bit.at(z) == z(bits@[done as int].index as int),
                before.wf(),
                start.wf(),
                refines(start, before),
                refines(*b, start),
                b.honest() <==> start.honest(),
                values@.len() == len,
                exprs_bounded(values@, start.wires()),
                low@.len() == index,
                high@.len() == index,
                exprs_bounded(low@, b.wires()),
                exprs_bounded(high@, b.wires()),
                forall|z: spec_fn(int) -> u128| #[trigger]
                    before.holds(z) ==> all_bits(wires_at(bits@, z)),
                forall|z: spec_fn(int) -> u128, i: int|
                    #![trigger start.holds(z), values@[i]]
                    start.holds(z) && 0 <= i < len ==> values@[i].at(z) == bit_of(
                        i == bits_nat(wires_at(bits@, z).take(done as int)),
                    ),
                forall|z: spec_fn(int) -> u128, i: int|
                    #![trigger b.holds(z), low@[i]]
                    b.holds(z) && 0 <= i < index ==> low@[i].at(z) == bit_of(
                        i == bits_nat(wires_at(bits@, z).take(done + 1)),
                    ),
                forall|z: spec_fn(int) -> u128, i: int|
                    #![trigger b.holds(z), high@[i]]
                    b.holds(z) && 0 <= i < index ==> high@[i].at(z) == bit_of(
                        i + len == bits_nat(wires_at(bits@, z).take(done + 1)),
                    ),
                split_step(start.shape(), forms(values@), bit@, index as nat) == (
                    b.shape(),
                    forms(low@),
                    forms(high@),
                ),
            decreases len - index,
        {
            reveal(split_step);
            assert(values@[index as int].bound() <= start.wires());
            let ghost before_mul = *b;
            let one = crate::trace::mul(b, &values[index], &bit);
            let rest = values[index].add(&one);
            proof {
                assert forall|z: spec_fn(int) -> u128| #[trigger] b.holds(z) implies {
                    &&& rest.at(z) == bit_of(index == bits_nat(wires_at(bits@, z).take(done + 1)))
                    &&& one.at(z) == bit_of(
                        index + len == bits_nat(wires_at(bits@, z).take(done + 1)),
                    )
                } by {
                    assert(before_mul.holds(z) && start.holds(z) && before.holds(z));
                    let vals = wires_at(bits@, z);
                    let x = vals[done as int];
                    assert(is_bit(x));
                    assert(vals.take(done + 1) =~= vals.take(done as int).push(x));
                    lemma_bits_push(vals.take(done as int), x);
                    lemma_bits_bound(vals.take(done as int));
                    let v = values@[index as int].at(z);
                    assert(v == bit_of(index == bits_nat(vals.take(done as int))));
                    lemma_bit_ops(v, x);
                    lemma_bit_ops(v, fmul(v, x));
                }
            }
            low.push(rest);
            high.push(one);
            index = index + 1;
        }
        let ghost lows = low@;
        let ghost highs = high@;
        low.append(&mut high);
        proof {
            assert(low@ =~= lows + highs);
            assert(forms(low@) =~= forms(lows) + forms(highs));
            assert forall|z: spec_fn(int) -> u128, i: int|
                #![trigger b.holds(z), low@[i]]
                b.holds(z) && 0 <= i < 2 * len implies low@[i].at(z) == bit_of(
                i == bits_nat(wires_at(bits@, z).take(done + 1)),
            ) by {
                if i < len {
                    assert(low@[i] == lows[i]);
                } else {
                    assert(low@[i] == highs[i - len]);
                }
            }
            assert forall|i: int| 0 <= i < low@.len() implies (#[trigger] low@[i]).bound()
                <= b.wires() by {
                if i < len {
                    assert(low@[i] == lows[i]);
                } else {
                    assert(low@[i] == highs[i - len]);
                }
            }
        }
        values = low;
        len = 2 * len;
        done = done + 1;
    }
    let ghost full = values@;
    let ghost built = *b;
    proof {
        assert forall|z: spec_fn(int) -> u128, k: int|
            #![trigger built.holds(z), full[k]]
            built.holds(z) && 0 <= k < full.len() implies full[k].at(z) == bit_of(
            k == bits_nat(wires_at(bits@, z)),
        ) by {
            assert(wires_at(bits@, z).take(done as int) =~= wires_at(bits@, z));
        }
    }
    let mut invalid = LinExpr::zero();
    let mut i: usize = allowed;
    while i < values.len()
        invariant
            allowed <= i <= values@.len(),
            values@ == full,
            built == *b,
            exprs_bounded(full, built.wires()),
            invalid.bound() <= built.wires(),
            forall|z: spec_fn(int) -> u128, k: int|
                #![trigger built.holds(z), full[k]]
                built.holds(z) && 0 <= k < full.len() ==> full[k].at(z) == bit_of(
                    k == bits_nat(wires_at(bits@, z)),
                ),
            forall|z: spec_fn(int) -> u128| #[trigger]
                built.holds(z) ==> invalid.at(z) == bit_of(
                    allowed <= bits_nat(wires_at(bits@, z)) < i,
                ),
            invalid@ == range_sum(forms(full), allowed as nat, i as nat),
        decreases values@.len() - i,
    {
        reveal(range_sum);
        assert(full[i as int].bound() <= built.wires());
        let ghost inv0 = invalid@;
        invalid = invalid.add(&values[i]);
        proof {
            assert forall|z: spec_fn(int) -> u128| #[trigger]
                built.holds(z) implies invalid.at(z) == bit_of(
                allowed <= bits_nat(wires_at(bits@, z)) < i + 1,
            ) by {
                assert(full[i as int].at(z) == bit_of(i == bits_nat(wires_at(bits@, z))));
                lemma_bit_ops(inv0.at(z), full[i as int].at(z));
            }
        }
        i = i + 1;
    }
    pin_zero(b, &invalid);
    values.truncate(allowed);
    proof {
        assert(forms(values@) =~= forms(full).take(allowed as int));
        assert forall|z: spec_fn(int) -> u128| #[trigger]
            built.holds(z) implies (invalid.at(z) == 0 <==> bits_nat(wires_at(bits@, z)) < allowed) by {
            lemma_bits_bound(wires_at(bits@, z));
        }
        lemma_wires_kept(built, before, bits@);
        assert forall|z: spec_fn(int) -> u128, i: int|
            #![trigger b.holds(z), values@[i]]
            b.holds(z) && 0 <= i < allowed implies values@[i].at(z) == bit_of(
            i == bits_nat(wires_at(bits@, z)),
        ) by {
            assert(values@[i] == full[i]);
            assert(built.holds(z));
        }
        assert forall|i: int| 0 <= i < values@.len() implies (#[trigger] values@[i]).bound()
            <= b.wires() by {
            assert(values@[i] == full[i]);
        }
    }
    values
}

/// The rows of the inner product of the first `n` selectors and values.
#[verifier::opaque]
pub open spec fn select_step(s: Shape, x: Seq<LinForm>, y: Seq<LinForm>, n: nat) -> (Shape, LinForm)
    decreases n,
{
    if n == 0 {
        (s, const_form(0))
    } else {
        let (t, sum) = select_step(s, x, y, (n - 1) as nat);
        let (u, term) = mul_step(t, x[n - 1], y[n - 1]);
        (u, form_add(sum, term))
    }
}

/// The inner product of selectors and values.
pub fn select(b: &mut FieldR1csBuilder, selectors: &[LinExpr], values: &[LinExpr]) -> (r: LinExpr)
    requires
        old(b).wf(),
        selectors@.len() == values@.len(),
        exprs_bounded(selectors@, old(b).wires()),
        exprs_bounded(values@, old(b).wires()),
    ensures
        refines(*final(b), *old(b)),
        r.bound() <= final(b).wires(),
        final(b).honest() <==> old(b).honest(),
        forall|z: spec_fn(int) -> u128| #[trigger]
            final(b).holds(z) ==> r.at(z) == dot(exprs_at(selectors@, z), exprs_at(values@, z)),
        select_step(old(b).shape(), forms(selectors@), forms(values@), selectors@.len()) == (
            final(b).shape(),
            r@,
        ),
{
    reveal(select_step);
    let ghost before = *b;
    let mut sum = LinExpr::zero();
    let mut i: usize = 0;
    while i < selectors.len()
        invariant
            i <= selectors@.len(),
            selectors@.len() == values@.len(),
            before.wf(),
            refines(*b, before),
            b.honest() <==> before.honest(),
            sum.bound() <= b.wires(),
            exprs_bounded(selectors@, before.wires()),
            exprs_bounded(values@, before.wires()),
            forall|z: spec_fn(int) -> u128| #[trigger]
                b.holds(z) ==> sum.at(z) == dot(
                    exprs_at(selectors@, z).take(i as int),
                    exprs_at(values@, z).take(i as int),
                ),
            select_step(before.shape(), forms(selectors@), forms(values@), i as nat) == (
                b.shape(),
                sum@,
            ),
        decreases selectors@.len() - i,
    {
        reveal(select_step);
        let ghost start = *b;
        let ghost sum0 = sum@;
        assert(selectors@[i as int].bound() <= before.wires());
        assert(values@[i as int].bound() <= before.wires());
        let term = crate::trace::mul(b, &selectors[i], &values[i]);
        sum = sum.add(&term);
        proof {
            assert forall|z: spec_fn(int) -> u128| #[trigger]
                b.holds(z) implies sum.at(z) == dot(
                exprs_at(selectors@, z).take(i + 1),
                exprs_at(values@, z).take(i + 1),
            ) by {
                assert(start.holds(z));
                let x = exprs_at(selectors@, z);
                let y = exprs_at(values@, z);
                assert(x.take(i + 1).drop_last() =~= x.take(i as int));
                assert(y.take(i + 1).drop_last() =~= y.take(i as int));
            }
        }
        i = i + 1;
    }
    proof {
        assert forall|z: spec_fn(int) -> u128| #[trigger]
            b.holds(z) implies sum.at(z) == dot(
            exprs_at(selectors@, z),
            exprs_at(values@, z),
        ) by {
            assert(exprs_at(selectors@, z).take(i as int) =~= exprs_at(selectors@, z));
            assert(exprs_at(values@, z).take(i as int) =~= exprs_at(values@, z));
        }
    }
    sum
}

/// Complementing every bit subtracts from the largest integer of that width.
proof fn lemma_complement(vals: Seq<u128>, flipped: Seq<u128>)
    requires
        all_bits(vals),
        flipped.len() == vals.len(),
        forall|i: int| 0 <= i < vals.len() ==> #[trigger] flipped[i] == vals[i] ^ 1,
    ensures
        bits_nat(flipped) + bits_nat(vals) + 1 == pow2(vals.len()),
    decreases vals.len(),
{
    if vals.len() == 0 {
        vstd::arithmetic::power2::lemma2_to64();
    } else {
        let n = vals.len() - 1;
        assert(is_bit(vals[n]));
        lemma_bit_ops(vals[n], 1);
        assert(flipped[n] == vals[n] ^ 1);
        let v = vals.drop_last();
        let f = flipped.drop_last();
        assert forall|i: int| 0 <= i < v.len() implies is_bit(#[trigger] v[i]) by {
            assert(is_bit(vals[i]));
        }
        assert forall|i: int| 0 <= i < v.len() implies #[trigger] f[i] == v[i] ^ 1 by {
            assert(flipped[i] == vals[i] ^ 1);
        }
        lemma_complement(v, f);
        lemma_pow2_unfold(vals.len());
    }
}

/// An integer modulo 2^64.
pub open spec fn wrapped(x: int) -> u128 {
    (x % pow2(64) as int) as u128
}

/// A sum or a difference of 64-bit integers wraps at most once.
proof fn lemma_wrapped(x: int)
    requires
        -pow2(64) < x < 2 * pow2(64),
    ensures
        pow2(64) == 0x1_0000_0000_0000_0000,
        0 <= x < pow2(64) ==> wrapped(x) == x,
        x < 0 ==> wrapped(x) == x + pow2(64),
        x >= pow2(64) ==> wrapped(x) == x - pow2(64),
{
    vstd::arithmetic::power2::lemma2_to64_rest();
    let m = 0x1_0000_0000_0000_0000int;
    assert(pow2(64) == m);
    if x < 0 {
        assert(x % m == x + m);
    } else if x >= m {
        assert(x % m == x - m);
    } else {
        assert(x % m == x);
    }
}

/// What the comparison and addition unit computes from two 64-bit integers.
pub open spec fn unit_results(
    b: FieldR1csBuilder,
    l: nat,
    r: nat,
    subtract: bool,
    less: u128,
    equal: u128,
    sum: u128,
    carry: u128,
) -> bool {
    &&& less == bit_of(l < r)
    &&& equal == bit_of(l == r)
    &&& !subtract ==> {
        &&& carry == bit_of(l + r >= pow2(64))
        &&& sum == b.flat_basis().flat(wrapped((l + r) as int))
    }
    &&& subtract ==> {
        &&& carry == bit_of(l >= r)
        &&& sum == b.flat_basis().flat(wrapped(l - r))
    }
}

/// The forms that the first positions of the unit leave.
pub struct UnitForms {
    pub less: LinForm,
    pub equal: LinForm,
    pub carry: LinForm,
    pub sums: Seq<LinForm>,
}

/// The rows of the first `n` positions of the unit.
#[verifier::opaque]
pub open spec fn unit_loop(
    s: Shape,
    left: Seq<LinForm>,
    right: Seq<LinForm>,
    subtract: LinForm,
    n: nat,
) -> (Shape, UnitForms)
    decreases n,
{
    if n == 0 {
        (
            s,
            UnitForms {
                less: const_form(0),
                equal: const_form(1),
                carry: subtract,
                sums: Seq::empty(),
            },
        )
    } else {
        let (s0, u) = unit_loop(s, left, right, subtract, (n - 1) as nat);
        let a = left[n - 1];
        let c = right[n - 1];
        let matching = form_add_const(form_add(a, c), 1);
        let (s1, here) = mul_step(s0, form_add_const(a, 1), c);
        let (s2, below) = mul_step(s1, u.less, matching);
        let (s3, equal) = mul_step(s2, u.equal, matching);
        let adjusted = form_add(c, subtract);
        let half = form_add(a, adjusted);
        let (s4, direct) = mul_step(s3, a, adjusted);
        let (s5, rippled) = mul_step(s4, u.carry, half);
        (
            s5,
            UnitForms {
                less: form_add(here, below),
                equal,
                carry: form_add(direct, rippled),
                sums: u.sums.push(form_add(half, u.carry)),
            },
        )
    }
}

/// The rows of the unit, and its four results.
#[verifier::opaque]
pub open spec fn unit_step(
    s: Shape,
    left: Seq<LinForm>,
    right: Seq<LinForm>,
    subtract: LinForm,
) -> (Shape, LinForm, LinForm, LinForm, LinForm) {
    let (t, u) = unit_loop(s, left, right, subtract, 64);
    (t, u.less, u.equal, pack_form(s.flat, u.sums, 0, 64), u.carry)
}

/// Unsigned comparison and integer addition or subtraction on shared operand
/// bits. Subtraction is `a + !b + 1`: a final carry of one means no underflow.
pub fn integer_results(
    b: &mut FieldR1csBuilder,
    left: &[Wire],
    right: &[Wire],
    subtract: &LinExpr,
) -> (r: (LinExpr, LinExpr, LinExpr, LinExpr))
    requires
        old(b).wf(),
        left@.len() == 64,
        right@.len() == 64,
        wires_bounded(left@, old(b).wires()),
        wires_bounded(right@, old(b).wires()),
        subtract.bound() <= old(b).wires(),
        forall|z: spec_fn(int) -> u128| #[trigger]
            old(b).holds(z) ==> all_bits(wires_at(left@, z)) && all_bits(wires_at(right@, z)),
    ensures
        refines(*final(b), *old(b)),
        final(b).honest() <==> old(b).honest(),
        r.0.bound() <= final(b).wires(),
        r.1.bound() <= final(b).wires(),
        r.2.bound() <= final(b).wires(),
        r.3.bound() <= final(b).wires(),
        forall|z: spec_fn(int) -> u128| #[trigger]
            final(b).holds(z) && is_bit(subtract.at(z)) ==> unit_results(
                *old(b),
                bits_nat(wires_at(left@, z)),
                bits_nat(wires_at(right@, z)),
                subtract.at(z) == 1,
                r.0.at(z),
                r.1.at(z),
                r.2.at(z),
                r.3.at(z),
            ),
        unit_step(old(b).shape(), wire_forms(left@), wire_forms(right@), subtract@) == (
            final(b).shape(),
            r.0@,
            r.1@,
            r.2@,
            r.3@,
        ),
{
    reveal(unit_loop);
    reveal(unit_step);
    assert(forms(Seq::<LinExpr>::empty()) =~= Seq::empty());
    let ghost before = *b;
    let ghost basis = b.flat_basis();
    proof {
        b.lemma_basis_wf();
    }
    let mut less = LinExpr::zero();
    let mut equal = LinExpr::one();
    let mut carry = subtract.clone();
    let mut sum_bits: Vec<LinExpr> = Vec::new();
    let mut adjusted_bits: Vec<LinExpr> = Vec::new();
    let mut i: usize = 0;
    proof {
        assert forall|z: spec_fn(int) -> u128| #[trigger]
            b.holds(z) && is_bit(subtract.at(z)) implies adder_inv(
            wires_at(left@, z).take(0),
            exprs_at(adjusted_bits@, z),
            exprs_at(sum_bits@, z),
            subtract.at(z),
            carry.at(z),
        ) by {
            lemma_adder_start(subtract.at(z));
            assert(wires_at(left@, z).take(0) =~= Seq::empty());
            assert(exprs_at(adjusted_bits@, z) =~= Seq::empty());
            assert(exprs_at(sum_bits@, z) =~= Seq::empty());
        }
        assert forall|z: spec_fn(int) -> u128| #[trigger] b.holds(z) implies bits_nat(
            wires_at(left@, z).take(0),
        ) == 0 && bits_nat(wires_at(right@, z).take(0)) == 0 by {}
    }
    while i < 64
        invariant
            i <= 64,
            left@.len() == 64,
            right@.len() == 64,
            before.wf(),
            refines(*b, before),
            b.honest() <==> before.honest(),
            wires_bounded(left@, before.wires()),
            wires_bounded(right@, before.wires()),
            subtract.bound() <= before.wires(),
            less.bound() <= b.wires(),
            equal.bound() <= b.wires(),
            carry.bound() <= b.wires(),
            sum_bits@.len() == i,
            adjusted_bits@.len() == i,
            exprs_bounded(sum_bits@, b.wires()),
            forall|z: spec_fn(int) -> u128| #[trigger]
                before.holds(z) ==> all_bits(wires_at(left@, z)) && all_bits(wires_at(right@, z)),
            forall|z: spec_fn(int) -> u128, k: int|
                0 <= k < i ==> #[trigger] adjusted_bits@[k].at(z) == z(right@[k].index as int)
                    ^ subtract.at(z),
            forall|z: spec_fn(int) -> u128| #[trigger]
                b.holds(z) ==> {
                    &&& less.at(z) == bit_of(
                        bits_nat(wires_at(left@, z).take(i as int)) < bits_nat(
                            wires_at(right@, z).take(i as int),
                        ),
                    )
                    &&& equal.at(z) == bit_of(
                        bits_nat(wires_at(left@, z).take(i as int)) == bits_nat(
                            wires_at(right@, z).take(i as int),
                        ),
                    )
                },
            forall|z: spec_fn(int) -> u128| #[trigger]
                b.holds(z) && is_bit(subtract.at(z)) ==> adder_inv(
                    wires_at(left@, z).take(i as int),
                    exprs_at(adjusted_bits@, z),
                    exprs_at(sum_bits@, z),
                    subtract.at(z),
                    carry.at(z),
                ),
            unit_loop(before.shape(), wire_forms(left@), wire_forms(right@), subtract@, i as nat) == (
                b.shape(),
                UnitForms { less: less@, equal: equal@, carry: carry@, sums: forms(sum_bits@) },
            ),
        decreases 64 - i,
    {
        reveal(unit_loop);
        let ghost start = *b;
        let ghost less0 = less@;
        let ghost equal0 = equal@;
        let ghost carry0 = carry@;
        let ghost sums = sum_bits@;
        let ghost adjs = adjusted_bits@;
        assert(left@[i as int].index < before.wires());
        assert(right@[i as int].index < before.wires());
        let a = LinExpr::from_wire(left[i]);
        let c = LinExpr::from_wire(right[i]);
        let matching = a.add(&c).add_const(F128::one());
        let less_here = crate::trace::mul(b, &a.add_const(F128::one()), &c);
        let less_below = crate::trace::mul(b, &less, &matching);
        less = less_here.add(&less_below);
        equal = crate::trace::mul(b, &equal, &matching);
        let adjusted = c.add(subtract);
        let half = a.add(&adjusted);
        let sum_bit = half.add(&carry);
        let direct_carry = crate::trace::mul(b, &a, &adjusted);
        let rippled = crate::trace::mul(b, &carry, &half);
        carry = direct_carry.add(&rippled);
        sum_bits.push(sum_bit);
        adjusted_bits.push(adjusted);
        proof {
            assert forall|z: spec_fn(int) -> u128| #[trigger] b.holds(z) implies {
                &&& less.at(z) == bit_of(
                    bits_nat(wires_at(left@, z).take(i + 1)) < bits_nat(
                        wires_at(right@, z).take(i + 1),
                    ),
                )
                &&& equal.at(z) == bit_of(
                    bits_nat(wires_at(left@, z).take(i + 1)) == bits_nat(
                        wires_at(right@, z).take(i + 1),
                    ),
                )
            } by {
                assert(start.holds(z) && before.holds(z));
                let va = wires_at(left@, z);
                let vb = wires_at(right@, z);
                let x = va[i as int];
                let y = vb[i as int];
                assert(is_bit(x) && is_bit(y));
                assert(va.take(i + 1) =~= va.take(i as int).push(x));
                assert(vb.take(i + 1) =~= vb.take(i as int).push(y));
                lemma_bits_push(va.take(i as int), x);
                lemma_bits_push(vb.take(i as int), y);
                lemma_bits_bound(va.take(i as int));
                lemma_bits_bound(vb.take(i as int));
                lemma_bit_ops(x, y);
                lemma_bit_ops(x ^ 1, y);
                lemma_bit_ops(x ^ y, 1);
                lemma_bit_ops(less0.at(z), (x ^ y) ^ 1);
                lemma_bit_ops(equal0.at(z), (x ^ y) ^ 1);
                lemma_bit_ops(fmul(x ^ 1, y), fmul(less0.at(z), (x ^ y) ^ 1));
            }
            assert forall|z: spec_fn(int) -> u128| #[trigger]
                b.holds(z) && is_bit(subtract.at(z)) implies adder_inv(
                wires_at(left@, z).take(i + 1),
                exprs_at(adjusted_bits@, z),
                exprs_at(sum_bits@, z),
                subtract.at(z),
                carry.at(z),
            ) by {
                assert(start.holds(z) && before.holds(z));
                let va = wires_at(left@, z);
                let x = va[i as int];
                let y0 = wires_at(right@, z)[i as int];
                assert(is_bit(x) && is_bit(y0));
                lemma_bit_ops(y0, subtract.at(z));
                assert(va.take(i + 1) =~= va.take(i as int).push(x));
                assert(exprs_at(adjusted_bits@, z) =~= exprs_at(adjs, z).push(adjusted.at(z)));
                assert(exprs_at(sum_bits@, z) =~= exprs_at(sums, z).push(sum_bit.at(z)));
                lemma_adder_step(
                    va.take(i as int),
                    exprs_at(adjs, z),
                    exprs_at(sums, z),
                    subtract.at(z),
                    carry0.at(z),
                    x,
                    adjusted.at(z),
                );
            }
        }
        i = i + 1;
    }
    let sum = pack_exprs(b, sum_bits.as_slice(), 0);
    proof {
        vstd::arithmetic::power2::lemma2_to64();
        vstd::arithmetic::power2::lemma2_to64_rest();
        assert forall|z: spec_fn(int) -> u128| #[trigger]
            b.holds(z) && is_bit(subtract.at(z)) implies unit_results(
            before,
            bits_nat(wires_at(left@, z)),
            bits_nat(wires_at(right@, z)),
            subtract.at(z) == 1,
            less.at(z),
            equal.at(z),
            sum.at(z),
            carry.at(z),
        ) by {
            assert(before.holds(z));
            let va = wires_at(left@, z);
            let vb = wires_at(right@, z);
            let adj = exprs_at(adjusted_bits@, z);
            let vs = exprs_at(sum_bits@, z);
            assert(va.take(i as int) =~= va);
            assert(vb.take(i as int) =~= vb);
            lemma_bits_bound(vs);
            lemma_bits_bound(va);
            lemma_bits_bound(vb);
            lemma_packed(basis, vs, 0);
            assert(bits_nat(vs) * pow2(0) == bits_nat(vs));
            assert(adder_inv(va, adj, vs, subtract.at(z), carry.at(z)));
            lemma_wrapped((bits_nat(va) + bits_nat(vb)) as int);
            lemma_wrapped(bits_nat(va) - bits_nat(vb));
            if subtract.at(z) == 1 {
                assert forall|k: int| 0 <= k < vb.len() implies #[trigger] adj[k] == vb[k] ^ 1 by {
                    assert(adjusted_bits@[k].at(z) == z(right@[k].index as int) ^ 1);
                }
                lemma_complement(vb, adj);
            } else {
                assert(adj =~= vb) by {
                    assert forall|k: int| 0 <= k < vb.len() implies adj[k] == vb[k] by {
                        assert(adjusted_bits@[k].at(z) == z(right@[k].index as int) ^ 0);
                        lemma_xor(vb[k], 0, 0);
                    }
                }
            }
        }
    }
    (less, equal, sum, carry)
}

/// Bits of an instruction descriptor.
pub const INSTRUCTION_BITS: usize = 20;

pub const OPCODE_COUNT: usize = 10;

pub const OPERAND_COUNT: usize = 24;

pub const PREDICATE_COUNT: usize = 6;

/// The integer in bits `from..to` of a word.
pub open spec fn field(word: u128, from: nat, to: nat) -> nat {
    (word as nat / pow2(from)) % pow2((to - from) as nat)
}

/// The integers of an evaluation context.
pub struct ContextValue {
    pub height: u128,
    pub fee: u128,
    pub payout: u128,
    pub retained: u128,
    pub input_amount: u128,
    pub before_deadline: u128,
    pub terminal: u128,
    pub has_payout: u128,
    pub payout_owner: Seq<u128>,
    pub input_creation_id: u128,
    pub input_slot: u128,
    pub retained_slot: u128,
    pub payout_slot: u128,
}

impl ContextValue {
    /// Amounts and identities are 64-bit, slots are 32-bit, flags are bits.
    pub open spec fn valid(self) -> bool {
        &&& self.height < pow2(64)
        &&& self.fee < pow2(64)
        &&& self.payout < pow2(64)
        &&& self.retained < pow2(64)
        &&& self.input_amount < pow2(64)
        &&& self.input_creation_id < pow2(64)
        &&& self.payout_owner[0] < pow2(64)
        &&& self.payout_owner[1] < pow2(64)
        &&& self.payout_owner[2] < pow2(64)
        &&& self.payout_owner[3] < pow2(64)
        &&& self.input_slot < pow2(32)
        &&& self.retained_slot < pow2(32)
        &&& self.payout_slot < pow2(32)
        &&& is_bit(self.before_deadline)
        &&& is_bit(self.terminal)
        &&& is_bit(self.has_payout)
    }
}

/// The operand table of an instruction, in operand order.
pub open spec fn operand_table(regs: Seq<u128>, immediate: u128, c: ContextValue) -> Seq<u128> {
    seq![
        regs[0],
        regs[1],
        regs[2],
        regs[3],
        immediate,
        c.height,
        c.fee,
        c.payout,
        c.retained,
        c.input_amount,
        c.before_deadline,
        c.terminal,
        c.has_payout,
        0,
        1,
        bit_of(c.before_deadline != 1),
        c.payout_owner[0],
        c.payout_owner[1],
        c.payout_owner[2],
        c.payout_owner[3],
        c.input_creation_id,
        c.input_slot,
        c.retained_slot,
        c.payout_slot,
    ]
}

/// The predicate table of an instruction, in predicate order.
pub open spec fn predicate_table(regs: Seq<u128>, c: ContextValue) -> Seq<u128> {
    seq![1, c.before_deadline, c.terminal, c.has_payout, regs[2], regs[3]]
}

/// An instruction word is well formed.
pub open spec fn well_formed(word: u128, immediate: u128) -> bool {
    &&& word < pow2(20)
    &&& immediate < pow2(64)
    &&& field(word, 0, 4) < 10
    &&& field(word, 6, 11) < 24
    &&& field(word, 11, 16) < 24
    &&& field(word, 16, 19) < 6
}

/// The value that an instruction computes from its operands: keep, move, add,
/// subtract, minimum, maximum, less-than, equality, and the two assertions,
/// which keep the destination.
pub open spec fn operation(op: nat, l: u128, r: u128, old_value: u128) -> u128 {
    if op == 1 {
        l
    } else if op == 2 {
        (l + r) as u128
    } else if op == 3 {
        (l - r) as u128
    } else if op == 4 {
        if l < r {
            l
        } else {
            r
        }
    } else if op == 5 {
        if l < r {
            r
        } else {
            l
        }
    } else if op == 6 {
        bit_of(l < r)
    } else if op == 7 {
        bit_of(l == r)
    } else {
        old_value
    }
}

/// An enabled instruction rejects overflow, underflow and failed assertions.
pub open spec fn rejects(op: nat, l: u128, r: u128) -> bool {
    ||| op == 2 && l + r >= pow2(64)
    ||| op == 3 && l < r
    ||| op == 8 && l != r
    ||| op == 9 && l > r
}

/// One instruction: the registers after it, or nothing if it rejects.
pub open spec fn step(
    regs: Seq<u128>,
    word: u128,
    immediate: u128,
    c: ContextValue,
    live: bool,
) -> Option<Seq<u128>> {
    let op = field(word, 0, 4);
    let destination = field(word, 4, 6);
    let predicate = predicate_table(regs, c)[field(word, 16, 19) as int];
    let inverted = field(word, 19, 20) == 1;
    let enabled = live && (predicate == 1) != inverted;
    let operands = operand_table(regs, immediate, c);
    let l = operands[field(word, 6, 11) as int];
    let r = operands[field(word, 11, 16) as int];
    if !well_formed(word, immediate) || !is_bit(predicate) {
        None
    } else if enabled && rejects(op, l, r) {
        None
    } else if enabled {
        Some(regs.update(destination as int, operation(op, l, r, regs[destination as int])))
    } else {
        Some(regs)
    }
}

/// The registers after the first `n` instructions.
pub open spec fn run(
    regs: Seq<u128>,
    program: Seq<(u128, u128)>,
    n: nat,
    c: ContextValue,
    live: bool,
) -> Option<Seq<u128>>
    decreases n,
{
    if n == 0 {
        Some(regs)
    } else {
        match run(regs, program, (n - 1) as nat, c, live) {
            None => None,
            Some(mid) => step(mid, program[n - 1].0, program[n - 1].1, c, live),
        }
    }
}

/// A 128-bit state is two registers; the scratch registers start at zero.
pub open spec fn initial_registers(state: u128) -> Seq<u128> {
    seq![
        (state as nat % pow2(64)) as u128,
        (state as nat / pow2(64)) as u128,
        0,
        0,
    ]
}

/// A program takes `current` to `next`. A program that is not live still has
/// to be well formed, and says nothing about `next`.
pub open spec fn accepts(
    program: Seq<(u128, u128)>,
    current: u128,
    next: u128,
    c: ContextValue,
    live: u128,
) -> bool {
    &&& is_bit(live)
    &&& c.valid()
    &&& run(initial_registers(current), program, program.len(), c, live == 1) matches Some(regs)
        && (live == 1 ==> next as nat == regs[0] as nat + pow2(64) * regs[1] as nat)
}

/// A live program takes a state to one next state at most.
pub proof fn lemma_next_unique(
    program: Seq<(u128, u128)>,
    current: u128,
    next: u128,
    other: u128,
    c: ContextValue,
)
    requires
        accepts(program, current, next, c, 1),
        accepts(program, current, other, c, 1),
    ensures
        next == other,
{
}

/// A program that is not live says nothing of the next state.
pub proof fn lemma_dead_program_free(
    program: Seq<(u128, u128)>,
    current: u128,
    next: u128,
    other: u128,
    c: ContextValue,
)
    requires
        accepts(program, current, next, c, 0),
    ensures
        accepts(program, current, other, c, 0),
{
}

/// Four 64-bit registers.
pub open spec fn registers_ok(regs: Seq<u128>) -> bool {
    regs.len() == 4 && regs[0] < pow2(64) && regs[1] < pow2(64) && regs[2] < pow2(64) && regs[3]
        < pow2(64)
}

/// The integers carried by a list of expressions.
pub open spec fn ints_at(b: FieldR1csBuilder, es: Seq<LinExpr>, z: spec_fn(int) -> u128) -> Seq<u128> {
    Seq::new(es.len(), |i: int| b.flat_basis().tower(es[i].at(z)))
}

/// The expressions of an evaluation context.
pub struct ContextTrace {
    pub height: LinExpr,
    pub fee: LinExpr,
    pub payout: LinExpr,
    pub retained: LinExpr,
    pub input_amount: LinExpr,
    pub before_deadline: LinExpr,
    pub terminal: LinExpr,
    pub has_payout: LinExpr,
    pub payout_owner: [LinExpr; 4],
    pub input_creation_id: LinExpr,
    pub input_slot: LinExpr,
    pub retained_slot: LinExpr,
    pub payout_slot: LinExpr,
}

/// What a context reads.
pub struct ContextForms {
    pub height: LinForm,
    pub fee: LinForm,
    pub payout: LinForm,
    pub retained: LinForm,
    pub input_amount: LinForm,
    pub before_deadline: LinForm,
    pub terminal: LinForm,
    pub has_payout: LinForm,
    pub payout_owner: Seq<LinForm>,
    pub input_creation_id: LinForm,
    pub input_slot: LinForm,
    pub retained_slot: LinForm,
    pub payout_slot: LinForm,
}

impl ContextForms {
    /// The operands, in operand order.
    #[verifier::opaque]
    pub open spec fn operands(self, registers: Seq<LinForm>, immediate: LinForm) -> Seq<LinForm> {
        Seq::empty().push(registers[0]).push(registers[1]).push(registers[2]).push(
            registers[3],
        ).push(immediate).push(self.height).push(self.fee).push(self.payout).push(
            self.retained,
        ).push(self.input_amount).push(self.before_deadline).push(self.terminal).push(
            self.has_payout,
        ).push(const_form(0)).push(const_form(1)).push(
            form_add_const(self.before_deadline, 1),
        ).push(self.payout_owner[0]).push(self.payout_owner[1]).push(self.payout_owner[2]).push(
            self.payout_owner[3],
        ).push(self.input_creation_id).push(self.input_slot).push(self.retained_slot).push(
            self.payout_slot,
        )
    }

    /// The predicates, in predicate order.
    #[verifier::opaque]
    pub open spec fn predicates(self, registers: Seq<LinForm>) -> Seq<LinForm> {
        Seq::empty().push(const_form(1)).push(self.before_deadline).push(self.terminal).push(
            self.has_payout,
        ).push(registers[2]).push(registers[3])
    }

    /// The rows of the ranges of a context.
    #[verifier::opaque]
    pub open spec fn ranges_step(self, s: Shape) -> Shape {
        let wide = Seq::empty().push(self.height).push(self.fee).push(self.payout).push(
            self.retained,
        ).push(self.input_amount).push(self.input_creation_id).push(self.payout_owner[0]).push(
            self.payout_owner[1],
        ).push(self.payout_owner[2]).push(self.payout_owner[3]);
        let slots = Seq::empty().push(self.input_slot).push(self.retained_slot).push(
            self.payout_slot,
        );
        let flags = Seq::empty().push(self.before_deadline).push(self.terminal).push(
            self.has_payout,
        );
        boolean_all_step(
            range_all_step(range_all_step(s, wide, 64, 10), slots, 32, 3),
            flags,
            3,
        )
    }
}

impl ContextTrace {
    /// What the context reads.
    pub open spec fn forms(&self) -> ContextForms {
        ContextForms {
            height: self.height@,
            fee: self.fee@,
            payout: self.payout@,
            retained: self.retained@,
            input_amount: self.input_amount@,
            before_deadline: self.before_deadline@,
            terminal: self.terminal@,
            has_payout: self.has_payout@,
            payout_owner: forms(self.payout_owner@),
            input_creation_id: self.input_creation_id@,
            input_slot: self.input_slot@,
            retained_slot: self.retained_slot@,
            payout_slot: self.payout_slot@,
        }
    }

    pub open spec fn bounded(&self, n: nat) -> bool {
        &&& self.height.bound() <= n
        &&& self.fee.bound() <= n
        &&& self.payout.bound() <= n
        &&& self.retained.bound() <= n
        &&& self.input_amount.bound() <= n
        &&& self.before_deadline.bound() <= n
        &&& self.terminal.bound() <= n
        &&& self.has_payout.bound() <= n
        &&& self.payout_owner@[0].bound() <= n
        &&& self.payout_owner@[1].bound() <= n
        &&& self.payout_owner@[2].bound() <= n
        &&& self.payout_owner@[3].bound() <= n
        &&& self.input_creation_id.bound() <= n
        &&& self.input_slot.bound() <= n
        &&& self.retained_slot.bound() <= n
        &&& self.payout_slot.bound() <= n
    }

    /// The integers that the context carries.
    pub open spec fn values(&self, b: FieldR1csBuilder, z: spec_fn(int) -> u128) -> ContextValue {
        let t = b.flat_basis();
        ContextValue {
            height: t.tower(self.height.at(z)),
            fee: t.tower(self.fee.at(z)),
            payout: t.tower(self.payout.at(z)),
            retained: t.tower(self.retained.at(z)),
            input_amount: t.tower(self.input_amount.at(z)),
            before_deadline: t.tower(self.before_deadline.at(z)),
            terminal: t.tower(self.terminal.at(z)),
            has_payout: t.tower(self.has_payout.at(z)),
            payout_owner: seq![
                t.tower(self.payout_owner@[0].at(z)),
                t.tower(self.payout_owner@[1].at(z)),
                t.tower(self.payout_owner@[2].at(z)),
                t.tower(self.payout_owner@[3].at(z)),
            ],
            input_creation_id: t.tower(self.input_creation_id.at(z)),
            input_slot: t.tower(self.input_slot.at(z)),
            retained_slot: t.tower(self.retained_slot.at(z)),
            payout_slot: t.tower(self.payout_slot.at(z)),
        }
    }
}

/// The rows of the range checks of the first `n` forms.
#[verifier::opaque]
pub open spec fn range_all_step(s: Shape, es: Seq<LinForm>, n_bits: nat, n: nat) -> Shape
    decreases n,
{
    if n == 0 {
        s
    } else {
        range_step(range_all_step(s, es, n_bits, (n - 1) as nat), es[n - 1], n_bits)
    }
}

/// Range-checks every expression of a list.
pub fn range_check_all(b: &mut FieldR1csBuilder, exprs: &[LinExpr], n_bits: usize)
    requires
        old(b).wf(),
        n_bits <= 128,
        exprs_bounded(exprs@, old(b).wires()),
    ensures
        refines(*final(b), *old(b)),
        forall|z: spec_fn(int) -> u128, k: int|
            #![trigger final(b).holds(z), exprs@[k]]
            final(b).holds(z) && old(b).live(z) && 0 <= k < exprs@.len() ==> int_at(
                *old(b),
                exprs@[k]@,
                z,
            ) < pow2(n_bits as nat),
        old(b).live(old(b).witness()) ==> (final(b).honest() <==> old(b).honest() && forall|k: int|
            0 <= k < exprs@.len() ==> int_at(*old(b), #[trigger] exprs@[k]@, old(b).witness())
                < pow2(n_bits as nat)),
        final(b).shape() == range_all_step(
            old(b).shape(),
            forms(exprs@),
            n_bits as nat,
            exprs@.len(),
        ),
{
    reveal(range_all_step);
    let ghost entry = *b;
    let ghost before = *b;
    let mut i: usize = 0;
    while i < exprs.len()
        invariant
            i <= exprs@.len(),
            n_bits <= 128,
            before.wf(),
            refines(*b, before),
            exprs_bounded(exprs@, before.wires()),
            forall|z: spec_fn(int) -> u128, k: int|
                #![trigger b.holds(z), exprs@[k]]
                b.holds(z) && before.live(z) && 0 <= k < i ==> int_at(before, exprs@[k]@, z)
                    < pow2(n_bits as nat),
            before.live(before.witness()) ==> (b.honest() <==> before.honest() && forall|k: int|
                0 <= k < i ==> int_at(before, #[trigger] exprs@[k]@, before.witness()) < pow2(
                    n_bits as nat,
                )),
            b.shape() == range_all_step(entry.shape(), forms(exprs@), n_bits as nat, i as nat),
        decreases exprs@.len() - i,
    {
        reveal(range_all_step);
        let ghost start = *b;
        assert(exprs@[i as int].bound() <= before.wires());
        let _bits = range_check_bits(b, &exprs[i], n_bits);
        proof {
            assert forall|z: spec_fn(int) -> u128, k: int|
                #![trigger b.holds(z), exprs@[k]]
                b.holds(z) && before.live(z) && 0 <= k < i + 1 implies int_at(
                before,
                exprs@[k]@,
                z,
            ) < pow2(n_bits as nat) by {
                assert(start.holds(z));
                assert(start.live(z));
            }
            assert(exprs@[i as int].at(start.witness()) == exprs@[i as int].at(before.witness()));
        }
        i = i + 1;
    }
}

/// The rows that hold the first `n` forms to bits.
#[verifier::opaque]
pub open spec fn boolean_all_step(s: Shape, es: Seq<LinForm>, n: nat) -> Shape
    decreases n,
{
    if n == 0 {
        s
    } else {
        boolean_step(boolean_all_step(s, es, (n - 1) as nat), es[n - 1])
    }
}

/// Asserts that every expression of a list is a bit.
pub fn boolean_all(b: &mut FieldR1csBuilder, exprs: &[LinExpr])
    requires
        old(b).wf(),
        exprs_bounded(exprs@, old(b).wires()),
    ensures
        refines(*final(b), *old(b)),
        forall|z: spec_fn(int) -> u128, k: int|
            #![trigger final(b).holds(z), exprs@[k]]
            final(b).holds(z) && old(b).live(z) && 0 <= k < exprs@.len() ==> is_bit(
                exprs@[k].at(z),
            ),
        old(b).live(old(b).witness()) ==> (final(b).honest() <==> old(b).honest() && forall|k: int|
            0 <= k < exprs@.len() ==> is_bit((#[trigger] exprs@[k]).at(old(b).witness()))),
        final(b).shape() == boolean_all_step(old(b).shape(), forms(exprs@), exprs@.len()),
{
    reveal(boolean_all_step);
    let ghost entry = *b;
    let ghost before = *b;
    let mut i: usize = 0;
    while i < exprs.len()
        invariant
            i <= exprs@.len(),
            before.wf(),
            refines(*b, before),
            exprs_bounded(exprs@, before.wires()),
            forall|z: spec_fn(int) -> u128, k: int|
                #![trigger b.holds(z), exprs@[k]]
                b.holds(z) && before.live(z) && 0 <= k < i ==> is_bit(exprs@[k].at(z)),
            before.live(before.witness()) ==> (b.honest() <==> before.honest() && forall|k: int|
                0 <= k < i ==> is_bit((#[trigger] exprs@[k]).at(before.witness()))),
            b.shape() == boolean_all_step(entry.shape(), forms(exprs@), i as nat),
        decreases exprs@.len() - i,
    {
        reveal(boolean_all_step);
        let ghost start = *b;
        assert(exprs@[i as int].bound() <= before.wires());
        boolean(b, &exprs[i]);
        proof {
            assert forall|z: spec_fn(int) -> u128, k: int|
                #![trigger b.holds(z), exprs@[k]]
                b.holds(z) && before.live(z) && 0 <= k < i + 1 implies is_bit(exprs@[k].at(z)) by {
                assert(start.holds(z));
                assert(start.live(z));
            }
            assert(exprs@[i as int].at(start.witness()) == exprs@[i as int].at(before.witness()));
        }
        i = i + 1;
    }
}

/// A field value is a bit exactly when the integer it carries is.
pub proof fn lemma_bit_int(b: FieldR1csBuilder, x: u128)
    requires
        b.wf(),
    ensures
        is_bit(b.flat_basis().tower(x)) <==> is_bit(x),
        is_bit(x) ==> b.flat_basis().tower(x) == x,
        b.flat_basis().flat(0) == 0,
        b.flat_basis().flat(1) == 1,
        b.flat_basis().flat(b.flat_basis().tower(x)) == x,
{
    b.lemma_basis_wf();
    b.flat_basis().lemma_linear(0, 0);
    b.flat_basis().lemma_inverse(x);
}

impl ContextTrace {
    /// Range-checks the whole context.
    pub fn bind_ranges(&self, b: &mut FieldR1csBuilder)
        requires
            old(b).wf(),
            self.bounded(old(b).wires()),
        ensures
            refines(*final(b), *old(b)),
            forall|z: spec_fn(int) -> u128| #[trigger]
                final(b).holds(z) && old(b).live(z) ==> self.values(*old(b), z).valid(),
            old(b).live(old(b).witness()) ==> (final(b).honest() <==> old(b).honest()
                && self.values(*old(b), old(b).witness()).valid()),
            final(b).shape() == self.forms().ranges_step(old(b).shape()),
    {
        reveal(ContextForms::ranges_step);
        assert(forms(Seq::<LinExpr>::empty()) =~= Seq::empty());
        let ghost before = *b;
        let mut wide: Vec<LinExpr> = Vec::new();
        wide.push(self.height.clone());
        wide.push(self.fee.clone());
        wide.push(self.payout.clone());
        wide.push(self.retained.clone());
        wide.push(self.input_amount.clone());
        wide.push(self.input_creation_id.clone());
        wide.push(self.payout_owner[0].clone());
        wide.push(self.payout_owner[1].clone());
        wide.push(self.payout_owner[2].clone());
        wide.push(self.payout_owner[3].clone());
        let mut slots: Vec<LinExpr> = Vec::new();
        slots.push(self.input_slot.clone());
        slots.push(self.retained_slot.clone());
        slots.push(self.payout_slot.clone());
        let mut flags: Vec<LinExpr> = Vec::new();
        flags.push(self.before_deadline.clone());
        flags.push(self.terminal.clone());
        flags.push(self.has_payout.clone());
        range_check_all(b, wide.as_slice(), 64);
        let ghost mid1 = *b;
        range_check_all(b, slots.as_slice(), 32);
        let ghost mid2 = *b;
        boolean_all(b, flags.as_slice());
        proof {
            assert forall|z: spec_fn(int) -> u128| #[trigger]
                b.holds(z) && before.live(z) implies self.values(before, z).valid() by {
                assert(mid2.holds(z) && mid1.holds(z));
                assert(mid2.live(z) && mid1.live(z));
                assert(int_at(before, wide@[0]@, z) < pow2(64));
                assert(int_at(before, wide@[1]@, z) < pow2(64));
                assert(int_at(before, wide@[2]@, z) < pow2(64));
                assert(int_at(before, wide@[3]@, z) < pow2(64));
                assert(int_at(before, wide@[4]@, z) < pow2(64));
                assert(int_at(before, wide@[5]@, z) < pow2(64));
                assert(int_at(before, wide@[6]@, z) < pow2(64));
                assert(int_at(before, wide@[7]@, z) < pow2(64));
                assert(int_at(before, wide@[8]@, z) < pow2(64));
                assert(int_at(before, wide@[9]@, z) < pow2(64));
                assert(int_at(mid1, slots@[0]@, z) < pow2(32));
                assert(int_at(mid1, slots@[1]@, z) < pow2(32));
                assert(int_at(mid1, slots@[2]@, z) < pow2(32));
                assert(is_bit(flags@[0].at(z)) && is_bit(flags@[1].at(z)) && is_bit(
                    flags@[2].at(z),
                ));
                lemma_bit_int(before, self.before_deadline.at(z));
                lemma_bit_int(before, self.terminal.at(z));
                lemma_bit_int(before, self.has_payout.at(z));
            }
            let w = before.witness();
            lemma_bit_int(before, self.before_deadline.at(w));
            lemma_bit_int(before, self.terminal.at(w));
            lemma_bit_int(before, self.has_payout.at(w));
            if before.live(w) && before.honest() && self.values(before, w).valid() {
                assert forall|k: int| 0 <= k < wide@.len() implies int_at(
                    before,
                    #[trigger] wide@[k]@,
                    w,
                ) < pow2(64) by {}
                assert(mid1.honest());
                assert forall|k: int| 0 <= k < slots@.len() implies int_at(
                    mid1,
                    #[trigger] slots@[k]@,
                    mid1.witness(),
                ) < pow2(32) by {
                    assert(slots@[k].at(mid1.witness()) == slots@[k].at(w));
                }
                assert(mid2.honest());
                assert forall|k: int| 0 <= k < flags@.len() implies is_bit(
                    (#[trigger] flags@[k]).at(mid2.witness()),
                ) by {
                    assert(flags@[k].at(mid2.witness()) == flags@[k].at(w));
                }
            }
            if before.live(w) && b.honest() {
                let v = b.witness();
                assert(b.holds(v));
                assert(before.live(v)) by {
                    assert(b.live(v));
                }
                assert(self.values(before, v).valid());
                assert(self.values(before, v) == self.values(before, w)) by {
                    assert(self.payout_owner@[0].at(v) == self.payout_owner@[0].at(w));
                    assert(self.payout_owner@[1].at(v) == self.payout_owner@[1].at(w));
                    assert(self.payout_owner@[2].at(v) == self.payout_owner@[2].at(w));
                    assert(self.payout_owner@[3].at(v) == self.payout_owner@[3].at(w));
                }
            }
        }
    }

    /// The operand expressions, in operand order.
    pub fn operands(&self, registers: &[LinExpr], immediate: &LinExpr) -> (r: Vec<LinExpr>)
        requires
            registers@.len() == 4,
        ensures
            r@.len() == 24,
            forall|n: nat| #[trigger] self.bounded(n) && exprs_bounded(registers@, n)
                && immediate.bound() <= n ==> exprs_bounded(r@, n),
            forall|b: FieldR1csBuilder, z: spec_fn(int) -> u128|
                b.wf() && #[trigger] self.values(b, z).valid() ==> ints_at(b, r@, z)
                    == operand_table(
                    ints_at(b, registers@, z),
                    b.flat_basis().tower(immediate.at(z)),
                    self.values(b, z),
                ),
            forms(r@) == self.forms().operands(forms(registers@), immediate@),
    {
        reveal(ContextForms::operands);
        assert(forms(Seq::<LinExpr>::empty()) =~= Seq::empty());
        let mut r: Vec<LinExpr> = Vec::new();
        r.push(registers[0].clone());
        r.push(registers[1].clone());
        r.push(registers[2].clone());
        r.push(registers[3].clone());
        r.push(immediate.clone());
        r.push(self.height.clone());
        r.push(self.fee.clone());
        r.push(self.payout.clone());
        r.push(self.retained.clone());
        r.push(self.input_amount.clone());
        r.push(self.before_deadline.clone());
        r.push(self.terminal.clone());
        r.push(self.has_payout.clone());
        r.push(LinExpr::zero());
        r.push(LinExpr::one());
        r.push(self.before_deadline.add_const(F128::one()));
        r.push(self.payout_owner[0].clone());
        r.push(self.payout_owner[1].clone());
        r.push(self.payout_owner[2].clone());
        r.push(self.payout_owner[3].clone());
        r.push(self.input_creation_id.clone());
        r.push(self.input_slot.clone());
        r.push(self.retained_slot.clone());
        r.push(self.payout_slot.clone());
        assert forall|b: FieldR1csBuilder, z: spec_fn(int) -> u128|
            b.wf() && #[trigger] self.values(b, z).valid() implies ints_at(b, r@, z)
            == operand_table(
            ints_at(b, registers@, z),
            b.flat_basis().tower(immediate.at(z)),
            self.values(b, z),
        ) by {
            let x = self.before_deadline.at(z);
            lemma_bit_int(b, x);
            lemma_bit_int(b, x ^ 1);
            lemma_bit_int(b, 0);
            lemma_bit_int(b, 1);
            lemma_bit_ops(x, 1);
            assert(ints_at(b, r@, z) =~= operand_table(
                ints_at(b, registers@, z),
                b.flat_basis().tower(immediate.at(z)),
                self.values(b, z),
            ));
        }
        r
    }

    /// The predicate expressions, in predicate order.
    pub fn predicates(&self, registers: &[LinExpr]) -> (r: Vec<LinExpr>)
        requires
            registers@.len() == 4,
        ensures
            r@.len() == 6,
            forall|n: nat| #[trigger]
                self.bounded(n) && exprs_bounded(registers@, n) ==> exprs_bounded(r@, n),
            forall|b: FieldR1csBuilder, z: spec_fn(int) -> u128|
                b.wf() && #[trigger] self.values(b, z).valid() ==> ints_at(b, r@, z)
                    == predicate_table(ints_at(b, registers@, z), self.values(b, z)),
            forms(r@) == self.forms().predicates(forms(registers@)),
    {
        reveal(ContextForms::predicates);
        assert(forms(Seq::<LinExpr>::empty()) =~= Seq::empty());
        let mut r: Vec<LinExpr> = Vec::new();
        r.push(LinExpr::one());
        r.push(self.before_deadline.clone());
        r.push(self.terminal.clone());
        r.push(self.has_payout.clone());
        r.push(registers[2].clone());
        r.push(registers[3].clone());
        assert forall|b: FieldR1csBuilder, z: spec_fn(int) -> u128|
            b.wf() && #[trigger] self.values(b, z).valid() implies ints_at(b, r@, z)
            == predicate_table(ints_at(b, registers@, z), self.values(b, z)) by {
            lemma_bit_int(b, 1);
            assert(ints_at(b, r@, z) =~= predicate_table(
                ints_at(b, registers@, z),
                self.values(b, z),
            ));
        }
        r
    }
}

/// A run of bit wires reads the same run of bits.
proof fn lemma_wires_run(ws: Seq<Wire>, run: Seq<Wire>, from: int, to: int, z: spec_fn(int) -> u128)
    requires
        0 <= from <= to <= ws.len(),
        run == ws.subrange(from, to),
    ensures
        wires_at(run, z) == wires_at(ws, z).subrange(from, to),
        all_bits(wires_at(ws, z)) ==> all_bits(wires_at(run, z)),
{
    assert(wires_at(run, z) =~= wires_at(ws, z).subrange(from, to));
    if all_bits(wires_at(ws, z)) {
        assert forall|i: int| 0 <= i < run.len() implies is_bit(#[trigger] wires_at(run, z)[i]) by {
            assert(is_bit(wires_at(ws, z)[from + i]));
        }
    }
}

/// The selectors of one run of descriptor bits.
fn field_selectors(
    b: &mut FieldR1csBuilder,
    bits: &Vec<Wire>,
    from: usize,
    to: usize,
    allowed: usize,
    Ghost(word): Ghost<spec_fn(spec_fn(int) -> u128) -> u128>,
) -> (values: Vec<LinExpr>)
    requires
        old(b).wf(),
        bits@.len() == 20,
        from < to <= 20,
        to - from < 8,
        0 < allowed <= pow2((to - from) as nat),
        wires_bounded(bits@, old(b).wires()),
        forall|z: spec_fn(int) -> u128| #[trigger]
            old(b).holds(z) ==> all_bits(wires_at(bits@, z)),
        forall|z: spec_fn(int) -> u128| #[trigger]
            old(b).holds(z) && old(b).live(z) ==> word(z) < pow2(20) && wires_at(bits@, z)
                == int_bits(word(z), 20),
        old(b).honest() && old(b).live(old(b).witness()) ==> wires_at(bits@, old(b).witness())
            == int_bits(word(old(b).witness()), 20),
    ensures
        refines(*final(b), *old(b)),
        values@.len() == allowed,
        exprs_bounded(values@, final(b).wires()),
        forall|z: spec_fn(int) -> u128| #[trigger]
            final(b).holds(z) && old(b).live(z) ==> one_hot(
                exprs_at(values@, z),
                field(word(z), from as nat, to as nat) as int,
            ),
        old(b).live(old(b).witness()) && old(b).honest() ==> (final(b).honest() <==> field(
            word(old(b).witness()),
            from as nat,
            to as nat,
        ) < allowed),
        selectors_step(
            old(b).shape(),
            wire_forms(bits@.subrange(from as int, to as int)),
            allowed as nat,
        ) == (final(b).shape(), forms(values@)),
{
    let ghost before = *b;
    let run = vstd::slice::slice_subrange(bits.as_slice(), from, to);
    proof {
        assert forall|z: spec_fn(int) -> u128| #[trigger] before.holds(z) implies all_bits(
            wires_at(run@, z),
        ) by {
            lemma_wires_run(bits@, run@, from as int, to as int, z);
        }
        assert forall|k: int| 0 <= k < run@.len() implies (#[trigger] run@[k]).index
            < before.wires() by {
            assert(bits@[from + k].index < before.wires());
        }
        vstd::arithmetic::power2::lemma2_to64();
    }
    let values = selectors(b, run, allowed);
    proof {
        assert forall|z: spec_fn(int) -> u128|
            before.holds(z) && #[trigger] before.live(z) implies bits_nat(wires_at(run@, z))
            == field(word(z), from as nat, to as nat) by {
            lemma_wires_run(bits@, run@, from as int, to as int, z);
            lemma_int_bits(word(z), 20);
            lemma_bits_field(wires_at(bits@, z), from as nat, to as nat);
        }
        assert forall|z: spec_fn(int) -> u128| #[trigger]
            b.holds(z) && before.live(z) implies one_hot(
            exprs_at(values@, z),
            field(word(z), from as nat, to as nat) as int,
        ) by {
            assert(before.holds(z));
            let vals = exprs_at(values@, z);
            assert forall|i: int| 0 <= i < vals.len() implies #[trigger] vals[i] == bit_of(
                i == field(word(z), from as nat, to as nat),
            ) by {
                assert(values@[i].at(z) == bit_of(i == bits_nat(wires_at(run@, z))));
            }
        }
    }
    values
}

/// The selectors of a decoded instruction.
pub struct Decoded {
    pub op: Vec<LinExpr>,
    pub destination: Vec<LinExpr>,
    pub left: Vec<LinExpr>,
    pub right: Vec<LinExpr>,
    pub predicate: Vec<LinExpr>,
    pub inverted: LinExpr,
}

/// What a decoded instruction reads.
pub struct DecodedForms {
    pub op: Seq<LinForm>,
    pub destination: Seq<LinForm>,
    pub left: Seq<LinForm>,
    pub right: Seq<LinForm>,
    pub predicate: Seq<LinForm>,
    pub inverted: LinForm,
}

impl Decoded {
    /// What the decoded instruction reads.
    pub open spec fn forms(&self) -> DecodedForms {
        DecodedForms {
            op: forms(self.op@),
            destination: forms(self.destination@),
            left: forms(self.left@),
            right: forms(self.right@),
            predicate: forms(self.predicate@),
            inverted: self.inverted@,
        }
    }

    pub open spec fn bounded(&self, n: nat) -> bool {
        &&& self.op@.len() == 10
        &&& self.destination@.len() == 4
        &&& self.left@.len() == 24
        &&& self.right@.len() == 24
        &&& self.predicate@.len() == 6
        &&& exprs_bounded(self.op@, n)
        &&& exprs_bounded(self.destination@, n)
        &&& exprs_bounded(self.left@, n)
        &&& exprs_bounded(self.right@, n)
        &&& exprs_bounded(self.predicate@, n)
        &&& self.inverted.bound() <= n
    }

    /// The selectors spell the fields of a well-formed word.
    pub open spec fn spells(&self, z: spec_fn(int) -> u128, word: u128) -> bool {
        &&& one_hot(exprs_at(self.op@, z), field(word, 0, 4) as int)
        &&& one_hot(exprs_at(self.destination@, z), field(word, 4, 6) as int)
        &&& one_hot(exprs_at(self.left@, z), field(word, 6, 11) as int)
        &&& one_hot(exprs_at(self.right@, z), field(word, 11, 16) as int)
        &&& one_hot(exprs_at(self.predicate@, z), field(word, 16, 19) as int)
        &&& self.inverted.at(z) == bit_of(field(word, 19, 20) == 1)
    }
}

/// The rows that decode an instruction, and what they leave.
#[verifier::opaque]
pub open spec fn decode_step(s: Shape, descriptor: LinForm, immediate: LinForm) -> (
    Shape,
    DecodedForms,
) {
    let bits = wires_from(s.n(), 20);
    let s1 = range_step(s, descriptor, 20);
    let s2 = range_step(s1, immediate, 64);
    let (s3, op) = selectors_step(s2, wire_forms(bits.subrange(0, 4)), 10);
    let (s4, destination) = selectors_step(s3, wire_forms(bits.subrange(4, 6)), 4);
    let (s5, left) = selectors_step(s4, wire_forms(bits.subrange(6, 11)), 24);
    let (s6, right) = selectors_step(s5, wire_forms(bits.subrange(11, 16)), 24);
    let (s7, predicate) = selectors_step(s6, wire_forms(bits.subrange(16, 19)), 6);
    let inverted = wire_form(bits[19].index as nat);
    (s7, DecodedForms { op, destination, left, right, predicate, inverted })
}

/// Decodes one instruction and rejects a malformed one.
pub fn decode(b: &mut FieldR1csBuilder, descriptor: &LinExpr, immediate: &LinExpr) -> (r: Decoded)
    requires
        old(b).wf(),
        descriptor.bound() <= old(b).wires(),
        immediate.bound() <= old(b).wires(),
    ensures
        refines(*final(b), *old(b)),
        r.bounded(final(b).wires()),
        forall|z: spec_fn(int) -> u128| #[trigger]
            final(b).holds(z) && old(b).live(z) ==> {
                let word = old(b).flat_basis().tower(descriptor.at(z));
                well_formed(word, old(b).flat_basis().tower(immediate.at(z))) && r.spells(z, word)
            },
        old(b).live(old(b).witness()) ==> (final(b).honest() <==> old(b).honest() && well_formed(
            old(b).flat_basis().tower(descriptor.at(old(b).witness())),
            old(b).flat_basis().tower(immediate.at(old(b).witness())),
        )),
        decode_step(old(b).shape(), descriptor@, immediate@) == (final(b).shape(), r.forms()),
{
    reveal(decode_step);
    let ghost before = *b;
    let ghost t = b.flat_basis();
    let ghost word = |z: spec_fn(int) -> u128| t.tower(descriptor.at(z));
    let bits = range_check_bits(b, descriptor, INSTRUCTION_BITS);
    let ghost b1 = *b;
    let _immediate_bits = range_check_bits(b, immediate, 64);
    let ghost b2 = *b;
    proof {
        vstd::arithmetic::power2::lemma2_to64();
        lemma_wires_kept(b2, b1, bits@);
        assert(descriptor.at(b2.witness()) == descriptor.at(before.witness()));
        assert forall|z: spec_fn(int) -> u128| #[trigger] b2.holds(z) implies all_bits(
            wires_at(bits@, z),
        ) && (before.live(z) ==> word(z) < pow2(20) && wires_at(bits@, z) == int_bits(word(z), 20)) by {
            assert(b1.holds(z));
        }
    }
    let op = field_selectors(b, &bits, 0, 4, OPCODE_COUNT, Ghost(word));
    let ghost b3 = *b;
    proof {
        lemma_wires_kept(b3, b2, bits@);
        assert(descriptor.at(b3.witness()) == descriptor.at(before.witness()));
    }
    let destination = field_selectors(b, &bits, 4, 6, 4, Ghost(word));
    let ghost b4 = *b;
    proof {
        lemma_wires_kept(b4, b3, bits@);
        assert(descriptor.at(b4.witness()) == descriptor.at(before.witness()));
    }
    let left = field_selectors(b, &bits, 6, 11, OPERAND_COUNT, Ghost(word));
    let ghost b5 = *b;
    proof {
        lemma_wires_kept(b5, b4, bits@);
        assert(descriptor.at(b5.witness()) == descriptor.at(before.witness()));
    }
    let right = field_selectors(b, &bits, 11, 16, OPERAND_COUNT, Ghost(word));
    let ghost b6 = *b;
    proof {
        lemma_wires_kept(b6, b5, bits@);
        assert(descriptor.at(b6.witness()) == descriptor.at(before.witness()));
    }
    let predicate = field_selectors(b, &bits, 16, 19, PREDICATE_COUNT, Ghost(word));
    let inverted = LinExpr::from_wire(bits[19]);
    let r = Decoded { op, destination, left, right, predicate, inverted };
    proof {
        assert(bits@[19].index < b1.wires());
        assert forall|z: spec_fn(int) -> u128| #[trigger]
            b.holds(z) && before.live(z) implies {
            let word = t.tower(descriptor.at(z));
            well_formed(word, t.tower(immediate.at(z))) && r.spells(z, word)
        } by {
            assert(b6.holds(z) && b5.holds(z) && b4.holds(z) && b3.holds(z) && b2.holds(z)
                && b1.holds(z));
            assert(b1.live(z) && b2.live(z) && b3.live(z) && b4.live(z) && b5.live(z) && b6.live(
                z,
            ));
            let d = t.tower(descriptor.at(z));
            assert(word(z) == d);
            let vals = wires_at(bits@, z);
            lemma_int_bits(d, 20);
            lemma_bits_field(vals, 19, 20);
            let top = vals.subrange(19, 20);
            assert(top =~= Seq::<u128>::empty().push(vals[19]));
            lemma_bits_push(Seq::<u128>::empty(), vals[19]);
            assert(is_bit(vals[19]));
            assert(bits_nat(Seq::<u128>::empty()) == 0);
            assert(int_at(b1, immediate@, z) < pow2(64));
        }
        let w = before.witness();
        if before.live(w) {
            assert(immediate.at(b1.witness()) == immediate.at(w));
            let d = t.tower(descriptor.at(w));
            assert(word(b2.witness()) == d);
            assert(word(b3.witness()) == d);
            assert(word(b4.witness()) == d);
            assert(word(b5.witness()) == d);
            assert(word(b6.witness()) == d);
            if before.honest() && well_formed(d, t.tower(immediate.at(w))) {
                assert(b1.honest());
                assert(b2.honest());
                assert(b3.honest());
                vstd::arithmetic::power2::lemma_pow2_pos(2);
                assert(pow2(2) == 4);
                assert(field(d, 4, 6) < 4);
                assert(b4.honest());
                assert(b5.honest());
                assert(b6.honest());
                assert(b.honest());
            }
            if b.honest() {
                assert(b6.honest() && b5.honest() && b4.honest() && b3.honest() && b2.honest()
                    && b1.honest() && before.honest());
            }
        }
    }
    r
}

/// What an instruction reads.
struct Fetched {
    enabled: LinExpr,
    left: LinExpr,
    right: LinExpr,
    old_destination: LinExpr,
}

/// What a fetch reads.
pub struct FetchedForms {
    pub enabled: LinForm,
    pub left: LinForm,
    pub right: LinForm,
    pub old_destination: LinForm,
}

impl Fetched {
    spec fn forms(&self) -> FetchedForms {
        FetchedForms {
            enabled: self.enabled@,
            left: self.left@,
            right: self.right@,
            old_destination: self.old_destination@,
        }
    }

    spec fn bounded(&self, n: nat) -> bool {
        &&& self.enabled.bound() <= n
        &&& self.left.bound() <= n
        &&& self.right.bound() <= n
        &&& self.old_destination.bound() <= n
    }
}

/// Selecting by a one-hot vector reads one expression.
proof fn lemma_select(
    b: FieldR1csBuilder,
    selectors: Seq<LinExpr>,
    values: Seq<LinExpr>,
    table: Seq<u128>,
    k: int,
    z: spec_fn(int) -> u128,
)
    requires
        b.wf(),
        selectors.len() == values.len(),
        one_hot(exprs_at(selectors, z), k),
        ints_at(b, values, z) == table,
    ensures
        b.flat_basis().tower(dot(exprs_at(selectors, z), exprs_at(values, z))) == table[k],
        b.flat_basis().flat(table[k]) == dot(exprs_at(selectors, z), exprs_at(values, z)),
{
    lemma_dot_one_hot(exprs_at(selectors, z), exprs_at(values, z), k);
    assert(ints_at(b, values, z)[k] == b.flat_basis().tower(values[k].at(z)));
    lemma_bit_int(b, values[k].at(z));
}

spec fn fetch_ready(
    b: FieldR1csBuilder,
    decoded: Decoded,
    registers: Seq<LinExpr>,
    context: ContextTrace,
    live: LinForm,
    z: spec_fn(int) -> u128,
    word: u128,
) -> bool {
    &&& decoded.spells(z, word)
    &&& registers_ok(ints_at(b, registers, z))
    &&& context.values(b, z).valid()
    &&& is_bit(live.at(z))
}

/// The rows of a fetch, and what they leave.
#[verifier::opaque]
pub open spec fn fetch_step(
    s: Shape,
    d: DecodedForms,
    registers: Seq<LinForm>,
    immediate: LinForm,
    context: ContextForms,
    live: LinForm,
) -> (Shape, FetchedForms) {
    let (s1, predicate) = select_step(
        s,
        d.predicate,
        context.predicates(registers),
        d.predicate.len(),
    );
    let s2 = boolean_step(s1, predicate);
    let (s3, enabled) = mul_step(s2, live, form_add(predicate, d.inverted));
    let operands = context.operands(registers, immediate);
    let (s4, left) = select_step(s3, d.left, operands, d.left.len());
    let (s5, right) = select_step(s4, d.right, operands, d.right.len());
    let (s6, old_destination) = select_step(s5, d.destination, registers, d.destination.len());
    (s6, FetchedForms { enabled, left, right, old_destination })
}

/// Reads the predicate, both operands and the destination.
fn fetch(
    b: &mut FieldR1csBuilder,
    decoded: &Decoded,
    registers: &Vec<LinExpr>,
    immediate: &LinExpr,
    context: &ContextTrace,
    live: &LinExpr,
    Ghost(word): Ghost<spec_fn(spec_fn(int) -> u128) -> u128>,
) -> (r: Fetched)
    requires
        old(b).wf(),
        decoded.bounded(old(b).wires()),
        registers@.len() == 4,
        exprs_bounded(registers@, old(b).wires()),
        immediate.bound() <= old(b).wires(),
        context.bounded(old(b).wires()),
        live.bound() <= old(b).wires(),
    ensures
        refines(*final(b), *old(b)),
        r.bounded(final(b).wires()),
        forall|z: spec_fn(int) -> u128| #[trigger]
            final(b).holds(z) && old(b).live(z) && fetch_ready(
                *old(b),
                *decoded,
                registers@,
                *context,
                live@,
                z,
                word(z),
            ) ==> {
                let t = old(b).flat_basis();
                let regs = ints_at(*old(b), registers@, z);
                let c = context.values(*old(b), z);
                let p = predicate_table(regs, c)[field(word(z), 16, 19) as int];
                let operands = operand_table(regs, t.tower(immediate.at(z)), c);
                &&& is_bit(p)
                &&& r.enabled.at(z) == bit_of(
                    live.at(z) == 1 && (p == 1) != (field(word(z), 19, 20) == 1),
                )
                &&& t.tower(r.left.at(z)) == operands[field(word(z), 6, 11) as int]
                &&& t.tower(r.right.at(z)) == operands[field(word(z), 11, 16) as int]
                &&& t.tower(r.old_destination.at(z)) == regs[field(word(z), 4, 6) as int]
            },
        old(b).live(old(b).witness()) && old(b).honest() && fetch_ready(
            *old(b),
            *decoded,
            registers@,
            *context,
            live@,
            old(b).witness(),
            word(old(b).witness()),
        ) ==> (final(b).honest() <==> is_bit(
            predicate_table(
                ints_at(*old(b), registers@, old(b).witness()),
                context.values(*old(b), old(b).witness()),
            )[field(word(old(b).witness()), 16, 19) as int],
        )),
        fetch_step(
            old(b).shape(),
            decoded.forms(),
            forms(registers@),
            immediate@,
            context.forms(),
            live@,
        ) == (final(b).shape(), r.forms()),
{
    reveal(fetch_step);
    let ghost before = *b;
    let predicates = context.predicates(registers.as_slice());
    assert(context.bounded(before.wires()));
    let predicate = select(b, decoded.predicate.as_slice(), predicates.as_slice());
    let ghost b1 = *b;
    boolean(b, &predicate);
    let ghost b2 = *b;
    let chosen = predicate.add(&decoded.inverted);
    let enabled = crate::trace::mul(b, live, &chosen);
    let ghost b3 = *b;
    let operands = context.operands(registers.as_slice(), immediate);
    assert(exprs_bounded(operands@, before.wires()));
    proof {
        lemma_bounded_mono(operands@, before.wires(), b3.wires());
        lemma_bounded_mono(decoded.left@, before.wires(), b3.wires());
    }
    let left = select(b, decoded.left.as_slice(), operands.as_slice());
    let ghost b4 = *b;
    proof {
        lemma_bounded_mono(operands@, before.wires(), b4.wires());
        lemma_bounded_mono(decoded.right@, before.wires(), b4.wires());
    }
    let right = select(b, decoded.right.as_slice(), operands.as_slice());
    let ghost b5 = *b;
    proof {
        lemma_bounded_mono(registers@, before.wires(), b5.wires());
        lemma_bounded_mono(decoded.destination@, before.wires(), b5.wires());
    }
    let old_destination = select(b, decoded.destination.as_slice(), registers.as_slice());
    let r = Fetched { enabled, left, right, old_destination };
    proof {
        let t = before.flat_basis();
        assert forall|z: spec_fn(int) -> u128| #[trigger]
            b1.holds(z) && fetch_ready(before, *decoded, registers@, *context, live@, z, word(z))
            implies t.tower(predicate.at(z)) == predicate_table(
            ints_at(before, registers@, z),
            context.values(before, z),
        )[field(word(z), 16, 19) as int] by {
            lemma_select(
                before,
                decoded.predicate@,
                predicates@,
                predicate_table(ints_at(before, registers@, z), context.values(before, z)),
                field(word(z), 16, 19) as int,
                z,
            );
        }
        assert forall|z: spec_fn(int) -> u128| #[trigger]
            b.holds(z) && before.live(z) && fetch_ready(
                before,
                *decoded,
                registers@,
                *context,
                live@,
                z,
                word(z),
            ) implies {
            let regs = ints_at(before, registers@, z);
            let c = context.values(before, z);
            let p = predicate_table(regs, c)[field(word(z), 16, 19) as int];
            let table = operand_table(regs, t.tower(immediate.at(z)), c);
            &&& is_bit(p)
            &&& r.enabled.at(z) == bit_of(
                live.at(z) == 1 && (p == 1) != (field(word(z), 19, 20) == 1),
            )
            &&& t.tower(r.left.at(z)) == table[field(word(z), 6, 11) as int]
            &&& t.tower(r.right.at(z)) == table[field(word(z), 11, 16) as int]
            &&& t.tower(r.old_destination.at(z)) == regs[field(word(z), 4, 6) as int]
        } by {
            assert(b5.holds(z) && b4.holds(z) && b3.holds(z) && b2.holds(z) && b1.holds(z));
            assert(b1.live(z));
            let regs = ints_at(before, registers@, z);
            let c = context.values(before, z);
            let table = operand_table(regs, t.tower(immediate.at(z)), c);
            lemma_bit_int(before, predicate.at(z));
            lemma_bit_ops(predicate.at(z), decoded.inverted.at(z));
            lemma_bit_ops(live.at(z), chosen.at(z));
            lemma_select(before, decoded.left@, operands@, table, field(word(z), 6, 11) as int, z);
            lemma_select(
                before,
                decoded.right@,
                operands@,
                table,
                field(word(z), 11, 16) as int,
                z,
            );
            lemma_select(
                before,
                decoded.destination@,
                registers@,
                regs,
                field(word(z), 4, 6) as int,
                z,
            );
        }
        let w = before.witness();
        if before.live(w) && before.honest() && fetch_ready(
            before,
            *decoded,
            registers@,
            *context,
            live@,
            w,
            word(w),
        ) {
            lemma_select(
                before,
                decoded.predicate@,
                predicates@,
                predicate_table(ints_at(before, registers@, w), context.values(before, w)),
                field(word(w), 16, 19) as int,
                w,
            );
            assert(b1.honest());
            lemma_exprs_kept(b1, before, decoded.predicate@);
            lemma_exprs_kept(b1, before, predicates@);
            assert(b1.holds(b1.witness()));
            lemma_bit_int(before, predicate.at(b1.witness()));
        }
    }
    r
}

proof fn lemma_bounded_mono(es: Seq<LinExpr>, n: nat, m: nat)
    requires
        exprs_bounded(es, n),
        n <= m,
    ensures
        exprs_bounded(es, m),
{
    assert forall|i: int| 0 <= i < es.len() implies (#[trigger] es[i]).bound() <= m by {
        assert(es[i].bound() <= n);
    }
}

/// The operands are 64-bit, the opcode selectors spell `op`, and `enabled` is
/// a bit.
spec fn unit_ready(
    b: FieldR1csBuilder,
    op_selectors: Seq<LinExpr>,
    f: Fetched,
    z: spec_fn(int) -> u128,
    op: nat,
) -> bool {
    &&& op < 10
    &&& one_hot(exprs_at(op_selectors, z), op as int)
    &&& is_bit(f.enabled.at(z))
    &&& b.flat_basis().tower(f.left.at(z)) < pow2(64)
    &&& b.flat_basis().tower(f.right.at(z)) < pow2(64)
}

/// With one live product, a sum of seven products is that product.
proof fn lemma_sum_of_products(
    k0: u128,
    k1: u128,
    k2: u128,
    k4: u128,
    k5: u128,
    k6: u128,
    k7: u128,
    v0: u128,
    v1: u128,
    v2: u128,
    v4: u128,
    v5: u128,
    v6: u128,
    v7: u128,
    op: nat,
)
    requires
        op < 10,
        k0 == bit_of(op == 0 || op == 8 || op == 9),
        k1 == bit_of(op == 1),
        k2 == bit_of(op == 2 || op == 3),
        k4 == bit_of(op == 4),
        k5 == bit_of(op == 5),
        k6 == bit_of(op == 6),
        k7 == bit_of(op == 7),
    ensures
        (((((fmul(k0, v0) ^ fmul(k1, v1)) ^ fmul(k2, v2)) ^ fmul(k4, v4)) ^ fmul(k5, v5)) ^ fmul(
            k6,
            v6,
        )) ^ fmul(k7, v7) == if op == 1 {
            v1
        } else if op == 2 || op == 3 {
            v2
        } else if op == 4 {
            v4
        } else if op == 5 {
            v5
        } else if op == 6 {
            v6
        } else if op == 7 {
            v7
        } else {
            v0
        },
{
    lemma_fmul_unit(v0);
    lemma_fmul_unit(v1);
    lemma_fmul_unit(v2);
    lemma_fmul_unit(v4);
    lemma_fmul_unit(v5);
    lemma_fmul_unit(v6);
    lemma_fmul_unit(v7);
    lemma_xor(0, 0, 0);
    lemma_xor(v0, 0, 0);
    lemma_xor(v1, 0, 0);
    lemma_xor(v2, 0, 0);
    lemma_xor(v4, 0, 0);
    lemma_xor(v5, 0, 0);
    lemma_xor(v6, 0, 0);
    lemma_xor(v7, 0, 0);
}

/// The rows of the unit and of its checks, and what they leave.
#[verifier::opaque]
pub open spec fn check_step(s: Shape, op: Seq<LinForm>, f: FetchedForms) -> (
    Shape,
    LinForm,
    LinForm,
    LinForm,
) {
    let left = wire_forms(wires_from(s.n(), 64));
    let s1 = range_step(s, f.left, 64);
    let right = wire_forms(wires_from(s1.n(), 64));
    let s2 = range_step(s1, f.right, 64);
    let (s3, less, equal, sum, carry) = unit_step(s2, left, right, op[3]);
    let (s4, arithmetic) = mul_step(s3, f.enabled, form_add(op[2], op[3]));
    let (s5, bad_carry) = mul_step(s4, arithmetic, form_add(carry, op[3]));
    let s6 = pin_zero_step(s5, bad_carry);
    let (s7, assert_equal) = mul_step(s6, f.enabled, op[8]);
    let (s8, unequal) = mul_step(s7, assert_equal, form_add(f.left, f.right));
    let s9 = pin_zero_step(s8, unequal);
    let (s10, assert_le) = mul_step(s9, f.enabled, op[9]);
    let (s11, bad_order) = mul_step(
        s10,
        assert_le,
        form_add_const(form_add(less, equal), 1),
    );
    (pin_zero_step(s11, bad_order), less, equal, sum)
}

/// Computes the comparison and addition unit of one operation and rejects
/// what an enabled operation rejects.
#[verifier::rlimit(40)]
fn check_unit(
    b: &mut FieldR1csBuilder,
    op: &Vec<LinExpr>,
    f: &Fetched,
) -> (r: (LinExpr, LinExpr, LinExpr))
    requires
        old(b).wf(),
        op@.len() == 10,
        exprs_bounded(op@, old(b).wires()),
        f.bounded(old(b).wires()),
    ensures
        refines(*final(b), *old(b)),
        r.0.bound() <= final(b).wires(),
        r.1.bound() <= final(b).wires(),
        r.2.bound() <= final(b).wires(),
        forall|z: spec_fn(int) -> u128, k: nat|
            #![trigger final(b).holds(z), unit_ready(*old(b), op@, *f, z, k)]
            final(b).holds(z) && old(b).live(z) && unit_ready(*old(b), op@, *f, z, k) ==> {
                let t = old(b).flat_basis();
                let l = t.tower(f.left.at(z));
                let rr = t.tower(f.right.at(z));
                &&& f.enabled.at(z) == 1 ==> !rejects(k, l, rr)
                &&& r.0.at(z) == bit_of(l < rr)
                &&& r.1.at(z) == bit_of(l == rr)
                &&& k == 2 && l + rr < pow2(64) ==> t.tower(r.2.at(z)) == l + rr
                &&& k == 3 && l >= rr ==> t.tower(r.2.at(z)) == l - rr
            },
        forall|k: nat|
            old(b).live(old(b).witness()) && old(b).honest() && #[trigger] unit_ready(
                *old(b),
                op@,
                *f,
                old(b).witness(),
                k,
            ) ==> (final(b).honest() <==> !(f.enabled.at(old(b).witness()) == 1 && rejects(
            k,
            old(b).flat_basis().tower(f.left.at(old(b).witness())),
            old(b).flat_basis().tower(f.right.at(old(b).witness())),
        ))),
        check_step(old(b).shape(), forms(op@), f.forms()) == (final(b).shape(), r.0@, r.1@, r.2@),
{
    reveal(check_step);
    let ghost before = *b;
    let ghost t = b.flat_basis();
    proof {
        assert forall|k: int| 0 <= k < 10 implies (#[trigger] op@[k]).bound() <= before.wires() by {}
        vstd::arithmetic::power2::lemma2_to64();
        vstd::arithmetic::power2::lemma2_to64_rest();
    }
    let left_bits = range_check_bits(b, &f.left, 64);
    let ghost b1 = *b;
    let right_bits = range_check_bits(b, &f.right, 64);
    let ghost b2 = *b;
    proof {
        assert forall|z: spec_fn(int) -> u128| #[trigger] b2.holds(z) implies all_bits(
            wires_at(left_bits@, z),
        ) && all_bits(wires_at(right_bits@, z)) by {
            assert(b1.holds(z));
        }
        assert forall|k: int| 0 <= k < left_bits@.len() implies (#[trigger] left_bits@[k]).index
            < b2.wires() by {
            assert(left_bits@[k].index < b1.wires());
        }
    }
    let (less, equal, sum, carry) = integer_results(
        b,
        left_bits.as_slice(),
        right_bits.as_slice(),
        &op[3],
    );
    let ghost b3 = *b;
    let adds = op[2].add(&op[3]);
    let arithmetic = crate::trace::mul(b, &f.enabled, &adds);
    let bad_carry = crate::trace::mul(b, &arithmetic, &carry.add(&op[3]));
    let ghost b4 = *b;
    pin_zero(b, &bad_carry);
    let ghost b5 = *b;
    let assert_equal = crate::trace::mul(b, &f.enabled, &op[8]);
    let delta = f.left.add(&f.right);
    let unequal = crate::trace::mul(b, &assert_equal, &delta);
    let ghost b6 = *b;
    pin_zero(b, &unequal);
    let ghost b7 = *b;
    let assert_le = crate::trace::mul(b, &f.enabled, &op[9]);
    let greater = less.add(&equal).add_const(F128::one());
    let bad_order = crate::trace::mul(b, &assert_le, &greater);
    let ghost b8 = *b;
    pin_zero(b, &bad_order);
    let ghost b9 = *b;
    proof {
        // The facts at every assignment that satisfies the unit.
        assert forall|z: spec_fn(int) -> u128, k: nat|
            #![trigger b3.holds(z), unit_ready(before, op@, *f, z, k)]
            b3.holds(z) && before.live(z) && unit_ready(before, op@, *f, z, k) implies {
            let l = t.tower(f.left.at(z));
            let r = t.tower(f.right.at(z));
            &&& unit_results(
                before,
                l as nat,
                r as nat,
                k == 3,
                less.at(z),
                equal.at(z),
                sum.at(z),
                carry.at(z),
            )
            &&& forall|i: int| 0 <= i < 10 ==> (#[trigger] op@[i]).at(z) == bit_of(i == k)
        } by {
            assert(b2.holds(z) && b1.holds(z));
            assert(b1.live(z));
            assert(int_at(before, f.left@, z) == bits_nat(wires_at(left_bits@, z)));
            assert(int_at(b1, f.right@, z) == bits_nat(wires_at(right_bits@, z)));
            assert forall|i: int| 0 <= i < 10 implies (#[trigger] op@[i]).at(z) == bit_of(i == k) by {
                assert(exprs_at(op@, z)[i] == op@[i].at(z));
            }
            assert(op@[3].at(z) == bit_of(3 == k));
        }
        assert forall|z: spec_fn(int) -> u128, k: nat|
            #![trigger b4.holds(z), unit_ready(before, op@, *f, z, k)]
            b4.holds(z) && before.live(z) && unit_ready(before, op@, *f, z, k) implies {
            let l = t.tower(f.left.at(z));
            let r = t.tower(f.right.at(z));
            bad_carry.at(z) == bit_of(
                f.enabled.at(z) == 1 && ((k == 2 && l + r >= pow2(64)) || (k == 3
                    && l < r)),
            )
        } by {
            assert(b3.holds(z));
            assert(op@[2].at(z) == bit_of(2 == k));
            assert(op@[3].at(z) == bit_of(3 == k));
            lemma_bit_ops(op@[2].at(z), op@[3].at(z));
            lemma_bit_ops(f.enabled.at(z), adds.at(z));
            lemma_bit_ops(carry.at(z), op@[3].at(z));
            lemma_bit_ops(arithmetic.at(z), carry.at(z) ^ op@[3].at(z));
        }
        assert forall|z: spec_fn(int) -> u128, k: nat|
            #![trigger b6.holds(z), unit_ready(before, op@, *f, z, k)]
            b6.holds(z) && before.live(z) && unit_ready(before, op@, *f, z, k) implies {
            let l = t.tower(f.left.at(z));
            let r = t.tower(f.right.at(z));
            unequal.at(z) == 0 <==> !(f.enabled.at(z) == 1 && k == 8 && l != r)
        } by {
            assert(b5.holds(z) && b4.holds(z) && b3.holds(z));
            assert(op@[8].at(z) == bit_of(8 == k));
            lemma_bit_ops(f.enabled.at(z), op@[8].at(z));
            lemma_fmul_unit(delta.at(z));
            lemma_xor(f.left.at(z), f.right.at(z), 0);
            lemma_bit_int(before, f.left.at(z));
            lemma_bit_int(before, f.right.at(z));
        }
        assert forall|z: spec_fn(int) -> u128, k: nat|
            #![trigger b8.holds(z), unit_ready(before, op@, *f, z, k)]
            b8.holds(z) && before.live(z) && unit_ready(before, op@, *f, z, k) implies {
            let l = t.tower(f.left.at(z));
            let r = t.tower(f.right.at(z));
            bad_order.at(z) == bit_of(f.enabled.at(z) == 1 && k == 9 && l > r)
        } by {
            assert(b7.holds(z) && b6.holds(z) && b5.holds(z) && b4.holds(z) && b3.holds(z));
            assert(op@[9].at(z) == bit_of(9 == k));
            lemma_bit_ops(f.enabled.at(z), op@[9].at(z));
            lemma_bit_ops(less.at(z), equal.at(z));
            lemma_bit_ops(less.at(z) ^ equal.at(z), 1);
            lemma_bit_ops(assert_le.at(z), greater.at(z));
        }
        let w = before.witness();
        assert forall|k: nat|
            before.live(w) && before.honest() && #[trigger] unit_ready(before, op@, *f, w, k) implies (
        b9.honest() <==> !(f.enabled.at(w) == 1 && rejects(
            k,
            t.tower(f.left.at(w)),
            t.tower(f.right.at(w)),
        ))) by {
            lemma_unit_kept(b1, before, op@, *f, k);
            lemma_unit_kept(b2, before, op@, *f, k);
            lemma_unit_kept(b4, before, op@, *f, k);
            lemma_unit_kept(b6, before, op@, *f, k);
            lemma_unit_kept(b8, before, op@, *f, k);
            assert(b1.honest());
            assert(b2.honest());
            assert(b4.honest());
            assert(b4.holds(b4.witness()) && before.live(b4.witness()));
            if b5.honest() {
                assert(b6.honest());
                assert(b6.holds(b6.witness()) && before.live(b6.witness()));
                if b7.honest() {
                    assert(b8.honest());
                    assert(b8.holds(b8.witness()) && before.live(b8.witness()));
                }
            }
        }
    }
    proof {
        assert forall|z: spec_fn(int) -> u128, k: nat|
            #![trigger b.holds(z), unit_ready(before, op@, *f, z, k)]
            b.holds(z) && before.live(z) && unit_ready(before, op@, *f, z, k) implies {
            let l = t.tower(f.left.at(z));
            let r = t.tower(f.right.at(z));
            &&& f.enabled.at(z) == 1 ==> !rejects(k, l, r)
            &&& less.at(z) == bit_of(l < r)
            &&& equal.at(z) == bit_of(l == r)
            &&& k == 2 && l + r < pow2(64) ==> t.tower(sum.at(z)) == l + r
            &&& k == 3 && l >= r ==> t.tower(sum.at(z)) == l - r
        } by {
            assert(b8.holds(z) && b7.holds(z) && b6.holds(z) && b5.holds(z) && b4.holds(z)
                && b3.holds(z));
            assert(b4.live(z) && b6.live(z) && b8.live(z));
            let l = t.tower(f.left.at(z));
            let r = t.tower(f.right.at(z));
            before.lemma_basis_wf();
            if k == 2 && l + r < pow2(64) {
                t.lemma_inverse((l + r) as u128);
            }
            if k == 3 && l >= r {
                t.lemma_inverse((l - r) as u128);
            }
        }
    }
    (less, equal, sum)
}

/// The rows of the result of an instruction, and its form.
#[verifier::opaque]
pub open spec fn execute_step(s: Shape, op: Seq<LinForm>, f: FetchedForms) -> (Shape, LinForm) {
    let (s0, less, equal, sum) = check_step(s, op, f);
    let delta = form_add(f.left, f.right);
    let (s1, pick) = mul_step(s0, less, delta);
    let minimum = form_add(f.right, pick);
    let maximum = form_add(delta, minimum);
    let keep = form_add(form_add(op[0], op[8]), op[9]);
    let (s2, p0) = mul_step(s1, keep, f.old_destination);
    let (s3, p1) = mul_step(s2, op[1], f.left);
    let (s4, p2) = mul_step(s3, form_add(op[2], op[3]), sum);
    let (s5, p4) = mul_step(s4, op[4], minimum);
    let (s6, p5) = mul_step(s5, op[5], maximum);
    let (s7, p6) = mul_step(s6, op[6], less);
    let (s8, p7) = mul_step(s7, op[7], equal);
    let low = form_add(form_add(form_add(p0, p1), p2), p4);
    (s8, form_add(form_add(form_add(low, p5), p6), p7))
}

/// Checks and computes one operation.
fn execute_unit(b: &mut FieldR1csBuilder, op: &Vec<LinExpr>, f: &Fetched) -> (result: LinExpr)
    requires
        old(b).wf(),
        op@.len() == 10,
        exprs_bounded(op@, old(b).wires()),
        f.bounded(old(b).wires()),
    ensures
        refines(*final(b), *old(b)),
        result.bound() <= final(b).wires(),
        forall|z: spec_fn(int) -> u128, k: nat|
            #![trigger final(b).holds(z), unit_ready(*old(b), op@, *f, z, k)]
            final(b).holds(z) && old(b).live(z) && unit_ready(*old(b), op@, *f, z, k) ==> {
                let t = old(b).flat_basis();
                let l = t.tower(f.left.at(z));
                let r = t.tower(f.right.at(z));
                f.enabled.at(z) == 1 ==> !rejects(k, l, r) && t.tower(result.at(z)) == operation(
                    k,
                    l,
                    r,
                    t.tower(f.old_destination.at(z)),
                )
            },
        forall|k: nat|
            old(b).live(old(b).witness()) && old(b).honest() && #[trigger] unit_ready(
                *old(b),
                op@,
                *f,
                old(b).witness(),
                k,
            ) ==> (final(b).honest() <==> !(f.enabled.at(old(b).witness()) == 1 && rejects(
            k,
            old(b).flat_basis().tower(f.left.at(old(b).witness())),
            old(b).flat_basis().tower(f.right.at(old(b).witness())),
        ))),
        execute_step(old(b).shape(), forms(op@), f.forms()) == (final(b).shape(), result@),
{
    reveal(execute_step);
    let ghost before = *b;
    let ghost t = b.flat_basis();
    proof {
        assert forall|k: int| 0 <= k < 10 implies (#[trigger] op@[k]).bound() <= before.wires() by {}
        vstd::arithmetic::power2::lemma2_to64();
        vstd::arithmetic::power2::lemma2_to64_rest();
    }
    let (less, equal, sum) = check_unit(b, op, f);
    let ghost b9 = *b;
    let delta = f.left.add(&f.right);
    let adds = op[2].add(&op[3]);
    let low_pick = crate::trace::mul(b, &less, &delta);
    let minimum = f.right.add(&low_pick);
    let maximum = delta.add(&minimum);
    let keep = op[0].add(&op[8]).add(&op[9]);
    let p0 = crate::trace::mul(b, &keep, &f.old_destination);
    let p1 = crate::trace::mul(b, &op[1], &f.left);
    let p2 = crate::trace::mul(b, &adds, &sum);
    let p4 = crate::trace::mul(b, &op[4], &minimum);
    let p5 = crate::trace::mul(b, &op[5], &maximum);
    let p6 = crate::trace::mul(b, &op[6], &less);
    let p7 = crate::trace::mul(b, &op[7], &equal);
    let result = p0.add(&p1).add(&p2).add(&p4).add(&p5).add(&p6).add(&p7);
    proof {
        assert forall|z: spec_fn(int) -> u128, k: nat|
            #![trigger b.holds(z), unit_ready(before, op@, *f, z, k)]
            b.holds(z) && before.live(z) && unit_ready(before, op@, *f, z, k) implies {
            let l = t.tower(f.left.at(z));
            let r = t.tower(f.right.at(z));
            f.enabled.at(z) == 1 ==> !rejects(k, l, r) && t.tower(result.at(z)) == operation(
                k,
                l,
                r,
                t.tower(f.old_destination.at(z)),
            )
        } by {
            assert(b9.holds(z));
            let l = t.tower(f.left.at(z));
            let r = t.tower(f.right.at(z));
            if f.enabled.at(z) == 1 {
                assert(!rejects(k, l, r));
                assert forall|i: int| 0 <= i < 10 implies (#[trigger] op@[i]).at(z) == bit_of(
                    i == k,
                ) by {
                    assert(exprs_at(op@, z)[i] == op@[i].at(z));
                }
                lemma_bit_ops(op@[2].at(z), op@[3].at(z));
                lemma_bit_ops(op@[0].at(z), op@[8].at(z));
                lemma_bit_ops(op@[0].at(z) ^ op@[8].at(z), op@[9].at(z));
                let x = f.left.at(z);
                let y = f.right.at(z);
                lemma_fmul_unit(x ^ y);
                lemma_xor(x, y, 0);
                lemma_xor(y, x, 0);
                lemma_xor(x ^ y, x, 0);
                lemma_xor(x ^ y, y, 0);
                assert(minimum.at(z) == if l < r {
                    x
                } else {
                    y
                });
                assert(maximum.at(z) == if l < r {
                    y
                } else {
                    x
                });
                lemma_sum_of_products(
                    keep.at(z),
                    op@[1].at(z),
                    adds.at(z),
                    op@[4].at(z),
                    op@[5].at(z),
                    op@[6].at(z),
                    op@[7].at(z),
                    f.old_destination.at(z),
                    x,
                    sum.at(z),
                    minimum.at(z),
                    maximum.at(z),
                    less.at(z),
                    equal.at(z),
                    k,
                );
                lemma_bit_int(before, less.at(z));
                lemma_bit_int(before, equal.at(z));
            }
        }
    }
    result
}

proof fn lemma_unit_kept(
    after: FieldR1csBuilder,
    before: FieldR1csBuilder,
    op: Seq<LinExpr>,
    f: Fetched,
    k: nat,
)
    requires
        before.wf(),
        after.extends(&before),
        exprs_bounded(op, before.wires()),
        f.bounded(before.wires()),
        unit_ready(before, op, f, before.witness(), k),
    ensures
        unit_ready(before, op, f, after.witness(), k),
        f.left.at(after.witness()) == f.left.at(before.witness()),
        f.right.at(after.witness()) == f.right.at(before.witness()),
        f.enabled.at(after.witness()) == f.enabled.at(before.witness()),
{
    lemma_exprs_kept(after, before, op);
}

/// The rows that write a result back to the first `n` registers.
#[verifier::opaque]
pub open spec fn write_step(
    s: Shape,
    destination: Seq<LinForm>,
    enabled: LinForm,
    result: LinForm,
    registers: Seq<LinForm>,
    n: nat,
) -> (Shape, Seq<LinForm>)
    decreases n,
{
    if n == 0 {
        (s, Seq::empty())
    } else {
        let (t, r) = write_step(s, destination, enabled, result, registers, (n - 1) as nat);
        let (u, writes) = mul_step(t, enabled, destination[n - 1]);
        let (v, delta) = mul_step(u, writes, form_add(result, registers[n - 1]));
        (v, r.push(form_add(registers[n - 1], delta)))
    }
}

/// Writes the result to the selected register when the instruction is enabled.
fn write_back(
    b: &mut FieldR1csBuilder,
    destination: &Vec<LinExpr>,
    enabled: &LinExpr,
    result: &LinExpr,
    registers: &Vec<LinExpr>,
) -> (r: Vec<LinExpr>)
    requires
        old(b).wf(),
        destination@.len() == registers@.len(),
        exprs_bounded(destination@, old(b).wires()),
        exprs_bounded(registers@, old(b).wires()),
        enabled.bound() <= old(b).wires(),
        result.bound() <= old(b).wires(),
    ensures
        refines(*final(b), *old(b)),
        final(b).honest() <==> old(b).honest(),
        r@.len() == registers@.len(),
        exprs_bounded(r@, final(b).wires()),
        forall|z: spec_fn(int) -> u128, k: int|
            #![trigger final(b).holds(z), one_hot(exprs_at(destination@, z), k)]
            final(b).holds(z) && is_bit(enabled.at(z)) && one_hot(exprs_at(destination@, z), k)
                ==> exprs_at(r@, z) == if enabled.at(z) == 1 {
                exprs_at(registers@, z).update(k, result.at(z))
            } else {
                exprs_at(registers@, z)
            },
        write_step(
            old(b).shape(),
            forms(destination@),
            enabled@,
            result@,
            forms(registers@),
            registers@.len(),
        ) == (final(b).shape(), forms(r@)),
{
    reveal(write_step);
    let ghost entry = *b;
    assert(forms(Seq::<LinExpr>::empty()) =~= Seq::empty());
    let ghost before = *b;
    let mut r: Vec<LinExpr> = Vec::new();
    let mut i: usize = 0;
    while i < registers.len()
        invariant
            i <= registers@.len(),
            destination@.len() == registers@.len(),
            before.wf(),
            refines(*b, before),
            b.honest() <==> before.honest(),
            exprs_bounded(destination@, before.wires()),
            exprs_bounded(registers@, before.wires()),
            enabled.bound() <= before.wires(),
            result.bound() <= before.wires(),
            r@.len() == i,
            exprs_bounded(r@, b.wires()),
            forall|z: spec_fn(int) -> u128, j: int|
                #![trigger b.holds(z), r@[j]]
                b.holds(z) && 0 <= j < i && is_bit(enabled.at(z)) && is_bit(destination@[j].at(z))
                    ==> r@[j].at(z) == if enabled.at(z) == 1 && destination@[j].at(z) == 1 {
                    result.at(z)
                } else {
                    registers@[j].at(z)
                },
            write_step(
                entry.shape(),
                forms(destination@),
                enabled@,
                result@,
                forms(registers@),
                i as nat,
            ) == (b.shape(), forms(r@)),
        decreases registers@.len() - i,
    {
        reveal(write_step);
        let ghost start = *b;
        let ghost r0 = r@;
        assert(destination@[i as int].bound() <= before.wires());
        assert(registers@[i as int].bound() <= before.wires());
        let writes = crate::trace::mul(b, enabled, &destination[i]);
        let ghost mid = *b;
        let delta = crate::trace::mul(b, &writes, &result.add(&registers[i]));
        let next = registers[i].add(&delta);
        proof {
            assert forall|z: spec_fn(int) -> u128| #[trigger]
                b.holds(z) && is_bit(enabled.at(z)) && is_bit(destination@[i as int].at(z))
                implies next.at(z) == if enabled.at(z) == 1 && destination@[i as int].at(z) == 1 {
                result.at(z)
            } else {
                registers@[i as int].at(z)
            } by {
                assert(mid.holds(z));
                let x = result.at(z);
                let y = registers@[i as int].at(z);
                lemma_bit_ops(enabled.at(z), destination@[i as int].at(z));
                lemma_fmul_unit(x ^ y);
                lemma_xor(x, y, 0);
                lemma_xor(y, x, 0);
            }
        }
        r.push(next);
        proof {
            assert forall|z: spec_fn(int) -> u128, j: int|
                #![trigger b.holds(z), r@[j]]
                b.holds(z) && 0 <= j < i + 1 && is_bit(enabled.at(z)) && is_bit(
                    destination@[j].at(z),
                ) implies r@[j].at(z) == if enabled.at(z) == 1 && destination@[j].at(z) == 1 {
                result.at(z)
            } else {
                registers@[j].at(z)
            } by {
                if j < i {
                    assert(r@[j] == r0[j]);
                    assert(start.holds(z));
                }
            }
            assert forall|j: int| 0 <= j < r@.len() implies (#[trigger] r@[j]).bound() <= b.wires() by {
                if j < i {
                    assert(r@[j] == r0[j]);
                }
            }
        }
        i = i + 1;
    }
    proof {
        assert forall|z: spec_fn(int) -> u128, k: int|
            #![trigger b.holds(z), one_hot(exprs_at(destination@, z), k)]
            b.holds(z) && is_bit(enabled.at(z)) && one_hot(exprs_at(destination@, z), k)
            implies exprs_at(r@, z) == if enabled.at(z) == 1 {
            exprs_at(registers@, z).update(k, result.at(z))
        } else {
            exprs_at(registers@, z)
        } by {
            let want = if enabled.at(z) == 1 {
                exprs_at(registers@, z).update(k, result.at(z))
            } else {
                exprs_at(registers@, z)
            };
            assert forall|j: int| 0 <= j < r@.len() implies exprs_at(r@, z)[j] == want[j] by {
                assert(exprs_at(destination@, z)[j] == bit_of(j == k));
                assert(r@[j].at(z) == exprs_at(r@, z)[j]);
            }
            assert(exprs_at(r@, z) =~= want);
        }
    }
    r
}

/// A step keeps four 64-bit registers.
pub proof fn lemma_step_registers(
    regs: Seq<u128>,
    word: u128,
    immediate: u128,
    c: ContextValue,
    live: bool,
)
    requires
        registers_ok(regs),
        c.valid(),
        step(regs, word, immediate, c, live) is Some,
    ensures
        registers_ok(step(regs, word, immediate, c, live)->0),
        operand_table(regs, immediate, c)[field(word, 6, 11) as int] < pow2(64),
        operand_table(regs, immediate, c)[field(word, 11, 16) as int] < pow2(64),
{
    lemma_operands_small(regs, immediate, c, field(word, 6, 11) as int);
    lemma_operands_small(regs, immediate, c, field(word, 11, 16) as int);
    vstd::arithmetic::power2::lemma2_to64();
    vstd::arithmetic::power2::lemma2_to64_rest();
    assert(pow2(2) == 4);
    assert(field(word, 4, 6) < 4);
}

proof fn lemma_operands_small(regs: Seq<u128>, immediate: u128, c: ContextValue, k: int)
    requires
        registers_ok(regs),
        c.valid(),
        immediate < pow2(64),
        0 <= k < 24,
    ensures
        operand_table(regs, immediate, c)[k] < pow2(64),
{
    vstd::arithmetic::power2::lemma2_to64();
    vstd::arithmetic::power2::lemma2_to64_rest();
}

/// The inputs of one instruction are in range.
pub open spec fn step_ready(
    b: FieldR1csBuilder,
    registers: Seq<LinExpr>,
    context: ContextTrace,
    live: LinForm,
    z: spec_fn(int) -> u128,
) -> bool {
    &&& registers_ok(ints_at(b, registers, z))
    &&& context.values(b, z).valid()
    &&& is_bit(live.at(z))
}

/// One instruction as a function of an assignment.
pub open spec fn step_at(
    b: FieldR1csBuilder,
    descriptor: LinForm,
    immediate: LinForm,
    registers: Seq<LinExpr>,
    context: ContextTrace,
    live: LinForm,
    z: spec_fn(int) -> u128,
) -> Option<Seq<u128>> {
    step(
        ints_at(b, registers, z),
        b.flat_basis().tower(descriptor.at(z)),
        b.flat_basis().tower(immediate.at(z)),
        context.values(b, z),
        live.at(z) == 1,
    )
}

/// The rows of one instruction, and the registers it leaves.
#[verifier::opaque]
pub open spec fn instruction_step(
    s: Shape,
    descriptor: LinForm,
    immediate: LinForm,
    registers: Seq<LinForm>,
    context: ContextForms,
    live: LinForm,
) -> (Shape, Seq<LinForm>) {
    let (s1, d) = decode_step(s, descriptor, immediate);
    let (s2, f) = fetch_step(s1, d, registers, immediate, context, live);
    let (s3, result) = execute_step(s2, d.op, f);
    write_step(s3, d.destination, f.enabled, result, registers, registers.len())
}

/// Binds one instruction and returns the registers after it.
pub fn bind_instruction(
    b: &mut FieldR1csBuilder,
    descriptor: &LinExpr,
    immediate: &LinExpr,
    registers: &Vec<LinExpr>,
    context: &ContextTrace,
    live: &LinExpr,
) -> (r: Vec<LinExpr>)
    requires
        old(b).wf(),
        registers@.len() == 4,
        descriptor.bound() <= old(b).wires(),
        immediate.bound() <= old(b).wires(),
        exprs_bounded(registers@, old(b).wires()),
        context.bounded(old(b).wires()),
        live.bound() <= old(b).wires(),
    ensures
        refines(*final(b), *old(b)),
        r@.len() == 4,
        exprs_bounded(r@, final(b).wires()),
        forall|z: spec_fn(int) -> u128| #[trigger]
            final(b).holds(z) && old(b).live(z) && step_ready(
                *old(b),
                registers@,
                *context,
                live@,
                z,
            ) ==> step_at(*old(b), descriptor@, immediate@, registers@, *context, live@, z) == Some(
                ints_at(*old(b), r@, z),
            ),
        old(b).live(old(b).witness()) && old(b).honest() && step_ready(
            *old(b),
            registers@,
            *context,
            live@,
            old(b).witness(),
        ) ==> (final(b).honest() <==> step_at(
            *old(b),
            descriptor@,
            immediate@,
            registers@,
            *context,
            live@,
            old(b).witness(),
        ) is Some),
        instruction_step(
            old(b).shape(),
            descriptor@,
            immediate@,
            forms(registers@),
            context.forms(),
            live@,
        ) == (final(b).shape(), forms(r@)),
{
    reveal(instruction_step);
    let ghost before = *b;
    let ghost t = b.flat_basis();
    let ghost word = |z: spec_fn(int) -> u128| t.tower(descriptor.at(z));
    let decoded = decode(b, descriptor, immediate);
    let ghost b1 = *b;
    proof {
        lemma_bounded_mono(registers@, before.wires(), b1.wires());
    }
    let f = fetch(b, &decoded, registers, immediate, context, live, Ghost(word));
    let ghost b2 = *b;
    proof {
        lemma_bounded_mono(decoded.op@, b1.wires(), b2.wires());
    }
    let result = execute_unit(b, &decoded.op, &f);
    let ghost b3 = *b;
    proof {
        lemma_bounded_mono(decoded.destination@, b1.wires(), b3.wires());
        lemma_bounded_mono(registers@, b1.wires(), b3.wires());
    }
    let r = write_back(b, &decoded.destination, &f.enabled, &result, registers);
    proof {
        assert forall|z: spec_fn(int) -> u128| #[trigger]
            b.holds(z) && before.live(z) && step_ready(before, registers@, *context, live@, z)
            implies step_at(before, descriptor@, immediate@, registers@, *context, live@, z)
            == Some(ints_at(before, r@, z)) by {
            assert(b3.holds(z) && b2.holds(z) && b1.holds(z));
            assert(b1.live(z) && b2.live(z));
            lemma_instruction_at(before, b1, b2, *descriptor, *immediate, registers@, *context, *live, decoded, f, z);
            let d = t.tower(descriptor.at(z));
            assert(word(z) == d);
            let k = field(d, 0, 4);
            assert(unit_ready(b2, decoded.op@, f, z, k));
            let regs = ints_at(before, registers@, z);
            let dst = field(d, 4, 6) as int;
            assert(one_hot(exprs_at(decoded.destination@, z), dst));
            if f.enabled.at(z) == 1 {
                assert(ints_at(before, r@, z) =~= regs.update(dst, t.tower(result.at(z)))) by {
                    assert forall|j: int| 0 <= j < 4 implies ints_at(before, r@, z)[j]
                        == #[trigger] regs.update(dst, t.tower(result.at(z)))[j] by {
                        assert(exprs_at(r@, z)[j] == r@[j].at(z));
                    }
                }
            } else {
                assert(ints_at(before, r@, z) =~= regs) by {
                    assert forall|j: int| 0 <= j < 4 implies ints_at(before, r@, z)[j]
                        == #[trigger] regs[j] by {
                        assert(exprs_at(r@, z)[j] == r@[j].at(z));
                    }
                }
            }
        }
        let w = before.witness();
        if before.live(w) && before.honest() && step_ready(before, registers@, *context, live@, w) {
            let d = t.tower(descriptor.at(w));
            let immed = t.tower(immediate.at(w));
            if well_formed(d, immed) {
                assert(b1.honest());
                let w1 = b1.witness();
                assert(b1.holds(w1) && before.live(w1));
                lemma_context_kept(b1, before, *context);
                lemma_ints_kept(b1, before, registers@);
                assert(descriptor.at(w1) == descriptor.at(w));
                assert(word(w1) == d);
                assert(live.at(w1) == live.at(w));
                assert(fetch_ready(b1, decoded, registers@, *context, live@, w1, word(w1)));
                let p = predicate_table(ints_at(before, registers@, w), context.values(before, w))[field(d, 16, 19) as int];
                if is_bit(p) {
                    assert(b2.honest());
                    let w2 = b2.witness();
                    assert(b2.holds(w2) && b1.holds(w2) && before.live(w2));
                    lemma_context_kept(b2, before, *context);
                    lemma_ints_kept(b2, before, registers@);
                    assert(descriptor.at(w2) == descriptor.at(w));
                    assert(immediate.at(w2) == immediate.at(w));
                    assert(live.at(w2) == live.at(w));
                    assert(word(w2) == d);
                    assert(b1.live(w2));
                    lemma_instruction_at(before, b1, b2, *descriptor, *immediate, registers@, *context, *live, decoded, f, w2);
                    assert(unit_ready(b2, decoded.op@, f, w2, field(d, 0, 4)));
                } else {
                    assert(!b2.honest());
                    assert(!b.honest());
                }
            } else {
                assert(!b1.honest());
                assert(!b.honest());
            }
        }
    }
    r
}

proof fn lemma_context_kept(
    after: FieldR1csBuilder,
    before: FieldR1csBuilder,
    context: ContextTrace,
)
    requires
        before.wf(),
        after.extends(&before),
        context.bounded(before.wires()),
    ensures
        context.values(after, after.witness()) == context.values(before, before.witness()),
        context.values(before, after.witness()) == context.values(before, before.witness()),
{
    let v = after.witness();
    let w = before.witness();
    assert(agree(v, w, before.wires()));
    assert(context.payout_owner@[0].at(v) == context.payout_owner@[0].at(w));
    assert(context.payout_owner@[1].at(v) == context.payout_owner@[1].at(w));
    assert(context.payout_owner@[2].at(v) == context.payout_owner@[2].at(w));
    assert(context.payout_owner@[3].at(v) == context.payout_owner@[3].at(w));
}

proof fn lemma_ints_kept(after: FieldR1csBuilder, before: FieldR1csBuilder, es: Seq<LinExpr>)
    requires
        before.wf(),
        after.extends(&before),
        exprs_bounded(es, before.wires()),
    ensures
        ints_at(after, es, after.witness()) == ints_at(before, es, before.witness()),
        ints_at(before, es, after.witness()) == ints_at(before, es, before.witness()),
{
    lemma_exprs_kept(after, before, es);
    assert forall|j: int| 0 <= j < es.len() implies (#[trigger] es[j]).at(after.witness())
        == es[j].at(before.witness()) by {
        assert(exprs_at(es, after.witness())[j] == es[j].at(after.witness()));
        assert(exprs_at(es, before.witness())[j] == es[j].at(before.witness()));
    }
    assert(ints_at(after, es, after.witness()) =~= ints_at(before, es, before.witness()));
    assert(ints_at(before, es, after.witness()) =~= ints_at(before, es, before.witness()));
}

/// What has been read when the predicate of an instruction is a bit.
proof fn lemma_instruction_at(
    before: FieldR1csBuilder,
    b1: FieldR1csBuilder,
    b2: FieldR1csBuilder,
    descriptor: LinExpr,
    immediate: LinExpr,
    registers: Seq<LinExpr>,
    context: ContextTrace,
    live: LinExpr,
    decoded: Decoded,
    f: Fetched,
    z: spec_fn(int) -> u128,
)
    requires
        before.wf(),
        registers.len() == 4,
        b1.flat_basis() == before.flat_basis(),
        b2.flat_basis() == before.flat_basis(),
        step_ready(before, registers, context, live@, z),
        well_formed(
            before.flat_basis().tower(descriptor.at(z)),
            before.flat_basis().tower(immediate.at(z)),
        ),
        decoded.spells(z, before.flat_basis().tower(descriptor.at(z))),
        ({
            let t = before.flat_basis();
            let word = t.tower(descriptor.at(z));
            let regs = ints_at(b1, registers, z);
            let c = context.values(b1, z);
            let p = predicate_table(regs, c)[field(word, 16, 19) as int];
            let operands = operand_table(regs, t.tower(immediate.at(z)), c);
            &&& is_bit(p)
            &&& f.enabled.at(z) == bit_of(
                live.at(z) == 1 && (p == 1) != (field(word, 19, 20) == 1),
            )
            &&& t.tower(f.left.at(z)) == operands[field(word, 6, 11) as int]
            &&& t.tower(f.right.at(z)) == operands[field(word, 11, 16) as int]
        }),
    ensures
        unit_ready(
            b2,
            decoded.op@,
            f,
            z,
            field(before.flat_basis().tower(descriptor.at(z)), 0, 4),
        ),
        ints_at(b1, registers, z) == ints_at(before, registers, z),
        context.values(b1, z) == context.values(before, z),
{
    let t = before.flat_basis();
    let word = t.tower(descriptor.at(z));
    assert(ints_at(b1, registers, z) =~= ints_at(before, registers, z));
    let regs = ints_at(before, registers, z);
    let c = context.values(before, z);
    lemma_operands_small(regs, t.tower(immediate.at(z)), c, field(word, 6, 11) as int);
    lemma_operands_small(regs, t.tower(immediate.at(z)), c, field(word, 11, 16) as int);
}

/// The program words under an assignment.
pub open spec fn program_at(
    b: FieldR1csBuilder,
    program: Seq<[LinExpr; 2]>,
    z: spec_fn(int) -> u128,
) -> Seq<(u128, u128)> {
    Seq::new(
        program.len(),
        |i: int|
            (
                b.flat_basis().tower(program[i]@[0].at(z)),
                b.flat_basis().tower(program[i]@[1].at(z)),
            ),
    )
}

/// All words of a program only read wires below `n`.
pub open spec fn program_bounded(program: Seq<[LinExpr; 2]>, n: nat) -> bool {
    forall|i: int|
        0 <= i < program.len() ==> (#[trigger] program[i])@[0].bound() <= n
            && program[i]@[1].bound() <= n
}

/// The whole relation under an assignment.
pub open spec fn accepts_at(
    b: FieldR1csBuilder,
    program: Seq<[LinExpr; 2]>,
    current: LinForm,
    next: LinForm,
    context: ContextTrace,
    live: LinForm,
    z: spec_fn(int) -> u128,
) -> bool {
    accepts(
        program_at(b, program, z),
        b.flat_basis().tower(current.at(z)),
        b.flat_basis().tower(next.at(z)),
        context.values(b, z),
        live.at(z),
    )
}

/// The rows that load a state, and the first registers.
#[verifier::opaque]
pub open spec fn load_step(s: Shape, current: LinForm) -> (Shape, Seq<LinForm>) {
    let bits = wires_from(s.n(), 128);
    (
        range_step(s, current, 128),
        Seq::empty().push(
            pack_form(s.flat, wire_forms(bits.subrange(0, 64)), 0, 64),
        ).push(pack_form(s.flat, wire_forms(bits.subrange(64, 128)), 0, 64)).push(
            const_form(0),
        ).push(const_form(0)),
    )
}

/// Splits a 128-bit state into the first two registers.
fn load_state(b: &mut FieldR1csBuilder, current: &LinExpr) -> (r: Vec<LinExpr>)
    requires
        old(b).wf(),
        current.bound() <= old(b).wires(),
    ensures
        refines(*final(b), *old(b)),
        r@.len() == 4,
        exprs_bounded(r@, final(b).wires()),
        old(b).live(old(b).witness()) ==> (final(b).honest() <==> old(b).honest()),
        forall|z: spec_fn(int) -> u128| #[trigger]
            final(b).holds(z) && old(b).live(z) ==> {
                &&& ints_at(*old(b), r@, z) == initial_registers(
                    old(b).flat_basis().tower(current.at(z)),
                )
                &&& registers_ok(ints_at(*old(b), r@, z))
            },
        load_step(old(b).shape(), current@) == (final(b).shape(), forms(r@)),
{
    reveal(load_step);
    assert(forms(Seq::<LinExpr>::empty()) =~= Seq::empty());
    let ghost before = *b;
    let ghost t = b.flat_basis();
    let bits = range_check_bits(b, current, 128);
    let low = vstd::slice::slice_subrange(bits.as_slice(), 0, 64);
    let high = vstd::slice::slice_subrange(bits.as_slice(), 64, 128);
    proof {
        assert forall|k: int| 0 <= k < low@.len() implies (#[trigger] low@[k]).index < b.wires() by {
            assert(bits@[k].index < b.wires());
        }
        assert forall|k: int| 0 <= k < high@.len() implies (#[trigger] high@[k]).index
            < b.wires() by {
            assert(bits@[64 + k].index < b.wires());
        }
        lemma_pow2_128();
    }
    let mut r: Vec<LinExpr> = Vec::new();
    let state0 = pack_bits(b, low, 0);
    let state1 = pack_bits(b, high, 0);
    r.push(state0);
    r.push(state1);
    r.push(LinExpr::zero());
    r.push(LinExpr::zero());
    proof {
        vstd::arithmetic::power2::lemma2_to64();
        vstd::arithmetic::power2::lemma2_to64_rest();
        assert forall|z: spec_fn(int) -> u128| #[trigger]
            b.holds(z) && before.live(z) implies {
            &&& ints_at(before, r@, z) == initial_registers(t.tower(current.at(z)))
            &&& registers_ok(ints_at(before, r@, z))
        } by {
            let vals = wires_at(bits@, z);
            lemma_wires_run(bits@, low@, 0, 64, z);
            lemma_wires_run(bits@, high@, 64, 128, z);
            let lo = bits_nat(wires_at(low@, z));
            let hi = bits_nat(wires_at(high@, z));
            assert(vals.take(64) =~= wires_at(low@, z));
            assert(vals.skip(64) =~= wires_at(high@, z));
            lemma_bits_split(vals, 64);
            lemma_bits_bound(wires_at(low@, z));
            lemma_bits_bound(wires_at(high@, z));
            let v = bits_nat(vals) as int;
            assert(v == pow2(64) as int * hi + lo);
            vstd::arithmetic::div_mod::lemma_fundamental_div_mod_converse(
                v,
                pow2(64) as int,
                hi as int,
                lo as int,
            );
            before.lemma_basis_wf();
            assert(lo * pow2(0) == lo && hi * pow2(0) == hi);
            t.lemma_inverse(lo as u128);
            t.lemma_inverse(hi as u128);
            lemma_bit_int(before, 0);
            assert(ints_at(before, r@, z) =~= initial_registers(t.tower(current.at(z))));
        }
    }
    r
}

/// Two 64-bit halves pack into one 128-bit integer.
proof fn lemma_pack_halves(b: FieldR1csBuilder, lo: u128, hi: u128)
    requires
        b.wf(),
        lo < pow2(64),
        hi < pow2(64),
    ensures
        hi * pow2(64) <= u128::MAX,
        lo + pow2(64) * hi <= u128::MAX,
        b.flat_basis().flat(lo) ^ b.flat_basis().flat((hi * pow2(64)) as u128) == b.flat_basis().flat(
            (lo + pow2(64) * hi) as u128,
        ),
{
    b.lemma_basis_wf();
    vstd::arithmetic::power2::lemma2_to64();
    vstd::arithmetic::power2::lemma2_to64_rest();
    let top = (hi * 0x1_0000_0000_0000_0000) as u128;
    assert(lo ^ top == lo + top) by (bit_vector)
        requires
            lo < 0x1_0000_0000_0000_0000u128,
            hi < 0x1_0000_0000_0000_0000u128,
            top == hi * 0x1_0000_0000_0000_0000u128,
    ;
    b.flat_basis().lemma_linear(lo, top);
}

/// The rows that compare the last registers with a state.
#[verifier::opaque]
pub open spec fn store_step(s: Shape, registers: Seq<LinForm>, next: LinForm, live: LinForm) -> Shape {
    let low = wire_forms(wires_from(s.n(), 64));
    let s1 = range_step(s, registers[0], 64);
    let high = wire_forms(wires_from(s1.n(), 64));
    let s2 = range_step(s1, registers[1], 64);
    let packed = form_add(pack_form(s.flat, low, 0, 64), pack_form(s.flat, high, 64, 64));
    let (s3, mismatch) = mul_step(s2, live, form_add(packed, next));
    pin_zero_step(s3, mismatch)
}

/// Stores the first two registers as the next state of a live program.
fn store_state(
    b: &mut FieldR1csBuilder,
    registers: &Vec<LinExpr>,
    next: &LinExpr,
    live: &LinExpr,
)
    requires
        old(b).wf(),
        registers@.len() == 4,
        exprs_bounded(registers@, old(b).wires()),
        next.bound() <= old(b).wires(),
        live.bound() <= old(b).wires(),
    ensures
        refines(*final(b), *old(b)),
        forall|z: spec_fn(int) -> u128| #[trigger]
            final(b).holds(z) && old(b).live(z) && registers_ok(ints_at(*old(b), registers@, z))
                && live.at(z) == 1 ==> int_at(*old(b), next@, z) == ints_at(
                *old(b),
                registers@,
                z,
            )[0] as nat + pow2(64) * ints_at(*old(b), registers@, z)[1] as nat,
        old(b).live(old(b).witness()) && old(b).honest() && registers_ok(
            ints_at(*old(b), registers@, old(b).witness()),
        ) && is_bit(live.at(old(b).witness())) ==> (final(b).honest() <==> (live.at(
            old(b).witness(),
        ) == 1 ==> int_at(*old(b), next@, old(b).witness()) == ints_at(
            *old(b),
            registers@,
            old(b).witness(),
        )[0] as nat + pow2(64) * ints_at(*old(b), registers@, old(b).witness())[1] as nat)),
        final(b).shape() == store_step(old(b).shape(), forms(registers@), next@, live@),
{
    reveal(store_step);
    let ghost before = *b;
    let ghost t = b.flat_basis();
    assert(registers@[0].bound() <= before.wires() && registers@[1].bound() <= before.wires());
    let low = range_check_bits(b, &registers[0], 64);
    let ghost b1 = *b;
    let high = range_check_bits(b, &registers[1], 64);
    let ghost b2 = *b;
    proof {
        assert forall|k: int| 0 <= k < low@.len() implies (#[trigger] low@[k]).index < b2.wires() by {
            assert(low@[k].index < b1.wires());
        }
    }
    let packed_low = pack_bits(b, low.as_slice(), 0);
    let packed_high = pack_bits(b, high.as_slice(), 64);
    let packed = packed_low.add(&packed_high);
    let delta = packed.add(next);
    let mismatch = crate::trace::mul(b, live, &delta);
    let ghost b3 = *b;
    pin_zero(b, &mismatch);
    proof {
        vstd::arithmetic::power2::lemma2_to64();
        assert forall|z: spec_fn(int) -> u128| #[trigger]
            b3.holds(z) && before.live(z) && registers_ok(ints_at(before, registers@, z)) && is_bit(
                live.at(z),
            ) implies (mismatch.at(z) == 0 <==> (live.at(z) == 1 ==> int_at(before, next@, z)
            == ints_at(before, registers@, z)[0] as nat + pow2(64) * ints_at(
            before,
            registers@,
            z,
        )[1] as nat)) by {
            assert(b2.holds(z) && b1.holds(z));
            assert(b1.live(z));
            let lo = t.tower(registers@[0].at(z));
            let hi = t.tower(registers@[1].at(z));
            assert(ints_at(before, registers@, z)[0] == lo && ints_at(before, registers@, z)[1]
                == hi);
            assert(int_at(before, registers@[0]@, z) == bits_nat(wires_at(low@, z)));
            assert(int_at(b1, registers@[1]@, z) == bits_nat(wires_at(high@, z)));
            assert(lo * pow2(0) == lo);
            lemma_pack_halves(before, lo, hi);
            let whole = (lo + pow2(64) * hi) as u128;
            assert(packed.at(z) == t.flat(whole));
            lemma_fmul_unit(delta.at(z));
            lemma_xor(packed.at(z), next.at(z), 0);
            before.lemma_basis_wf();
            t.lemma_inverse(whole);
            t.lemma_inverse(next.at(z));
        }
        let w = before.witness();
        if before.live(w) && before.honest() && registers_ok(ints_at(before, registers@, w))
            && is_bit(live.at(w)) {
            assert(ints_at(before, registers@, w)[0] < pow2(64));
            assert(b1.honest());
            assert(registers@[1].at(b1.witness()) == registers@[1].at(w));
            assert(ints_at(before, registers@, w)[1] < pow2(64));
            assert(b2.honest());
            assert(b3.honest());
            let v = b3.witness();
            assert(b3.holds(v) && before.live(v));
            lemma_ints_kept(b3, before, registers@);
            assert(next.at(v) == next.at(w) && live.at(v) == live.at(w));
        }
    }
}

/// The forms of the instructions of a program.
pub open spec fn program_forms(program: Seq<[LinExpr; 2]>) -> Seq<(LinForm, LinForm)> {
    program.map_values(|p: [LinExpr; 2]| (p@[0]@, p@[1]@))
}

/// The rows of the first `n` instructions, and the registers they leave.
#[verifier::opaque]
pub open spec fn run_step(
    s: Shape,
    program: Seq<(LinForm, LinForm)>,
    registers: Seq<LinForm>,
    context: ContextForms,
    live: LinForm,
    n: nat,
) -> (Shape, Seq<LinForm>)
    decreases n,
{
    if n == 0 {
        (s, registers)
    } else {
        let (t, r) = run_step(s, program, registers, context, live, (n - 1) as nat);
        instruction_step(t, program[n - 1].0, program[n - 1].1, r, context, live)
    }
}

/// The rows of a program. They depend on the forms of the program, the states
/// and the context, and on none of their values.
#[verifier::opaque]
pub open spec fn program_step(
    s: Shape,
    program: Seq<(LinForm, LinForm)>,
    current: LinForm,
    next: LinForm,
    context: ContextForms,
    live: LinForm,
) -> Shape {
    let s1 = context.ranges_step(boolean_step(s, live));
    let (s2, registers) = load_step(s1, current);
    let (s3, last) = run_step(s2, program, registers, context, live, program.len());
    store_step(s3, last, next, live)
}

/// Binds a program that takes `current` to `next` in a context. A dead program
/// is only checked for well-formed code.
pub fn bind_program(
    b: &mut FieldR1csBuilder,
    program: &[[LinExpr; 2]],
    current: &LinExpr,
    next: &LinExpr,
    context: &ContextTrace,
    live: &LinExpr,
)
    requires
        old(b).wf(),
        program_bounded(program@, old(b).wires()),
        current.bound() <= old(b).wires(),
        next.bound() <= old(b).wires(),
        context.bounded(old(b).wires()),
        live.bound() <= old(b).wires(),
    ensures
        refines(*final(b), *old(b)),
        forall|z: spec_fn(int) -> u128| #[trigger]
            final(b).holds(z) && old(b).live(z) ==> accepts_at(
                *old(b),
                program@,
                current@,
                next@,
                *context,
                live@,
                z,
            ),
        old(b).live(old(b).witness()) ==> (final(b).honest() <==> old(b).honest() && accepts_at(
            *old(b),
            program@,
            current@,
            next@,
            *context,
            live@,
            old(b).witness(),
        )),
        final(b).shape() == program_step(
            old(b).shape(),
            program_forms(program@),
            current@,
            next@,
            context.forms(),
            live@,
        ),
{
    reveal(run_step);
    reveal(program_step);
    let ghost before = *b;
    let ghost t = b.flat_basis();
    let ghost w = b.witness();
    boolean(b, live);
    let ghost b1 = *b;
    context.bind_ranges(b);
    let ghost b2 = *b;
    let mut registers = load_state(b, current);
    let ghost b3 = *b;
    let ghost registers0 = forms(registers@);
    proof {
        assert forall|z: spec_fn(int) -> u128| #[trigger] b3.holds(z) && before.live(z) implies {
            &&& is_bit(live.at(z))
            &&& context.values(before, z).valid()
            &&& registers_ok(ints_at(before, registers@, z))
            &&& run(
                initial_registers(t.tower(current.at(z))),
                program_at(before, program@, z),
                0,
                context.values(before, z),
                live.at(z) == 1,
            ) == Some(ints_at(before, registers@, z))
        } by {
            assert(b2.holds(z) && b1.holds(z));
            assert(b1.live(z) && b2.live(z));
            assert(context.values(b1, z) == context.values(before, z));
            assert(ints_at(b2, registers@, z) =~= ints_at(before, registers@, z));
        }
        lemma_context_kept(b1, before, *context);
    }
    let mut i: usize = 0;
    while i < program.len()
        invariant
            i <= program@.len(),
            before.wf(),
            t == before.flat_basis(),
            w == before.witness(),
            refines(*b, before),
            registers@.len() == 4,
            program_bounded(program@, before.wires()),
            current.bound() <= before.wires(),
            next.bound() <= before.wires(),
            context.bounded(before.wires()),
            live.bound() <= before.wires(),
            exprs_bounded(registers@, b.wires()),
            forall|z: spec_fn(int) -> u128| #[trigger]
                b.holds(z) && before.live(z) ==> {
                    &&& is_bit(live.at(z))
                    &&& context.values(before, z).valid()
                    &&& registers_ok(ints_at(before, registers@, z))
                    &&& run(
                        initial_registers(t.tower(current.at(z))),
                        program_at(before, program@, z),
                        i as nat,
                        context.values(before, z),
                        live.at(z) == 1,
                    ) == Some(ints_at(before, registers@, z))
                },
            before.live(w) ==> (b.honest() <==> before.honest() && is_bit(live.at(w))
                && context.values(before, w).valid() && run(
                initial_registers(t.tower(current.at(w))),
                program_at(before, program@, w),
                i as nat,
                context.values(before, w),
                live.at(w) == 1,
            ) is Some),
            run_step(
                b3.shape(),
                program_forms(program@),
                registers0,
                context.forms(),
                live@,
                i as nat,
            ) == (b.shape(), forms(registers@)),
        decreases program@.len() - i,
    {
        reveal(run_step);
        let ghost start = *b;
        let ghost regs0 = registers@;
        assert(program@[i as int]@[0].bound() <= before.wires() && program@[i as int]@[1].bound()
            <= before.wires());
        registers =
        bind_instruction(b, &program[i][0], &program[i][1], &registers, context, live);
        proof {
            let d = program@[i as int]@[0];
            let m = program@[i as int]@[1];
            assert forall|z: spec_fn(int) -> u128| #[trigger] b.holds(z) && before.live(z) implies {
                &&& is_bit(live.at(z))
                &&& context.values(before, z).valid()
                &&& registers_ok(ints_at(before, registers@, z))
                &&& run(
                    initial_registers(t.tower(current.at(z))),
                    program_at(before, program@, z),
                    (i + 1) as nat,
                    context.values(before, z),
                    live.at(z) == 1,
                ) == Some(ints_at(before, registers@, z))
            } by {
                assert(start.holds(z));
                assert(start.live(z));
                assert(ints_at(start, regs0, z) =~= ints_at(before, regs0, z));
                assert(ints_at(start, registers@, z) =~= ints_at(before, registers@, z));
                assert(context.values(start, z) == context.values(before, z));
                assert(step_ready(start, regs0, *context, live@, z));
                assert(program_at(before, program@, z)[i as int] == (
                    t.tower(d.at(z)),
                    t.tower(m.at(z)),
                ));
                lemma_step_registers(
                    ints_at(before, regs0, z),
                    t.tower(d.at(z)),
                    t.tower(m.at(z)),
                    context.values(before, z),
                    live.at(z) == 1,
                );
            }
            if before.live(w) {
                let v = start.witness();
                lemma_context_kept(start, before, *context);
                assert(d.at(v) == d.at(w) && m.at(v) == m.at(w) && live.at(v) == live.at(w)
                    && current.at(v) == current.at(w));
                lemma_program_kept(start, before, program@);
                assert(program_at(before, program@, w)[i as int] == (
                    t.tower(d.at(w)),
                    t.tower(m.at(w)),
                ));
                if start.honest() {
                    assert(start.holds(v) && before.live(v));
                    assert(ints_at(start, regs0, v) =~= ints_at(before, regs0, v));
                    assert(context.values(start, v) == context.values(before, v));
                    assert(step_ready(start, regs0, *context, live@, v));
                }
            }
        }
        i = i + 1;
    }
    let ghost b4 = *b;
    store_state(b, &registers, next, live);
    proof {
        assert forall|z: spec_fn(int) -> u128| #[trigger]
            b.holds(z) && before.live(z) implies accepts_at(
            before,
            program@,
            current@,
            next@,
            *context,
            live@,
            z,
        ) by {
            assert(b4.holds(z));
            assert(b4.live(z));
            assert(ints_at(b4, registers@, z) =~= ints_at(before, registers@, z));
        }
        if before.live(w) {
            let v = b4.witness();
            lemma_context_kept(b4, before, *context);
            lemma_program_kept(b4, before, program@);
            assert(live.at(v) == live.at(w) && current.at(v) == current.at(w) && next.at(v)
                == next.at(w));
            if b4.honest() {
                assert(b4.holds(v) && before.live(v));
                assert(ints_at(b4, registers@, v) =~= ints_at(before, registers@, v));
            }
        }
    }
}

proof fn lemma_program_kept(
    after: FieldR1csBuilder,
    before: FieldR1csBuilder,
    program: Seq<[LinExpr; 2]>,
)
    requires
        before.wf(),
        after.extends(&before),
        program_bounded(program, before.wires()),
    ensures
        program_at(before, program, after.witness()) == program_at(
            before,
            program,
            before.witness(),
        ),
{
    assert forall|i: int| 0 <= i < program.len() implies (#[trigger] program[i])@[0].at(
        after.witness(),
    ) == program[i]@[0].at(before.witness()) && program[i]@[1].at(after.witness())
        == program[i]@[1].at(before.witness()) by {
        assert(program[i]@[0].bound() <= before.wires());
    }
    assert(program_at(before, program, after.witness()) =~= program_at(
        before,
        program,
        before.witness(),
    ));
}

} // verus!
