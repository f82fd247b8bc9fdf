//! Arithmetic gadgets on a circuit builder.
//!
//! Every gadget states two things. For every assignment that satisfies the
//! rows it recorded, the gadget's relation holds (under live gates). And the
//! recorded witness satisfies those rows exactly when the inputs are valid.
use crate::bits::{
    all_bits, bits_nat, exprs_at, exprs_bounded, int_bits, packed_at, wires_at, wires_bounded,
};
use crate::bits::{
    lemma_bits_bound, lemma_bits_first, lemma_bits_injective, lemma_bits_push, lemma_int_bits,
    lemma_packed, lemma_packed_push, lemma_pow2_128,
};
use crate::circuit::{
    agree, group_agree, lemma_constant_form, same_relation, FieldR1csBuilder, LinExpr, LinForm, Wire,
};
use crate::field::{bit_at, bit_of, fmul, is_bit, low_bits, F128};
use crate::field::{
    lemma_boolean, lemma_fmul_bits, lemma_fmul_comm, lemma_fmul_unit, lemma_no_zero_divisors, lemma_xor, lemma_xor_bits,
};
use crate::circuit::{
    const_form, form_add, form_add_const, form_scale, forms, wire_form, wire_forms, wires_from, Shape,
};
use vstd::arithmetic::power2::{lemma_pow2_pos, lemma_pow2_unfold, pow2};
use vstd::prelude::*;

verus! {

broadcast use group_agree;

/// `after` was obtained from `before` by recording more rows.
pub open spec fn refines(after: FieldR1csBuilder, before: FieldR1csBuilder) -> bool {
    &&& after.extends(&before)
    &&& forall|z: spec_fn(int) -> u128| #[trigger] after.holds(z) ==> before.holds(z)
}

/// The integer that an expression carries.
pub open spec fn int_at(b: FieldR1csBuilder, e: LinForm, z: spec_fn(int) -> u128) -> nat {
    b.flat_basis().tower(e.at(z)) as nat
}

/// The value `x` multiplied by the first `n` gates.
pub open spec fn gated_value(
    gates: Seq<LinForm>,
    x: u128,
    z: spec_fn(int) -> u128,
    n: nat,
) -> u128
    decreases n,
{
    if n == 0 {
        x
    } else {
        fmul(gates[n - 1].at(z), gated_value(gates, x, z, (n - 1) as nat))
    }
}

proof fn lemma_gated_live(gates: Seq<LinForm>, e: LinForm, z: spec_fn(int) -> u128, n: nat)
    requires
        n <= gates.len(),
        forall|i: int| 0 <= i < gates.len() ==> #[trigger] gates[i].at(z) != 0,
    ensures
        gated_value(gates, e.at(z), z, n) == 0 <==> e.at(z) == 0,
    decreases n,
{
    if n > 0 {
        lemma_gated_live(gates, e, z, (n - 1) as nat);
        assert(gates[n - 1].at(z) != 0);
        lemma_no_zero_divisors(
            gates[n - 1].at(z),
            gated_value(gates, e.at(z), z, (n - 1) as nat),
        );
    }
}

proof fn lemma_gated_dead(
    gates: Seq<LinForm>,
    e: LinForm,
    z: spec_fn(int) -> u128,
    n: nat,
    k: nat,
)
    requires
        k < n <= gates.len(),
        gates[k as int].at(z) == 0,
    ensures
        gated_value(gates, e.at(z), z, n) == 0,
    decreases n,
{
    let below = gated_value(gates, e.at(z), z, (n - 1) as nat);
    if k == n - 1 {
        lemma_fmul_unit(below);
    } else {
        lemma_gated_dead(gates, e, z, (n - 1) as nat, k);
        lemma_fmul_unit(gates[n - 1].at(z));
    }
}

/// A value that the assignments do not all give alike.
pub open spec fn varies(e: spec_fn(spec_fn(int) -> u128) -> u128) -> bool {
    exists|z: spec_fn(int) -> u128, w: spec_fn(int) -> u128| #[trigger] e(z) != #[trigger] e(w)
}

/// Every gate reads a wire.
pub open spec fn wired(gates: Seq<LinForm>) -> bool {
    forall|i: int| 0 <= i < gates.len() ==> !(#[trigger] gates[i]).constant_form()
}

/// The wires from `first` on carry `x` multiplied by one gate more each.
pub open spec fn gated_wires(
    gates: Seq<LinForm>,
    x: u128,
    z: spec_fn(int) -> u128,
    first: nat,
    n: nat,
) -> bool
    decreases n,
{
    n == 0 || {
        &&& gated_wires(gates, x, z, first, (n - 1) as nat)
        &&& z(first + n - 1) == gated_value(gates, x, z, n)
    }
}

/// The rows of one pin: a product for each gate and the pin itself. Nothing
/// of it depends on the recorded witness.
#[verifier::opaque]
pub open spec fn pin_rows(
    after: FieldR1csBuilder,
    before: FieldR1csBuilder,
    e: spec_fn(spec_fn(int) -> u128) -> u128,
) -> bool {
    let gates = before.gate_list();
    &&& after.wires() == before.wires() + gates.len() + 1
    &&& forall|z: spec_fn(int) -> u128| #[trigger]
        after.holds(z) <==> before.holds(z) && gated_wires(
            gates,
            e(z),
            z,
            before.wires(),
            gates.len(),
        ) && gated_value(gates, e(z), z, gates.len()) == 0
}

/// A pin leaves the same relation behind whatever values were recorded, the
/// gates' own among them: two builders that accept the same assignments still
/// do after the same pin.
pub proof fn lemma_pin_fixed(
    x1: FieldR1csBuilder,
    x0: FieldR1csBuilder,
    y1: FieldR1csBuilder,
    y0: FieldR1csBuilder,
    e: spec_fn(spec_fn(int) -> u128) -> u128,
)
    requires
        same_relation(x0, y0),
        refines(x1, x0),
        refines(y1, y0),
        pin_rows(x1, x0, e),
        pin_rows(y1, y0, e),
    ensures
        same_relation(x1, y1),
{
    reveal(pin_rows);
    assert forall|z: spec_fn(int) -> u128| #[trigger] x1.holds(z) <==> y1.holds(z) by {
        assert(x0.holds(z) <==> y0.holds(z));
    }
}

/// The rows of a multiplication, and its result. A constant operand records none.
#[verifier::opaque]
pub open spec fn mul_step(s: Shape, x: LinForm, y: LinForm) -> (Shape, LinForm) {
    if y.constant_form() {
        (s, form_scale(x, y.constant))
    } else if x.constant_form() {
        (s, form_scale(y, x.constant))
    } else {
        (s.row(x, y), s.next())
    }
}

/// One multiplication, with the row that two expressions over wires cost.
fn product(b: &mut FieldR1csBuilder, x: &LinExpr, y: &LinExpr) -> (r: LinExpr)
    requires
        old(b).wf(),
        x.bound() <= old(b).wires(),
        y.bound() <= old(b).wires(),
    ensures
        refines(*final(b), *old(b)),
        r.bound() <= final(b).wires(),
        forall|z: spec_fn(int) -> u128| #[trigger]
            final(b).holds(z) ==> r.at(z) == fmul(x.at(z), y.at(z)),
        final(b).honest() <==> old(b).honest(),
        r.at(final(b).witness()) == fmul(x.at(old(b).witness()), y.at(old(b).witness())),
        final(b).wires() == old(b).wires() + if x.constant_expr() || y.constant_expr() {
            0nat
        } else {
            1
        },
        !x.constant_expr() && !y.constant_expr() ==> {
            &&& !r.constant_expr()
            &&& forall|z: spec_fn(int) -> u128| #[trigger]
                r.at(z) == z(old(b).wires() as int)
            &&& forall|z: spec_fn(int) -> u128| #[trigger]
                final(b).holds(z) <==> old(b).holds(z) && z(old(b).wires() as int) == fmul(
                    x.at(z),
                    y.at(z),
                )
        },
        mul_step(old(b).shape(), x@, y@) == (final(b).shape(), r@),
{
    reveal(mul_step);
    if y.is_const() {
        return x.scale(y.constant);
    }
    if x.is_const() {
        let r = y.scale(x.constant);
        assert forall|z: spec_fn(int) -> u128| r.at(z) == #[trigger] fmul(x.at(z), y.at(z)) by {
            lemma_fmul_comm(x.at(z), y.at(z));
        }
        return r;
    }
    let w = b.mul(x, y);
    LinExpr::from_wire(w)
}

/// One multiplication. A constant operand folds into the coefficients of the
/// other and records no row.
pub fn mul(b: &mut FieldR1csBuilder, x: &LinExpr, y: &LinExpr) -> (r: LinExpr)
    requires
        old(b).wf(),
        x.bound() <= old(b).wires(),
        y.bound() <= old(b).wires(),
    ensures
        refines(*final(b), *old(b)),
        r.bound() <= final(b).wires(),
        forall|z: spec_fn(int) -> u128| #[trigger]
            final(b).holds(z) ==> r.at(z) == fmul(x.at(z), y.at(z)),
        final(b).honest() <==> old(b).honest(),
        r.at(final(b).witness()) == fmul(x.at(old(b).witness()), y.at(old(b).witness())),
        final(b).wires() == old(b).wires() + if x.constant_expr() || y.constant_expr() {
            0nat
        } else {
            1
        },
        mul_step(old(b).shape(), x@, y@) == (final(b).shape(), r@),
{
    product(b, x, y)
}

/// The rows that multiply `e` by the first `n` gates.
#[verifier::opaque]
pub open spec fn gated_step(s: Shape, e: LinForm, n: nat) -> (Shape, LinForm)
    decreases n,
{
    if n == 0 {
        (s, e)
    } else {
        let (t, g) = gated_step(s, e, (n - 1) as nat);
        mul_step(t, s.gates[n - 1], g)
    }
}

/// The rows of a pin under the gates in scope.
#[verifier::opaque]
pub open spec fn pin_zero_step(s: Shape, e: LinForm) -> Shape {
    let (t, g) = gated_step(s, e, s.gates.len());
    t.pin(g, 0)
}

/// Asserts that an expression is zero, under the gates in scope.
pub fn pin_zero(b: &mut FieldR1csBuilder, expr: &LinExpr)
    requires
        old(b).wf(),
        expr.bound() <= old(b).wires(),
    ensures
        refines(*final(b), *old(b)),
        forall|z: spec_fn(int) -> u128| #[trigger]
            final(b).holds(z) && old(b).live(z) ==> expr.at(z) == 0,
        old(b).live(old(b).witness()) ==> (final(b).honest() <==> old(b).honest() && expr.at(
            old(b).witness(),
        ) == 0),
        old(b).dead(old(b).witness()) ==> (final(b).honest() <==> old(b).honest()),
        old(b).gate_list().len() == 0 ==> final(b).wires() == old(b).wires() + 1,
        wired(old(b).gate_list()) && varies(|z: spec_fn(int) -> u128| expr.at(z)) ==> pin_rows(
            *final(b),
            *old(b),
            |z: spec_fn(int) -> u128| expr.at(z),
        ),
        final(b).shape() == pin_zero_step(old(b).shape(), expr@),
{
    reveal(gated_step);
    reveal(pin_zero_step);
    let ghost before = *b;
    let ghost gates0 = b.gate_list();
    let ghost e = |z: spec_fn(int) -> u128| expr.at(z);
    let ghost wide = wired(gates0) && varies(e);
    proof {
        if wide && expr.constant_expr() {
            let (z, w) = choose|z: spec_fn(int) -> u128, w: spec_fn(int) -> u128| #[trigger]
                e(z) != #[trigger] e(w);
            lemma_constant_form(expr@, z, w);
        }
    }
    let n = b.gates().len();
    let mut gated = expr.clone();
    let mut i: usize = 0;
    assert(n == before.gate_list().len());
    while i < n
        invariant
            i <= n,
            n == before.gate_list().len(),
            before.wf(),
            refines(*b, before),
            gated.bound() <= b.wires(),
            expr.bound() <= before.wires(),
            b.honest() <==> before.honest(),
            n == 0 ==> b.wires() == before.wires(),
            gated.at(b.witness()) == gated_value(
                before.gate_list(),
                expr.at(before.witness()),
                before.witness(),
                i as nat,
            ),
            forall|z: spec_fn(int) -> u128| #[trigger]
                b.holds(z) ==> gated.at(z) == gated_value(
                    before.gate_list(),
                    expr.at(z),
                    z,
                    i as nat,
                ),
            gates0 == before.gate_list(),
            wide ==> wired(gates0),
            wide ==> !gated.constant_expr(),
            wide ==> b.wires() == before.wires() + i,
            wide ==> forall|z: spec_fn(int) -> u128| #[trigger]
                b.holds(z) <==> before.holds(z) && gated_wires(
                    gates0,
                    expr.at(z),
                    z,
                    before.wires(),
                    i as nat,
                ),
            gated_step(before.shape(), expr@, i as nat) == (b.shape(), gated@),
        decreases n - i,
    {
        reveal(gated_step);
        let gates = b.gates();
        assert(gates@.len() == b.gate_list().len());
        let gate = gates[i].clone();
        assert(gate@ == b.gate_list()[i as int]);
        proof {
            before.lemma_gate_bound(i as int);
        }
        let ghost start = *b;
        let ghost last = gated;
        gated = product(b, &gate, &gated);
        proof {
            if wide {
                assert(!gate@.constant_form());
                assert forall|z: spec_fn(int) -> u128| #[trigger]
                    b.holds(z) <==> before.holds(z) && gated_wires(
                    gates0,
                    expr.at(z),
                    z,
                    before.wires(),
                    (i + 1) as nat,
                ) by {
                    if start.holds(z) {
                        assert(last.at(z) == gated_value(gates0, expr.at(z), z, i as nat));
                    }
                }
            }
        }
        i = i + 1;
    }
    proof {
        let gates = before.gate_list();
        assert forall|z: spec_fn(int) -> u128|
            before.live(z) implies (gated_value(gates, expr@.at(z), z, n as nat) == 0 <==> (
            #[trigger] expr@.at(z)) == 0) by {
            lemma_gated_live(gates, expr@, z, n as nat);
        }
        let w = before.witness();
        if before.dead(w) {
            let k = choose|k: int| 0 <= k < gates.len() && #[trigger] gates[k].at(w) == 0;
            lemma_gated_dead(gates, expr@, w, n as nat, k as nat);
        }
    }
    let ghost start = *b;
    b.pin_f128(&gated, F128::zero());
    proof {
        if wide {
            reveal(pin_rows);
            assert forall|z: spec_fn(int) -> u128| #[trigger]
                b.holds(z) <==> before.holds(z) && gated_wires(
                gates0,
                e(z),
                z,
                before.wires(),
                n as nat,
            ) && gated_value(gates0, e(z), z, n as nat) == 0 by {
                assert(start.holds(z) <==> before.holds(z) && gated_wires(
                    gates0,
                    expr.at(z),
                    z,
                    before.wires(),
                    n as nat,
                ));
            }
        }
    }
}

/// The rows of an equality under the gates in scope.
#[verifier::opaque]
pub open spec fn pin_eq_step(s: Shape, x: LinForm, y: LinForm) -> Shape {
    pin_zero_step(s, form_add(x, y))
}

/// Asserts that two expressions are equal, under the gates in scope.
pub fn pin_eq(b: &mut FieldR1csBuilder, lhs: &LinExpr, rhs: &LinExpr)
    requires
        old(b).wf(),
        lhs.bound() <= old(b).wires(),
        rhs.bound() <= old(b).wires(),
    ensures
        refines(*final(b), *old(b)),
        forall|z: spec_fn(int) -> u128| #[trigger]
            final(b).holds(z) && old(b).live(z) ==> lhs.at(z) == rhs.at(z),
        old(b).live(old(b).witness()) ==> (final(b).honest() <==> old(b).honest() && lhs.at(
            old(b).witness(),
        ) == rhs.at(old(b).witness())),
        old(b).dead(old(b).witness()) ==> (final(b).honest() <==> old(b).honest()),
        old(b).gate_list().len() == 0 ==> final(b).wires() == old(b).wires() + 1,
        wired(old(b).gate_list()) && varies(|z: spec_fn(int) -> u128| lhs.at(z) ^ rhs.at(z))
            ==> pin_rows(
            *final(b),
            *old(b),
            |z: spec_fn(int) -> u128| lhs.at(z) ^ rhs.at(z),
        ),
        final(b).shape() == pin_eq_step(old(b).shape(), lhs@, rhs@),
{
    reveal(pin_eq_step);
    let sum = lhs.add(rhs);
    proof {
        assert forall|z: spec_fn(int) -> u128|
            #[trigger] sum.at(z) == 0 <==> lhs.at(z) == rhs.at(z) by {
            lemma_xor(lhs.at(z), rhs.at(z), 0);
        }
        let e = |z: spec_fn(int) -> u128| lhs.at(z) ^ rhs.at(z);
        let s = |z: spec_fn(int) -> u128| sum.at(z);
        assert forall|z: spec_fn(int) -> u128| #[trigger] s(z) == e(z) by {
            assert(sum.at(z) == lhs.at(z) ^ rhs.at(z));
        }
        assert(s =~= e);
    }
    pin_zero(b, &sum);
}

/// Exclusive or, conjunction and negation of field bits.
pub proof fn lemma_bit_ops(x: u128, y: u128)
    requires
        is_bit(x),
        is_bit(y),
    ensures
        x ^ y == bit_of((x == 1) != (y == 1)),
        fmul(x, y) == bit_of(x == 1 && y == 1),
        x ^ 1 == bit_of(x != 1),
{
    lemma_xor_bits(x == 1, y == 1);
    lemma_xor_bits(x == 1, true);
    lemma_fmul_bits(x == 1, y == 1);
}

/// The expressions of a list of wires.
pub fn wire_exprs(ws: &[Wire]) -> (r: Vec<LinExpr>)
    ensures
        r@.len() == ws@.len(),
        forall|z: spec_fn(int) -> u128| #[trigger] exprs_at(r@, z) == wires_at(ws@, z),
        forall|n: nat| #[trigger] wires_bounded(ws@, n) ==> exprs_bounded(r@, n),
        forms(r@) == wire_forms(ws@),
{
    let mut r: Vec<LinExpr> = Vec::with_capacity(ws.len());
    let mut i: usize = 0;
    while i < ws.len()
        invariant
            i <= ws@.len(),
            r@.len() == i,
            forall|k: int, z: spec_fn(int) -> u128|
                0 <= k < i ==> #[trigger] r@[k].at(z) == z(ws@[k].index as int),
            forall|k: int| 0 <= k < i ==> (#[trigger] r@[k]).bound() == ws@[k].index + 1,
            forms(r@) =~= wire_forms(ws@.take(i as int)),
        decreases ws@.len() - i,
    {
        r.push(LinExpr::from_wire(ws[i]));
        i = i + 1;
        assert(wire_forms(ws@.take(i as int)) =~= wire_forms(ws@.take(i - 1)).push(
            wire_form(ws@[i - 1].index as nat),
        ));
    }
    assert(ws@.take(i as int) =~= ws@);
    assert forall|z: spec_fn(int) -> u128| #[trigger] exprs_at(r@, z) == wires_at(ws@, z) by {
        assert(exprs_at(r@, z) =~= wires_at(ws@, z));
    }
    assert forall|n: nat| #[trigger] wires_bounded(ws@, n) implies exprs_bounded(r@, n) by {
        assert forall|k: int| 0 <= k < r@.len() implies (#[trigger] r@[k]).bound() <= n by {
            assert(ws@[k].index < n);
        }
    }
    r
}

/// The form of the integer whose bits, from bit `shift` on, are the first `n` forms.
#[verifier::opaque]
pub open spec fn pack_form(flat: spec_fn(u128) -> u128, bits: Seq<LinForm>, shift: nat, n: nat) -> LinForm
    decreases n,
{
    if n == 0 {
        const_form(0)
    } else {
        form_add(
            pack_form(flat, bits, shift, (n - 1) as nat),
            form_scale(bits[n - 1], flat(1u128 << ((shift + n - 1) as u128))),
        )
    }
}

/// The sum of the given bits, each at its power of two.
pub fn pack_exprs(b: &FieldR1csBuilder, bits: &[LinExpr], shift: usize) -> (r: LinExpr)
    requires
        b.wf(),
        bits@.len() + shift <= 128,
        exprs_bounded(bits@, b.wires()),
    ensures
        r.bound() <= b.wires(),
        forall|z: spec_fn(int) -> u128| #[trigger]
            r.at(z) == packed_at(b.flat_basis(), exprs_at(bits@, z), shift as nat),
        forall|z: spec_fn(int) -> u128|
            all_bits(exprs_at(bits@, z)) ==> #[trigger] r.at(z) == b.flat_basis().flat(
                (bits_nat(exprs_at(bits@, z)) * pow2(shift as nat)) as u128,
            ),
        r@ == pack_form(b.flat_basis().flat_fn(), forms(bits@), shift as nat, bits@.len()),
{
    reveal(pack_form);
    let mut sum = LinExpr::zero();
    let mut i: usize = 0;
    proof {
        assert forall|z: spec_fn(int) -> u128| #[trigger]
            sum.at(z) == packed_at(b.flat_basis(), exprs_at(bits@, z).take(0), shift as nat) by {}
    }
    while i < bits.len()
        invariant
            i <= bits@.len(),
            b.wf(),
            bits@.len() + shift <= 128,
            exprs_bounded(bits@, b.wires()),
            sum.bound() <= b.wires(),
            forall|z: spec_fn(int) -> u128| #[trigger]
                sum.at(z) == packed_at(
                    b.flat_basis(),
                    exprs_at(bits@, z).take(i as int),
                    shift as nat,
                ),
            sum@ == pack_form(b.flat_basis().flat_fn(), forms(bits@), shift as nat, i as nat),
        decreases bits@.len() - i,
    {
        reveal(pack_form);
        assert(bits@[i as int].bound() <= b.wires());
        let weight = b.basis().to_flat(1u128 << ((shift + i) as u128));
        let term = bits[i].scale(weight);
        let next = sum.add(&term);
        assert forall|z: spec_fn(int) -> u128| #[trigger]
            next.at(z) == packed_at(
                b.flat_basis(),
                exprs_at(bits@, z).take(i + 1),
                shift as nat,
            ) by {
            let vals = exprs_at(bits@, z);
            assert(vals.take(i + 1) =~= vals.take(i as int).push(vals[i as int]));
            lemma_packed_push(b.flat_basis(), vals.take(i as int), vals[i as int], shift as nat);
            assert(sum.at(z) == packed_at(b.flat_basis(), vals.take(i as int), shift as nat));
        }
        sum = next;
        i = i + 1;
    }
    assert forall|z: spec_fn(int) -> u128| #[trigger]
        sum.at(z) == packed_at(b.flat_basis(), exprs_at(bits@, z), shift as nat) by {
        assert(exprs_at(bits@, z).take(i as int) =~= exprs_at(bits@, z));
    }
    assert forall|z: spec_fn(int) -> u128|
        all_bits(exprs_at(bits@, z)) implies #[trigger] sum.at(z) == b.flat_basis().flat(
        (bits_nat(exprs_at(bits@, z)) * pow2(shift as nat)) as u128,
    ) by {
        b.lemma_basis_wf();
        lemma_packed(b.flat_basis(), exprs_at(bits@, z), shift as nat);
    }
    sum
}

/// Packs a list of bit wires.
pub fn pack_bits(b: &FieldR1csBuilder, bits: &[Wire], shift: usize) -> (r: LinExpr)
    requires
        b.wf(),
        bits@.len() + shift <= 128,
        wires_bounded(bits@, b.wires()),
    ensures
        r.bound() <= b.wires(),
        forall|z: spec_fn(int) -> u128| #[trigger]
            r.at(z) == packed_at(b.flat_basis(), wires_at(bits@, z), shift as nat),
        forall|z: spec_fn(int) -> u128|
            all_bits(wires_at(bits@, z)) ==> #[trigger] r.at(z) == b.flat_basis().flat(
                (bits_nat(wires_at(bits@, z)) * pow2(shift as nat)) as u128,
            ),
        r@ == pack_form(b.flat_basis().flat_fn(), wire_forms(bits@), shift as nat, bits@.len()),
{
    let exprs = wire_exprs(bits);
    assert(wires_bounded(bits@, b.wires()));
    let r = pack_exprs(b, exprs.as_slice(), shift);
    assert forall|z: spec_fn(int) -> u128| #[trigger]
        r.at(z) == packed_at(b.flat_basis(), wires_at(bits@, z), shift as nat) by {
        assert(exprs_at(exprs@, z) == wires_at(bits@, z));
    }
    assert forall|z: spec_fn(int) -> u128|
        all_bits(wires_at(bits@, z)) implies #[trigger] r.at(z) == b.flat_basis().flat(
        (bits_nat(wires_at(bits@, z)) * pow2(shift as nat)) as u128,
    ) by {
        assert(exprs_at(exprs@, z) == wires_at(bits@, z));
    }
    r
}

/// `n` more wires, all bits.
#[verifier::opaque]
pub open spec fn bits_step(s: Shape, n: nat) -> Shape
    decreases n,
{
    if n == 0 {
        s
    } else {
        bits_step(s, (n - 1) as nat).bit()
    }
}

/// The rows of a range check: the bits and their sum.
#[verifier::opaque]
pub open spec fn range_step(s: Shape, e: LinForm, n: nat) -> Shape {
    pin_zero_step(
        bits_step(s, n),
        form_add(pack_form(s.flat, wire_forms(wires_from(s.n(), n)), 0, n), e),
    )
}

/// Forces the integer that `expr` carries into `n_bits` bits and returns the
/// wires of those bits, lowest first.
pub fn range_check_bits(b: &mut FieldR1csBuilder, expr: &LinExpr, n_bits: usize) -> (bits: Vec<
    Wire,
>)
    requires
        old(b).wf(),
        n_bits <= 128,
        expr.bound() <= old(b).wires(),
    ensures
        refines(*final(b), *old(b)),
        bits@.len() == n_bits,
        wires_bounded(bits@, final(b).wires()),
        forall|z: spec_fn(int) -> u128| #[trigger]
            final(b).holds(z) ==> all_bits(wires_at(bits@, z)),
        forall|z: spec_fn(int) -> u128| #[trigger]
            final(b).holds(z) && old(b).live(z) ==> {
                &&& int_at(*old(b), expr@, z) == bits_nat(wires_at(bits@, z))
                &&& int_at(*old(b), expr@, z) < pow2(n_bits as nat)
                &&& wires_at(bits@, z) == int_bits(
                    old(b).flat_basis().tower(expr.at(z)),
                    n_bits as nat,
                )
            },
        wires_at(bits@, final(b).witness()) == int_bits(
            old(b).flat_basis().tower(expr.at(old(b).witness())),
            n_bits as nat,
        ),
        old(b).live(old(b).witness()) ==> (final(b).honest() <==> old(b).honest() && int_at(
            *old(b),
            expr@,
            old(b).witness(),
        ) < pow2(n_bits as nat)),
        old(b).dead(old(b).witness()) ==> (final(b).honest() <==> old(b).honest()),
        old(b).gate_list().len() == 0 ==> final(b).wires() == old(b).wires() + n_bits + 1,
        final(b).shape() == range_step(old(b).shape(), expr@, n_bits as nat),
        bits@ == wires_from(old(b).shape().n(), n_bits as nat),
{
    reveal(bits_step);
    reveal(range_step);
    let ghost before = *b;
    let ghost basis = b.flat_basis();
    proof {
        b.lemma_basis_wf();
    }
    let flat = b.value_of(expr);
    let tower = b.basis().to_tower(flat);
    let mut bits: Vec<Wire> = Vec::with_capacity(n_bits);
    let mut i: usize = 0;
    while i < n_bits
        invariant
            i <= n_bits <= 128,
            before.wf(),
            refines(*b, before),
            expr.bound() <= before.wires(),
            b.honest() <==> before.honest(),
            b.wires() == before.wires() + i,
            bits@.len() == i,
            forall|k: int| 0 <= k < i ==> (#[trigger] bits@[k]).index == before.wires() + k,
            forall|k: int|
                0 <= k < i ==> b.witness()((#[trigger] bits@[k]).index as int) == bit_of(
                    bit_at(tower, k as u128),
                ),
            forall|z: spec_fn(int) -> u128, k: int|
                #![trigger b.holds(z), bits@[k]]
                b.holds(z) && 0 <= k < i ==> is_bit(z(bits@[k].index as int)),
            b.shape() == bits_step(before.shape(), i as nat),
        decreases n_bits - i,
    {
        reveal(bits_step);
        let ghost mid = *b;
        let w = b.alloc_bool((tower >> (i as u128)) & 1 == 1);
        bits.push(w);
        proof {
            assert forall|k: int| 0 <= k < i implies b.witness()((#[trigger] bits@[k]).index as int)
                == bit_of(bit_at(tower, k as u128)) by {
                assert(agree(b.witness(), mid.witness(), mid.wires()));
                assert(bits@[k].index < mid.wires());
                assert(b.witness()(bits@[k].index as int) == mid.witness()(bits@[k].index as int));
            }
        }
        i = i + 1;
    }
    let ghost drawn = *b;
    assert(bits@ =~= wires_from(before.shape().n(), n_bits as nat));
    let sum = pack_bits(b, bits.as_slice(), 0);
    let total = sum.add(expr);
    proof {
        assert forall|z: spec_fn(int) -> u128| #[trigger] drawn.holds(z) implies all_bits(
            wires_at(bits@, z),
        ) by {
            assert forall|k: int| 0 <= k < wires_at(bits@, z).len() implies is_bit(
                #[trigger] wires_at(bits@, z)[k],
            ) by {
                assert(is_bit(z(bits@[k].index as int)));
            }
        }
        assert(wires_at(bits@, drawn.witness()) =~= int_bits(tower, n_bits as nat));
        lemma_int_bits(tower, n_bits as nat);
        basis.lemma_inverse(expr.at(before.witness()));
        lemma_pow2_128();
        vstd::arithmetic::power2::lemma2_to64();
        assert forall|z: spec_fn(int) -> u128|
            all_bits(wires_at(bits@, z)) implies {
            &&& #[trigger] sum.at(z) == basis.flat(bits_nat(wires_at(bits@, z)) as u128)
            &&& bits_nat(wires_at(bits@, z)) < pow2(n_bits as nat)
            &&& bits_nat(wires_at(bits@, z)) <= u128::MAX
            &&& total.at(z) == 0 <==> expr.at(z) == basis.flat(
                bits_nat(wires_at(bits@, z)) as u128,
            )
        } by {
            lemma_bits_bound(wires_at(bits@, z));
            lemma_packed(basis, wires_at(bits@, z), 0);
            assert(bits_nat(wires_at(bits@, z)) * pow2(0) == bits_nat(wires_at(bits@, z)));
            lemma_xor(sum.at(z), expr.at(z), 0);
        }
    }
    pin_zero(b, &total);
    proof {
        assert forall|z: spec_fn(int) -> u128| #[trigger]
            b.holds(z) && before.live(z) implies {
            &&& int_at(before, expr@, z) == bits_nat(wires_at(bits@, z))
            &&& int_at(before, expr@, z) < pow2(n_bits as nat)
            &&& wires_at(bits@, z) == int_bits(basis.tower(expr.at(z)), n_bits as nat)
        } by {
            assert(drawn.live(z));
            assert(drawn.holds(z));
            assert(sum.at(z) == basis.flat(bits_nat(wires_at(bits@, z)) as u128));
            let v = bits_nat(wires_at(bits@, z)) as u128;
            basis.lemma_inverse(v);
            lemma_int_bits(v, n_bits as nat);
            lemma_bits_injective(wires_at(bits@, z), int_bits(v, n_bits as nat));
        }
        assert(wires_at(bits@, b.witness()) =~= wires_at(bits@, drawn.witness())) by {
            assert(agree(b.witness(), drawn.witness(), drawn.wires()));
            assert forall|k: int| 0 <= k < bits@.len() implies b.witness()(
                (#[trigger] bits@[k]).index as int,
            ) == drawn.witness()(bits@[k].index as int) by {
                assert(bits@[k].index < drawn.wires());
            }
        }
        let w = before.witness();
        assert(expr.at(drawn.witness()) == expr.at(w));
        assert(sum.at(drawn.witness()) == basis.flat(bits_nat(wires_at(bits@, drawn.witness())) as u128));
        if before.live(w) {
            assert(drawn.live(drawn.witness())) by {
                assert forall|k: int| 0 <= k < drawn.gate_list().len() implies #[trigger] drawn.gate_list()[k].at(
                    drawn.witness(),
                ) != 0 by {
                    before.lemma_gate_bound(k);
                    assert(before.gate_list()[k].at(w) != 0);
                }
            }
            if int_at(before, expr@, w) < pow2(n_bits as nat) {
                assert(total.at(drawn.witness()) == 0);
            } else {
                basis.lemma_inverse(low_bits(tower, n_bits as nat));
                assert(total.at(drawn.witness()) != 0);
            }
        }
        if before.dead(w) {
            let k = choose|k: int| 0 <= k < before.gate_list().len() && #[trigger] before.gate_list()[k].at(w) == 0;
            before.lemma_gate_bound(k);
            assert(drawn.gate_list()[k].at(drawn.witness()) == 0);
            assert(drawn.dead(drawn.witness()));
        }
    }
    bits
}

/// A ripple-carry adder after its low bits: the sum bits and the carry spell
/// the sum of both operands and the carry in.
pub open spec fn adder_inv(a: Seq<u128>, c: Seq<u128>, s: Seq<u128>, carry_in: u128, carry: u128) -> bool {
    &&& a.len() == c.len()
    &&& s.len() == a.len()
    &&& all_bits(s)
    &&& is_bit(carry)
    &&& bits_nat(s) + (if carry == 1 {
        pow2(a.len())
    } else {
        0
    }) == bits_nat(a) + bits_nat(c) + (if carry_in == 1 {
        1nat
    } else {
        0
    })
}

pub proof fn lemma_adder_start(carry_in: u128)
    requires
        is_bit(carry_in),
    ensures
        adder_inv(Seq::empty(), Seq::empty(), Seq::empty(), carry_in, carry_in),
{
    vstd::arithmetic::power2::lemma2_to64();
}

pub proof fn lemma_adder_step(
    a: Seq<u128>,
    c: Seq<u128>,
    s: Seq<u128>,
    carry_in: u128,
    carry: u128,
    x: u128,
    y: u128,
)
    requires
        adder_inv(a, c, s, carry_in, carry),
        is_bit(x),
        is_bit(y),
    ensures
        adder_inv(
            a.push(x),
            c.push(y),
            s.push((x ^ y) ^ carry),
            carry_in,
            fmul(x, y) ^ fmul(carry, x ^ y),
        ),
{
    lemma_bit_ops(x, y);
    lemma_bit_ops(x ^ y, carry);
    lemma_bit_ops(carry, x ^ y);
    lemma_bit_ops(fmul(x, y), fmul(carry, x ^ y));
    let t = (x ^ y) ^ carry;
    lemma_bits_push(a, x);
    lemma_bits_push(c, y);
    lemma_bits_push(s, t);
    lemma_pow2_unfold(a.len() + 1);
    assert(all_bits(s.push(t))) by {
        assert forall|i: int| 0 <= i < s.push(t).len() implies is_bit(#[trigger] s.push(t)[i]) by {
            if i < s.len() {
                assert(is_bit(s[i]));
            }
        }
    }
}

/// The rows of the first `n` positions of a ripple adder, its carry and its sum.
#[verifier::opaque]
pub open spec fn adder_step(s: Shape, x: Seq<LinForm>, y: Seq<LinForm>, n: nat) -> (
    Shape,
    LinForm,
    Seq<LinForm>,
)
    decreases n,
{
    if n == 0 {
        (s, const_form(0), Seq::empty())
    } else {
        let (s0, carry, sums) = adder_step(s, x, y, (n - 1) as nat);
        let half = form_add(x[n - 1], y[n - 1]);
        let (s1, both) = mul_step(s0, x[n - 1], y[n - 1]);
        let (s2, kept) = mul_step(s1, carry, half);
        (s2, form_add(both, kept), sums.push(form_add(half, carry)))
    }
}

/// The rows of an addition without overflow, and its sum.
#[verifier::opaque]
pub open spec fn add_step(s: Shape, x: LinForm, y: LinForm, n: nat) -> (Shape, LinForm) {
    let s1 = range_step(s, x, n);
    let s2 = range_step(s1, y, n);
    let (s3, carry, sums) = adder_step(
        s2,
        wire_forms(wires_from(s.n(), n)),
        wire_forms(wires_from(s1.n(), n)),
        n,
    );
    (pin_zero_step(s3, carry), pack_form(s.flat, sums, 0, n))
}

/// The integer sum of two expressions over `n_bits` bits. Both operands are
/// range-checked and the final carry is zero, so nothing wraps.
pub fn integer_add_no_overflow(
    b: &mut FieldR1csBuilder,
    a: &LinExpr,
    c: &LinExpr,
    n_bits: usize,
) -> (r: LinExpr)
    requires
        old(b).wf(),
        1 <= n_bits <= 128,
        a.bound() <= old(b).wires(),
        c.bound() <= old(b).wires(),
    ensures
        refines(*final(b), *old(b)),
        r.bound() <= final(b).wires(),
        forall|z: spec_fn(int) -> u128| #[trigger]
            final(b).holds(z) && old(b).live(z) ==> {
                &&& int_at(*old(b), r@, z) == int_at(*old(b), a@, z) + int_at(*old(b), c@, z)
                &&& int_at(*old(b), r@, z) < pow2(n_bits as nat)
            },
        old(b).live(old(b).witness()) ==> (final(b).honest() <==> old(b).honest() && int_at(
            *old(b),
            a@,
            old(b).witness(),
        ) + int_at(*old(b), c@, old(b).witness()) < pow2(n_bits as nat)),
        add_step(old(b).shape(), a@, c@, n_bits as nat) == (final(b).shape(), r@),
{
    reveal(adder_step);
    reveal(add_step);
    let ghost before = *b;
    let ghost basis = b.flat_basis();
    proof {
        b.lemma_basis_wf();
    }
    let a_bits = range_check_bits(b, a, n_bits);
    let ghost mid1 = *b;
    let c_bits = range_check_bits(b, c, n_bits);
    let ghost mid2 = *b;
    let mut carry = LinExpr::zero();
    let mut sum_bits: Vec<LinExpr> = Vec::with_capacity(n_bits);
    let mut i: usize = 0;
    assert(forms(sum_bits@) =~= Seq::empty());
    proof {
        assert forall|z: spec_fn(int) -> u128| #[trigger] b.holds(z) implies adder_inv(
            wires_at(a_bits@, z).take(0),
            wires_at(c_bits@, z).take(0),
            exprs_at(sum_bits@, z),
            0,
            carry.at(z),
        ) by {
            lemma_adder_start(0);
            assert(wires_at(a_bits@, z).take(0) =~= Seq::empty());
            assert(wires_at(c_bits@, z).take(0) =~= Seq::empty());
            assert(exprs_at(sum_bits@, z) =~= Seq::empty());
        }
    }
    while i < n_bits
        invariant
            i <= n_bits <= 128,
            mid2.wf(),
            refines(*b, mid2),
            b.honest() <==> mid2.honest(),
            a_bits@.len() == n_bits,
            c_bits@.len() == n_bits,
            sum_bits@.len() == i,
            wires_bounded(a_bits@, mid2.wires()),
            wires_bounded(c_bits@, mid2.wires()),
            exprs_bounded(sum_bits@, b.wires()),
            carry.bound() <= b.wires(),
            forall|z: spec_fn(int) -> u128| #[trigger]
                mid2.holds(z) ==> all_bits(wires_at(a_bits@, z)) && all_bits(wires_at(c_bits@, z)),
            forall|z: spec_fn(int) -> u128| #[trigger]
                b.holds(z) ==> adder_inv(
                    wires_at(a_bits@, z).take(i as int),
                    wires_at(c_bits@, z).take(i as int),
                    exprs_at(sum_bits@, z),
                    0,
                    carry.at(z),
                ),
            adder_step(mid2.shape(), wire_forms(a_bits@), wire_forms(c_bits@), i as nat) == (
                b.shape(),
                carry@,
                forms(sum_bits@),
            ),
        decreases n_bits - i,
    {
        reveal(adder_step);
        let ghost loop_start = *b;
        let ghost sums = sum_bits@;
        let ghost carry0 = carry@;
        let ai = LinExpr::from_wire(a_bits[i]);
        let ci = LinExpr::from_wire(c_bits[i]);
        assert(a_bits@[i as int].index < mid2.wires());
        assert(c_bits@[i as int].index < mid2.wires());
        let axc = ai.add(&ci);
        let sum_i = axc.add(&carry);
        let ai_ci = self::mul(b, &ai, &ci);
        let carry_axc = self::mul(b, &carry, &axc);
        carry = ai_ci.add(&carry_axc);
        sum_bits.push(sum_i);
        proof {
            assert forall|z: spec_fn(int) -> u128| #[trigger] b.holds(z) implies adder_inv(
                wires_at(a_bits@, z).take(i + 1),
                wires_at(c_bits@, z).take(i + 1),
                exprs_at(sum_bits@, z),
                0,
                carry.at(z),
            ) by {
                assert(loop_start.holds(z));
                assert(mid2.holds(z));
                let va = wires_at(a_bits@, z);
                let vc = wires_at(c_bits@, z);
                assert(is_bit(va[i as int]));
                assert(is_bit(vc[i as int]));
                assert(va.take(i + 1) =~= va.take(i as int).push(va[i as int]));
                assert(vc.take(i + 1) =~= vc.take(i as int).push(vc[i as int]));
                assert(exprs_at(sum_bits@, z) =~= exprs_at(sums, z).push(sum_i.at(z)));
                lemma_adder_step(
                    va.take(i as int),
                    vc.take(i as int),
                    exprs_at(sums, z),
                    0,
                    carry0.at(z),
                    va[i as int],
                    vc[i as int],
                );
            }
        }
        i = i + 1;
    }
    let ghost added = *b;
    pin_zero(b, &carry);
    let r = pack_exprs(b, sum_bits.as_slice(), 0);
    proof {
        vstd::arithmetic::power2::lemma2_to64();
        lemma_pow2_128();
        assert forall|z: spec_fn(int) -> u128| #[trigger] added.holds(z) && before.live(z) implies {
            &&& int_at(before, r@, z) + (if carry.at(z) == 1 {
                pow2(n_bits as nat)
            } else {
                0
            }) == int_at(before, a@, z) + int_at(before, c@, z)
            &&& int_at(before, r@, z) < pow2(n_bits as nat)
            &&& is_bit(carry.at(z))
        } by {
            assert(mid2.holds(z) && mid1.holds(z));
            assert(mid1.live(z));
            let va = wires_at(a_bits@, z);
            let vc = wires_at(c_bits@, z);
            assert(va.take(i as int) =~= va);
            assert(vc.take(i as int) =~= vc);
            let vs = exprs_at(sum_bits@, z);
            lemma_bits_bound(vs);
            lemma_packed(basis, vs, 0);
            assert(bits_nat(vs) * pow2(0) == bits_nat(vs));
            basis.lemma_inverse(bits_nat(vs) as u128);
            assert(adder_inv(va, vc, vs, 0, carry.at(z)));
            assert(r.at(z) == basis.flat(bits_nat(vs) as u128));
            assert(int_at(before, a@, z) == bits_nat(va));
            assert(int_at(mid1, c@, z) == bits_nat(vc));
        }
        if before.live(before.witness()) {
            let w = added.witness();
            assert(added.honest() ==> mid2.honest());
            if added.honest() {
                assert(added.live(w));
                assert(before.live(w));
                assert(added.holds(w));
                assert(a.at(w) == a.at(before.witness()));
                assert(c.at(w) == c.at(before.witness()));
            }
            if before.honest() && int_at(before, a@, before.witness()) + int_at(
                before,
                c@,
                before.witness(),
            ) < pow2(n_bits as nat) {
                assert(mid1.honest());
                assert(c.at(mid1.witness()) == c.at(before.witness()));
                assert(mid2.honest());
                assert(added.honest());
            }
            if b.honest() {
                assert(added.honest());
                assert(mid2.honest() && mid1.honest() && before.honest());
            }
        }
    }
    r
}

/// The rows of a comparison from the top bit down to bit `i`: whether the
/// order is decided, and whether all bits so far are equal.
#[verifier::opaque]
pub open spec fn lt_loop(s: Shape, x: Seq<LinForm>, y: Seq<LinForm>, i: nat) -> (
    Shape,
    LinForm,
    LinForm,
)
    decreases x.len() - i,
{
    if i >= x.len() {
        (s, const_form(0), const_form(1))
    } else {
        let (s0, lt, eq) = lt_loop(s, x, y, i + 1);
        let (s1, below) = mul_step(s0, form_add_const(x[i as int], 1), y[i as int]);
        let (s2, decides) = mul_step(s1, eq, below);
        let same = form_add_const(form_add(x[i as int], y[i as int]), 1);
        let (s3, still) = mul_step(s2, eq, same);
        (s3, form_add(lt, decides), still)
    }
}

/// The rows of a strict comparison, and its result.
#[verifier::opaque]
pub open spec fn lt_step(s: Shape, x: Seq<LinForm>, y: Seq<LinForm>) -> (Shape, LinForm) {
    let (t, lt, eq) = lt_loop(s, x, y, 0);
    (t, lt)
}

/// Strict unsigned comparison of two bit vectors, highest bit first, as an
/// expression that is one exactly when the left integer is smaller.
pub fn lt_strict_expr(b: &mut FieldR1csBuilder, a_bits: &[Wire], b_bits: &[Wire]) -> (r: LinExpr)
    requires
        old(b).wf(),
        a_bits@.len() == b_bits@.len(),
        a_bits@.len() > 0,
        wires_bounded(a_bits@, old(b).wires()),
        wires_bounded(b_bits@, old(b).wires()),
    ensures
        refines(*final(b), *old(b)),
        r.bound() <= final(b).wires(),
        final(b).honest() <==> old(b).honest(),
        forall|z: spec_fn(int) -> u128| #[trigger]
            final(b).holds(z) && all_bits(wires_at(a_bits@, z)) && all_bits(wires_at(b_bits@, z))
                ==> r.at(z) == bit_of(
                bits_nat(wires_at(a_bits@, z)) < bits_nat(wires_at(b_bits@, z)),
            ),
        lt_step(old(b).shape(), wire_forms(a_bits@), wire_forms(b_bits@)) == (final(b).shape(), r@),
{
    reveal(lt_loop);
    reveal(lt_step);
    let ghost entry = *b;
    let ghost before = *b;
    let mut acc_lt = LinExpr::zero();
    let mut acc_eq = LinExpr::one();
    let n = a_bits.len();
    let mut i: usize = n;
    proof {
        assert forall|z: spec_fn(int) -> u128| #[trigger]
            b.holds(z) implies bits_nat(wires_at(a_bits@, z).skip(n as int)) == 0 && bits_nat(
            wires_at(b_bits@, z).skip(n as int),
        ) == 0 by {
            assert(wires_at(a_bits@, z).skip(n as int) =~= Seq::empty());
            assert(wires_at(b_bits@, z).skip(n as int) =~= Seq::empty());
        }
    }
    while i > 0
        invariant
            i <= n,
            n == a_bits@.len(),
            n == b_bits@.len(),
            before.wf(),
            refines(*b, before),
            b.honest() <==> before.honest(),
            acc_lt.bound() <= b.wires(),
            acc_eq.bound() <= b.wires(),
            wires_bounded(a_bits@, before.wires()),
            wires_bounded(b_bits@, before.wires()),
            forall|z: spec_fn(int) -> u128| #[trigger]
                b.holds(z) && all_bits(wires_at(a_bits@, z)) && all_bits(wires_at(b_bits@, z)) ==> {
                    &&& acc_lt.at(z) == bit_of(
                        bits_nat(wires_at(a_bits@, z).skip(i as int)) < bits_nat(
                            wires_at(b_bits@, z).skip(i as int),
                        ),
                    )
                    &&& acc_eq.at(z) == bit_of(
                        bits_nat(wires_at(a_bits@, z).skip(i as int)) == bits_nat(
                            wires_at(b_bits@, z).skip(i as int),
                        ),
                    )
                },
            lt_loop(entry.shape(), wire_forms(a_bits@), wire_forms(b_bits@), i as nat) == (
                b.shape(),
                acc_lt@,
                acc_eq@,
            ),
        decreases i,
    {
        reveal(lt_loop);
        i = i - 1;
        let ghost start = *b;
        let ghost lt0 = acc_lt@;
        let ghost eq0 = acc_eq@;
        assert(a_bits@[i as int].index < before.wires());
        assert(b_bits@[i as int].index < before.wires());
        let a_e = LinExpr::from_wire(a_bits[i]);
        let b_e = LinExpr::from_wire(b_bits[i]);
        let not_a_and_b = self::mul(b, &a_e.add_const(F128::one()), &b_e);
        let decides = self::mul(b, &acc_eq, &not_a_and_b);
        acc_lt = acc_lt.add(&decides);
        acc_eq = self::mul(b, &acc_eq, &a_e.add(&b_e).add_const(F128::one()));
        proof {
            assert forall|z: spec_fn(int) -> u128| #[trigger]
                b.holds(z) && all_bits(wires_at(a_bits@, z)) && all_bits(wires_at(b_bits@, z))
                implies {
                &&& acc_lt.at(z) == bit_of(
                    bits_nat(wires_at(a_bits@, z).skip(i as int)) < bits_nat(
                        wires_at(b_bits@, z).skip(i as int),
                    ),
                )
                &&& acc_eq.at(z) == bit_of(
                    bits_nat(wires_at(a_bits@, z).skip(i as int)) == bits_nat(
                        wires_at(b_bits@, z).skip(i as int),
                    ),
                )
            } by {
                assert(start.holds(z));
                let va = wires_at(a_bits@, z);
                let vb = wires_at(b_bits@, z);
                let x = va[i as int];
                let y = vb[i as int];
                assert(is_bit(x) && is_bit(y));
                lemma_bits_first(va.skip(i as int));
                lemma_bits_first(vb.skip(i as int));
                assert(va.skip(i as int).skip(1) =~= va.skip(i + 1));
                assert(vb.skip(i as int).skip(1) =~= vb.skip(i + 1));
                lemma_bit_ops(x, y);
                lemma_bit_ops(x ^ 1, y);
                lemma_bit_ops(x ^ y, 1);
                lemma_bit_ops(eq0.at(z), fmul(x ^ 1, y));
                lemma_bit_ops(lt0.at(z), fmul(eq0.at(z), fmul(x ^ 1, y)));
                lemma_bit_ops(eq0.at(z), (x ^ y) ^ 1);
            }
        }
    }
    proof {
        assert forall|z: spec_fn(int) -> u128| #[trigger]
            b.holds(z) && all_bits(wires_at(a_bits@, z)) && all_bits(wires_at(b_bits@, z))
            implies acc_lt.at(z) == bit_of(
            bits_nat(wires_at(a_bits@, z)) < bits_nat(wires_at(b_bits@, z)),
        ) by {
            assert(wires_at(a_bits@, z).skip(0) =~= wires_at(a_bits@, z));
            assert(wires_at(b_bits@, z).skip(0) =~= wires_at(b_bits@, z));
        }
    }
    acc_lt
}

/// The rows of a strict comparison that is pinned.
#[verifier::opaque]
pub open spec fn pin_lt_step(s: Shape, x: Seq<LinForm>, y: Seq<LinForm>) -> Shape {
    let (t, lt) = lt_step(s, x, y);
    pin_zero_step(t, form_add_const(lt, 1))
}

/// Asserts a strict unsigned comparison of two bit vectors.
pub fn pin_lt_strict(b: &mut FieldR1csBuilder, a_bits: &[Wire], b_bits: &[Wire])
    requires
        old(b).wf(),
        a_bits@.len() == b_bits@.len(),
        a_bits@.len() > 0,
        wires_bounded(a_bits@, old(b).wires()),
        wires_bounded(b_bits@, old(b).wires()),
        forall|z: spec_fn(int) -> u128| #[trigger]
            old(b).holds(z) ==> all_bits(wires_at(a_bits@, z)) && all_bits(wires_at(b_bits@, z)),
    ensures
        refines(*final(b), *old(b)),
        forall|z: spec_fn(int) -> u128| #[trigger]
            final(b).holds(z) && old(b).live(z) ==> bits_nat(wires_at(a_bits@, z)) < bits_nat(
                wires_at(b_bits@, z),
            ),
        old(b).live(old(b).witness()) ==> (final(b).honest() <==> old(b).honest() && bits_nat(
            wires_at(a_bits@, old(b).witness()),
        ) < bits_nat(wires_at(b_bits@, old(b).witness()))),
        final(b).shape() == pin_lt_step(old(b).shape(), wire_forms(a_bits@), wire_forms(b_bits@)),
{
    reveal(pin_lt_step);
    let ghost before = *b;
    let acc_lt = lt_strict_expr(b, a_bits, b_bits);
    let ghost mid = *b;
    let miss = acc_lt.add_const(F128::one());
    pin_zero(b, &miss);
    proof {
        lemma_bit_ops(0, 1);
        lemma_bit_ops(1, 1);
        lemma_xor(1, 1, 0);
        lemma_xor(0, 1, 0);
        assert(wires_at(a_bits@, mid.witness()) =~= wires_at(a_bits@, before.witness())) by {
            lemma_wires_kept(mid, before, a_bits@);
        }
        assert(wires_at(b_bits@, mid.witness()) =~= wires_at(b_bits@, before.witness())) by {
            lemma_wires_kept(mid, before, b_bits@);
        }
        assert(mid.honest() ==> mid.holds(mid.witness()) && before.holds(mid.witness()));
    }
}

/// Recording more rows changes no value of earlier wires.
pub proof fn lemma_wires_kept(after: FieldR1csBuilder, before: FieldR1csBuilder, ws: Seq<Wire>)
    requires
        after.extends(&before),
        wires_bounded(ws, before.wires()),
    ensures
        wires_at(ws, after.witness()) == wires_at(ws, before.witness()),
{
    assert forall|k: int| 0 <= k < ws.len() implies after.witness()((#[trigger] ws[k]).index as int)
        == before.witness()(ws[k].index as int) by {
        assert(ws[k].index < before.wires());
    }
    assert(wires_at(ws, after.witness()) =~= wires_at(ws, before.witness()));
}

/// Recording more rows changes no value of earlier expressions.
pub proof fn lemma_exprs_kept(after: FieldR1csBuilder, before: FieldR1csBuilder, es: Seq<LinExpr>)
    requires
        after.extends(&before),
        exprs_bounded(es, before.wires()),
    ensures
        exprs_at(es, after.witness()) == exprs_at(es, before.witness()),
{
    assert forall|k: int| 0 <= k < es.len() implies (#[trigger] es[k]).at(after.witness())
        == es[k].at(before.witness()) by {
        assert(es[k].bound() <= before.wires());
    }
    assert(exprs_at(es, after.witness()) =~= exprs_at(es, before.witness()));
}

/// The rows of a subtraction of the first `n` bits, and its borrow.
#[verifier::opaque]
pub open spec fn borrow_step(s: Shape, x: Seq<LinForm>, y: Seq<LinForm>, n: nat) -> (Shape, LinForm)
    decreases n,
{
    if n == 0 {
        (s, const_form(0))
    } else {
        let (s0, borrow) = borrow_step(s, x, y, (n - 1) as nat);
        let (s1, below) = mul_step(s0, form_add_const(x[n - 1], 1), y[n - 1]);
        let same = form_add_const(form_add(x[n - 1], y[n - 1]), 1);
        let (s2, kept) = mul_step(s1, borrow, same);
        (s2, form_add(below, kept))
    }
}

/// Strict unsigned comparison of two bit vectors, lowest bit first.
pub fn less_than_bits(b: &mut FieldR1csBuilder, lhs: &[LinExpr], rhs: &[LinExpr]) -> (r: LinExpr)
    requires
        old(b).wf(),
        lhs@.len() == rhs@.len(),
        exprs_bounded(lhs@, old(b).wires()),
        exprs_bounded(rhs@, old(b).wires()),
    ensures
        refines(*final(b), *old(b)),
        r.bound() <= final(b).wires(),
        final(b).honest() <==> old(b).honest(),
        forall|z: spec_fn(int) -> u128| #[trigger]
            final(b).holds(z) && all_bits(exprs_at(lhs@, z)) && all_bits(exprs_at(rhs@, z))
                ==> r.at(z) == bit_of(bits_nat(exprs_at(lhs@, z)) < bits_nat(exprs_at(rhs@, z))),
        borrow_step(old(b).shape(), forms(lhs@), forms(rhs@), lhs@.len()) == (final(b).shape(), r@),
{
    reveal(borrow_step);
    let ghost entry = *b;
    let ghost before = *b;
    let mut borrow = LinExpr::zero();
    let n = lhs.len();
    let mut i: usize = 0;
    proof {
        assert forall|z: spec_fn(int) -> u128| #[trigger]
            b.holds(z) implies bits_nat(exprs_at(lhs@, z).take(0)) == 0 && bits_nat(
            exprs_at(rhs@, z).take(0),
        ) == 0 by {}
    }
    while i < n
        invariant
            i <= n,
            n == lhs@.len(),
            n == rhs@.len(),
            before.wf(),
            refines(*b, before),
            b.honest() <==> before.honest(),
            borrow.bound() <= b.wires(),
            exprs_bounded(lhs@, before.wires()),
            exprs_bounded(rhs@, before.wires()),
            forall|z: spec_fn(int) -> u128| #[trigger]
                b.holds(z) && all_bits(exprs_at(lhs@, z)) && all_bits(exprs_at(rhs@, z))
                    ==> borrow.at(z) == bit_of(
                    bits_nat(exprs_at(lhs@, z).take(i as int)) < bits_nat(
                        exprs_at(rhs@, z).take(i as int),
                    ),
                ),
            borrow_step(entry.shape(), forms(lhs@), forms(rhs@), i as nat) == (b.shape(), borrow@),
        decreases n - i,
    {
        reveal(borrow_step);
        let ghost start = *b;
        let ghost borrow0 = borrow@;
        assert(lhs@[i as int].bound() <= before.wires());
        assert(rhs@[i as int].bound() <= before.wires());
        let left = &lhs[i];
        let right = &rhs[i];
        let left_zero_right_one = self::mul(b, &left.add_const(F128::one()), right);
        let matching = left.add(right).add_const(F128::one());
        let borrow_when_equal = self::mul(b, &borrow, &matching);
        borrow = left_zero_right_one.add(&borrow_when_equal);
        proof {
            assert forall|z: spec_fn(int) -> u128| #[trigger]
                b.holds(z) && all_bits(exprs_at(lhs@, z)) && all_bits(exprs_at(rhs@, z))
                implies borrow.at(z) == bit_of(
                bits_nat(exprs_at(lhs@, z).take(i + 1)) < bits_nat(exprs_at(rhs@, z).take(i + 1)),
            ) by {
                assert(start.holds(z));
                let va = exprs_at(lhs@, z);
                let vb = exprs_at(rhs@, z);
                let x = va[i as int];
                let y = vb[i as int];
                assert(is_bit(x) && is_bit(y));
                assert(va.take(i + 1) =~= va.take(i as int).push(x));
                assert(vb.take(i + 1) =~= vb.take(i as int).push(y));
                lemma_bits_push(va.take(i as int), x);
                lemma_bits_push(vb.take(i as int), y);
                lemma_bits_bound(va.take(i as int));
                lemma_bits_bound(vb.take(i as int));
                lemma_bit_ops(x, y);
                lemma_bit_ops(x ^ 1, y);
                lemma_bit_ops(x ^ y, 1);
                lemma_bit_ops(borrow0.at(z), (x ^ y) ^ 1);
                lemma_bit_ops(fmul(x ^ 1, y), fmul(borrow0.at(z), (x ^ y) ^ 1));
            }
        }
        i = i + 1;
    }
    proof {
        assert forall|z: spec_fn(int) -> u128| #[trigger]
            b.holds(z) && all_bits(exprs_at(lhs@, z)) && all_bits(exprs_at(rhs@, z))
            implies borrow.at(z) == bit_of(
            bits_nat(exprs_at(lhs@, z)) < bits_nat(exprs_at(rhs@, z)),
        ) by {
            assert(exprs_at(lhs@, z).take(i as int) =~= exprs_at(lhs@, z));
            assert(exprs_at(rhs@, z).take(i as int) =~= exprs_at(rhs@, z));
        }
    }
    borrow
}

/// The forms of the bits of a constant.
#[verifier::opaque]
pub open spec fn constant_forms(value: u64, width: nat) -> Seq<LinForm> {
    Seq::new(
        width,
        |i: int|
            if (value as u128 >> (i as u128)) & 1 == 1 {
                const_form(1)
            } else {
                const_form(0)
            },
    )
}

/// The bits of a constant.
pub fn constant_bits(value: u64, width: usize) -> (r: Vec<LinExpr>)
    requires
        width <= 64,
    ensures
        r@.len() == width,
        exprs_bounded(r@, 0),
        forall|z: spec_fn(int) -> u128| #[trigger]
            exprs_at(r@, z) == int_bits(value as u128, width as nat),
        forms(r@) == constant_forms(value, width as nat),
{
    reveal(constant_forms);
    let mut r: Vec<LinExpr> = Vec::with_capacity(width);
    let mut i: usize = 0;
    let wide = value as u128;
    while i < width
        invariant
            i <= width <= 64,
            r@.len() == i,
            wide == value as u128,
            exprs_bounded(r@, 0),
            forall|k: int, z: spec_fn(int) -> u128|
                0 <= k < i ==> #[trigger] r@[k].at(z) == bit_of(bit_at(value as u128, k as u128)),
            forall|k: int|
                0 <= k < i ==> (#[trigger] r@[k])@ == if (wide >> (k as u128)) & 1 == 1 {
                    const_form(1)
                } else {
                    const_form(0)
                },
        decreases width - i,
    {
        if (wide >> (i as u128)) & 1 == 1 {
            r.push(LinExpr::one());
        } else {
            r.push(LinExpr::zero());
        }
        i = i + 1;
    }
    assert(forms(r@) =~= constant_forms(value, width as nat));
    assert forall|z: spec_fn(int) -> u128| #[trigger]
        exprs_at(r@, z) == int_bits(value as u128, width as nat) by {
        assert(exprs_at(r@, z) =~= int_bits(value as u128, width as nat));
    }
    r
}

/// The rows of a comparison of the first `n` bits with a constant, and its result.
#[verifier::opaque]
pub open spec fn equals_step(s: Shape, x: Seq<LinForm>, value: u64, n: nat) -> (Shape, LinForm)
    decreases n,
{
    if n == 0 {
        (s, const_form(1))
    } else {
        let (t, equal) = equals_step(s, x, value, (n - 1) as nat);
        let same = if (value as u128 >> ((n - 1) as u128)) & 1 == 1 {
            x[n - 1]
        } else {
            form_add_const(x[n - 1], 1)
        };
        mul_step(t, equal, same)
    }
}

/// One exactly when the bits spell the constant.
pub fn equals_constant(b: &mut FieldR1csBuilder, bits: &[LinExpr], value: u64) -> (r: LinExpr)
    requires
        old(b).wf(),
        bits@.len() <= 64,
        exprs_bounded(bits@, old(b).wires()),
    ensures
        refines(*final(b), *old(b)),
        r.bound() <= final(b).wires(),
        final(b).honest() <==> old(b).honest(),
        forall|z: spec_fn(int) -> u128| #[trigger]
            final(b).holds(z) && all_bits(exprs_at(bits@, z)) ==> r.at(z) == bit_of(
                bits_nat(exprs_at(bits@, z)) == low_bits(value as u128, bits@.len()),
            ),
        equals_step(old(b).shape(), forms(bits@), value, bits@.len()) == (final(b).shape(), r@),
{
    reveal(equals_step);
    let ghost entry = *b;
    let ghost before = *b;
    let mut equal = LinExpr::one();
    let n = bits.len();
    let wide = value as u128;
    let mut i: usize = 0;
    proof {
        lemma_int_bits(wide, 0);
        assert forall|z: spec_fn(int) -> u128| #[trigger]
            b.holds(z) implies bits_nat(exprs_at(bits@, z).take(0)) == 0 by {}
    }
    while i < n
        invariant
            i <= n <= 64,
            n == bits@.len(),
            wide == value as u128,
            before.wf(),
            refines(*b, before),
            b.honest() <==> before.honest(),
            equal.bound() <= b.wires(),
            exprs_bounded(bits@, before.wires()),
            forall|z: spec_fn(int) -> u128| #[trigger]
                b.holds(z) && all_bits(exprs_at(bits@, z)) ==> equal.at(z) == bit_of(
                    bits_nat(exprs_at(bits@, z).take(i as int)) == low_bits(wide, i as nat),
                ),
            equals_step(entry.shape(), forms(bits@), value, i as nat) == (b.shape(), equal@),
        decreases n - i,
    {
        reveal(equals_step);
        let ghost start = *b;
        let ghost equal0 = equal@;
        assert(bits@[i as int].bound() <= before.wires());
        let set = (wide >> (i as u128)) & 1 == 1;
        let matching = if set {
            bits[i].clone()
        } else {
            bits[i].add_const(F128::one())
        };
        equal = self::mul(b, &equal, &matching);
        proof {
            assert forall|z: spec_fn(int) -> u128| #[trigger]
                b.holds(z) && all_bits(exprs_at(bits@, z)) implies equal.at(z) == bit_of(
                bits_nat(exprs_at(bits@, z).take(i + 1)) == low_bits(wide, (i + 1) as nat),
            ) by {
                assert(start.holds(z));
                let va = exprs_at(bits@, z);
                let x = va[i as int];
                assert(is_bit(x));
                assert(va.take(i + 1) =~= va.take(i as int).push(x));
                lemma_bits_push(va.take(i as int), x);
                lemma_bits_bound(va.take(i as int));
                lemma_int_bits(wide, i as nat);
                lemma_int_bits(wide, (i + 1) as nat);
                assert(int_bits(wide, (i + 1) as nat) =~= int_bits(wide, i as nat).push(
                    bit_of(set),
                ));
                lemma_bits_push(int_bits(wide, i as nat), bit_of(set));
                lemma_bit_ops(x, 1);
                lemma_bit_ops(equal0.at(z), matching.at(z));
            }
        }
        i = i + 1;
    }
    proof {
        assert forall|z: spec_fn(int) -> u128| #[trigger]
            b.holds(z) && all_bits(exprs_at(bits@, z)) implies equal.at(z) == bit_of(
            bits_nat(exprs_at(bits@, z)) == low_bits(wide, n as nat),
        ) by {
            assert(exprs_at(bits@, z).take(i as int) =~= exprs_at(bits@, z));
        }
    }
    equal
}

/// The rows of a test of the first `n` bits for zero, and its result.
#[verifier::opaque]
pub open spec fn all_zero_step(s: Shape, x: Seq<LinForm>, n: nat) -> (Shape, LinForm)
    decreases n,
{
    if n == 0 {
        (s, const_form(1))
    } else {
        let (t, zero) = all_zero_step(s, x, (n - 1) as nat);
        mul_step(t, zero, form_add_const(x[n - 1], 1))
    }
}

/// One exactly when all bits are zero.
pub fn all_zero(b: &mut FieldR1csBuilder, bits: &[LinExpr]) -> (r: LinExpr)
    requires
        old(b).wf(),
        exprs_bounded(bits@, old(b).wires()),
    ensures
        refines(*final(b), *old(b)),
        r.bound() <= final(b).wires(),
        final(b).honest() <==> old(b).honest(),
        forall|z: spec_fn(int) -> u128| #[trigger]
            final(b).holds(z) && all_bits(exprs_at(bits@, z)) ==> r.at(z) == bit_of(
                bits_nat(exprs_at(bits@, z)) == 0,
            ),
        all_zero_step(old(b).shape(), forms(bits@), bits@.len()) == (final(b).shape(), r@),
{
    reveal(all_zero_step);
    let ghost entry = *b;
    let ghost before = *b;
    let mut zero = LinExpr::one();
    let n = bits.len();
    let mut i: usize = 0;
    while i < n
        invariant
            i <= n,
            n == bits@.len(),
            before.wf(),
            refines(*b, before),
            b.honest() <==> before.honest(),
            zero.bound() <= b.wires(),
            exprs_bounded(bits@, before.wires()),
            forall|z: spec_fn(int) -> u128| #[trigger]
                b.holds(z) && all_bits(exprs_at(bits@, z)) ==> zero.at(z) == bit_of(
                    bits_nat(exprs_at(bits@, z).take(i as int)) == 0,
                ),
            all_zero_step(entry.shape(), forms(bits@), i as nat) == (b.shape(), zero@),
        decreases n - i,
    {
        reveal(all_zero_step);
        let ghost start = *b;
        let ghost zero0 = zero@;
        assert(bits@[i as int].bound() <= before.wires());
        let clear = bits[i].add_const(F128::one());
        zero = self::mul(b, &zero, &clear);
        proof {
            assert forall|z: spec_fn(int) -> u128| #[trigger]
                b.holds(z) && all_bits(exprs_at(bits@, z)) implies zero.at(z) == bit_of(
                bits_nat(exprs_at(bits@, z).take(i + 1)) == 0,
            ) by {
                assert(start.holds(z));
                let va = exprs_at(bits@, z);
                let x = va[i as int];
                assert(is_bit(x));
                assert(va.take(i + 1) =~= va.take(i as int).push(x));
                lemma_bits_push(va.take(i as int), x);
                lemma_pow2_pos(i as nat);
                lemma_bit_ops(x, 1);
                lemma_bit_ops(zero0.at(z), x ^ 1);
            }
        }
        i = i + 1;
    }
    proof {
        assert forall|z: spec_fn(int) -> u128| #[trigger]
            b.holds(z) && all_bits(exprs_at(bits@, z)) implies zero.at(z) == bit_of(
            bits_nat(exprs_at(bits@, z)) == 0,
        ) by {
            assert(exprs_at(bits@, z).take(i as int) =~= exprs_at(bits@, z));
        }
    }
    zero
}

/// The rows that hold a form to a bit.
#[verifier::opaque]
pub open spec fn boolean_step(s: Shape, x: LinForm) -> Shape {
    let (t, invalid) = mul_step(s, x, form_add_const(x, 1));
    pin_zero_step(t, invalid)
}

/// Asserts that an expression is a bit.
pub fn boolean(b: &mut FieldR1csBuilder, value: &LinExpr)
    requires
        old(b).wf(),
        value.bound() <= old(b).wires(),
    ensures
        refines(*final(b), *old(b)),
        forall|z: spec_fn(int) -> u128| #[trigger]
            final(b).holds(z) && old(b).live(z) ==> is_bit(value.at(z)),
        old(b).live(old(b).witness()) ==> (final(b).honest() <==> old(b).honest() && is_bit(
            value.at(old(b).witness()),
        )),
        final(b).shape() == boolean_step(old(b).shape(), value@),
{
    reveal(boolean_step);
    let invalid = self::mul(b, value, &value.add_const(F128::one()));
    let ghost mid = *b;
    pin_zero(b, &invalid);
    proof {
        assert forall|z: spec_fn(int) -> u128|
            #[trigger] fmul(value.at(z), value.at(z) ^ 1) == 0 <==> is_bit(value.at(z)) by {
            lemma_boolean(value.at(z));
        }
        assert forall|z: spec_fn(int) -> u128| #[trigger]
            mid.holds(z) implies (invalid.at(z) == 0 <==> is_bit(value.at(z))) by {
            lemma_boolean(value.at(z));
        }
        lemma_boolean(value.at(old(b).witness()));
    }
}

/// The rows of a choice, and its result.
#[verifier::opaque]
pub open spec fn mux_step(s: Shape, selector: LinForm, one: LinForm, zero: LinForm) -> (
    Shape,
    LinForm,
) {
    let (t, delta) = mul_step(s, selector, form_add(one, zero));
    (t, form_add(zero, delta))
}

/// `when_one` or `when_zero`, by a selector bit.
pub fn mux(
    b: &mut FieldR1csBuilder,
    selector: &LinExpr,
    when_one: &LinExpr,
    when_zero: &LinExpr,
) -> (r: LinExpr)
    requires
        old(b).wf(),
        selector.bound() <= old(b).wires(),
        when_one.bound() <= old(b).wires(),
        when_zero.bound() <= old(b).wires(),
    ensures
        refines(*final(b), *old(b)),
        r.bound() <= final(b).wires(),
        final(b).honest() <==> old(b).honest(),
        forall|z: spec_fn(int) -> u128| #[trigger]
            final(b).holds(z) && is_bit(selector.at(z)) ==> r.at(z) == if selector.at(z) == 1 {
                when_one.at(z)
            } else {
                when_zero.at(z)
            },
        mux_step(old(b).shape(), selector@, when_one@, when_zero@) == (final(b).shape(), r@),
{
    reveal(mux_step);
    let delta = self::mul(b, selector, &when_one.add(when_zero));
    let r = when_zero.add(&delta);
    proof {
        assert forall|z: spec_fn(int) -> u128| #[trigger]
            b.holds(z) && is_bit(selector.at(z)) implies r.at(z) == if selector.at(z) == 1 {
            when_one.at(z)
        } else {
            when_zero.at(z)
        } by {
            let x = when_one.at(z);
            let y = when_zero.at(z);
            lemma_fmul_unit(x ^ y);
            lemma_xor(x, y, 0);
            lemma_xor(y, x, 0);
        }
    }
    r
}

} // verus!
