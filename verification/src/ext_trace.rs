//! The quadratic extension of the field, as rows.
//!
//! An element is a pair `lo + hi y`. The reduction rule `y^2 = t y + n` is the
//! host's.
use crate::circuit::{group_agree, FieldR1csBuilder, LinExpr};
use crate::field::{
    fmul, lemma_fmul_assoc, lemma_fmul_comm, lemma_fmul_distrib, lemma_fmul_unit, lemma_xor,
    lemma_xor_swap, F128,
};
use crate::le_bytes::le;
use crate::trace::{pin_zero, refines};
use crate::circuit::{const_form, form_add, form_scale, wire_form, LinForm, Shape};
use crate::trace::{mul_step, pin_zero_step};
use crate::columns::free_step;
use crate::circuit::lemma_free_wires;
use vstd::arithmetic::power2::{lemma_pow2_unfold, pow2};
use vstd::prelude::*;

verus! {

broadcast use group_agree;

/// An element of the quadratic extension.
#[derive(Clone, Copy, Debug, PartialEq, Eq, Structural)]
pub struct F256 {
    pub lo: F128,
    pub hi: F128,
}

impl F256 {
    pub open spec fn bytes(self) -> Seq<u8> {
        le(self.lo@ as nat, 16) + le(self.hi@ as nat, 16)
    }

    pub fn zero() -> (r: F256)
        ensures
            r.lo@ == 0,
            r.hi@ == 0,
    {
        F256 { lo: F128::zero(), hi: F128::zero() }
    }

    pub fn one() -> (r: F256)
        ensures
            r.lo@ == 1,
            r.hi@ == 0,
    {
        F256 { lo: F128::one(), hi: F128::zero() }
    }
}


/// The reduction rule `y^2 = t y + n`.
#[derive(Clone, Copy, Debug, PartialEq, Eq, Structural)]
pub struct ExtRule {
    pub t: F128,
    pub n: F128,
}

/// A value of the extension.
pub struct Ext {
    pub lo: u128,
    pub hi: u128,
}

/// The sum of two values.
pub open spec fn esum(x: Ext, y: Ext) -> Ext {
    Ext { lo: x.lo ^ y.lo, hi: x.hi ^ y.hi }
}

/// The product of two values under a rule.
pub open spec fn emul(rule: ExtRule, x: Ext, y: Ext) -> Ext {
    let high = fmul(x.hi, y.hi);
    Ext {
        lo: fmul(x.lo, y.lo) ^ fmul(rule.n@, high),
        hi: (fmul(x.lo, y.hi) ^ fmul(x.hi, y.lo)) ^ fmul(rule.t@, high),
    }
}

pub open spec fn ezero() -> Ext {
    Ext { lo: 0, hi: 0 }
}

pub open spec fn eone() -> Ext {
    Ext { lo: 1, hi: 0 }
}

impl F256 {
    pub open spec fn ext(self) -> Ext {
        Ext { lo: self.lo@, hi: self.hi@ }
    }
}

/// An element of the extension as a pair of expressions.
pub struct ExtExpr {
    pub lo: LinExpr,
    pub hi: LinExpr,
}

/// What an element of the extension reads.
pub struct ExtForm {
    pub lo: LinForm,
    pub hi: LinForm,
}

/// The sum of two elements.
pub open spec fn ext_add(x: ExtForm, y: ExtForm) -> ExtForm {
    ExtForm { lo: form_add(x.lo, y.lo), hi: form_add(x.hi, y.hi) }
}

/// An element without wires.
pub open spec fn ext_const(lo: u128, hi: u128) -> ExtForm {
    ExtForm { lo: const_form(lo), hi: const_form(hi) }
}

/// The product of an element and a constant of the extension.
#[verifier::opaque]
pub open spec fn ext_scale(rule: ExtRule, x: ExtForm, lo: u128, hi: u128) -> ExtForm {
    let low = form_scale(x.lo, lo);
    let high = form_scale(x.hi, hi);
    let cross = form_add(form_scale(x.lo, hi), form_scale(x.hi, lo));
    ExtForm {
        lo: form_add(low, form_scale(high, rule.n@)),
        hi: form_add(cross, form_scale(high, rule.t@)),
    }
}

/// What a list of elements reads.
pub open spec fn ext_forms(es: Seq<ExtExpr>) -> Seq<ExtForm> {
    es.map_values(|e: ExtExpr| e.form())
}

impl ExtExpr {
    /// What the element reads.
    pub open spec fn form(&self) -> ExtForm {
        ExtForm { lo: self.lo@, hi: self.hi@ }
    }

    pub open spec fn at(&self, z: spec_fn(int) -> u128) -> Ext {
        Ext { lo: self.lo.at(z), hi: self.hi.at(z) }
    }

    pub open spec fn below(&self, n: nat) -> bool {
        self.lo.bound() <= n && self.hi.bound() <= n
    }

    pub fn constant(value: F256) -> (r: ExtExpr)
        ensures
            forall|z: spec_fn(int) -> u128| #[trigger] r.at(z) == value.ext(),
            r.below(0),
            r.lo.constant_expr(),
            r.hi.constant_expr(),
            r.form() == ext_const(value.lo@, value.hi@),
    {
        let r = ExtExpr { lo: LinExpr::constant(value.lo), hi: LinExpr::constant(value.hi) };
        assert forall|z: spec_fn(int) -> u128| #[trigger] r.at(z) == value.ext() by {
            assert(r.lo.at(z) == value.lo@);
            assert(r.hi.at(z) == value.hi@);
        }
        r
    }

    pub fn zero() -> (r: ExtExpr)
        ensures
            forall|z: spec_fn(int) -> u128| #[trigger] r.at(z) == ezero(),
            r.below(0),
            r.form() == ext_const(0, 0),
    {
        ExtExpr::constant(F256::zero())
    }

    pub fn one() -> (r: ExtExpr)
        ensures
            forall|z: spec_fn(int) -> u128| #[trigger] r.at(z) == eone(),
            r.below(0),
            r.form() == ext_const(1, 0),
    {
        ExtExpr::constant(F256::one())
    }

    pub fn copy(&self) -> (r: ExtExpr)
        ensures
            forall|z: spec_fn(int) -> u128| #[trigger] r.at(z) == self.at(z),
            r.lo@ == self.lo@,
            r.hi@ == self.hi@,
            r.form() == self.form(),
    {
        let r = ExtExpr { lo: self.lo.clone(), hi: self.hi.clone() };
        assert forall|z: spec_fn(int) -> u128| #[trigger] r.at(z) == self.at(z) by {
            assert(r.lo.at(z) == self.lo.at(z));
            assert(r.hi.at(z) == self.hi.at(z));
        }
        r
    }

    pub fn add(&self, other: &ExtExpr) -> (r: ExtExpr)
        ensures
            forall|z: spec_fn(int) -> u128| #[trigger] r.at(z) == esum(self.at(z), other.at(z)),
            forall|n: nat| self.below(n) && other.below(n) ==> #[trigger] r.below(n),
            r.form() == ext_add(self.form(), other.form()),
    {
        let r = ExtExpr { lo: self.lo.add(&other.lo), hi: self.hi.add(&other.hi) };
        assert forall|z: spec_fn(int) -> u128| #[trigger] r.at(z) == esum(
            self.at(z),
            other.at(z),
        ) by {
            assert(r.lo.at(z) == self.lo.at(z) ^ other.lo.at(z));
            assert(r.hi.at(z) == self.hi.at(z) ^ other.hi.at(z));
        }
        r
    }

    /// Scales by a constant of the base field.
    pub fn scale_base(&self, c: F128) -> (r: ExtExpr)
        ensures
            forall|z: spec_fn(int) -> u128| #[trigger]
                r.at(z) == (Ext { lo: fmul(c@, self.at(z).lo), hi: fmul(c@, self.at(z).hi) }),
            forall|n: nat| self.below(n) ==> #[trigger] r.below(n),
            r.lo@ == form_scale(self.lo@, c@),
            r.hi@ == form_scale(self.hi@, c@),
    {
        let r = ExtExpr { lo: self.lo.scale(c), hi: self.hi.scale(c) };
        assert forall|z: spec_fn(int) -> u128| #[trigger] r.at(z) == (Ext {
            lo: fmul(c@, self.at(z).lo),
            hi: fmul(c@, self.at(z).hi),
        }) by {
            lemma_fmul_comm(c@, self.lo.at(z));
            lemma_fmul_comm(c@, self.hi.at(z));
            assert(r.lo.at(z) == r.lo.at(z));
            assert(r.hi.at(z) == r.hi.at(z));
        }
        r
    }

    /// The element, if it is a build-time constant.
    pub fn constant_value(&self) -> (r: Option<F256>)
        ensures
            r is Some <==> self.lo.constant_expr() && self.hi.constant_expr(),
            r matches Some(value) ==> forall|z: spec_fn(int) -> u128| #[trigger]
                self.at(z) == value.ext(),
            r matches Some(value) ==> value.lo == self.lo.constant && value.hi == self.hi.constant,
    {
        if self.lo.is_const() && self.hi.is_const() {
            let value = F256 { lo: self.lo.constant, hi: self.hi.constant };
            assert forall|z: spec_fn(int) -> u128| #[trigger] self.at(z) == value.ext() by {
                assert(self.lo.at(z) == value.lo@);
                assert(self.hi.at(z) == value.hi@);
            }
            Some(value)
        } else {
            None
        }
    }

    /// Scales by a constant of the extension.
    pub fn scale_ext(&self, rule: ExtRule, c: F256) -> (r: ExtExpr)
        ensures
            forall|z: spec_fn(int) -> u128| #[trigger] r.at(z) == emul(rule, self.at(z), c.ext()),
            forall|n: nat| self.below(n) ==> #[trigger] r.below(n),
            r.form() == ext_scale(rule, self.form(), c.lo@, c.hi@),
    {
        reveal(ext_scale);
        let low = self.lo.scale(c.lo);
        let high = self.hi.scale(c.hi);
        let cross = self.lo.scale(c.hi).add(&self.hi.scale(c.lo));
        let r = ExtExpr { lo: low.add(&high.scale(rule.n)), hi: cross.add(&high.scale(rule.t)) };
        assert forall|z: spec_fn(int) -> u128| #[trigger] r.at(z) == emul(
            rule,
            self.at(z),
            c.ext(),
        ) by {
            let x = self.lo.at(z);
            let y = self.hi.at(z);
            lemma_fmul_comm(c.lo@, x);
            lemma_fmul_comm(c.hi@, y);
            lemma_fmul_comm(c.hi@, x);
            lemma_fmul_comm(c.lo@, y);
            lemma_fmul_comm(rule.n@, fmul(y, c.hi@));
            lemma_fmul_comm(rule.t@, fmul(y, c.hi@));
            assert(r.lo.at(z) == fmul(x, c.lo@) ^ fmul(rule.n@, fmul(y, c.hi@)));
            assert(r.hi.at(z) == (fmul(x, c.hi@) ^ fmul(y, c.lo@)) ^ fmul(
                rule.t@,
                fmul(y, c.hi@),
            ));
        }
        r
    }
}

/// Multiplication in the extension commutes.
pub proof fn lemma_emul_comm(rule: ExtRule, x: Ext, y: Ext)
    ensures
        emul(rule, x, y) == emul(rule, y, x),
{
    lemma_fmul_comm(x.lo, y.lo);
    lemma_fmul_comm(x.hi, y.hi);
    lemma_fmul_comm(x.lo, y.hi);
    lemma_fmul_comm(x.hi, y.lo);
    lemma_xor(fmul(x.lo, y.hi), fmul(x.hi, y.lo), 0);
}

/// Zero times anything is zero, so it has no inverse.
pub proof fn lemma_emul_zero(rule: ExtRule, y: Ext)
    ensures
        emul(rule, ezero(), y) == ezero(),
{
    lemma_fmul_unit(y.lo);
    lemma_fmul_unit(y.hi);
    lemma_fmul_unit(rule.n@);
    lemma_fmul_unit(rule.t@);
    lemma_xor(0, 0, 0);
}

/// A factor of the base field scales both coordinates.
proof fn lemma_emul_base(rule: ExtRule, x: Ext, s: u128)
    ensures
        emul(rule, x, (Ext { lo: s, hi: 0 })) == (Ext { lo: fmul(x.lo, s), hi: fmul(x.hi, s) }),
        emul(rule, (Ext { lo: s, hi: 0 }), x) == (Ext { lo: fmul(x.lo, s), hi: fmul(x.hi, s) }),
{
    lemma_emul_comm(rule, x, Ext { lo: s, hi: 0 });
    lemma_fmul_unit(x.hi);
    lemma_fmul_unit(x.lo);
    lemma_fmul_unit(rule.n@);
    lemma_fmul_unit(rule.t@);
    lemma_xor(fmul(x.lo, s), 0, 0);
    lemma_xor(fmul(x.hi, s), 0, 0);
}

proof fn lemma_square_ext(rule: ExtRule, x: Ext)
    ensures
        emul(rule, x, x) == (Ext {
            lo: fmul(x.lo, x.lo) ^ fmul(rule.n@, fmul(x.hi, x.hi)),
            hi: fmul(rule.t@, fmul(x.hi, x.hi)),
        }),
{
    lemma_fmul_comm(x.lo, x.hi);
    lemma_xor(fmul(x.lo, x.hi), 0, 0);
    lemma_xor(fmul(rule.t@, fmul(x.hi, x.hi)), 0, 0);
}

/// Three products give the four of the schoolbook rule.
proof fn lemma_three_products(x: Ext, y: Ext)
    ensures
        (fmul(x.lo ^ x.hi, y.lo ^ y.hi) ^ fmul(x.lo, y.lo)) ^ fmul(x.hi, y.hi) == fmul(x.lo, y.hi)
            ^ fmul(x.hi, y.lo),
{
    let a = fmul(x.lo, y.lo);
    let d = fmul(x.hi, y.hi);
    let c = fmul(x.lo, y.hi);
    let e = fmul(x.hi, y.lo);
    lemma_fmul_distrib(x.lo, x.hi, y.lo ^ y.hi);
    lemma_fmul_distrib(y.lo, y.hi, x.lo);
    lemma_fmul_distrib(y.lo, y.hi, x.hi);
    // ((a ^ c) ^ (e ^ d)) ^ a ^ d
    lemma_xor_swap(a, c, e, d);
    lemma_xor_swap(a, e, c, d);
    lemma_xor(a, c, e ^ d);
    lemma_xor(a, c ^ (e ^ d), 0);
    lemma_xor(c ^ (e ^ d), a, 0);
    lemma_xor(c, e, d);
    lemma_xor(c ^ e, d, 0);
}

pub proof fn lemma_ext_agree(
    e: ExtExpr,
    z: spec_fn(int) -> u128,
    w: spec_fn(int) -> u128,
    n: nat,
)
    requires
        e.below(n),
        crate::circuit::agree(z, w, n),
    ensures
        e.at(z) == e.at(w),
{
    assert(e.lo@.at(z) == e.lo@.at(w));
    assert(e.hi@.at(z) == e.hi@.at(w));
}

/// An element on two free wires.
pub fn alloc_ext(b: &mut FieldR1csBuilder, value: F256) -> (r: ExtExpr)
    requires
        old(b).wf(),
    ensures
        refines(*final(b), *old(b)),
        final(b).wires() == old(b).wires() + 2,
        r.below(final(b).wires()),
        forall|z: spec_fn(int) -> u128| #[trigger] final(b).holds(z) <==> old(b).holds(z),
        final(b).honest() <==> old(b).honest(),
        forall|z: spec_fn(int) -> u128| #[trigger]
            r.at(z) == (Ext { lo: z(old(b).wires() as int), hi: z(old(b).wires() as int + 1) }),
        r.at(final(b).witness()) == value.ext(),
        final(b).shape() == old(b).shape().free().free(),
        r.form() == (ExtForm { lo: old(b).shape().next(), hi: old(b).shape().free().next() }),
{
    let ghost b0 = *b;
    let lo = LinExpr::from_wire(b.alloc_f128(value.lo));
    let ghost mid = *b;
    let hi = LinExpr::from_wire(b.alloc_f128(value.hi));
    let r = ExtExpr { lo, hi };
    proof {
        assert(lo@.at(b.witness()) == lo@.at(mid.witness()));
        assert forall|z: spec_fn(int) -> u128| #[trigger] r.at(z) == (Ext {
            lo: z(b0.wires() as int),
            hi: z(b0.wires() as int + 1),
        }) by {
            assert(r.lo.at(z) == z(b0.wires() as int));
            assert(r.hi.at(z) == z(b0.wires() as int + 1));
        }
        assert(b.holds(b.witness()) == b0.holds(b.witness()));
        assert(b0.holds(b.witness()) == b0.holds(b0.witness()));
    }
    r
}

/// A wide value on two free wires, each half in the basis of the builder.
pub fn alloc_block256(b: &mut FieldR1csBuilder, lo: u128, hi: u128) -> (r: ExtExpr)
    requires
        old(b).wf(),
    ensures
        refines(*final(b), *old(b)),
        final(b).wires() == old(b).wires() + 2,
        r.below(final(b).wires()),
        final(b).honest() <==> old(b).honest(),
        forall|z: spec_fn(int) -> u128| #[trigger]
            r.at(z) == (Ext { lo: z(old(b).wires() as int), hi: z(old(b).wires() as int + 1) }),
        r.at(final(b).witness()) == (Ext {
            lo: old(b).flat_basis().flat(lo),
            hi: old(b).flat_basis().flat(hi),
        }),
        final(b).shape() == old(b).shape().free().free(),
        r.form() == (ExtForm { lo: old(b).shape().next(), hi: old(b).shape().free().next() }),
{
    let value = flat_of_ext(b, lo, hi);
    alloc_ext(b, value)
}

/// A wide value in the basis of the builder, half by half.
pub fn flat_of_ext(b: &FieldR1csBuilder, lo: u128, hi: u128) -> (r: F256)
    requires
        b.wf(),
    ensures
        r.ext() == (Ext { lo: b.flat_basis().flat(lo), hi: b.flat_basis().flat(hi) }),
{
    proof {
        b.lemma_basis_wf();
    }
    F256 { lo: b.basis().to_flat(lo), hi: b.basis().to_flat(hi) }
}

/// A wide value as a constant, half by half.
pub fn const_block256(b: &FieldR1csBuilder, lo: u128, hi: u128) -> (r: ExtExpr)
    requires
        b.wf(),
    ensures
        r.below(0),
        forall|z: spec_fn(int) -> u128| #[trigger]
            r.at(z) == (Ext { lo: b.flat_basis().flat(lo), hi: b.flat_basis().flat(hi) }),
        r.form() == ext_const(b.flat_basis().flat(lo), b.flat_basis().flat(hi)),
{
    let value = flat_of_ext(b, lo, hi);
    ExtExpr::constant(value)
}

/// The rows that hold an element to zero.
pub open spec fn pin_ext_step(s: Shape, e: ExtForm) -> Shape {
    pin_zero_step(pin_zero_step(s, e.lo), e.hi)
}

/// Asserts that an element is zero, under the gates in scope.
pub fn pin_zero_ext(b: &mut FieldR1csBuilder, expr: &ExtExpr)
    requires
        old(b).wf(),
        expr.below(old(b).wires()),
    ensures
        refines(*final(b), *old(b)),
        forall|z: spec_fn(int) -> u128| #[trigger]
            final(b).holds(z) && old(b).live(z) ==> expr.at(z) == ezero(),
        old(b).live(old(b).witness()) ==> (final(b).honest() <==> old(b).honest() && expr.at(
            old(b).witness(),
        ) == ezero()),
        old(b).dead(old(b).witness()) ==> (final(b).honest() <==> old(b).honest()),
        old(b).gate_list().len() == 0 ==> final(b).wires() == old(b).wires() + 2,
        final(b).shape() == pin_ext_step(old(b).shape(), expr.form()),
{
    let ghost b0 = *b;
    pin_zero(b, &expr.lo);
    let ghost mid = *b;
    proof {
        assert(expr.hi@.at(mid.witness()) == expr.hi@.at(b0.witness()));
        lemma_gates_kept(mid, b0);
    }
    pin_zero(b, &expr.hi);
    proof {
        assert forall|z: spec_fn(int) -> u128| #[trigger]
            b.holds(z) && b0.live(z) implies expr.at(z) == ezero() by {
            assert(mid.holds(z) && mid.live(z));
        }
    }
}

/// Recording rows changes neither which gates are one nor which are zero.
proof fn lemma_gates_kept(after: FieldR1csBuilder, before: FieldR1csBuilder)
    requires
        before.wf(),
        refines(after, before),
    ensures
        after.live(after.witness()) <==> before.live(before.witness()),
        after.dead(after.witness()) <==> before.dead(before.witness()),
{
    let gates = before.gate_list();
    assert forall|i: int| 0 <= i < gates.len() implies #[trigger] gates[i].at(after.witness())
        == gates[i].at(before.witness()) by {
        before.lemma_gate_bound(i);
    }
    if before.dead(before.witness()) {
        let k = choose|k: int| 0 <= k < gates.len() && #[trigger] gates[k].at(before.witness()) == 0;
        assert(gates[k].at(after.witness()) == 0);
    }
    if after.dead(after.witness()) {
        let k = choose|k: int| 0 <= k < gates.len() && #[trigger] gates[k].at(after.witness()) == 0;
        assert(gates[k].at(before.witness()) == 0);
    }
}

/// Asserts that two elements are equal, under the gates in scope.
pub fn pin_eq_ext(b: &mut FieldR1csBuilder, lhs: &ExtExpr, rhs: &ExtExpr)
    requires
        old(b).wf(),
        lhs.below(old(b).wires()),
        rhs.below(old(b).wires()),
    ensures
        refines(*final(b), *old(b)),
        forall|z: spec_fn(int) -> u128| #[trigger]
            final(b).holds(z) && old(b).live(z) ==> lhs.at(z) == rhs.at(z),
        old(b).live(old(b).witness()) ==> (final(b).honest() <==> old(b).honest() && lhs.at(
            old(b).witness(),
        ) == rhs.at(old(b).witness())),
        old(b).dead(old(b).witness()) ==> (final(b).honest() <==> old(b).honest()),
        old(b).gate_list().len() == 0 ==> final(b).wires() == old(b).wires() + 2,
        final(b).shape() == pin_ext_step(old(b).shape(), ext_add(lhs.form(), rhs.form())),
{
    let sum = lhs.add(rhs);
    proof {
        assert forall|z: spec_fn(int) -> u128|
            #[trigger] sum.at(z) == ezero() <==> lhs.at(z) == rhs.at(z) by {
            lemma_xor(lhs.lo.at(z), rhs.lo.at(z), 0);
            lemma_xor(lhs.hi.at(z), rhs.hi.at(z), 0);
        }
    }
    pin_zero_ext(b, &sum);
}

/// The rows of a product with an element of the base field.
#[verifier::opaque]
pub open spec fn mul_base_step(s: Shape, x: ExtForm, c: LinForm) -> (Shape, ExtForm) {
    if c.constant_form() {
        (s, ExtForm { lo: form_scale(x.lo, c.constant), hi: form_scale(x.hi, c.constant) })
    } else {
        let (s1, lo) = mul_step(s, x.lo, c);
        let (s2, hi) = mul_step(s1, x.hi, c);
        (s2, ExtForm { lo, hi })
    }
}

/// Scales an element by an expression of the base field.
pub fn mul_ext_base(b: &mut FieldR1csBuilder, value: &ExtExpr, scalar: &LinExpr) -> (r: ExtExpr)
    requires
        old(b).wf(),
        value.below(old(b).wires()),
        scalar.bound() <= old(b).wires(),
    ensures
        refines(*final(b), *old(b)),
        r.below(final(b).wires()),
        forall|z: spec_fn(int) -> u128| #[trigger]
            final(b).holds(z) ==> r.at(z) == (Ext {
                lo: fmul(value.at(z).lo, scalar.at(z)),
                hi: fmul(value.at(z).hi, scalar.at(z)),
            }),
        final(b).honest() <==> old(b).honest(),
        r.at(final(b).witness()) == (Ext {
            lo: fmul(value.at(old(b).witness()).lo, scalar.at(old(b).witness())),
            hi: fmul(value.at(old(b).witness()).hi, scalar.at(old(b).witness())),
        }),
        final(b).wires() <= old(b).wires() + 2,
        scalar.constant_expr() ==> final(b).wires() == old(b).wires(),
        mul_base_step(old(b).shape(), value.form(), scalar@) == (final(b).shape(), r.form()),
{
    reveal(mul_base_step);
    if scalar.is_const() {
        let r = value.scale_base(scalar.constant);
        assert forall|z: spec_fn(int) -> u128| #[trigger] r.at(z) == (Ext {
            lo: fmul(value.at(z).lo, scalar.at(z)),
            hi: fmul(value.at(z).hi, scalar.at(z)),
        }) by {
            lemma_fmul_comm(value.lo.at(z), scalar.at(z));
            lemma_fmul_comm(value.hi.at(z), scalar.at(z));
        }
        assert(value.below(b.wires()));
        return r;
    }
    let ghost b0 = *b;
    let lo = crate::trace::mul(b, &value.lo, scalar);
    let ghost mid = *b;
    proof {
        assert(value.hi@.at(mid.witness()) == value.hi@.at(b0.witness()));
        assert(scalar@.at(mid.witness()) == scalar@.at(b0.witness()));
    }
    let hi = crate::trace::mul(b, &value.hi, scalar);
    proof {
        assert(lo@.at(b.witness()) == lo@.at(mid.witness()));
        assert forall|z: spec_fn(int) -> u128| #[trigger] b.holds(z) implies mid.holds(z) by {}
    }
    ExtExpr { lo, hi }
}

/// The rows of a square.
#[verifier::opaque]
pub open spec fn square_step(s: Shape, rule: ExtRule, x: ExtForm) -> (Shape, ExtForm) {
    let (s1, low) = mul_step(s, x.lo, x.lo);
    let (s2, high) = mul_step(s1, x.hi, x.hi);
    (
        s2,
        ExtForm {
            lo: form_add(low, form_scale(high, rule.n@)),
            hi: form_scale(high, rule.t@),
        },
    )
}

/// The square of an element: two rows.
fn square_ext(b: &mut FieldR1csBuilder, rule: ExtRule, x: &ExtExpr) -> (r: ExtExpr)
    requires
        old(b).wf(),
        x.below(old(b).wires()),
    ensures
        refines(*final(b), *old(b)),
        r.below(final(b).wires()),
        forall|z: spec_fn(int) -> u128| #[trigger]
            final(b).holds(z) ==> r.at(z) == emul(rule, x.at(z), x.at(z)),
        final(b).honest() <==> old(b).honest(),
        r.at(final(b).witness()) == emul(
            rule,
            x.at(old(b).witness()),
            x.at(old(b).witness()),
        ),
        final(b).wires() <= old(b).wires() + 2,
        square_step(old(b).shape(), rule, x.form()) == (final(b).shape(), r.form()),
{
    reveal(square_step);
    let ghost b0 = *b;
    let low = crate::trace::mul(b, &x.lo, &x.lo);
    let ghost mid = *b;
    proof {
        assert(x.hi@.at(mid.witness()) == x.hi@.at(b0.witness()));
    }
    let high = crate::trace::mul(b, &x.hi, &x.hi);
    let r = ExtExpr { lo: low.add(&high.scale(rule.n)), hi: high.scale(rule.t) };
    proof {
        assert(low@.at(b.witness()) == low@.at(mid.witness()));
        assert forall|z: spec_fn(int) -> u128| #[trigger]
            b.holds(z) implies r.at(z) == emul(rule, x.at(z), x.at(z)) by {
            assert(mid.holds(z));
            lemma_square_ext(rule, x.at(z));
            lemma_fmul_comm(rule.n@, high.at(z));
            lemma_fmul_comm(rule.t@, high.at(z));
        }
        let w = b0.witness();
        lemma_square_ext(rule, x.at(w));
        lemma_fmul_comm(rule.n@, high.at(b.witness()));
        lemma_fmul_comm(rule.t@, high.at(b.witness()));
    }
    r
}

/// The rows of a product of two elements.
#[verifier::opaque]
pub open spec fn product_ext_step(s: Shape, rule: ExtRule, x: ExtForm, y: ExtForm) -> (
    Shape,
    ExtForm,
) {
    let (s1, low) = mul_step(s, x.lo, y.lo);
    let (s2, high) = mul_step(s1, x.hi, y.hi);
    let (s3, both) = mul_step(s2, form_add(x.lo, x.hi), form_add(y.lo, y.hi));
    let cross = form_add(form_add(both, low), high);
    (
        s3,
        ExtForm {
            lo: form_add(low, form_scale(high, rule.n@)),
            hi: form_add(cross, form_scale(high, rule.t@)),
        },
    )
}

/// The product of two elements from three products of the base field.
#[verifier::rlimit(40)]
#[verifier::spinoff_prover]
fn product_ext(b: &mut FieldR1csBuilder, rule: ExtRule, x: &ExtExpr, y: &ExtExpr) -> (r: ExtExpr)
    requires
        old(b).wf(),
        x.below(old(b).wires()),
        y.below(old(b).wires()),
    ensures
        refines(*final(b), *old(b)),
        r.below(final(b).wires()),
        forall|z: spec_fn(int) -> u128| #[trigger]
            final(b).holds(z) ==> r.at(z) == emul(rule, x.at(z), y.at(z)),
        final(b).honest() <==> old(b).honest(),
        r.at(final(b).witness()) == emul(
            rule,
            x.at(old(b).witness()),
            y.at(old(b).witness()),
        ),
        final(b).wires() <= old(b).wires() + 3,
        product_ext_step(old(b).shape(), rule, x.form(), y.form()) == (final(b).shape(), r.form()),
{
    reveal(product_ext_step);
    let ghost b0 = *b;
    let low = crate::trace::mul(b, &x.lo, &y.lo);
    let ghost b1 = *b;
    proof {
        assert(x.hi@.at(b1.witness()) == x.hi@.at(b0.witness()));
        assert(y.hi@.at(b1.witness()) == y.hi@.at(b0.witness()));
    }
    let high = crate::trace::mul(b, &x.hi, &y.hi);
    let ghost b2 = *b;
    let xs = x.lo.add(&x.hi);
    let ys = y.lo.add(&y.hi);
    proof {
        assert(xs@.at(b2.witness()) == xs@.at(b0.witness()));
        assert(ys@.at(b2.witness()) == ys@.at(b0.witness()));
    }
    let both = crate::trace::mul(b, &xs, &ys);
    let cross = both.add(&low).add(&high);
    let r = ExtExpr { lo: low.add(&high.scale(rule.n)), hi: cross.add(&high.scale(rule.t)) };
    proof {
        assert forall|z: spec_fn(int) -> u128| #[trigger]
            b.holds(z) implies r.at(z) == emul(rule, x.at(z), y.at(z)) by {
            assert(b2.holds(z));
            assert(b1.holds(z));
            lemma_three_products(x.at(z), y.at(z));
            lemma_fmul_comm(rule.n@, high.at(z));
            lemma_fmul_comm(rule.t@, high.at(z));
        }
        let w = b0.witness();
        let v = b.witness();
        assert(low@.at(v) == low@.at(b1.witness()));
        assert(high@.at(v) == high@.at(b2.witness()));
        lemma_three_products(x.at(w), y.at(w));
        lemma_fmul_comm(rule.n@, high.at(v));
        lemma_fmul_comm(rule.t@, high.at(v));
    }
    r
}

/// Both coordinates are constants.
pub open spec fn ext_fixed(x: ExtForm) -> bool {
    x.lo.constant_form() && x.hi.constant_form()
}

/// The element lies in the base field.
pub open spec fn ext_base(x: ExtForm) -> bool {
    x.hi.constant_form() && x.hi.constant == 0
}

/// The rows of a multiplication, with the cases that need fewer.
#[verifier::opaque]
pub open spec fn mul_ext_step(s: Shape, rule: ExtRule, x: ExtForm, y: ExtForm) -> (Shape, ExtForm) {
    if ext_fixed(y) {
        (s, ext_scale(rule, x, y.lo.constant, y.hi.constant))
    } else if ext_fixed(x) {
        (s, ext_scale(rule, y, x.lo.constant, x.hi.constant))
    } else if ext_base(y) {
        mul_base_step(s, x, y.lo)
    } else if ext_base(x) {
        mul_base_step(s, y, x.lo)
    } else if x == y {
        square_step(s, rule, x)
    } else {
        product_ext_step(s, rule, x, y)
    }
}

/// One multiplication in the extension. Constants and elements of the base
/// field fold, and a square saves a row.
pub fn mul_ext(b: &mut FieldR1csBuilder, rule: ExtRule, x: &ExtExpr, y: &ExtExpr) -> (r: ExtExpr)
    requires
        old(b).wf(),
        x.below(old(b).wires()),
        y.below(old(b).wires()),
    ensures
        refines(*final(b), *old(b)),
        r.below(final(b).wires()),
        forall|z: spec_fn(int) -> u128| #[trigger]
            final(b).holds(z) ==> r.at(z) == emul(rule, x.at(z), y.at(z)),
        final(b).honest() <==> old(b).honest(),
        r.at(final(b).witness()) == emul(
            rule,
            x.at(old(b).witness()),
            y.at(old(b).witness()),
        ),
        final(b).wires() <= old(b).wires() + 3,
        (x.lo.constant_expr() && x.hi.constant_expr() || y.lo.constant_expr()
            && y.hi.constant_expr()) ==> final(b).wires() == old(b).wires(),
        x.lo@ == y.lo@ && x.hi@ == y.hi@ ==> final(b).wires() <= old(b).wires() + 2,
        mul_ext_step(old(b).shape(), rule, x.form(), y.form()) == (final(b).shape(), r.form()),
{
    reveal(mul_ext_step);
    if let Some(value) = y.constant_value() {
        let r = x.scale_ext(rule, value);
        assert(x.below(b.wires()));
        return r;
    }
    if let Some(value) = x.constant_value() {
        let r = y.scale_ext(rule, value);
        assert(y.below(b.wires()));
        assert forall|z: spec_fn(int) -> u128| #[trigger] r.at(z) == emul(
            rule,
            x.at(z),
            y.at(z),
        ) by {
            lemma_emul_comm(rule, x.at(z), y.at(z));
        }
        return r;
    }
    let ghost w = b.witness();
    if y.hi.is_const() && y.hi.constant.bits == 0 {
        let r = mul_ext_base(b, x, &y.lo);
        proof {
            assert forall|z: spec_fn(int) -> u128| #[trigger]
                b.holds(z) implies r.at(z) == emul(rule, x.at(z), y.at(z)) by {
                lemma_emul_base(rule, x.at(z), y.lo.at(z));
            }
            lemma_emul_base(rule, x.at(w), y.lo.at(w));
        }
        return r;
    }
    if x.hi.is_const() && x.hi.constant.bits == 0 {
        let r = mul_ext_base(b, y, &x.lo);
        proof {
            assert forall|z: spec_fn(int) -> u128| #[trigger]
                b.holds(z) implies r.at(z) == emul(rule, x.at(z), y.at(z)) by {
                lemma_emul_base(rule, y.at(z), x.lo.at(z));
            }
            lemma_emul_base(rule, y.at(w), x.lo.at(w));
        }
        return r;
    }
    if x.lo.same(&y.lo) && x.hi.same(&y.hi) {
        let r = square_ext(b, rule, x);
        proof {
            assert forall|z: spec_fn(int) -> u128| #[trigger] x.at(z) == y.at(z) by {
                assert(x.lo@.at(z) == y.lo@.at(z));
                assert(x.hi@.at(z) == y.hi@.at(z));
            }
            assert(x.at(w) == y.at(w));
        }
        return r;
    }
    product_ext(b, rule, x, y)
}

/// The norm of an element, which is zero only where it has no inverse.
pub open spec fn norm(rule: ExtRule, x: Ext) -> u128 {
    (fmul(x.lo, x.lo) ^ fmul(rule.t@, fmul(x.lo, x.hi))) ^ fmul(rule.n@, fmul(x.hi, x.hi))
}

/// The conjugate over the norm is the inverse.
proof fn lemma_conjugate(rule: ExtRule, x: Ext, s: u128)
    requires
        fmul(norm(rule, x), s) == 1,
    ensures
        emul(
            rule,
            x,
            (Ext { lo: fmul(x.lo ^ fmul(rule.t@, x.hi), s), hi: fmul(x.hi, s) }),
        ) == eone(),
{
    let (a, h, t, n) = (x.lo, x.hi, rule.t@, rule.n@);
    let c = a ^ fmul(t, h);
    let y = Ext { lo: fmul(c, s), hi: fmul(h, s) };
    let hh = fmul(h, h);
    lemma_fmul_assoc(h, h, s);
    assert(fmul(x.hi, y.hi) == fmul(hh, s));
    // The low coordinate.
    lemma_fmul_assoc(a, c, s);
    lemma_fmul_assoc(n, hh, s);
    lemma_fmul_distrib(fmul(a, c), fmul(n, hh), s);
    lemma_fmul_distrib(a, fmul(t, h), a);
    lemma_fmul_assoc(a, t, h);
    lemma_fmul_comm(a, t);
    lemma_fmul_assoc(t, a, h);
    assert(fmul(a, c) == fmul(a, a) ^ fmul(t, fmul(a, h)));
    // The high coordinate.
    lemma_fmul_assoc(a, h, s);
    lemma_fmul_assoc(h, c, s);
    lemma_fmul_assoc(t, hh, s);
    lemma_fmul_distrib(a, fmul(t, h), h);
    lemma_fmul_assoc(t, h, h);
    lemma_fmul_comm(h, fmul(t, h));
    lemma_fmul_comm(a, h);
    assert(fmul(h, c) == fmul(a, h) ^ fmul(t, hh));
    lemma_fmul_distrib(fmul(a, h), fmul(t, hh), s);
    let u = fmul(fmul(a, h), s);
    let v = fmul(fmul(t, hh), s);
    lemma_xor(u, v, 0);
    lemma_xor(v, v, 0);
    assert((u ^ (u ^ v)) ^ v == 0);
}

/// The rows that show an inverse.
#[verifier::opaque]
pub open spec fn nonzero_ext_step(s: Shape, rule: ExtRule, x: ExtForm) -> Shape {
    let inverse = ExtForm { lo: s.next(), hi: s.free().next() };
    let (t, product) = mul_ext_step(s.free().free(), rule, x, inverse);
    pin_ext_step(t, ext_add(product, ext_const(1, 0)))
}

/// Constrains an element to be invertible, on a witness of its inverse.
///
/// The element is nonzero in every satisfying assignment, since zero has no
/// inverse.
pub fn constrain_nonzero_ext(b: &mut FieldR1csBuilder, rule: ExtRule, value: &ExtExpr)
    requires
        old(b).wf(),
        value.below(old(b).wires()),
        norm(rule, value.at(old(b).witness())) != 0,
    ensures
        refines(*final(b), *old(b)),
        forall|z: spec_fn(int) -> u128| #[trigger]
            final(b).holds(z) && old(b).live(z) ==> emul(
                rule,
                value.at(z),
                (Ext { lo: z(old(b).wires() as int), hi: z(old(b).wires() as int + 1) }),
            ) == eone() && value.at(z) != ezero(),
        old(b).live(old(b).witness()) ==> (final(b).honest() <==> old(b).honest()),
        old(b).dead(old(b).witness()) ==> (final(b).honest() <==> old(b).honest()),
        final(b).shape() == nonzero_ext_step(old(b).shape(), rule, value.form()),
{
    reveal(nonzero_ext_step);
    let ghost b0 = *b;
    let ghost x = value.at(b0.witness());
    let lo = b.value_of(&value.lo);
    let hi = b.value_of(&value.hi);
    let conjugate = lo.plus(rule.t.times(hi));
    let size = lo.times(lo).plus(rule.t.times(lo.times(hi))).plus(rule.n.times(hi.times(hi)));
    assert(size@ == norm(rule, x));
    let s = size.inv();
    let inverse_value = F256 { lo: conjugate.times(s), hi: hi.times(s) };
    proof {
        lemma_conjugate(rule, x, s@);
        lemma_fmul_comm(rule.t@, hi@);
    }
    let inverse = alloc_ext(b, inverse_value);
    let ghost b1 = *b;
    proof {
        lemma_ext_agree(*value, b1.witness(), b0.witness(), b0.wires());
        lemma_gates_kept(b1, b0);
    }
    let product = mul_ext(b, rule, value, &inverse);
    let ghost b2 = *b;
    let one = ExtExpr::one();
    proof {
        lemma_gates_kept(b2, b1);
        assert(one.at(b2.witness()) == eone());
    }
    pin_eq_ext(b, &product, &one);
    proof {
        assert forall|z: spec_fn(int) -> u128| #[trigger]
            b.holds(z) && b0.live(z) implies emul(
            rule,
            value.at(z),
            (Ext { lo: z(b0.wires() as int), hi: z(b0.wires() as int + 1) }),
        ) == eone() && value.at(z) != ezero() by {
            assert(b2.holds(z) && b2.live(z));
            assert(product.at(z) == one.at(z));
            lemma_emul_zero(rule, inverse.at(z));
        }
    }
}

/// The seventh power along the chain 1, 2, 3, 6, 7.
pub open spec fn seventh(rule: ExtRule, x: Ext) -> Ext {
    let cube = emul(rule, emul(rule, x, x), x);
    emul(rule, emul(rule, cube, cube), x)
}

/// The rows of a seventh power.
#[verifier::opaque]
pub open spec fn pow7_step(s: Shape, rule: ExtRule, x: ExtForm) -> (Shape, ExtForm) {
    let (s1, square) = mul_ext_step(s, rule, x, x);
    let (s2, cube) = mul_ext_step(s1, rule, square, x);
    let (s3, sixth) = mul_ext_step(s2, rule, cube, cube);
    mul_ext_step(s3, rule, sixth, x)
}

/// The seventh power of an element, in four multiplications.
pub fn pow7_ext(b: &mut FieldR1csBuilder, rule: ExtRule, value: &ExtExpr) -> (r: ExtExpr)
    requires
        old(b).wf(),
        value.below(old(b).wires()),
    ensures
        refines(*final(b), *old(b)),
        r.below(final(b).wires()),
        forall|z: spec_fn(int) -> u128| #[trigger]
            final(b).holds(z) ==> r.at(z) == seventh(rule, value.at(z)),
        final(b).honest() <==> old(b).honest(),
        r.at(final(b).witness()) == seventh(rule, value.at(old(b).witness())),
        final(b).wires() <= old(b).wires() + 10,
        pow7_step(old(b).shape(), rule, value.form()) == (final(b).shape(), r.form()),
{
    reveal(pow7_step);
    let ghost b0 = *b;
    let square = mul_ext(b, rule, value, value);
    let ghost b1 = *b;
    proof {
        lemma_ext_agree(*value, b1.witness(), b0.witness(), b0.wires());
    }
    let cube = mul_ext(b, rule, &square, value);
    let ghost b2 = *b;
    let sixth = mul_ext(b, rule, &cube, &cube);
    let ghost b3 = *b;
    proof {
        lemma_ext_agree(*value, b3.witness(), b0.witness(), b0.wires());
    }
    let r = mul_ext(b, rule, &sixth, value);
    proof {
        assert forall|z: spec_fn(int) -> u128| #[trigger]
            b.holds(z) implies r.at(z) == seventh(rule, value.at(z)) by {
            assert(b3.holds(z));
            assert(b2.holds(z));
            assert(b1.holds(z));
        }
    }
    r
}

/// The elements that a list of pairs takes.
pub open spec fn ext_values(es: Seq<ExtExpr>, z: spec_fn(int) -> u128) -> Seq<Ext> {
    Seq::new(es.len(), |i: int| es[i].at(z))
}

pub open spec fn ext_below(es: Seq<ExtExpr>, n: nat) -> bool {
    forall|i: int| 0 <= i < es.len() ==> (#[trigger] es[i]).below(n)
}

/// The equality tensor of the first `n` coordinates: each coordinate keeps
/// `w + w r` in the lower half and puts `w r` in the upper half.
pub open spec fn ext_tensor(rule: ExtRule, r: Seq<Ext>, n: nat) -> Seq<Ext>
    decreases n,
{
    if n == 0 {
        seq![eone()]
    } else {
        let below = ext_tensor(rule, r, (n - 1) as nat);
        let products = below.map_values(|w: Ext| emul(rule, w, r[n - 1]));
        Seq::new(below.len(), |j: int| esum(below[j], products[j])) + products
    }
}

/// A table with its highest coordinate bound.
pub open spec fn ext_fold(rule: ExtRule, tab: Seq<Ext>, r: Ext) -> Seq<Ext> {
    let half = tab.len() / 2;
    Seq::new(
        half,
        |i: int| esum(tab[i], emul(rule, r, esum(tab[i], tab[i + half]))),
    )
}

/// A table at a point: its coordinates bound from the highest down.
pub open spec fn ext_mle(rule: ExtRule, tab: Seq<Ext>, r: Seq<Ext>) -> Ext
    decreases r.len(),
{
    if r.len() == 0 {
        tab[0]
    } else {
        ext_mle(rule, ext_fold(rule, tab, r.last()), r.drop_last())
    }
}

/// The rows that split the first `n` entries of a tensor by a coordinate.
#[verifier::opaque]
pub open spec fn split_ext_step(
    s: Shape,
    rule: ExtRule,
    tensor: Seq<ExtForm>,
    c: ExtForm,
    n: nat,
) -> (Shape, Seq<ExtForm>, Seq<ExtForm>)
    decreases n,
{
    if n == 0 {
        (s, Seq::empty(), Seq::empty())
    } else {
        let (t, low, high) = split_ext_step(s, rule, tensor, c, (n - 1) as nat);
        let (u, product) = mul_ext_step(t, rule, tensor[n - 1], c);
        (u, low.push(ext_add(tensor[n - 1], product)), high.push(product))
    }
}

/// A tensor under one more coordinate.
#[verifier::rlimit(40)]
#[verifier::spinoff_prover]
fn extend_ext_tensor(
    b: &mut FieldR1csBuilder,
    rule: ExtRule,
    tensor: Vec<ExtExpr>,
    coordinate: &ExtExpr,
) -> (t: Vec<ExtExpr>)
    requires
        old(b).wf(),
        2 * tensor@.len() <= usize::MAX,
        ext_below(tensor@, old(b).wires()),
        coordinate.below(old(b).wires()),
    ensures
        refines(*final(b), *old(b)),
        final(b).honest() <==> old(b).honest(),
        t@.len() == 2 * tensor@.len(),
        ext_below(t@, final(b).wires()),
        forall|z: spec_fn(int) -> u128| #[trigger]
            final(b).holds(z) ==> forall|j: int|
                0 <= j < tensor@.len() ==> {
                    &&& #[trigger] ext_values(t@, z)[j] == esum(
                        tensor@[j].at(z),
                        emul(rule, tensor@[j].at(z), coordinate.at(z)),
                    )
                    &&& ext_values(t@, z)[j + tensor@.len()] == emul(
                        rule,
                        tensor@[j].at(z),
                        coordinate.at(z),
                    )
                },
        forall|j: int|
            0 <= j < tensor@.len() ==> {
                &&& #[trigger] ext_values(t@, final(b).witness())[j] == esum(
                    tensor@[j].at(old(b).witness()),
                    emul(
                        rule,
                        tensor@[j].at(old(b).witness()),
                        coordinate.at(old(b).witness()),
                    ),
                )
                &&& ext_values(t@, final(b).witness())[j + tensor@.len()] == emul(
                    rule,
                    tensor@[j].at(old(b).witness()),
                    coordinate.at(old(b).witness()),
                )
            },
        ({
            let (u, low, high) = split_ext_step(
                old(b).shape(),
                rule,
                ext_forms(tensor@),
                coordinate.form(),
                tensor@.len(),
            );
            &&& final(b).shape() == u
            &&& ext_forms(t@) == low + high
        }),
{
    reveal(split_ext_step);
    let ghost entry = *b;
    assert(ext_forms(Seq::<ExtExpr>::empty()) =~= Seq::empty());
    let ghost b0 = *b;
    let ghost w = b0.witness();
    let len = tensor.len();
    let mut low: Vec<ExtExpr> = Vec::new();
    let mut high: Vec<ExtExpr> = Vec::new();
    let mut j: usize = 0;
    while j < len
        invariant
            j <= len,
            len == tensor@.len(),
            b0.wf(),
            w == b0.witness(),
            ext_below(tensor@, b0.wires()),
            coordinate.below(b0.wires()),
            refines(*b, b0),
            b.honest() <==> b0.honest(),
            low@.len() == j,
            high@.len() == j,
            ext_below(low@, b.wires()),
            ext_below(high@, b.wires()),
            forall|z: spec_fn(int) -> u128, i: int|
                b.holds(z) && 0 <= i < j ==> #[trigger] low@[i].at(z) == esum(
                    tensor@[i].at(z),
                    emul(rule, tensor@[i].at(z), coordinate.at(z)),
                ),
            forall|z: spec_fn(int) -> u128, i: int|
                b.holds(z) && 0 <= i < j ==> #[trigger] high@[i].at(z) == emul(
                    rule,
                    tensor@[i].at(z),
                    coordinate.at(z),
                ),
            forall|i: int|
                0 <= i < j ==> #[trigger] low@[i].at(b.witness()) == esum(
                    tensor@[i].at(w),
                    emul(rule, tensor@[i].at(w), coordinate.at(w)),
                ),
            forall|i: int|
                0 <= i < j ==> #[trigger] high@[i].at(b.witness()) == emul(
                    rule,
                    tensor@[i].at(w),
                    coordinate.at(w),
                ),
            split_ext_step(entry.shape(), rule, ext_forms(tensor@), coordinate.form(), j as nat) == (
                b.shape(),
                ext_forms(low@),
                ext_forms(high@),
            ),
        decreases len - j,
    {
        reveal(split_ext_step);
        let ghost low_before = low@;
        let ghost high_before = high@;
        let ghost mid = *b;
        let ghost low0 = low@;
        let ghost high0 = high@;
        let ghost entry = tensor@[j as int];
        assert(entry.below(b0.wires()));
        proof {
            lemma_ext_agree(entry, mid.witness(), w, b0.wires());
            lemma_ext_agree(*coordinate, mid.witness(), w, b0.wires());
        }
        let product = mul_ext(b, rule, &tensor[j], coordinate);
        let rest = tensor[j].add(&product);
        proof {
            assert(entry.below(b.wires()));
            lemma_ext_agree(entry, b.witness(), w, b0.wires());
        }
        low.push(rest);
        high.push(product);
        proof {
            assert forall|z: spec_fn(int) -> u128, i: int| b.holds(z) && 0 <= i < j + 1 implies #[trigger] low@[i].at(
                z,
            ) == esum(tensor@[i].at(z), emul(rule, tensor@[i].at(z), coordinate.at(z))) by {
                assert(mid.holds(z));
                if i < j {
                    assert(low@[i] == low0[i]);
                }
            }
            assert forall|z: spec_fn(int) -> u128, i: int| b.holds(z) && 0 <= i < j + 1 implies #[trigger] high@[i].at(
                z,
            ) == emul(rule, tensor@[i].at(z), coordinate.at(z)) by {
                assert(mid.holds(z));
                if i < j {
                    assert(high@[i] == high0[i]);
                }
            }
            assert forall|i: int| 0 <= i < j + 1 implies #[trigger] low@[i].at(b.witness())
                == esum(tensor@[i].at(w), emul(rule, tensor@[i].at(w), coordinate.at(w))) by {
                if i < j {
                    assert(low@[i] == low0[i]);
                    lemma_ext_agree(low0[i], b.witness(), mid.witness(), mid.wires());
                }
            }
            assert forall|i: int| 0 <= i < j + 1 implies #[trigger] high@[i].at(b.witness())
                == emul(rule, tensor@[i].at(w), coordinate.at(w)) by {
                if i < j {
                    assert(high@[i] == high0[i]);
                    lemma_ext_agree(high0[i], b.witness(), mid.witness(), mid.wires());
                }
            }
        }
        j = j + 1;
        assert(ext_forms(low@) =~= ext_forms(low_before).push(low@[j - 1].form()));
        assert(ext_forms(high@) =~= ext_forms(high_before).push(high@[j - 1].form()));
    }
    let ghost lower = low@;
    let ghost upper = high@;
    let ghost low_forms = ext_forms(low@);
    let ghost high_forms = ext_forms(high@);
    low.append(&mut high);
    assert(ext_forms(low@) =~= low_forms + high_forms);
    proof {
        assert(low@ == lower + upper);
        assert forall|i: int| 0 <= i < low@.len() implies (#[trigger] low@[i]).below(b.wires()) by {
            if i < len {
                assert(low@[i] == lower[i]);
            } else {
                assert(low@[i] == upper[i - len]);
            }
        }
        assert forall|i: int| 0 <= i < len implies low@[i] == lower[i] && low@[i + len]
            == #[trigger] upper[i] by {}
        assert forall|z: spec_fn(int) -> u128, i: int| 0 <= i < len implies #[trigger] ext_values(
            low@,
            z,
        )[i] == lower[i].at(z) && ext_values(low@, z)[i + len] == upper[i].at(z) by {
            assert(low@[i + len] == upper[i]);
        }
    }
    low
}

/// The rows of the tensor of the first `n` coordinates of a point.
#[verifier::opaque]
pub open spec fn tensor_ext_step(s: Shape, rule: ExtRule, point: Seq<ExtForm>, n: nat) -> (
    Shape,
    Seq<ExtForm>,
)
    decreases n,
{
    if n == 0 {
        (s, Seq::empty().push(ext_const(1, 0)))
    } else {
        let (t, tensor) = tensor_ext_step(s, rule, point, (n - 1) as nat);
        let (u, low, high) = split_ext_step(t, rule, tensor, point[n - 1], tensor.len());
        (u, low + high)
    }
}

/// The equality tensor of a point of the extension, the lowest coordinate in
/// the lowest bit.
pub fn eq_ind_partial_eval_ext_trace(
    b: &mut FieldR1csBuilder,
    rule: ExtRule,
    point: &Vec<ExtExpr>,
) -> (t: Vec<ExtExpr>)
    requires
        old(b).wf(),
        ext_below(point@, old(b).wires()),
        pow2(point@.len()) <= usize::MAX,
    ensures
        refines(*final(b), *old(b)),
        final(b).honest() <==> old(b).honest(),
        t@.len() == pow2(point@.len()),
        ext_below(t@, final(b).wires()),
        forall|z: spec_fn(int) -> u128| #[trigger]
            final(b).holds(z) ==> ext_values(t@, z) == ext_tensor(
                rule,
                ext_values(point@, z),
                point@.len(),
            ),
        ext_values(t@, final(b).witness()) == ext_tensor(
            rule,
            ext_values(point@, old(b).witness()),
            point@.len(),
        ),
        tensor_ext_step(old(b).shape(), rule, ext_forms(point@), point@.len()) == (
            final(b).shape(),
            ext_forms(t@),
        ),
{
    reveal(tensor_ext_step);
    let ghost entry = *b;
    let ghost b0 = *b;
    let ghost w = b0.witness();
    let mut tensor: Vec<ExtExpr> = Vec::new();
    let one = ExtExpr::one();
    tensor.push(one);
    assert(ext_forms(tensor@) =~= Seq::empty().push(ext_const(1, 0)));
    let mut i: usize = 0;
    proof {
        vstd::arithmetic::power2::lemma2_to64();
        assert forall|z: spec_fn(int) -> u128| #[trigger]
            ext_values(tensor@, z) == ext_tensor(rule, ext_values(point@, z), 0) by {
            assert(tensor@[0].at(z) == eone());
            assert(ext_values(tensor@, z) =~= seq![eone()]);
        }
        assert(ext_values(tensor@, b.witness()) == seq![eone()]);
        assert(ext_tensor(rule, ext_values(point@, w), 0) == seq![eone()]);
    }
    while i < point.len()
        invariant
            i <= point@.len(),
            b0.wf(),
            w == b0.witness(),
            ext_below(point@, b0.wires()),
            pow2(point@.len()) <= usize::MAX,
            refines(*b, b0),
            b.honest() <==> b0.honest(),
            tensor@.len() == pow2(i as nat),
            ext_below(tensor@, b.wires()),
            forall|z: spec_fn(int) -> u128| #[trigger]
                b.holds(z) ==> ext_values(tensor@, z) == ext_tensor(
                    rule,
                    ext_values(point@, z),
                    i as nat,
                ),
            ext_values(tensor@, b.witness()) == ext_tensor(
                rule,
                ext_values(point@, w),
                i as nat,
            ),
            tensor_ext_step(entry.shape(), rule, ext_forms(point@), i as nat) == (
                b.shape(),
                ext_forms(tensor@),
            ),
        decreases point@.len() - i,
    {
        reveal(tensor_ext_step);
        proof {
            lemma_pow2_unfold((i + 1) as nat);
            crate::dyadic::lemma_pow2_mono((i + 1) as nat, point@.len());
            lemma_ext_agree(point@[i as int], b.witness(), w, b0.wires());
        }
        let ghost mid = *b;
        let ghost tensor0 = tensor@;
        tensor = extend_ext_tensor(b, rule, tensor, &point[i]);
        proof {
            let n = (i + 1) as nat;
            assert forall|z: spec_fn(int) -> u128| #[trigger]
                b.holds(z) implies ext_values(tensor@, z) == ext_tensor(
                rule,
                ext_values(point@, z),
                n,
            ) by {
                assert(mid.holds(z));
                lemma_tensor_step(rule, tensor0, tensor@, point@, z, z, z, i as nat);
            }
            lemma_tensor_step(
                rule,
                tensor0,
                tensor@,
                point@,
                mid.witness(),
                b.witness(),
                w,
                i as nat,
            );
        }
        i = i + 1;
    }
    tensor
}

/// One coordinate more makes the tensor of one coordinate more. The entries
/// before are read under `u`, those after under `v`, the point under `w`.
proof fn lemma_tensor_step(
    rule: ExtRule,
    before: Seq<ExtExpr>,
    after: Seq<ExtExpr>,
    point: Seq<ExtExpr>,
    u: spec_fn(int) -> u128,
    v: spec_fn(int) -> u128,
    w: spec_fn(int) -> u128,
    n: nat,
)
    requires
        n < point.len(),
        ext_values(before, u) == ext_tensor(rule, ext_values(point, w), n),
        after.len() == 2 * before.len(),
        forall|j: int|
            0 <= j < before.len() ==> {
                &&& #[trigger] ext_values(after, v)[j] == esum(
                    before[j].at(u),
                    emul(rule, before[j].at(u), point[n as int].at(w)),
                )
                &&& ext_values(after, v)[j + before.len()] == emul(
                    rule,
                    before[j].at(u),
                    point[n as int].at(w),
                )
            },
    ensures
        ext_values(after, v) == ext_tensor(rule, ext_values(point, w), n + 1),
{
    let r = ext_values(point, w);
    let below = ext_tensor(rule, r, n);
    let products = below.map_values(|e: Ext| emul(rule, e, r[n as int]));
    let next = Seq::new(below.len(), |j: int| esum(below[j], products[j])) + products;
    assert(ext_tensor(rule, r, n + 1) == next);
    assert(below.len() == before.len());
    let x = point[n as int].at(w);
    assert(r[n as int] == x);
    assert forall|j: int| 0 <= j < before.len() implies #[trigger] ext_values(after, v)[j] == esum(
        below[j],
        emul(rule, below[j], x),
    ) && ext_values(after, v)[j + before.len()] == emul(rule, below[j], x) by {
        assert(ext_values(before, u)[j] == before[j].at(u));
    }
    let low = Seq::new(below.len(), |j: int| esum(below[j], products[j]));
    assert forall|j: int| 0 <= j < after.len() implies ext_values(after, v)[j] == next[j] by {
        if j < before.len() {
            assert(products[j] == emul(rule, below[j], x));
            assert(low[j] == esum(below[j], products[j]));
            assert(next[j] == low[j]);
            assert(ext_values(after, v)[j] == esum(below[j], emul(rule, below[j], x)));
        } else {
            let k = j - before.len();
            assert(0 <= k < before.len());
            assert(ext_values(after, v)[k] == esum(below[k], emul(rule, below[k], x)));
            assert(k + before.len() == j);
            assert(ext_values(after, v)[j] == emul(rule, below[k], x));
            assert(products[k] == emul(rule, below[k], x));
            assert(next[j] == products[k]);
        }
    }
    assert(ext_values(after, v) =~= next);
}

/// The rows that fold a table of `half` pairs by a challenge, up to entry `n`.
#[verifier::opaque]
pub open spec fn fold_ext_step(
    s: Shape,
    rule: ExtRule,
    tab: Seq<ExtForm>,
    c: ExtForm,
    half: nat,
    n: nat,
) -> (Shape, Seq<ExtForm>)
    decreases n,
{
    if n == 0 {
        (s, Seq::empty())
    } else {
        let (t, r) = fold_ext_step(s, rule, tab, c, half, (n - 1) as nat);
        let (u, delta) = mul_ext_step(t, rule, c, ext_add(tab[n - 1], tab[n - 1 + half]));
        (u, r.push(ext_add(tab[n - 1], delta)))
    }
}

/// A table with its highest coordinate bound, as rows.
#[verifier::rlimit(40)]
#[verifier::spinoff_prover]
fn fold_ext(b: &mut FieldR1csBuilder, rule: ExtRule, tab: &Vec<ExtExpr>, challenge: &ExtExpr) -> (t:
    Vec<ExtExpr>)
    requires
        old(b).wf(),
        ext_below(tab@, old(b).wires()),
        challenge.below(old(b).wires()),
    ensures
        refines(*final(b), *old(b)),
        final(b).honest() <==> old(b).honest(),
        t@.len() == tab@.len() / 2,
        ext_below(t@, final(b).wires()),
        forall|z: spec_fn(int) -> u128| #[trigger]
            final(b).holds(z) ==> ext_values(t@, z) == ext_fold(
                rule,
                ext_values(tab@, z),
                challenge.at(z),
            ),
        ext_values(t@, final(b).witness()) == ext_fold(
            rule,
            ext_values(tab@, old(b).witness()),
            challenge.at(old(b).witness()),
        ),
        fold_ext_step(
            old(b).shape(),
            rule,
            ext_forms(tab@),
            challenge.form(),
            tab@.len() / 2,
            tab@.len() / 2,
        ) == (final(b).shape(), ext_forms(t@)),
{
    reveal(fold_ext_step);
    let ghost entry = *b;
    assert(ext_forms(Seq::<ExtExpr>::empty()) =~= Seq::empty());
    let ghost b0 = *b;
    let ghost w = b0.witness();
    let size = tab.len();
    let half = size / 2;
    let mut t: Vec<ExtExpr> = Vec::new();
    let mut k: usize = 0;
    while k < half
        invariant
            k <= half,
            half == tab@.len() / 2,
            size == tab@.len(),
            b0.wf(),
            w == b0.witness(),
            ext_below(tab@, b0.wires()),
            challenge.below(b0.wires()),
            refines(*b, b0),
            b.honest() <==> b0.honest(),
            t@.len() == k,
            ext_below(t@, b.wires()),
            forall|z: spec_fn(int) -> u128, i: int|
                b.holds(z) && 0 <= i < k ==> #[trigger] t@[i].at(z) == ext_fold(
                    rule,
                    ext_values(tab@, z),
                    challenge.at(z),
                )[i],
            forall|i: int|
                0 <= i < k ==> #[trigger] t@[i].at(b.witness()) == ext_fold(
                    rule,
                    ext_values(tab@, w),
                    challenge.at(w),
                )[i],
            fold_ext_step(
                entry.shape(),
                rule,
                ext_forms(tab@),
                challenge.form(),
                half as nat,
                k as nat,
            ) == (b.shape(), ext_forms(t@)),
        decreases half - k,
    {
        reveal(fold_ext_step);
        let ghost t_before = t@;
        let ghost mid = *b;
        let ghost t0 = t@;
        let ghost first = tab@[k as int];
        let ghost second = tab@[k + half];
        assert(first.below(b0.wires()) && second.below(b0.wires()));
        assert(first.below(mid.wires()) && second.below(mid.wires()));
        let delta = tab[k].add(&tab[k + half]);
        proof {
            lemma_ext_agree(first, mid.witness(), w, b0.wires());
            lemma_ext_agree(second, mid.witness(), w, b0.wires());
            lemma_ext_agree(*challenge, mid.witness(), w, b0.wires());
            assert(delta.at(mid.witness()) == esum(first.at(w), second.at(w)));
        }
        let product = mul_ext(b, rule, challenge, &delta);
        let entry = tab[k].add(&product);
        proof {
            assert(first.below(b.wires()));
            lemma_ext_agree(first, b.witness(), w, b0.wires());
            assert(entry.at(b.witness()) == esum(first.at(w), product.at(b.witness())));
        }
        t.push(entry);
        proof {
            assert forall|z: spec_fn(int) -> u128, i: int| b.holds(z) && 0 <= i < k + 1 implies #[trigger] t@[i].at(
                z,
            ) == ext_fold(rule, ext_values(tab@, z), challenge.at(z))[i] by {
                assert(mid.holds(z));
                if i < k {
                    assert(t@[i] == t0[i]);
                } else {
                    assert(delta.at(z) == esum(first.at(z), second.at(z)));
                }
            }
            assert forall|i: int| 0 <= i < k + 1 implies #[trigger] t@[i].at(b.witness())
                == ext_fold(rule, ext_values(tab@, w), challenge.at(w))[i] by {
                if i < k {
                    assert(t@[i] == t0[i]);
                    lemma_ext_agree(t0[i], b.witness(), mid.witness(), mid.wires());
                }
            }
        }
        k = k + 1;
        assert(ext_forms(t@) =~= ext_forms(t_before).push(t@[k - 1].form()));
    }
    proof {
        assert forall|z: spec_fn(int) -> u128| #[trigger] b.holds(z) implies ext_values(t@, z)
            == ext_fold(rule, ext_values(tab@, z), challenge.at(z)) by {
            assert(ext_values(t@, z) =~= ext_fold(rule, ext_values(tab@, z), challenge.at(z)));
        }
        assert(ext_values(t@, b.witness()) =~= ext_fold(
            rule,
            ext_values(tab@, w),
            challenge.at(w),
        ));
    }
    t
}

/// The rows that fold a table by the coordinates from the last down to `n`.
#[verifier::opaque]
pub open spec fn folds_ext_step(
    s: Shape,
    rule: ExtRule,
    tab: Seq<ExtForm>,
    point: Seq<ExtForm>,
    n: nat,
) -> (Shape, Seq<ExtForm>)
    decreases point.len() - n,
{
    if n >= point.len() {
        (s, tab)
    } else {
        let (t, r) = folds_ext_step(s, rule, tab, point, n + 1);
        fold_ext_step(t, rule, r, point[n as int], r.len() / 2, r.len() / 2)
    }
}

/// The rows of an evaluation of a table at a point, and the value.
#[verifier::opaque]
pub open spec fn evaluate_ext_step(
    s: Shape,
    rule: ExtRule,
    tab: Seq<ExtForm>,
    point: Seq<ExtForm>,
) -> (Shape, ExtForm) {
    let (t, r) = folds_ext_step(s, rule, tab, point, 0);
    (t, r[0])
}

/// A table at a point of the extension, the highest coordinate bound first.
pub fn evaluate_slice_ext_trace(
    b: &mut FieldR1csBuilder,
    rule: ExtRule,
    table: &Vec<ExtExpr>,
    point: &Vec<ExtExpr>,
) -> (r: ExtExpr)
    requires
        old(b).wf(),
        ext_below(table@, old(b).wires()),
        ext_below(point@, old(b).wires()),
        table@.len() == pow2(point@.len()),
    ensures
        refines(*final(b), *old(b)),
        final(b).honest() <==> old(b).honest(),
        r.below(final(b).wires()),
        forall|z: spec_fn(int) -> u128| #[trigger]
            final(b).holds(z) ==> r.at(z) == ext_mle(
                rule,
                ext_values(table@, z),
                ext_values(point@, z),
            ),
        r.at(final(b).witness()) == ext_mle(
            rule,
            ext_values(table@, old(b).witness()),
            ext_values(point@, old(b).witness()),
        ),
        evaluate_ext_step(old(b).shape(), rule, ext_forms(table@), ext_forms(point@)) == (
            final(b).shape(),
            r.form(),
        ),
{
    reveal(folds_ext_step);
    reveal(evaluate_ext_step);
    let ghost entry = *b;
    let ghost b0 = *b;
    let ghost w = b0.witness();
    let ghost goal = |z: spec_fn(int) -> u128|
        ext_mle(rule, ext_values(table@, z), ext_values(point@, z));
    let mut scratch: Vec<ExtExpr> = Vec::new();
    let mut k: usize = 0;
    while k < table.len()
        invariant
            k <= table@.len(),
            scratch@.len() == k,
            ext_below(table@, b0.wires()),
            ext_below(scratch@, b0.wires()),
            forall|z: spec_fn(int) -> u128, i: int|
                0 <= i < k ==> #[trigger] scratch@[i].at(z) == table@[i].at(z),
            ext_forms(scratch@) =~= ext_forms(table@).take(k as int),
        decreases table@.len() - k,
    {
        let ghost scratch_before = scratch@;
        let ghost scratch0 = scratch@;
        assert(table@[k as int].below(b0.wires()));
        let entry = table[k].copy();
        scratch.push(entry);
        proof {
            assert forall|z: spec_fn(int) -> u128, i: int| 0 <= i < k + 1 implies #[trigger] scratch@[i].at(
                z,
            ) == table@[i].at(z) by {
                if i < k {
                    assert(scratch@[i] == scratch0[i]);
                }
            }
        }
        k = k + 1;
        assert(ext_forms(scratch@) =~= ext_forms(scratch_before).push(table@[k - 1].form()));
        assert(ext_forms(table@).take(k as int) =~= ext_forms(table@).take(k - 1).push(
            table@[k - 1].form(),
        ));
    }
    assert(ext_forms(scratch@) =~= ext_forms(table@));
    let mut left: usize = point.len();
    proof {
        assert forall|z: spec_fn(int) -> u128| #[trigger] b.holds(z) implies ext_mle(
            rule,
            ext_values(scratch@, z),
            ext_values(point@, z).take(left as int),
        ) == goal(z) by {
            assert(ext_values(scratch@, z) =~= ext_values(table@, z));
            assert(ext_values(point@, z).take(left as int) =~= ext_values(point@, z));
        }
        assert(ext_values(scratch@, w) =~= ext_values(table@, w));
        assert(ext_values(point@, w).take(left as int) =~= ext_values(point@, w));
    }
    while left > 0
        invariant
            left <= point@.len(),
            b0.wf(),
            w == b0.witness(),
            ext_below(point@, b0.wires()),
            refines(*b, b0),
            b.honest() <==> b0.honest(),
            scratch@.len() == pow2(left as nat),
            ext_below(scratch@, b.wires()),
            forall|z: spec_fn(int) -> u128| #[trigger]
                b.holds(z) ==> ext_mle(
                    rule,
                    ext_values(scratch@, z),
                    ext_values(point@, z).take(left as int),
                ) == goal(z),
            ext_mle(
                rule,
                ext_values(scratch@, b.witness()),
                ext_values(point@, w).take(left as int),
            ) == goal(w),
            folds_ext_step(entry.shape(), rule, ext_forms(table@), ext_forms(point@), left as nat) == (
                b.shape(),
                ext_forms(scratch@),
            ),
        decreases left,
    {
        reveal(folds_ext_step);
        let ghost mid = *b;
        let ghost scratch0 = scratch@;
        let ghost challenge = point@[left - 1];
        proof {
            assert(challenge.below(b0.wires()));
            lemma_ext_agree(challenge, mid.witness(), w, b0.wires());
            lemma_pow2_unfold(left as nat);
        }
        scratch = fold_ext(b, rule, &scratch, &point[left - 1]);
        proof {
            assert forall|z: spec_fn(int) -> u128| #[trigger] b.holds(z) implies ext_mle(
                rule,
                ext_values(scratch@, z),
                ext_values(point@, z).take(left - 1),
            ) == goal(z) by {
                assert(mid.holds(z));
                let r = ext_values(point@, z).take(left as int);
                assert(r.last() == challenge.at(z));
                assert(r.drop_last() =~= ext_values(point@, z).take(left - 1));
            }
            let r = ext_values(point@, w).take(left as int);
            assert(r.last() == challenge.at(w));
            assert(r.drop_last() =~= ext_values(point@, w).take(left - 1));
        }
        left = left - 1;
    }
    proof {
        vstd::arithmetic::power2::lemma2_to64();
        assert(scratch@.len() == 1);
    }
    let ghost last = scratch@[0];
    assert(last.below(b.wires()));
    let r = scratch[0].copy();
    proof {
        assert forall|z: spec_fn(int) -> u128| #[trigger] b.holds(z) implies r.at(z) == goal(
            z,
        ) by {
            assert(ext_values(point@, z).take(0).len() == 0);
            assert(ext_values(scratch@, z)[0] == last.at(z));
        }
        assert(ext_values(point@, w).take(0).len() == 0);
        assert(ext_values(scratch@, b.witness())[0] == last.at(b.witness()));
    }
    r
}

/// The forms of `n` elements on consecutive wires.
pub open spec fn ext_forms_from(first: nat, n: nat) -> Seq<ExtForm> {
    Seq::new(
        n,
        |i: int|
            ExtForm {
                lo: wire_form((first + 2 * i) as nat),
                hi: wire_form((first + 2 * i + 1) as nat),
            },
    )
}

/// A wide value per element, each on two free wires.
pub fn alloc_blocks256(b: &mut FieldR1csBuilder, values: &[(u128, u128)]) -> (r: Vec<ExtExpr>)
    requires
        old(b).wf(),
    ensures
        refines(*final(b), *old(b)),
        final(b).honest() <==> old(b).honest(),
        final(b).wires() == old(b).wires() + 2 * values@.len(),
        r@.len() == values@.len(),
        ext_below(r@, final(b).wires()),
        forall|z: spec_fn(int) -> u128, i: int|
            0 <= i < r@.len() ==> #[trigger] r@[i].at(z) == (Ext {
                lo: z(old(b).wires() as int + 2 * i),
                hi: z(old(b).wires() as int + 2 * i + 1),
            }),
        forall|i: int|
            0 <= i < r@.len() ==> #[trigger] r@[i].at(final(b).witness()) == (Ext {
                lo: old(b).flat_basis().flat(values@[i].0),
                hi: old(b).flat_basis().flat(values@[i].1),
            }),
        final(b).shape() == free_step(old(b).shape(), (2 * values@.len()) as nat),
        ext_forms(r@) == ext_forms_from(old(b).wires(), values@.len()),
{
    reveal_with_fuel(free_step, 3);
    let ghost entry = *b;
    assert(ext_forms(Seq::<ExtExpr>::empty()) =~= ext_forms_from(b.wires(), 0));
    let ghost b0 = *b;
    let mut r: Vec<ExtExpr> = Vec::new();
    let mut k: usize = 0;
    while k < values.len()
        invariant
            k <= values@.len(),
            b0.wf(),
            refines(*b, b0),
            b.honest() <==> b0.honest(),
            b.wires() == b0.wires() + 2 * k,
            r@.len() == k,
            ext_below(r@, b.wires()),
            forall|z: spec_fn(int) -> u128, i: int|
                0 <= i < k ==> #[trigger] r@[i].at(z) == (Ext {
                    lo: z(b0.wires() as int + 2 * i),
                    hi: z(b0.wires() as int + 2 * i + 1),
                }),
            forall|i: int|
                0 <= i < k ==> #[trigger] r@[i].at(b.witness()) == (Ext {
                    lo: b0.flat_basis().flat(values@[i].0),
                    hi: b0.flat_basis().flat(values@[i].1),
                }),
            entry.wf(),
            b.shape() == free_step(entry.shape(), (2 * k) as nat),
            b.wires() == entry.wires() + 2 * k,
            ext_forms(r@) == ext_forms_from(entry.wires(), k as nat),
        decreases values@.len() - k,
    {
        reveal_with_fuel(free_step, 3);
        let ghost shape0 = b.shape();
        let ghost r_before = r@;
        proof {
            lemma_free_wires(shape0);
        }
        let ghost mid = *b;
        let ghost r0 = r@;
        let e = alloc_block256(b, values[k].0, values[k].1);
        r.push(e);
        proof {
            assert forall|z: spec_fn(int) -> u128, i: int| 0 <= i < k + 1 implies #[trigger] r@[i].at(
                z,
            ) == (Ext {
                lo: z(b0.wires() as int + 2 * i),
                hi: z(b0.wires() as int + 2 * i + 1),
            }) by {
                if i < k {
                    assert(r@[i] == r0[i]);
                }
            }
            assert forall|i: int| 0 <= i < k + 1 implies #[trigger] r@[i].at(b.witness()) == (
            Ext {
                lo: b0.flat_basis().flat(values@[i].0),
                hi: b0.flat_basis().flat(values@[i].1),
            }) by {
                if i < k {
                    assert(r@[i] == r0[i]);
                    lemma_ext_agree(r0[i], b.witness(), mid.witness(), mid.wires());
                }
            }
        }
        k = k + 1;
        proof {
            let e = ExtForm { lo: shape0.next(), hi: shape0.free().next() };
            assert(r@[k - 1].form() == e);
            assert(shape0.n() == entry.wires() + 2 * (k - 1));
            assert(ext_forms(r@) =~= ext_forms(r_before).push(e));
            assert(ext_forms_from(entry.wires(), k as nat) =~= ext_forms_from(
                entry.wires(),
                (k - 1) as nat,
            ).push(e));
        }
    }
    r
}

} // verus!
