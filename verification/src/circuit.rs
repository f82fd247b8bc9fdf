//! Rank-one constraint systems over `GF(2^128)` and the builder that records
//! them together with an honest witness.
//!
//! Wire `i` is defined by row `i`: an assignment `z` satisfies the system when
//! `A_i(z) * B_i(z) = z_i` for every row, where `A_i` and `B_i` are affine
//! expressions. Wire zero is the constant one.
use crate::basis::FlatBasis;
use crate::field::{bit_of, fmul, is_bit, F128};
use crate::field::{
    lemma_fmul_assoc, lemma_fmul_distrib, lemma_fmul_unit, lemma_idempotent, lemma_xor,
    lemma_xor_swap,
};
use vstd::prelude::*;

verus! {

/// One wire of a constraint system.
#[derive(Clone, Copy, Debug, PartialEq, Eq, Structural)]
pub struct Wire {
    pub index: usize,
}

/// One coefficient of an affine expression.
#[derive(Clone, Copy, Debug, PartialEq, Eq, Structural)]
pub struct Term {
    pub wire: usize,
    pub coeff: F128,
}

/// The assignment that a witness vector stands for; wires past its end read zero.
pub open spec fn assignment(values: Seq<F128>) -> spec_fn(int) -> u128 {
    |i: int|
        if 0 <= i < values.len() {
            values[i]@
        } else {
            0u128
        }
}

/// Two assignments carry the same values on the wires below `n`.
pub open spec fn agree(z: spec_fn(int) -> u128, w: spec_fn(int) -> u128, n: nat) -> bool {
    forall|i: int| 0 <= i < n ==> #[trigger] z(i) == w(i)
}

/// The linear part of an expression.
pub open spec fn terms_at(terms: Seq<Term>, z: spec_fn(int) -> u128) -> u128
    decreases terms.len(),
{
    if terms.len() == 0 {
        0
    } else {
        terms_at(terms.drop_last(), z) ^ fmul(terms.last().coeff@, z(terms.last().wire as int))
    }
}

/// One more than the largest wire of a list of terms.
pub open spec fn terms_bound(terms: Seq<Term>) -> nat
    decreases terms.len(),
{
    if terms.len() == 0 {
        0
    } else {
        let rest = terms_bound(terms.drop_last());
        let last = terms.last().wire as nat + 1;
        if rest < last {
            last
        } else {
            rest
        }
    }
}

/// An affine form over the wires.
pub struct LinForm {
    pub terms: Seq<Term>,
    pub constant: u128,
}

impl LinForm {
    /// The value of the form under an assignment.
    pub closed spec fn at(self, z: spec_fn(int) -> u128) -> u128 {
        self.constant ^ terms_at(self.terms, z)
    }

    /// All wires of the form are below this index.
    pub closed spec fn bound(self) -> nat {
        terms_bound(self.terms)
    }

    /// The form has no wire at all.
    pub closed spec fn constant_form(self) -> bool {
        self.terms.len() == 0
    }
}

/// A form without wires reads the same under every assignment.
pub proof fn lemma_constant_form(e: LinForm, z: spec_fn(int) -> u128, w: spec_fn(int) -> u128)
    requires
        e.constant_form(),
    ensures
        e.at(z) == e.at(w),
{
}

/// The form that is the constant `value`.
pub open spec fn const_form(value: u128) -> LinForm {
    LinForm { terms: Seq::empty(), constant: value }
}

/// Constants stay constants: sums, shifts and multiples of them are again constants.
pub proof fn lemma_constants(x: u128, y: u128)
    ensures
        const_form(x).constant_form(),
        form_add(const_form(x), const_form(y)) == const_form(x ^ y),
        form_add_const(const_form(x), y) == const_form(x ^ y),
        form_scale(const_form(x), y) == const_form(fmul(x, y)),
{
    reveal(form_add);
    reveal(form_add_const);
    reveal(form_scale);
    crate::field::lemma_fmul_unit(x);
    let t = Seq::<Term>::empty();
    assert(merged(t, t) =~= t);
    assert(t.map_values(
        |t: Term| Term { wire: t.wire, coeff: F128 { bits: fmul(t.coeff@, y) } },
    ) =~= t);
}

/// The form that reads wire `index`.
pub open spec fn wire_form(index: nat) -> LinForm {
    LinForm {
        terms: seq![Term { wire: index as usize, coeff: F128 { bits: 1 } }],
        constant: 0,
    }
}

/// What the two elementary forms read.
pub proof fn lemma_forms(value: u128, index: nat, z: spec_fn(int) -> u128)
    requires
        index < usize::MAX,
    ensures
        const_form(value).at(z) == value,
        const_form(value).bound() == 0,
        wire_form(index).at(z) == z(index as int),
        wire_form(index).bound() == index + 1,
{
    let t = Term { wire: index as usize, coeff: F128 { bits: 1 } };
    lemma_xor(value, 0, 0);
    lemma_fmul_unit(z(index as int));
    lemma_xor(z(index as int), 0, 0);
    assert(terms_at(Seq::<Term>::empty(), z) == 0);
    assert(wire_form(index).terms =~= Seq::<Term>::empty().push(t));
    lemma_terms_push(Seq::<Term>::empty(), t);
}

/// The terms of a sum: those of both lists by wire, without the ones that cancel.
pub open spec fn merged(a: Seq<Term>, c: Seq<Term>) -> Seq<Term>
    decreases a.len() + c.len(),
{
    if a.len() == 0 && c.len() == 0 {
        Seq::empty()
    } else {
        let left = a.len() > 0 && (c.len() == 0 || a[0].wire <= c[0].wire);
        let right = c.len() > 0 && (a.len() == 0 || c[0].wire <= a[0].wire);
        let p = if left {
            a[0].coeff.bits
        } else {
            0
        };
        let q = if right {
            c[0].coeff.bits
        } else {
            0
        };
        let wire = if right {
            c[0].wire
        } else {
            a[0].wire
        };
        let rest = if left && right {
            merged(a.skip(1), c.skip(1))
        } else if left {
            merged(a.skip(1), c)
        } else {
            merged(a, c.skip(1))
        };
        if p ^ q != 0 {
            seq![Term { wire, coeff: F128 { bits: p ^ q } }] + rest
        } else {
            rest
        }
    }
}

/// The sum of two forms.
#[verifier::opaque]
pub open spec fn form_add(x: LinForm, y: LinForm) -> LinForm {
    LinForm { terms: merged(x.terms, y.terms), constant: x.constant ^ y.constant }
}

/// A form and a constant.
#[verifier::opaque]
pub open spec fn form_add_const(x: LinForm, value: u128) -> LinForm {
    LinForm { terms: x.terms, constant: x.constant ^ value }
}

/// A form times a constant.
#[verifier::opaque]
pub open spec fn form_scale(x: LinForm, factor: u128) -> LinForm {
    if factor == 0 {
        const_form(0)
    } else {
        LinForm {
            terms: x.terms.map_values(
                |t: Term| Term { wire: t.wire, coeff: F128 { bits: fmul(t.coeff@, factor) } },
            ),
            constant: fmul(x.constant, factor),
        }
    }
}

/// The forms of a list of expressions.
pub open spec fn forms(es: Seq<LinExpr>) -> Seq<LinForm> {
    es.map_values(|e: LinExpr| e@)
}

/// The forms that read the wires of a list.
pub open spec fn wire_forms(ws: Seq<Wire>) -> Seq<LinForm> {
    ws.map_values(|w: Wire| wire_form(w.index as nat))
}

/// The forms of a list that has grown by one expression.
pub broadcast proof fn lemma_forms_push(es: Seq<LinExpr>, e: LinExpr)
    ensures
        #[trigger] forms(es.push(e)) == forms(es).push(e@),
{
    assert(forms(es.push(e)) =~= forms(es).push(e@));
}

/// `n` consecutive wires.
pub open spec fn wires_from(first: nat, n: nat) -> Seq<Wire> {
    Seq::new(n, |i: int| Wire { index: (first + i) as usize })
}

/// One row: the forms whose product is the row's own wire.
pub struct RowForm {
    pub a: LinForm,
    pub b: LinForm,
}

/// All of a builder but its values: the rows, the gates in scope and the
/// images of the integers.
pub struct Shape {
    pub rows: Seq<RowForm>,
    pub gates: Seq<LinForm>,
    pub flat: spec_fn(u128) -> u128,
}

/// The shape of a builder that holds only the constant wire.
pub open spec fn first_shape(flat: spec_fn(u128) -> u128) -> Shape {
    Shape {
        rows: seq![RowForm { a: const_form(1), b: const_form(1) }],
        gates: Seq::empty(),
        flat,
    }
}

impl Shape {
    /// The number of wires.
    pub open spec fn n(self) -> nat {
        self.rows.len()
    }

    /// The form of the next wire.
    pub open spec fn next(self) -> LinForm {
        wire_form(self.rows.len())
    }

    /// One more wire, the product of two forms.
    #[verifier::opaque]
    pub open spec fn row(self, a: LinForm, b: LinForm) -> Shape {
        Shape { rows: self.rows.push(RowForm { a, b }), gates: self.gates, flat: self.flat }
    }

    /// One more wire, free of any constraint.
    #[verifier::opaque]
    pub open spec fn free(self) -> Shape {
        self.row(self.next(), const_form(1))
    }

    /// One more wire, a bit.
    #[verifier::opaque]
    pub open spec fn bit(self) -> Shape {
        self.row(self.next(), self.next())
    }

    /// One more wire, on which `e` is held to `value`.
    #[verifier::opaque]
    pub open spec fn pin(self, e: LinForm, value: u128) -> Shape {
        self.row(form_add_const(form_add(e, self.next()), value), const_form(1))
    }

    /// The row of an earlier wire, supplied late.
    #[verifier::opaque]
    pub open spec fn seal(self, wire: nat, a: LinForm, b: LinForm) -> Shape {
        Shape {
            rows: self.rows.update(wire as int, RowForm { a, b }),
            gates: self.gates,
            flat: self.flat,
        }
    }

    /// One gate more.
    #[verifier::opaque]
    pub open spec fn gated(self, gate: LinForm) -> Shape {
        Shape { rows: self.rows, gates: self.gates.push(gate), flat: self.flat }
    }

    /// Without the innermost gate.
    #[verifier::opaque]
    pub open spec fn ungated(self) -> Shape {
        Shape { rows: self.rows, gates: self.gates.drop_last(), flat: self.flat }
    }
}

/// A free wire is one wire more.
pub proof fn lemma_free_wires(s: Shape)
    ensures
        s.free().n() == s.n() + 1,
{
    reveal(Shape::free);
    reveal(Shape::row);
}

/// An affine expression over the wires.
#[derive(Debug, PartialEq, Eq)]
pub struct LinExpr {
    pub terms: Vec<Term>,
    pub constant: F128,
}

impl View for LinExpr {
    type V = LinForm;

    open spec fn view(&self) -> LinForm {
        LinForm { terms: self.terms@, constant: self.constant@ }
    }
}

proof fn lemma_terms_push(terms: Seq<Term>, t: Term)
    ensures
        forall|z: spec_fn(int) -> u128| #[trigger]
            terms_at(terms.push(t), z) == terms_at(terms, z) ^ fmul(t.coeff@, z(t.wire as int)),
        terms_bound(terms.push(t)) == if terms_bound(terms) < t.wire as nat + 1 {
            t.wire as nat + 1
        } else {
            terms_bound(terms)
        },
{
    assert(terms.push(t).drop_last() =~= terms);
}

proof fn lemma_terms_agree(
    terms: Seq<Term>,
    z: spec_fn(int) -> u128,
    w: spec_fn(int) -> u128,
    n: nat,
)
    requires
        agree(z, w, n),
        terms_bound(terms) <= n,
    ensures
        terms_at(terms, z) == terms_at(terms, w),
    decreases terms.len(),
{
    if terms.len() > 0 {
        lemma_terms_agree(terms.drop_last(), z, w, n);
        assert(z(terms.last().wire as int) == w(terms.last().wire as int));
    }
}

/// An expression only reads the wires below its bound.
pub broadcast proof fn lemma_expr_agree(
    e: LinForm,
    z: spec_fn(int) -> u128,
    w: spec_fn(int) -> u128,
    n: nat,
)
    requires
        #[trigger] agree(z, w, n),
        e.bound() <= n,
    ensures
        #[trigger] e.at(z) == e.at(w),
{
    lemma_terms_agree(e.terms, z, w, n);
}

impl Clone for LinExpr {
    fn clone(&self) -> (r: Self)
        ensures
            r@ == self@,
    {
        let mut terms: Vec<Term> = Vec::with_capacity(self.terms.len());
        let mut i: usize = 0;
        while i < self.terms.len()
            invariant
                i <= self.terms.len(),
                terms@ == self.terms@.take(i as int),
            decreases self.terms.len() - i,
        {
            terms.push(self.terms[i]);
            i = i + 1;
            assert(terms@ == self.terms@.take(i as int));
        }
        assert(terms@ == self.terms@);
        LinExpr { terms, constant: self.constant }
    }
}

impl LinExpr {
    /// The value of the expression under an assignment.
    pub open spec fn at(&self, z: spec_fn(int) -> u128) -> u128 {
        self@.at(z)
    }

    /// All wires of the expression are below this index.
    pub open spec fn bound(&self) -> nat {
        self@.bound()
    }

    /// The expression is a build-time constant.
    pub open spec fn constant_expr(&self) -> bool {
        self@.constant_form()
    }

    pub fn constant(value: F128) -> (r: LinExpr)
        ensures
            forall|z: spec_fn(int) -> u128| #[trigger] r.at(z) == value@,
            r.bound() == 0,
            r.constant_expr(),
            r.constant == value,
            r@ == const_form(value@),
    {
        proof {
            lemma_xor(value@, 0, 0);
        }
        let r = LinExpr { terms: Vec::new(), constant: value };
        assert(r.terms@ =~= Seq::<Term>::empty());
        r
    }

    pub fn zero() -> (r: LinExpr)
        ensures
            forall|z: spec_fn(int) -> u128| #[trigger] r.at(z) == 0,
            r.bound() == 0,
            r.constant_expr(),
            r@ == const_form(0),
    {
        LinExpr::constant(F128::zero())
    }

    pub fn one() -> (r: LinExpr)
        ensures
            forall|z: spec_fn(int) -> u128| #[trigger] r.at(z) == 1,
            r.bound() == 0,
            r.constant_expr(),
            r@ == const_form(1),
    {
        LinExpr::constant(F128::one())
    }

    pub fn from_wire(wire: Wire) -> (r: LinExpr)
        ensures
            forall|z: spec_fn(int) -> u128| #[trigger] r.at(z) == z(wire.index as int),
            r.bound() == wire.index + 1,
            !r.constant_expr(),
            r@ == wire_form(wire.index as nat),
    {
        let mut terms: Vec<Term> = Vec::new();
        let t = Term { wire: wire.index, coeff: F128::one() };
        proof {
            lemma_terms_push(terms@, t);
        }
        terms.push(t);
        let r = LinExpr { terms, constant: F128::zero() };
        assert forall|z: spec_fn(int) -> u128| #[trigger] r.at(z) == z(wire.index as int) by {
            let v = z(wire.index as int);
            lemma_fmul_unit(v);
            lemma_xor(v, 0, 0);
            assert(terms_at(Seq::<Term>::empty(), z) == 0);
            assert(r.terms@ == Seq::<Term>::empty().push(t));
            lemma_terms_push(Seq::<Term>::empty(), t);
            assert(terms_at(r.terms@, z) == 0 ^ fmul(t.coeff@, v));
        }
        assert(r@.terms =~= wire_form(wire.index as nat).terms);
        r
    }

    /// Whether the expression has no wire at all.
    pub fn is_const(&self) -> (r: bool)
        ensures
            r == self.constant_expr(),
            r ==> forall|z: spec_fn(int) -> u128| #[trigger] self.at(z) == self.constant@,
            r ==> self.bound() == 0,
    {
        proof {
            lemma_xor(self.constant@, 0, 0);
        }
        self.terms.len() == 0
    }

    pub fn add_const(&self, value: F128) -> (r: LinExpr)
        ensures
            forall|z: spec_fn(int) -> u128| #[trigger] r.at(z) == self.at(z) ^ value@,
            r.bound() == self.bound(),
            r@ == form_add_const(self@, value@),
    {
        reveal(form_add_const);
        let mut r = self.clone();
        r.constant = r.constant.plus(value);
        assert forall|z: spec_fn(int) -> u128| #[trigger] r.at(z) == self.at(z) ^ value@ by {
            let t = terms_at(self.terms@, z);
            lemma_xor(self.constant@, value@, t);
            lemma_xor(self.constant@, t, value@);
            lemma_xor(t, value@, 0);
        }
        r
    }

    /// The expression times a build-time constant.
    pub fn scale(&self, factor: F128) -> (r: LinExpr)
        ensures
            forall|z: spec_fn(int) -> u128| #[trigger] r.at(z) == fmul(self.at(z), factor@),
            r.bound() <= self.bound(),
            r@ == form_scale(self@, factor@),
    {
        reveal(form_scale);
        if factor.bits == 0 {
            let r = LinExpr::zero();
            assert forall|z: spec_fn(int) -> u128| #[trigger]
                r.at(z) == fmul(self.at(z), factor@) by {
                lemma_fmul_unit(self.at(z));
            }
            return r;
        }
        let mut terms: Vec<Term> = Vec::with_capacity(self.terms.len());
        let mut i: usize = 0;
        proof {
            assert forall|z: spec_fn(int) -> u128| #[trigger]
                terms_at(Seq::<Term>::empty(), z) == fmul(
                    terms_at(self.terms@.take(0), z),
                    factor@,
                ) by {
                lemma_fmul_unit(factor@);
            }
        }
        while i < self.terms.len()
            invariant
                i <= self.terms.len(),
                terms_bound(terms@) == terms_bound(self.terms@.take(i as int)),
                forall|z: spec_fn(int) -> u128| #[trigger]
                    terms_at(terms@, z) == fmul(terms_at(self.terms@.take(i as int), z), factor@),
                terms@ =~= self.terms@.take(i as int).map_values(
                    |t: Term| Term { wire: t.wire, coeff: F128 { bits: fmul(t.coeff@, factor@) } },
                ),
            decreases self.terms.len() - i,
        {
            let t = Term { wire: self.terms[i].wire, coeff: self.terms[i].coeff.times(factor) };
            proof {
                lemma_terms_push(terms@, t);
                lemma_terms_push(self.terms@.take(i as int), self.terms@[i as int]);
                assert(self.terms@.take(i as int).push(self.terms@[i as int]) == self.terms@.take(
                    i + 1,
                ));
                let before = terms@;
                assert forall|z: spec_fn(int) -> u128| #[trigger]
                    terms_at(before.push(t), z) == fmul(
                        terms_at(self.terms@.take(i + 1), z),
                        factor@,
                    ) by {
                    let c = self.terms@[i as int].coeff@;
                    let v = z(t.wire as int);
                    let s = terms_at(self.terms@.take(i as int), z);
                    assert(terms_at(before, z) == fmul(s, factor@));
                    assert(terms_at(self.terms@.take(i as int).push(self.terms@[i as int]), z) == s
                        ^ fmul(c, v));
                    lemma_fmul_distrib(s, fmul(c, v), factor@);
                    lemma_fmul_assoc(c, factor@, v);
                    lemma_fmul_assoc(c, v, factor@);
                    crate::field::lemma_fmul_comm(factor@, v);
                }
            }
            terms.push(t);
            i = i + 1;
        }
        assert(self.terms@.take(i as int) == self.terms@);
        let r = LinExpr { terms, constant: self.constant.times(factor) };
        assert forall|z: spec_fn(int) -> u128| #[trigger] r.at(z) == fmul(self.at(z), factor@) by {
            assert(terms_at(terms@, z) == fmul(terms_at(self.terms@, z), factor@));
            lemma_fmul_distrib(self.constant@, terms_at(self.terms@, z), factor@);
        }
        r
    }

    /// The sum of two expressions, with the terms merged by wire.
    pub fn add(&self, other: &LinExpr) -> (r: LinExpr)
        ensures
            forall|z: spec_fn(int) -> u128| #[trigger] r.at(z) == self.at(z) ^ other.at(z),
            r.bound() <= self.bound() || r.bound() <= other.bound(),
            r@ == form_add(self@, other@),
    {
        reveal(form_add);
        let mut terms: Vec<Term> = Vec::with_capacity(self.terms.len());
        let mut i: usize = 0;
        let mut j: usize = 0;
        let ghost a = self.terms@;
        let ghost c = other.terms@;
        proof {
            lemma_xor(0, 0, 0);
            assert(a.skip(0) =~= a && c.skip(0) =~= c);
            assert(terms@ + merged(a, c) =~= merged(a, c));
        }
        while i < self.terms.len() || j < other.terms.len()
            invariant
                i <= self.terms.len(),
                j <= other.terms.len(),
                a == self.terms@,
                c == other.terms@,
                terms_bound(terms@) <= terms_bound(a.take(i as int)) || terms_bound(terms@)
                    <= terms_bound(c.take(j as int)),
                forall|z: spec_fn(int) -> u128| #[trigger]
                    terms_at(terms@, z) == terms_at(a.take(i as int), z) ^ terms_at(
                        c.take(j as int),
                        z,
                    ),
                terms@ + merged(a.skip(i as int), c.skip(j as int)) == merged(a, c),
            decreases self.terms.len() - i + other.terms.len() - j,
        {
            let left = i < self.terms.len() && (j >= other.terms.len() || self.terms[i].wire
                <= other.terms[j].wire);
            let right = j < other.terms.len() && (i >= self.terms.len() || other.terms[j].wire
                <= self.terms[i].wire);
            let mut coeff = F128::zero();
            let mut wire: usize = 0;
            let ghost i0 = i as int;
            let ghost j0 = j as int;
            let ghost before = terms@;
            if left {
                coeff = self.terms[i].coeff;
                wire = self.terms[i].wire;
                proof {
                    lemma_terms_push(a.take(i0), a[i0]);
                    assert(a.take(i0).push(a[i0]) == a.take(i0 + 1));
                }
                i = i + 1;
            }
            if right {
                let c1 = coeff.plus(other.terms[j].coeff);
                coeff = c1;
                wire = other.terms[j].wire;
                proof {
                    lemma_terms_push(c.take(j0), c[j0]);
                    assert(c.take(j0).push(c[j0]) == c.take(j0 + 1));
                }
                j = j + 1;
            }
            let t = Term { wire, coeff };
            proof {
                lemma_terms_push(before, t);
                assert forall|z: spec_fn(int) -> u128| #[trigger]
                    terms_at(before, z) ^ fmul(coeff@, z(wire as int)) == terms_at(
                        a.take(i as int),
                        z,
                    ) ^ terms_at(c.take(j as int), z) by {
                    let s = terms_at(a.take(i0), z);
                    let u = terms_at(c.take(j0), z);
                    let v = z(wire as int);
                    assert(terms_at(before, z) == s ^ u);
                    let p = if left {
                        a[i0].coeff@
                    } else {
                        0
                    };
                    let q = if right {
                        c[j0].coeff@
                    } else {
                        0
                    };
                    lemma_xor(p, 0, 0);
                    lemma_xor(q, 0, 0);
                    assert(coeff@ == p ^ q);
                    lemma_fmul_unit(v);
                    lemma_xor(s, 0, 0);
                    lemma_xor(u, 0, 0);
                    if left {
                        assert(terms_at(a.take(i0).push(a[i0]), z) == s ^ fmul(p, v));
                    }
                    if right {
                        assert(terms_at(c.take(j0).push(c[j0]), z) == u ^ fmul(q, v));
                    }
                    lemma_fmul_distrib(p, q, v);
                    lemma_xor_swap(s, u, fmul(p, v), fmul(q, v));
                }
            }
            proof {
                if left {
                    assert(a.skip(i0).skip(1) =~= a.skip(i0 + 1));
                }
                if right {
                    assert(c.skip(j0).skip(1) =~= c.skip(j0 + 1));
                }
                let rest = merged(a.skip(i as int), c.skip(j as int));
                lemma_xor(a.skip(i0)[0].coeff.bits, 0, 0);
                lemma_xor(c.skip(j0)[0].coeff.bits, 0, 0);
                assert(merged(a.skip(i0), c.skip(j0)) == if coeff.bits != 0 {
                    seq![t] + rest
                } else {
                    rest
                });
                assert(before + (seq![t] + rest) =~= before.push(t) + rest);
            }
            if coeff.bits != 0 {
                terms.push(t);
            } else {
                proof {
                    assert forall|z: spec_fn(int) -> u128| #[trigger]
                        terms_at(terms@, z) == terms_at(a.take(i as int), z) ^ terms_at(
                            c.take(j as int),
                            z,
                        ) by {
                        assert(terms_at(before, z) ^ fmul(coeff@, z(wire as int)) == terms_at(
                            a.take(i as int),
                            z,
                        ) ^ terms_at(c.take(j as int), z));
                        lemma_fmul_unit(z(wire as int));
                        lemma_xor(terms_at(before, z), 0, 0);
                    }
                }
            }
        }
        assert(a.take(i as int) == a);
        assert(c.take(j as int) == c);
        assert(terms@ =~= terms@ + merged(a.skip(i as int), c.skip(j as int)));
        let r = LinExpr { terms, constant: self.constant.plus(other.constant) };
        assert forall|z: spec_fn(int) -> u128| #[trigger] r.at(z) == self.at(z) ^ other.at(z) by {
            assert(terms_at(terms@, z) == terms_at(a, z) ^ terms_at(c, z));
            lemma_xor_swap(self.constant@, other.constant@, terms_at(a, z), terms_at(c, z));
        }
        r
    }

    /// The value of the expression on a witness vector.
    pub fn eval(&self, values: &[F128]) -> (r: F128)
        requires
            self.bound() <= values@.len(),
        ensures
            r@ == self.at(assignment(values@)),
    {
        let mut sum = F128::zero();
        let mut i: usize = 0;
        let ghost z = assignment(values@);
        while i < self.terms.len()
            invariant
                i <= self.terms.len(),
                terms_bound(self.terms@) <= values@.len(),
                z == assignment(values@),
                sum@ == terms_at(self.terms@.take(i as int), z),
            decreases self.terms.len() - i,
        {
            let t = self.terms[i];
            proof {
                lemma_terms_push(self.terms@.take(i as int), t);
                assert(self.terms@.take(i as int).push(t) == self.terms@.take(i + 1));
                lemma_bound_element(self.terms@, i as int);
                assert(terms_at(self.terms@.take(i as int).push(t), z) == terms_at(
                    self.terms@.take(i as int),
                    z,
                ) ^ fmul(t.coeff@, z(t.wire as int)));
            }
            sum = sum.plus(t.coeff.times(values[t.wire]));
            i = i + 1;
        }
        assert(self.terms@.take(i as int) == self.terms@);
        self.constant.plus(sum)
    }

    /// Whether two expressions have the same constant and the same terms.
    pub fn same(&self, other: &LinExpr) -> (r: bool)
        ensures
            r == (self@ == other@),
    {
        if self.constant != other.constant || self.terms.len() != other.terms.len() {
            return false;
        }
        let mut i: usize = 0;
        while i < self.terms.len()
            invariant
                i <= self.terms.len(),
                self.terms@.len() == other.terms@.len(),
                forall|k: int| 0 <= k < i ==> self.terms@[k] == other.terms@[k],
            decreases self.terms.len() - i,
        {
            if self.terms[i] != other.terms[i] {
                return false;
            }
            i = i + 1;
        }
        assert(self.terms@ == other.terms@);
        true
    }
}

proof fn lemma_bound_element(terms: Seq<Term>, i: int)
    requires
        0 <= i < terms.len(),
    ensures
        terms[i].wire < terms_bound(terms),
    decreases terms.len(),
{
    if i < terms.len() - 1 {
        lemma_bound_element(terms.drop_last(), i);
    }
}

/// One constraint: the product of `a` and `b` is the row's own wire.
#[derive(Debug, PartialEq, Eq)]
pub struct Row {
    pub a: LinExpr,
    pub b: LinExpr,
}

impl Row {
    pub open spec fn holds(&self, i: int, z: spec_fn(int) -> u128) -> bool {
        fmul(self.a.at(z), self.b.at(z)) == z(i)
    }

    pub open spec fn bounded(&self, n: nat) -> bool {
        self.a.bound() <= n && self.b.bound() <= n
    }
}

/// Every row of a system holds.
pub open spec fn rows_hold(rows: Seq<Row>, z: spec_fn(int) -> u128) -> bool {
    forall|i: int| 0 <= i < rows.len() ==> #[trigger] rows[i].holds(i, z)
}

/// A finished constraint system.
#[derive(Debug, PartialEq, Eq)]
pub struct FieldR1cs {
    pub rows: Vec<Row>,
}

impl FieldR1cs {
    pub open spec fn wf(&self) -> bool {
        forall|i: int| 0 <= i < self.rows@.len() ==> #[trigger] self.rows@[i].bounded(self.rows@.len())
    }

    pub open spec fn holds(&self, z: spec_fn(int) -> u128) -> bool {
        rows_hold(self.rows@, z)
    }

    /// Whether a witness has the right length and satisfies every row.
    pub fn satisfies(&self, witness: &[F128]) -> (r: bool)
        requires
            self.wf(),
        ensures
            r == (witness@.len() == self.rows@.len() && self.holds(assignment(witness@))),
    {
        if witness.len() != self.rows.len() {
            return false;
        }
        let mut i: usize = 0;
        while i < self.rows.len()
            invariant
                i <= self.rows.len(),
                witness@.len() == self.rows@.len(),
                self.wf(),
                forall|k: int|
                    0 <= k < i ==> #[trigger] self.rows@[k].holds(k, assignment(witness@)),
            decreases self.rows.len() - i,
        {
            let row = &self.rows[i];
            assert(self.rows@[i as int].bounded(self.rows@.len()));
            let product = row.a.eval(witness).times(row.b.eval(witness));
            if product != witness[i] {
                assert(!self.rows@[i as int].holds(i as int, assignment(witness@)));
                return false;
            }
            i = i + 1;
        }
        true
    }

    /// Whether two systems have the same rows.
    pub fn same_structure(&self, other: &FieldR1cs) -> (r: bool)
        ensures
            r ==> self.rows@.len() == other.rows@.len() && forall|z: spec_fn(int) -> u128| #[trigger]
                self.holds(z) == other.holds(z),
            r == (self.rows@.len() == other.rows@.len() && forall|i: int|
                0 <= i < self.rows@.len() ==> {
                    &&& (#[trigger] self.rows@[i]).a@ == other.rows@[i].a@
                    &&& self.rows@[i].b@ == other.rows@[i].b@
                }),
    {
        if self.rows.len() != other.rows.len() {
            return false;
        }
        let mut i: usize = 0;
        while i < self.rows.len()
            invariant
                i <= self.rows.len(),
                self.rows@.len() == other.rows@.len(),
                forall|k: int|
                    0 <= k < i ==> {
                        &&& (#[trigger] self.rows@[k]).a@ == other.rows@[k].a@
                        &&& self.rows@[k].b@ == other.rows@[k].b@
                    },
            decreases self.rows.len() - i,
        {
            if !self.rows[i].a.same(&other.rows[i].a) || !self.rows[i].b.same(&other.rows[i].b) {
                return false;
            }
            i = i + 1;
        }
        assert forall|z: spec_fn(int) -> u128| #[trigger] self.holds(z) == other.holds(z) by {
            assert forall|k: int| 0 <= k < self.rows@.len() implies (#[trigger] self.rows@[k].holds(
                k,
                z,
            )) == other.rows@[k].holds(k, z) by {}
            if self.holds(z) {
                assert forall|k: int| 0 <= k < other.rows@.len() implies #[trigger] other.rows@[k].holds(
                    k,
                    z,
                ) by {
                    assert(self.rows@[k].holds(k, z));
                }
            }
        }
        true
    }
}

/// A row whose constraint is supplied after its wire was allocated.
#[derive(Debug, PartialEq, Eq)]
pub struct DeferredConstraintSlot {
    pub wire: usize,
}

/// Records a constraint system and an honest value for each of its wires.
pub struct FieldR1csBuilder {
    values: Vec<F128>,
    rows: Vec<Row>,
    gates: Vec<LinExpr>,
    open_rows: Vec<bool>,
    basis: FlatBasis,
}

/// A builder's rows only read the wires that it has allocated.
pub broadcast proof fn lemma_builder_agree(
    b: FieldR1csBuilder,
    z: spec_fn(int) -> u128,
    w: spec_fn(int) -> u128,
    n: nat,
)
    requires
        #[trigger] agree(z, w, n),
        b.wf(),
        b.wires() <= n,
    ensures
        #[trigger] b.holds(z) == b.holds(w),
{
    broadcast use lemma_expr_agree;

    assert forall|i: int| 0 <= i < b.rows@.len() implies (#[trigger] b.rows@[i].holds(i, z))
        == b.rows@[i].holds(i, w) by {
        assert(b.rows@[i].bounded(b.rows@.len()));
        assert(z(i) == w(i));
    }
    if b.holds(z) {
        assert forall|i: int| 0 <= i < b.rows@.len() implies #[trigger] b.rows@[i].holds(i, w) by {
            assert(b.rows@[i].holds(i, z));
        }
    }
    if b.holds(w) {
        assert forall|i: int| 0 <= i < b.rows@.len() implies #[trigger] b.rows@[i].holds(i, z) by {
            assert(b.rows@[i].holds(i, w));
        }
    }
}

/// Recording more rows changes no gate.
pub broadcast proof fn lemma_gates_kept(after: FieldR1csBuilder, before: FieldR1csBuilder)
    requires
        before.wf(),
        #[trigger] after.extends(&before),
    ensures
        after.live(after.witness()) == before.live(before.witness()),
        after.dead(after.witness()) == before.dead(before.witness()),
{
    assert forall|k: int| 0 <= k < before.gate_list().len() implies #[trigger] before.gate_list()[k].at(
        after.witness(),
    ) == before.gate_list()[k].at(before.witness()) by {
        before.lemma_gate_bound(k);
        lemma_expr_agree(
            before.gate_list()[k],
            after.witness(),
            before.witness(),
            before.wires(),
        );
    }
    if before.live(before.witness()) {
        assert forall|k: int| 0 <= k < after.gate_list().len() implies #[trigger] after.gate_list()[k].at(
            after.witness(),
        ) != 0 by {
            assert(before.gate_list()[k].at(before.witness()) != 0);
        }
    }
    if after.live(after.witness()) {
        assert forall|k: int| 0 <= k < before.gate_list().len() implies #[trigger] before.gate_list()[k].at(
            before.witness(),
        ) != 0 by {
            assert(after.gate_list()[k].at(after.witness()) != 0);
        }
    }
    if before.dead(before.witness()) {
        let k = choose|k: int|
            0 <= k < before.gate_list().len() && #[trigger] before.gate_list()[k].at(
                before.witness(),
            ) == 0;
        assert(after.gate_list()[k].at(after.witness()) == 0);
    }
    if after.dead(after.witness()) {
        let k = choose|k: int|
            0 <= k < after.gate_list().len() && #[trigger] after.gate_list()[k].at(
                after.witness(),
            ) == 0;
        assert(before.gate_list()[k].at(before.witness()) == 0);
    }
}

/// A shape has the wires, the gates and the images of its builder.
pub broadcast proof fn lemma_shape(b: FieldR1csBuilder)
    requires
        b.wf(),
    ensures
        #![trigger b.shape()]
        b.shape().rows.len() == b.wires(),
        b.shape().gates == b.gate_list(),
        b.shape().flat == b.flat_basis().flat_fn(),
{
}

/// Two builders that accept the same assignments: as many wires, the same
/// gates, the same relation.
pub open spec fn same_relation(x: FieldR1csBuilder, y: FieldR1csBuilder) -> bool {
    &&& x.wires() == y.wires()
    &&& x.gate_list() == y.gate_list()
    &&& forall|z: spec_fn(int) -> u128| #[trigger] x.holds(z) <==> y.holds(z)
}

/// Builders of one shape accept the same assignments, whatever values they
/// have recorded.
pub proof fn lemma_same_shape(x: FieldR1csBuilder, y: FieldR1csBuilder)
    requires
        x.wf(),
        y.wf(),
        x.shape() == y.shape(),
    ensures
        same_relation(x, y),
{
    let f = |r: Row| RowForm { a: r.a@, b: r.b@ };
    assert(x.rows@.len() == y.rows@.len()) by {
        assert(x.rows@.map_values(f).len() == y.rows@.map_values(f).len());
    }
    assert forall|i: int, z: spec_fn(int) -> u128| 0 <= i < x.rows@.len() implies (
    #[trigger] x.rows@[i].holds(i, z)) == y.rows@[i].holds(i, z) by {
        assert(x.rows@.map_values(f)[i] == y.rows@.map_values(f)[i]);
    }
    assert forall|z: spec_fn(int) -> u128| #[trigger] x.holds(z) <==> y.holds(z) by {
        if x.holds(z) {
            assert forall|i: int| 0 <= i < y.rows@.len() implies #[trigger] y.rows@[i].holds(
                i,
                z,
            ) by {
                assert(x.rows@[i].holds(i, z));
            }
        }
        if y.holds(z) {
            assert forall|i: int| 0 <= i < x.rows@.len() implies #[trigger] x.rows@[i].holds(
                i,
                z,
            ) by {
                assert(y.rows@[i].holds(i, z));
            }
        }
    }
}

pub broadcast group group_agree {
    lemma_shape,
    lemma_forms_push,
    lemma_expr_agree,
    lemma_builder_agree,
    lemma_gates_kept,
}

impl FieldR1csBuilder {
    pub closed spec fn wf(&self) -> bool {
        &&& self.values@.len() == self.rows@.len()
        &&& self.open_rows@.len() == self.rows@.len()
        &&& self.rows@.len() >= 1
        &&& self.basis.wf()
        &&& forall|i: int|
            0 <= i < self.rows@.len() ==> (#[trigger] self.rows@[i]).bounded(self.rows@.len())
        &&& forall|i: int|
            0 <= i < self.gates@.len() ==> (#[trigger] self.gates@[i]).bound() <= self.rows@.len()
        &&& forall|i: int, z: spec_fn(int) -> u128|
            0 <= i < self.rows@.len() && #[trigger] self.open_rows@[i] ==> #[trigger] self.rows@[i].holds(i, z)
    }

    /// The number of wires, which is also the number of rows.
    pub closed spec fn wires(&self) -> nat {
        self.values@.len()
    }

    /// The rows so far hold under `z`.
    pub closed spec fn holds(&self, z: spec_fn(int) -> u128) -> bool {
        rows_hold(self.rows@, z)
    }

    /// The recorded witness.
    pub closed spec fn witness(&self) -> spec_fn(int) -> u128 {
        assignment(self.values@)
    }

    /// The recorded witness satisfies the rows so far.
    pub open spec fn honest(&self) -> bool {
        self.holds(self.witness())
    }

    /// The selectors that every equation is multiplied by.
    pub closed spec fn gate_list(&self) -> Seq<LinForm> {
        self.gates@.map_values(|g: LinExpr| g@)
    }

    /// The basis in which integers are written on wires.
    pub closed spec fn flat_basis(&self) -> FlatBasis {
        self.basis
    }

    /// All of the builder but its values.
    pub closed spec fn shape(&self) -> Shape {
        Shape {
            rows: self.rows@.map_values(|r: Row| RowForm { a: r.a@, b: r.b@ }),
            gates: self.gate_list(),
            flat: self.basis.flat_fn(),
        }
    }

    /// The wires whose row has not been supplied yet.
    pub closed spec fn is_open(&self, i: int) -> bool {
        0 <= i < self.open_rows@.len() && self.open_rows@[i]
    }

    /// No selector is zero under `z`.
    pub open spec fn live(&self, z: spec_fn(int) -> u128) -> bool {
        forall|i: int| 0 <= i < self.gate_list().len() ==> #[trigger] self.gate_list()[i].at(z) != 0
    }

    /// Some selector is zero under `z`.
    pub open spec fn dead(&self, z: spec_fn(int) -> u128) -> bool {
        exists|i: int| 0 <= i < self.gate_list().len() && #[trigger] self.gate_list()[i].at(z) == 0
    }

    /// `self` was obtained from `before` by allocating more wires.
    pub open spec fn extends(&self, before: &FieldR1csBuilder) -> bool {
        &&& self.wf()
        &&& before.wires() <= self.wires()
        &&& self.gate_list() == before.gate_list()
        &&& self.flat_basis() == before.flat_basis()
        &&& agree(self.witness(), before.witness(), before.wires())
        &&& forall|i: int| #[trigger] before.is_open(i) ==> self.is_open(i)
    }

    /// A gate only reads allocated wires.
    pub proof fn lemma_gate_bound(&self, i: int)
        requires
            self.wf(),
            0 <= i < self.gate_list().len(),
        ensures
            self.gate_list()[i].bound() <= self.wires(),
    {
        assert(self.gates@[i].bound() <= self.rows@.len());
    }

    /// The basis of a builder is a change of basis.
    pub proof fn lemma_basis_wf(&self)
        requires
            self.wf(),
        ensures
            self.flat_basis().wf(),
    {
    }

    /// A builder that holds only the constant wire.
    pub fn with_basis(basis: FlatBasis) -> (b: FieldR1csBuilder)
        requires
            basis.wf(),
        ensures
            b.wf(),
            b.wires() == 1,
            b.gate_list().len() == 0,
            b.flat_basis() == basis,
            forall|z: spec_fn(int) -> u128| #[trigger] b.holds(z) <==> z(0) == 1,
            b.honest(),
            b.shape() == first_shape(basis.flat_fn()),
    {
        let one = LinExpr::constant(F128::one());
        let row = Row { a: one.clone(), b: one };
        let mut values: Vec<F128> = Vec::new();
        values.push(F128::one());
        let mut rows: Vec<Row> = Vec::new();
        rows.push(row);
        let mut open_rows: Vec<bool> = Vec::new();
        open_rows.push(false);
        proof {
            lemma_fmul_unit(1);
        }
        let b = FieldR1csBuilder { values, rows, gates: Vec::new(), open_rows, basis };
        assert(b.shape().rows =~= seq![RowForm { a: const_form(1), b: const_form(1) }]);
        assert(b.shape().gates =~= Seq::empty());
        assert forall|z: spec_fn(int) -> u128| #[trigger] b.holds(z) <==> z(0) == 1 by {
            assert(b.rows@[0].holds(0, z) <==> z(0) == 1);
        }
        b
    }

    /// A builder over the coordinate basis.
    pub fn new() -> (b: FieldR1csBuilder)
        ensures
            b.wf(),
            b.wires() == 1,
            b.gate_list().len() == 0,
            forall|v: u128| #[trigger] b.flat_basis().flat(v) == v,
            forall|z: spec_fn(int) -> u128| #[trigger] b.holds(z) <==> z(0) == 1,
            b.honest(),
            b.shape() == first_shape(|v: u128| v),
    {
        let basis = FlatBasis::coordinate();
        assert(basis.flat_fn() =~= |v: u128| v);
        FieldR1csBuilder::with_basis(basis)
    }

    pub fn num_wires(&self) -> (n: usize)
        ensures
            n == self.wires(),
    {
        self.values.len()
    }

    /// The recorded witness vector.
    pub fn values(&self) -> (v: &[F128])
        ensures
            v@.len() == self.wires(),
            assignment(v@) == self.witness(),
    {
        self.values.as_slice()
    }

    pub fn basis(&self) -> (r: &FlatBasis)
        ensures
            *r == self.flat_basis(),
            self.wf() ==> r.wf(),
    {
        &self.basis
    }

    /// The value of an expression under the recorded witness.
    pub fn value_of(&self, e: &LinExpr) -> (r: F128)
        requires
            e.bound() <= self.wires(),
        ensures
            r@ == e.at(self.witness()),
    {
        e.eval(self.values.as_slice())
    }

    fn push_row(&mut self, value: F128, row: Row, open: bool)
        requires
            old(self).wf(),
            row.bounded(old(self).wires() + 1),
            open ==> forall|z: spec_fn(int) -> u128| #[trigger] row.holds(old(self).wires() as int, z),
        ensures
            final(self).extends(old(self)),
            final(self).wires() == old(self).wires() + 1,
            final(self).witness()(old(self).wires() as int) == value@,
            final(self).is_open(old(self).wires() as int) == open,
            forall|i: int| 0 <= i < old(self).wires() ==> #[trigger] final(self).is_open(i) == old(
                self,
            ).is_open(i),
            forall|z: spec_fn(int) -> u128| #[trigger]
                final(self).holds(z) <==> old(self).holds(z) && row.holds(
                    old(self).wires() as int,
                    z,
                ),
            final(self).shape() == old(self).shape().row(row.a@, row.b@),
    {
        reveal(Shape::row);
        let ghost before = *self;
        self.values.push(value);
        self.rows.push(row);
        self.open_rows.push(open);
        let ghost n = before.rows@.len() as int;
        assert(self.rows@[n] == row);
        assert forall|z: spec_fn(int) -> u128| #[trigger]
            self.holds(z) <==> before.holds(z) && row.holds(n, z) by {
            if self.holds(z) {
                assert(self.rows@[n].holds(n, z));
                assert forall|i: int| 0 <= i < n implies #[trigger] before.rows@[i].holds(i, z) by {
                    assert(self.rows@[i].holds(i, z));
                }
            }
            if before.holds(z) && row.holds(n, z) {
                assert forall|i: int| 0 <= i < self.rows@.len() implies #[trigger] self.rows@[i].holds(
                    i,
                    z,
                ) by {
                    if i < n {
                        assert(before.rows@[i].holds(i, z));
                    }
                }
            }
        }
        assert forall|i: int| 0 <= i < self.rows@.len() implies (#[trigger] self.rows@[i]).bounded(
            self.rows@.len(),
        ) by {
            if i < n {
                assert(before.rows@[i].bounded(before.rows@.len()));
            }
        }
        assert forall|i: int, z: spec_fn(int) -> u128|
            0 <= i < self.rows@.len() && #[trigger] self.open_rows@[i] implies #[trigger] self.rows@[i].holds(
            i,
            z,
        ) by {
            if i < n {
                assert(before.open_rows@[i]);
                assert(before.rows@[i].holds(i, z));
            }
        }
        assert forall|i: int| 0 <= i < self.gates@.len() implies (#[trigger] self.gates@[i]).bound()
            <= self.rows@.len() by {
            assert(before.gates@[i].bound() <= before.rows@.len());
        }
        proof {
            assert(self.shape().rows =~= before.shape().rows.push(RowForm { a: row.a@, b: row.b@ }));
        }
    }

    /// Allocates a free wire with an honest value.
    pub fn alloc_f128(&mut self, value: F128) -> (w: Wire)
        requires
            old(self).wf(),
        ensures
            final(self).extends(old(self)),
            final(self).wires() == old(self).wires() + 1,
            w.index == old(self).wires(),
            final(self).witness()(w.index as int) == value@,
            forall|z: spec_fn(int) -> u128| #[trigger] final(self).holds(z) <==> old(self).holds(z),
            final(self).shape() == old(self).shape().free(),
    {
        reveal(Shape::free);
        let index = self.values.len();
        let w = Wire { index };
        let row = Row { a: LinExpr::from_wire(w), b: LinExpr::one() };
        assert forall|z: spec_fn(int) -> u128| #[trigger] row.holds(index as int, z) by {
            lemma_fmul_unit(z(index as int));
        }
        self.push_row(value, row, false);
        w
    }

    /// Allocates a wire that its own row constrains to zero or one.
    pub fn alloc_bool(&mut self, value: bool) -> (w: Wire)
        requires
            old(self).wf(),
        ensures
            final(self).extends(old(self)),
            final(self).wires() == old(self).wires() + 1,
            w.index == old(self).wires(),
            final(self).witness()(w.index as int) == bit_of(value),
            forall|z: spec_fn(int) -> u128| #[trigger]
                final(self).holds(z) <==> old(self).holds(z) && is_bit(z(w.index as int)),
            final(self).shape() == old(self).shape().bit(),
    {
        reveal(Shape::bit);
        let index = self.values.len();
        let w = Wire { index };
        let row = Row { a: LinExpr::from_wire(w), b: LinExpr::from_wire(w) };
        assert forall|z: spec_fn(int) -> u128| #[trigger]
            row.holds(index as int, z) <==> is_bit(z(index as int)) by {
            lemma_idempotent(z(index as int));
        }
        self.push_row(F128::from_bool(value), row, false);
        w
    }

    /// Allocates the product of two expressions.
    pub fn mul(&mut self, x: &LinExpr, y: &LinExpr) -> (w: Wire)
        requires
            old(self).wf(),
            x.bound() <= old(self).wires(),
            y.bound() <= old(self).wires(),
        ensures
            final(self).extends(old(self)),
            final(self).wires() == old(self).wires() + 1,
            w.index == old(self).wires(),
            final(self).witness()(w.index as int) == fmul(
                x.at(old(self).witness()),
                y.at(old(self).witness()),
            ),
            forall|z: spec_fn(int) -> u128| #[trigger]
                final(self).holds(z) <==> old(self).holds(z) && z(w.index as int) == fmul(
                    x.at(z),
                    y.at(z),
                ),
            final(self).shape() == old(self).shape().row(x@, y@),
    {
        let index = self.values.len();
        let value = self.value_of(x).times(self.value_of(y));
        let row = Row { a: x.clone(), b: y.clone() };
        self.push_row(value, row, false);
        Wire { index }
    }

    /// Constrains an expression to a fixed value, on a wire of its own.
    pub fn pin_f128(&mut self, expr: &LinExpr, value: F128)
        requires
            old(self).wf(),
            expr.bound() <= old(self).wires(),
        ensures
            final(self).extends(old(self)),
            final(self).wires() == old(self).wires() + 1,
            forall|z: spec_fn(int) -> u128| #[trigger]
                final(self).holds(z) <==> old(self).holds(z) && expr.at(z) == value@,
            final(self).shape() == old(self).shape().pin(expr@, value@),
    {
        reveal(Shape::pin);
        let index = self.values.len();
        let w = Wire { index };
        let row = Row { a: expr.add(&LinExpr::from_wire(w)).add_const(value), b: LinExpr::one() };
        assert forall|z: spec_fn(int) -> u128| #[trigger]
            row.holds(index as int, z) <==> expr.at(z) == value@ by {
            let e = expr.at(z);
            let v = z(index as int);
            lemma_fmul_unit((e ^ v) ^ value@);
            lemma_xor(e, v, value@);
            lemma_xor(v, value@, 0);
            lemma_xor(e, value@, v);
            lemma_xor(e ^ value@, v, 0);
            lemma_xor(v, e ^ value@, 0);
            lemma_xor(0, v, 0);
        }
        self.push_row(F128::zero(), row, false);
    }

    /// The constant one, as an expression.
    pub fn one(&self) -> (r: LinExpr)
        ensures
            forall|z: spec_fn(int) -> u128| #[trigger] r.at(z) == 1,
            r.bound() == 0,
            r@ == const_form(1),
    {
        LinExpr::one()
    }

    /// Allocates a wire whose row is supplied later.
    pub fn alloc_deferred_constraint_f128(&mut self, value: F128) -> (r: (
        Wire,
        DeferredConstraintSlot,
    ))
        requires
            old(self).wf(),
        ensures
            final(self).extends(old(self)),
            final(self).wires() == old(self).wires() + 1,
            r.0.index == old(self).wires(),
            r.1.wire == r.0.index,
            final(self).is_open(r.0.index as int),
            final(self).witness()(r.0.index as int) == value@,
            forall|z: spec_fn(int) -> u128| #[trigger] final(self).holds(z) <==> old(self).holds(z),
            final(self).shape() == old(self).shape().free(),
    {
        reveal(Shape::free);
        let index = self.values.len();
        let w = Wire { index };
        let row = Row { a: LinExpr::from_wire(w), b: LinExpr::one() };
        assert forall|z: spec_fn(int) -> u128| #[trigger] row.holds(index as int, z) by {
            lemma_fmul_unit(z(index as int));
        }
        self.push_row(value, row, true);
        (w, DeferredConstraintSlot { wire: index })
    }

    /// Supplies the row of a deferred wire: the wire is the product of `a` and
    /// `b`. A wire whose row was already supplied is refused.
    pub fn seal_deferred_constraint(
        &mut self,
        slot: DeferredConstraintSlot,
        a: &LinExpr,
        b: &LinExpr,
    ) -> (r: bool)
        requires
            old(self).wf(),
            a.bound() <= old(self).wires(),
            b.bound() <= old(self).wires(),
        ensures
            final(self).wf(),
            r == old(self).is_open(slot.wire as int),
            final(self).wires() == old(self).wires(),
            final(self).gate_list() == old(self).gate_list(),
            final(self).flat_basis() == old(self).flat_basis(),
            final(self).witness() == old(self).witness(),
            !r ==> *final(self) == *old(self),
            r ==> {
                &&& !final(self).is_open(slot.wire as int)
                &&& forall|i: int| i != slot.wire ==> #[trigger] final(self).is_open(i) == old(
                    self,
                ).is_open(i)
                &&& forall|z: spec_fn(int) -> u128| #[trigger]
                    final(self).holds(z) <==> old(self).holds(z) && z(slot.wire as int) == fmul(
                        a.at(z),
                        b.at(z),
                    )
            },
            r ==> final(self).shape() == old(self).shape().seal(slot.wire as nat, a@, b@),
    {
        reveal(Shape::seal);
        if slot.wire >= self.open_rows.len() || !self.open_rows[slot.wire] {
            return false;
        }
        let ghost before = *self;
        let ghost k = slot.wire as int;
        let row = Row { a: a.clone(), b: b.clone() };
        self.open_rows.set(slot.wire, false);
        self.rows.set(slot.wire, row);
        assert(self.shape().rows =~= before.shape().rows.update(k, RowForm { a: a@, b: b@ }));
        assert forall|z: spec_fn(int) -> u128| #[trigger]
            self.holds(z) <==> before.holds(z) && z(k) == fmul(a.at(z), b.at(z)) by {
            assert(before.open_rows@[k]);
            assert(before.rows@[k].holds(k, z));
            if self.holds(z) {
                assert(self.rows@[k].holds(k, z));
                assert forall|i: int| 0 <= i < before.rows@.len() implies #[trigger] before.rows@[i].holds(
                    i,
                    z,
                ) by {
                    if i != k {
                        assert(self.rows@[i].holds(i, z));
                    }
                }
            }
            if before.holds(z) && z(k) == fmul(a.at(z), b.at(z)) {
                assert forall|i: int| 0 <= i < self.rows@.len() implies #[trigger] self.rows@[i].holds(
                    i,
                    z,
                ) by {
                    if i != k {
                        assert(before.rows@[i].holds(i, z));
                    }
                }
            }
        }
        assert forall|i: int| 0 <= i < self.rows@.len() implies (#[trigger] self.rows@[i]).bounded(
            self.rows@.len(),
        ) by {
            if i != k {
                assert(before.rows@[i].bounded(before.rows@.len()));
            }
        }
        assert forall|i: int, z: spec_fn(int) -> u128|
            0 <= i < self.rows@.len() && #[trigger] self.open_rows@[i] implies #[trigger] self.rows@[i].holds(
            i,
            z,
        ) by {
            if i != k {
                assert(before.open_rows@[i]);
                assert(before.rows@[i].holds(i, z));
            }
        }
        true
    }

    /// Multiplies every later equation by `gate`, until `pop_pin_gate`.
    pub fn push_pin_gate(&mut self, gate: &LinExpr)
        requires
            old(self).wf(),
            gate.bound() <= old(self).wires(),
        ensures
            final(self).wf(),
            final(self).gate_list() == old(self).gate_list().push(gate@),
            final(self).wires() == old(self).wires(),
            final(self).flat_basis() == old(self).flat_basis(),
            final(self).witness() == old(self).witness(),
            forall|i: int| #[trigger] final(self).is_open(i) == old(self).is_open(i),
            forall|z: spec_fn(int) -> u128| #[trigger] final(self).holds(z) == old(self).holds(z),
            final(self).shape() == old(self).shape().gated(gate@),
    {
        reveal(Shape::gated);
        self.gates.push(gate.clone());
        assert(self.gate_list() == old(self).gate_list().push(gate@));
    }

    /// Ends the scope of the innermost gate.
    pub fn pop_pin_gate(&mut self)
        requires
            old(self).wf(),
            old(self).gate_list().len() > 0,
        ensures
            final(self).wf(),
            final(self).gate_list() == old(self).gate_list().drop_last(),
            final(self).wires() == old(self).wires(),
            final(self).flat_basis() == old(self).flat_basis(),
            final(self).witness() == old(self).witness(),
            forall|i: int| #[trigger] final(self).is_open(i) == old(self).is_open(i),
            forall|z: spec_fn(int) -> u128| #[trigger] final(self).holds(z) == old(self).holds(z),
            final(self).shape() == old(self).shape().ungated(),
    {
        reveal(Shape::ungated);
        let _gate = self.gates.pop();
        assert(self.gate_list() == old(self).gate_list().drop_last());
    }

    /// The current gates, outermost first.
    pub fn gates(&self) -> (r: &Vec<LinExpr>)
        ensures
            r@.map_values(|g: LinExpr| g@) == self.gate_list(),
            self.wf() ==> forall|i: int|
                0 <= i < r@.len() ==> (#[trigger] r@[i]).bound() <= self.wires(),
    {
        &self.gates
    }

    /// The finished system and its witness.
    pub fn build(self) -> (r: (FieldR1cs, Vec<F128>))
        requires
            self.wf(),
        ensures
            r.0.wf(),
            r.0.rows@.len() == self.wires(),
            r.1@.len() == self.wires(),
            assignment(r.1@) == self.witness(),
            forall|z: spec_fn(int) -> u128| #[trigger] r.0.holds(z) == self.holds(z),
    {
        (FieldR1cs { rows: self.rows }, self.values)
    }
}

} // verus!
