//! Multilinear extensions as rows: equality tensors, evaluations of tables,
//! products at Boolean points, and round polynomials.
use crate::circuit::{agree, group_agree, FieldR1csBuilder, LinExpr};
use crate::field::{
    fmul, lemma_fmul_assoc, lemma_fmul_comm, lemma_fmul_distrib, lemma_fmul_unit, lemma_xor,
    lemma_xor_swap, F128,
};
use crate::trace::refines;
use crate::tx_root::index_bit;
use crate::circuit::{const_form, form_add, form_add_const, forms, LinForm, Shape};
use crate::columns::free_step;
use crate::integer_program::{select_step, split_step, tensor_step};
use crate::trace::mul_step;
use crate::circuit::wire_form;
use vstd::arithmetic::power2::{lemma_pow2_pos, lemma_pow2_unfold, pow2};
use vstd::prelude::*;

verus! {

broadcast use group_agree;

/// The values of expressions under an assignment.
pub open spec fn values_at(es: Seq<LinExpr>, z: spec_fn(int) -> u128) -> Seq<u128> {
    Seq::new(es.len(), |i: int| es[i].at(z))
}

/// All expressions read wires below `n`.
pub open spec fn all_below(es: Seq<LinExpr>, n: nat) -> bool {
    forall|i: int| 0 <= i < es.len() ==> (#[trigger] es[i]).bound() <= n
}

/// The factor of one coordinate: the coordinate itself where the bit is set,
/// and one more than it where not.
pub open spec fn eq_factor(r: u128, set: bool) -> u128 {
    if set {
        r
    } else {
        r ^ 1
    }
}

/// The equality weight of the first `n` bits of `j` at a point: the product of
/// the factors of its coordinates.
pub open spec fn eq_weight(r: Seq<u128>, n: nat, j: int) -> u128
    decreases n,
{
    if n == 0 {
        1
    } else {
        fmul(eq_weight(r, (n - 1) as nat, j), eq_factor(r[n - 1], index_bit(j, n - 1)))
    }
}

/// The weighted sum of the first `k` entries of a table of `2^n`.
pub open spec fn weighted_sum(tab: Seq<u128>, r: Seq<u128>, n: nat, k: nat) -> u128
    decreases k,
{
    if k == 0 {
        0
    } else {
        weighted_sum(tab, r, n, (k - 1) as nat) ^ fmul(tab[k - 1], eq_weight(r, n, k - 1))
    }
}

/// The multilinear extension of a table at a point.
pub open spec fn mle(tab: Seq<u128>, r: Seq<u128>) -> u128 {
    weighted_sum(tab, r, r.len(), tab.len())
}

pub proof fn lemma_values_agree(
    es: Seq<LinExpr>,
    n: nat,
    z: spec_fn(int) -> u128,
    w: spec_fn(int) -> u128,
)
    requires
        all_below(es, n),
        agree(z, w, n),
    ensures
        values_at(es, z) == values_at(es, w),
{
    assert forall|i: int| 0 <= i < es.len() implies es[i].at(z) == es[i].at(w) by {
        assert(es[i].bound() <= n);
        assert(es[i]@.at(z) == es[i]@.at(w));
    }
    assert(values_at(es, z) =~= values_at(es, w));
}

/// Bits below `n` are those of the number modulo `2^n`, and bit `n` of
/// `j + 2^n` is set.
pub proof fn lemma_high_bit(j: int, n: nat, i: int)
    requires
        0 <= j < pow2(n),
        0 <= i < n,
    ensures
        index_bit(j + pow2(n), i) == index_bit(j, i),
        index_bit(j + pow2(n), n as int),
        !index_bit(j, n as int),
{
    lemma_pow2_pos(i as nat);
    lemma_pow2_pos(n);
    vstd::arithmetic::power2::lemma_pow2_adds((i + 1) as nat, (n - i - 1) as nat);
    lemma_pow2_unfold((i + 1) as nat);
    let p = pow2(i as nat) as int;
    let k = pow2((n - i - 1) as nat) as int;
    assert(pow2(n) == p * (2 * k)) by (nonlinear_arith)
        requires
            pow2(n) == pow2((i + 1) as nat) * k,
            pow2((i + 1) as nat) == 2 * p,
    ;
    vstd::arithmetic::div_mod::lemma_div_multiples_vanish_fancy(2 * k, 0, p);
    vstd::arithmetic::div_mod::lemma_hoist_over_denominator(j, 2 * k, p as nat);
    assert((2 * k) * p == p * (2 * k)) by (nonlinear_arith);
    assert((j + pow2(n)) / p == j / p + 2 * k);
    let q = pow2(n) as int;
    vstd::arithmetic::div_mod::lemma_basic_div(j, q);
    vstd::arithmetic::div_mod::lemma_hoist_over_denominator(j, 1, q as nat);
    assert(1 * q == q);
}

/// The weight only reads the first `n` bits.
pub proof fn lemma_weight_low(r: Seq<u128>, n: nat, m: nat, j: int)
    requires
        m <= n,
        0 <= j < pow2(n),
    ensures
        eq_weight(r, m, j + pow2(n)) == eq_weight(r, m, j),
    decreases m,
{
    if m > 0 {
        lemma_weight_low(r, n, (m - 1) as nat, j);
        lemma_high_bit(j, n, m - 1);
    }
}

/// Weights only depend on the first `n` coordinates.
pub proof fn lemma_weight_prefix(r: Seq<u128>, s: Seq<u128>, n: nat, j: int)
    requires
        n <= r.len(),
        n <= s.len(),
        forall|i: int| 0 <= i < n ==> r[i] == #[trigger] s[i],
    ensures
        eq_weight(r, n, j) == eq_weight(s, n, j),
    decreases n,
{
    if n > 0 {
        lemma_weight_prefix(r, s, (n - 1) as nat, j);
        assert(r[n - 1] == s[n - 1]);
    }
}

/// One more coordinate doubles the tensor: the lower half is reduced by the
/// product, the upper half is the product.
proof fn lemma_weight_split(r: Seq<u128>, n: nat, j: int)
    requires
        0 <= j < pow2(n),
    ensures
        eq_weight(r, n + 1, j) == eq_weight(r, n, j) ^ fmul(eq_weight(r, n, j), r[n as int]),
        eq_weight(r, n + 1, j + pow2(n)) == fmul(eq_weight(r, n, j), r[n as int]),
{
    lemma_weight_low(r, n, n, j);
    lemma_pow2_pos(n);
    if n > 0 {
        lemma_high_bit(j, n, 0);
    } else {
        vstd::arithmetic::power2::lemma2_to64();
        assert(j == 0);
        assert(index_bit(0, 0) == false && index_bit(1, 0) == true) by {
            assert(pow2(0) == 1);
            assert(0int / 1 == 0 && 1int / 1 == 1);
        }
    }
    let w = eq_weight(r, n, j);
    let x = r[n as int];
    lemma_fmul_distrib(x, 1, w);
    lemma_fmul_unit(w);
    lemma_xor(fmul(w, x), w, 0);
}

/// Expressions that are, under every assignment that satisfies `b`, the
/// equality tensor of a point.
pub open spec fn is_tensor(
    b: FieldR1csBuilder,
    es: Seq<LinExpr>,
    point: Seq<LinExpr>,
    n: nat,
) -> bool {
    forall|z: spec_fn(int) -> u128, j: int|
        b.holds(z) && 0 <= j < es.len() ==> #[trigger] es[j].at(z) == eq_weight(
            values_at(point, z),
            n,
            j,
        )
}

/// The same, under the witness.
pub open spec fn tensor_witness(
    b: FieldR1csBuilder,
    es: Seq<LinExpr>,
    r: Seq<u128>,
    n: nat,
) -> bool {
    forall|j: int|
        0 <= j < es.len() ==> #[trigger] es[j].at(b.witness()) == eq_weight(r, n, j)
}

/// Multiplies every entry of a tensor by one coordinate: the lower half keeps
/// the rest, the upper half takes the products.
fn extend_tensor(b: &mut FieldR1csBuilder, tensor: Vec<LinExpr>, coordinate: &LinExpr, Ghost(point): Ghost<Seq<LinExpr>>, Ghost(n): Ghost<nat>, Ghost(r): Ghost<Seq<u128>>) -> (t:
    Vec<LinExpr>)
    requires
        old(b).wf(),
        tensor@.len() == pow2(n),
        2 * pow2(n) <= usize::MAX,
        n < point.len(),
        point[n as int]@ == coordinate@,
        all_below(tensor@, old(b).wires()),
        coordinate.bound() <= old(b).wires(),
        r.len() == point.len(),
        coordinate.at(old(b).witness()) == r[n as int],
        is_tensor(*old(b), tensor@, point, n),
        tensor_witness(*old(b), tensor@, r, n),
    ensures
        refines(*final(b), *old(b)),
        final(b).honest() <==> old(b).honest(),
        t@.len() == pow2(n + 1),
        all_below(t@, final(b).wires()),
        is_tensor(*final(b), t@, point, n + 1),
        tensor_witness(*final(b), t@, r, n + 1),
        ({
            let (u, low, high) = split_step(
                old(b).shape(),
                forms(tensor@),
                coordinate@,
                tensor@.len(),
            );
            &&& final(b).shape() == u
            &&& forms(t@) == low + high
        }),
{
    reveal(split_step);
    let ghost entry = *b;
    assert(forms(Seq::<LinExpr>::empty()) =~= Seq::empty());
    let ghost b0 = *b;
    let len = tensor.len();
    proof {
        lemma_pow2_unfold(n + 1);
    }
    let mut low: Vec<LinExpr> = Vec::new();
    let mut high: Vec<LinExpr> = Vec::new();
    let mut j: usize = 0;
    while j < len
        invariant
            j <= len,
            len == tensor@.len(),
            len == pow2(n),
            b0.wf(),
            n < point.len(),
            point[n as int]@ == coordinate@,
            all_below(tensor@, b0.wires()),
            coordinate.bound() <= b0.wires(),
            r.len() == point.len(),
            coordinate.at(b0.witness()) == r[n as int],
            is_tensor(b0, tensor@, point, n),
            tensor_witness(b0, tensor@, r, n),
            refines(*b, b0),
            b.honest() <==> b0.honest(),
            low@.len() == j,
            high@.len() == j,
            all_below(low@, b.wires()),
            all_below(high@, b.wires()),
            forall|z: spec_fn(int) -> u128, i: int|
                b.holds(z) && 0 <= i < j ==> #[trigger] low@[i].at(z) == eq_weight(
                    values_at(point, z),
                    n + 1,
                    i,
                ),
            forall|z: spec_fn(int) -> u128, i: int|
                b.holds(z) && 0 <= i < j ==> #[trigger] high@[i].at(z) == eq_weight(
                    values_at(point, z),
                    n + 1,
                    i + pow2(n),
                ),
            forall|i: int|
                0 <= i < j ==> #[trigger] low@[i].at(b.witness()) == eq_weight(r, n + 1, i),
            forall|i: int|
                0 <= i < j ==> #[trigger] high@[i].at(b.witness()) == eq_weight(
                    r,
                    n + 1,
                    i + pow2(n),
                ),
            split_step(entry.shape(), forms(tensor@), coordinate@, j as nat) == (
                b.shape(),
                forms(low@),
                forms(high@),
            ),
        decreases len - j,
    {
        reveal(split_step);
        let ghost mid = *b;
        let ghost low0 = low@;
        let ghost high0 = high@;
        let ghost entry = tensor@[j as int];
        assert(entry.bound() <= b0.wires());
        let product = crate::trace::mul(b, &tensor[j], coordinate);
        let rest = tensor[j].add(&product);
        low.push(rest);
        high.push(product);
        proof {
            let w = b0.witness();
            assert(entry@.at(mid.witness()) == entry@.at(w));
            assert(coordinate@.at(mid.witness()) == coordinate@.at(w));
            assert(entry@.at(b.witness()) == entry@.at(w));
            assert(entry.at(w) == eq_weight(r, n, j as int));
            lemma_weight_split(r, n, j as int);
            assert forall|z: spec_fn(int) -> u128| #[trigger] b.holds(z) implies rest.at(z)
                == eq_weight(values_at(point, z), n + 1, j as int) && product.at(z) == eq_weight(
                values_at(point, z),
                n + 1,
                j + pow2(n),
            ) by {
                assert(mid.holds(z) && b0.holds(z));
                assert(entry.at(z) == eq_weight(values_at(point, z), n, j as int));
                assert(values_at(point, z)[n as int] == coordinate.at(z));
                lemma_weight_split(values_at(point, z), n, j as int);
            }
            assert forall|z: spec_fn(int) -> u128, i: int| b.holds(z) && 0 <= i < j + 1 implies #[trigger] low@[i].at(
                z,
            ) == eq_weight(values_at(point, z), n + 1, i) by {
                assert(mid.holds(z));
                if i < j {
                    assert(low@[i] == low0[i]);
                }
            }
            assert forall|z: spec_fn(int) -> u128, i: int| b.holds(z) && 0 <= i < j + 1 implies #[trigger] high@[i].at(
                z,
            ) == eq_weight(values_at(point, z), n + 1, i + pow2(n)) by {
                assert(mid.holds(z));
                if i < j {
                    assert(high@[i] == high0[i]);
                }
            }
            assert forall|i: int| 0 <= i < j + 1 implies #[trigger] low@[i].at(b.witness())
                == eq_weight(r, n + 1, i) by {
                if i < j {
                    assert(low@[i] == low0[i]);
                    assert(low0[i].bound() <= mid.wires());
                    assert(low0[i]@.at(b.witness()) == low0[i]@.at(mid.witness()));
                    assert(low0[i].at(mid.witness()) == eq_weight(r, n + 1, i));
                }
            }
            assert forall|i: int| 0 <= i < j + 1 implies #[trigger] high@[i].at(b.witness())
                == eq_weight(r, n + 1, i + pow2(n)) by {
                if i < j {
                    assert(high@[i] == high0[i]);
                    assert(high0[i].bound() <= mid.wires());
                    assert(high0[i]@.at(b.witness()) == high0[i]@.at(mid.witness()));
                    assert(high0[i].at(mid.witness()) == eq_weight(r, n + 1, i + pow2(n)));
                }
            }
        }
        j = j + 1;
    }
    let ghost lower = low@;
    let ghost upper = high@;
    let ghost low_forms = forms(low@);
    let ghost high_forms = forms(high@);
    low.append(&mut high);
    assert(forms(low@) =~= low_forms + high_forms);
    proof {
        assert(low@ == lower + upper);
        assert forall|z: spec_fn(int) -> u128, i: int| b.holds(z) && 0 <= i < low@.len() implies #[trigger] low@[i].at(
            z,
        ) == eq_weight(values_at(point, z), n + 1, i) by {
            if i < len {
                assert(low@[i] == lower[i]);
            } else {
                assert(low@[i] == upper[i - len]);
                assert(upper[i - len].at(z) == eq_weight(
                    values_at(point, z),
                    n + 1,
                    (i - len) + pow2(n),
                ));
            }
        }
        assert forall|i: int| 0 <= i < low@.len() implies #[trigger] low@[i].at(b.witness())
            == eq_weight(r, n + 1, i) by {
            if i < len {
                assert(low@[i] == lower[i]);
            } else {
                assert(low@[i] == upper[i - len]);
                assert(upper[i - len].at(b.witness()) == eq_weight(
                    r,
                    n + 1,
                    (i - len) + pow2(n),
                ));
            }
        }
        assert forall|i: int| 0 <= i < low@.len() implies (#[trigger] low@[i]).bound()
            <= b.wires() by {
            if i < len {
                assert(low@[i] == lower[i]);
            } else {
                assert(low@[i] == upper[i - len]);
            }
        }
    }
    low
}

/// The equality tensor of a point: `2^n` weights, the lowest coordinate in the
/// lowest bit.
pub fn eq_ind_partial_eval_trace(b: &mut FieldR1csBuilder, point: &Vec<LinExpr>) -> (t: Vec<
    LinExpr,
>)
    requires
        old(b).wf(),
        all_below(point@, old(b).wires()),
        pow2(point@.len()) <= usize::MAX,
    ensures
        refines(*final(b), *old(b)),
        final(b).honest() <==> old(b).honest(),
        t@.len() == pow2(point@.len()),
        all_below(t@, final(b).wires()),
        is_tensor(*final(b), t@, point@, point@.len()),
        tensor_witness(
            *final(b),
            t@,
            values_at(point@, old(b).witness()),
            point@.len(),
        ),
        tensor_step(old(b).shape(), forms(point@), point@.len()) == (final(b).shape(), forms(t@)),
{
    reveal(tensor_step);
    let ghost entry = *b;
    assert(forms(Seq::<LinExpr>::empty()) =~= Seq::empty());
    let ghost b0 = *b;
    let ghost r = values_at(point@, b0.witness());
    let mut tensor: Vec<LinExpr> = Vec::new();
    tensor.push(LinExpr::one());
    let mut i: usize = 0;
    proof {
        vstd::arithmetic::power2::lemma2_to64();
    }
    while i < point.len()
        invariant
            i <= point@.len(),
            b0.wf(),
            all_below(point@, b0.wires()),
            pow2(point@.len()) <= usize::MAX,
            r == values_at(point@, b0.witness()),
            refines(*b, b0),
            b.honest() <==> b0.honest(),
            tensor@.len() == pow2(i as nat),
            all_below(tensor@, b.wires()),
            is_tensor(*b, tensor@, point@, i as nat),
            tensor_witness(*b, tensor@, r, i as nat),
            tensor_step(entry.shape(), forms(point@), i as nat) == (b.shape(), forms(tensor@)),
        decreases point@.len() - i,
    {
        reveal(tensor_step);
        proof {
            lemma_pow2_unfold((i + 1) as nat);
            crate::dyadic::lemma_pow2_mono((i + 1) as nat, point@.len());
            assert(point@[i as int].bound() <= b0.wires());
            assert(point@[i as int]@.at(b.witness()) == point@[i as int]@.at(b0.witness()));
        }
        tensor = extend_tensor(b, tensor, &point[i], Ghost(point@), Ghost(i as nat), Ghost(r));
        i = i + 1;
    }
    tensor
}

/// The rows of an evaluation of a table at a point, and the value.
#[verifier::opaque]
pub open spec fn evaluate_step(s: Shape, tab: Seq<LinForm>, point: Seq<LinForm>) -> (Shape, LinForm) {
    let (t, eq) = tensor_step(s, point, point.len());
    select_step(t, tab, eq, tab.len())
}

/// A table at a point: the sum of its entries, each under its weight.
pub fn evaluate_slice_trace(
    b: &mut FieldR1csBuilder,
    tab: &Vec<LinExpr>,
    point: &Vec<LinExpr>,
) -> (r: LinExpr)
    requires
        old(b).wf(),
        all_below(tab@, old(b).wires()),
        all_below(point@, old(b).wires()),
        tab@.len() == pow2(point@.len()),
    ensures
        refines(*final(b), *old(b)),
        final(b).honest() <==> old(b).honest(),
        r.bound() <= final(b).wires(),
        forall|z: spec_fn(int) -> u128| #[trigger]
            final(b).holds(z) ==> r.at(z) == mle(values_at(tab@, z), values_at(point@, z)),
        r.at(final(b).witness()) == mle(
            values_at(tab@, old(b).witness()),
            values_at(point@, old(b).witness()),
        ),
        evaluate_step(old(b).shape(), forms(tab@), forms(point@)) == (final(b).shape(), r@),
{
    reveal(select_step);
    reveal(evaluate_step);
    let ghost b0 = *b;
    let ghost w = b0.witness();
    let size = tab.len();
    let eq = eq_ind_partial_eval_trace(b, point);
    let ghost b1 = *b;
    let ghost n = point@.len();
    let ghost shape1 = b.shape();
    let mut acc = LinExpr::zero();
    let mut k: usize = 0;
    while k < tab.len()
        invariant
            k <= tab@.len(),
            b0.wf(),
            b1.wf(),
            w == b0.witness(),
            n == point@.len(),
            all_below(tab@, b0.wires()),
            tab@.len() == eq@.len(),
            all_below(eq@, b1.wires()),
            is_tensor(b1, eq@, point@, n),
            tensor_witness(b1, eq@, values_at(point@, w), n),
            refines(b1, b0),
            refines(*b, b1),
            b.honest() <==> b0.honest(),
            acc.bound() <= b.wires(),
            forall|z: spec_fn(int) -> u128| #[trigger]
                b.holds(z) ==> acc.at(z) == weighted_sum(
                    values_at(tab@, z),
                    values_at(point@, z),
                    n,
                    k as nat,
                ),
            acc.at(b.witness()) == weighted_sum(
                values_at(tab@, w),
                values_at(point@, w),
                n,
                k as nat,
            ),
            select_step(shape1, forms(tab@), forms(eq@), k as nat) == (b.shape(), acc@),
        decreases tab@.len() - k,
    {
        reveal(select_step);
        let ghost mid = *b;
        let ghost acc0 = acc;
        let ghost entry = tab@[k as int];
        let ghost weight = eq@[k as int];
        assert(entry.bound() <= b0.wires());
        assert(weight.bound() <= b1.wires());
        let product = crate::trace::mul(b, &tab[k], &eq[k]);
        acc = acc.add(&product);
        proof {
            assert forall|z: spec_fn(int) -> u128| #[trigger] b.holds(z) implies acc.at(z)
                == weighted_sum(
                values_at(tab@, z),
                values_at(point@, z),
                n,
                (k + 1) as nat,
            ) by {
                assert(mid.holds(z) && b1.holds(z));
                assert(acc0.at(z) == weighted_sum(
                    values_at(tab@, z),
                    values_at(point@, z),
                    n,
                    k as nat,
                ));
                assert(weight.at(z) == eq_weight(values_at(point@, z), n, k as int));
                assert(values_at(tab@, z)[k as int] == entry.at(z));
            }
            assert(entry@.at(mid.witness()) == entry@.at(w));
            assert(weight@.at(mid.witness()) == weight@.at(b1.witness()));
            assert(weight.at(b1.witness()) == eq_weight(values_at(point@, w), n, k as int));
            assert(acc0@.at(b.witness()) == acc0@.at(mid.witness()));
            assert(values_at(tab@, w)[k as int] == entry.at(w));
        }
        k = k + 1;
    }
    proof {
        assert forall|z: spec_fn(int) -> u128| #[trigger] b.holds(z) implies acc.at(z) == mle(
            values_at(tab@, z),
            values_at(point@, z),
        ) by {
            assert(values_at(tab@, z).len() == tab@.len());
        }
    }
    acc
}

/// The product of `1 + x_i + y_i` over the first `n` coordinates.
pub open spec fn eq_product(x: Seq<u128>, y: Seq<u128>, n: nat) -> u128
    decreases n,
{
    if n == 0 {
        1
    } else {
        fmul(eq_product(x, y, (n - 1) as nat), (x[n - 1] ^ y[n - 1]) ^ 1)
    }
}

/// The rows of the equality of two points, up to coordinate `n`.
#[verifier::opaque]
pub open spec fn eq_ind_step(s: Shape, x: Seq<LinForm>, y: Seq<LinForm>, n: nat) -> (Shape, LinForm)
    decreases n,
{
    if n == 0 {
        (s, const_form(1))
    } else {
        let (t, acc) = eq_ind_step(s, x, y, (n - 1) as nat);
        mul_step(t, acc, form_add_const(form_add(x[n - 1], y[n - 1]), 1))
    }
}

/// The equality of two points: the product of `1 + x_i + y_i`.
pub fn eq_ind_trace(b: &mut FieldR1csBuilder, x: &Vec<LinExpr>, y: &Vec<LinExpr>) -> (r: LinExpr)
    requires
        old(b).wf(),
        x@.len() == y@.len(),
        all_below(x@, old(b).wires()),
        all_below(y@, old(b).wires()),
    ensures
        refines(*final(b), *old(b)),
        final(b).honest() <==> old(b).honest(),
        r.bound() <= final(b).wires(),
        forall|z: spec_fn(int) -> u128| #[trigger]
            final(b).holds(z) ==> r.at(z) == eq_product(
                values_at(x@, z),
                values_at(y@, z),
                x@.len(),
            ),
        r.at(final(b).witness()) == eq_product(
            values_at(x@, old(b).witness()),
            values_at(y@, old(b).witness()),
            x@.len(),
        ),
        eq_ind_step(old(b).shape(), forms(x@), forms(y@), x@.len()) == (final(b).shape(), r@),
{
    reveal(eq_ind_step);
    let ghost entry = *b;
    let ghost b0 = *b;
    let ghost w = b0.witness();
    let mut acc = LinExpr::one();
    let mut i: usize = 0;
    while i < x.len()
        invariant
            i <= x@.len(),
            b0.wf(),
            w == b0.witness(),
            x@.len() == y@.len(),
            all_below(x@, b0.wires()),
            all_below(y@, b0.wires()),
            refines(*b, b0),
            b.honest() <==> b0.honest(),
            acc.bound() <= b.wires(),
            forall|z: spec_fn(int) -> u128| #[trigger]
                b.holds(z) ==> acc.at(z) == eq_product(
                    values_at(x@, z),
                    values_at(y@, z),
                    i as nat,
                ),
            acc.at(b.witness()) == eq_product(values_at(x@, w), values_at(y@, w), i as nat),
            eq_ind_step(entry.shape(), forms(x@), forms(y@), i as nat) == (b.shape(), acc@),
        decreases x@.len() - i,
    {
        reveal(eq_ind_step);
        let ghost mid = *b;
        let ghost acc0 = acc;
        assert(x@[i as int].bound() <= b0.wires());
        assert(y@[i as int].bound() <= b0.wires());
        let factor = x[i].add(&y[i]).add_const(F128::one());
        acc = crate::trace::mul(b, &acc, &factor);
        proof {
            assert forall|z: spec_fn(int) -> u128| #[trigger] b.holds(z) implies acc.at(z)
                == eq_product(values_at(x@, z), values_at(y@, z), (i + 1) as nat) by {
                assert(mid.holds(z));
                assert(acc0.at(z) == eq_product(values_at(x@, z), values_at(y@, z), i as nat));
                assert(values_at(x@, z)[i as int] == x@[i as int].at(z));
                assert(values_at(y@, z)[i as int] == y@[i as int].at(z));
            }
            assert(factor@.at(mid.witness()) == factor@.at(w));
            assert(factor.at(w) == (x@[i as int].at(w) ^ y@[i as int].at(w)) ^ 1);
        }
        i = i + 1;
    }
    acc
}

/// The table that is left when the highest coordinate is set to `r`.
pub open spec fn fold_high(tab: Seq<u128>, r: u128) -> Seq<u128> {
    let half = tab.len() / 2;
    Seq::new(half, |i: int| tab[i] ^ fmul(r, tab[i] ^ tab[i + half]))
}

/// Folding away the highest coordinate keeps the value of the extension.
pub proof fn lemma_fold_high(tab: Seq<u128>, r: Seq<u128>)
    requires
        r.len() > 0,
        tab.len() == pow2(r.len()),
    ensures
        mle(tab, r) == mle(fold_high(tab, r.last()), r.drop_last()),
{
    let n = (r.len() - 1) as nat;
    lemma_pow2_unfold(r.len());
    let half = pow2(n);
    assert(tab.len() / 2 == half);
    lemma_sum_halves(tab, r, half);
    lemma_fold_sum(tab, r, half);
}

/// The weighted sum of both halves, entry by entry.
proof fn lemma_sum_halves(tab: Seq<u128>, r: Seq<u128>, k: nat)
    requires
        r.len() > 0,
        tab.len() == pow2(r.len()),
        k <= pow2((r.len() - 1) as nat),
    ensures
        weighted_sum(tab, r, r.len(), pow2((r.len() - 1) as nat) + k) == weighted_sum(
            tab,
            r,
            r.len(),
            pow2((r.len() - 1) as nat),
        ) ^ upper_sum(tab, r, k),
    decreases k,
{
    let half = pow2((r.len() - 1) as nat);
    if k == 0 {
        lemma_xor(weighted_sum(tab, r, r.len(), half), 0, 0);
    } else {
        lemma_sum_halves(tab, r, (k - 1) as nat);
        let a = weighted_sum(tab, r, r.len(), half);
        let u = upper_sum(tab, r, (k - 1) as nat);
        let t = fmul(tab[half + k - 1], eq_weight(r, r.len(), half + k - 1));
        lemma_xor(a, u, t);
        assert((half + k - 1) as nat == half + (k - 1) as nat);
        assert(weighted_sum(tab, r, r.len(), half + k) == weighted_sum(
            tab,
            r,
            r.len(),
            (half + k - 1) as nat,
        ) ^ t);
    }
}

/// The weighted sum of the first `k` entries of the upper half.
spec fn upper_sum(tab: Seq<u128>, r: Seq<u128>, k: nat) -> u128
    decreases k,
{
    if k == 0 {
        0
    } else {
        let half = pow2((r.len() - 1) as nat);
        upper_sum(tab, r, (k - 1) as nat) ^ fmul(
            tab[half + k - 1],
            eq_weight(r, r.len(), half + k - 1),
        )
    }
}

proof fn lemma_fold_sum(tab: Seq<u128>, r: Seq<u128>, k: nat)
    requires
        r.len() > 0,
        tab.len() == pow2(r.len()),
        k <= pow2((r.len() - 1) as nat),
    ensures
        weighted_sum(tab, r, r.len(), k) ^ upper_sum(tab, r, k) == weighted_sum(
            fold_high(tab, r.last()),
            r.drop_last(),
            (r.len() - 1) as nat,
            k,
        ),
        pow2(r.len()) == 2 * pow2((r.len() - 1) as nat),
    decreases k,
{
    let n = (r.len() - 1) as nat;
    lemma_pow2_unfold(r.len());
    let half = pow2(n);
    if k == 0 {
        lemma_xor(0, 0, 0);
    } else {
        lemma_fold_sum(tab, r, (k - 1) as nat);
        let j = k - 1;
        let x = tab[j];
        let y = tab[half + j];
        let c = r.last();
        let s = r.drop_last();
        lemma_weight_split(r, n, j);
        lemma_weight_prefix(r, s, n, j);
        let w = eq_weight(r, n, j);
        assert(half + k - 1 == j + pow2(n));
        let lo = fmul(x, w ^ fmul(w, c));
        let hi = fmul(y, fmul(w, c));
        assert(lo ^ hi == fmul(x ^ fmul(c, x ^ y), w)) by {
            lemma_fmul_distrib(w, fmul(w, c), x);
            let wc = fmul(w, c);
            lemma_fmul_distrib(x, y, wc);
            lemma_fmul_distrib(x, fmul(c, x ^ y), w);
            lemma_fmul_comm(w, c);
            lemma_fmul_assoc(x ^ y, c, w);
            lemma_fmul_comm(x ^ y, c);
            lemma_fmul_comm(x, w ^ wc);
            lemma_fmul_comm(x, w);
            lemma_xor(fmul(x, w), fmul(x, wc), fmul(y, wc));
            lemma_fmul_comm(fmul(c, x ^ y), w);
        }
        let a = weighted_sum(tab, r, r.len(), j as nat);
        let u = upper_sum(tab, r, j as nat);
        lemma_xor_swap(a, lo, u, hi);
        assert(fold_high(tab, c)[j] == x ^ fmul(c, x ^ y));
    }
}

/// The rows that fold a table of `half` pairs by a coordinate, up to entry `n`.
#[verifier::opaque]
pub open spec fn fold_step(s: Shape, tab: Seq<LinForm>, c: LinForm, half: nat, n: nat) -> (
    Shape,
    Seq<LinForm>,
)
    decreases n,
{
    if n == 0 {
        (s, Seq::empty())
    } else {
        let (t, r) = fold_step(s, tab, c, half, (n - 1) as nat);
        let (u, delta) = mul_step(t, c, form_add(tab[n - 1], tab[n - 1 + half]));
        (u, r.push(form_add(tab[n - 1], delta)))
    }
}

/// The rows that fold a table by the coordinates from the last down to `n`.
#[verifier::opaque]
pub open spec fn folds_step(s: Shape, tab: Seq<LinForm>, point: Seq<LinForm>, n: nat) -> (
    Shape,
    Seq<LinForm>,
)
    decreases point.len() - n,
{
    if n >= point.len() {
        (s, tab)
    } else {
        let (t, r) = folds_step(s, tab, point, n + 1);
        fold_step(t, r, point[n as int], r.len() / 2, r.len() / 2)
    }
}

/// The rows of an evaluation by folding, and the value.
#[verifier::opaque]
pub open spec fn mle_step(s: Shape, tab: Seq<LinForm>, point: Seq<LinForm>) -> (Shape, LinForm) {
    let (t, r) = folds_step(s, tab, point, 0);
    (t, r[0])
}

/// A table at a point by folding away the highest coordinate first: one row
/// fewer than the table has entries, if no entry and no coordinate is
/// constant.
pub fn mle_evaluate_small_trace(
    b: &mut FieldR1csBuilder,
    tab: &Vec<LinExpr>,
    point: &Vec<LinExpr>,
) -> (r: LinExpr)
    requires
        old(b).wf(),
        all_below(tab@, old(b).wires()),
        all_below(point@, old(b).wires()),
        tab@.len() == pow2(point@.len()),
    ensures
        refines(*final(b), *old(b)),
        final(b).honest() <==> old(b).honest(),
        r.bound() <= final(b).wires(),
        final(b).wires() < old(b).wires() + tab@.len(),
        forall|z: spec_fn(int) -> u128| #[trigger]
            final(b).holds(z) ==> r.at(z) == mle(values_at(tab@, z), values_at(point@, z)),
        r.at(final(b).witness()) == mle(
            values_at(tab@, old(b).witness()),
            values_at(point@, old(b).witness()),
        ),
        mle_step(old(b).shape(), forms(tab@), forms(point@)) == (final(b).shape(), r@),
{
    reveal(folds_step);
    reveal(mle_step);
    let ghost entry = *b;
    let ghost b0 = *b;
    let ghost w = b0.witness();
    let mut scratch: Vec<LinExpr> = Vec::new();
    let mut i: usize = 0;
    while i < tab.len()
        invariant
            i <= tab@.len(),
            scratch@.len() == i,
            forall|k: int| 0 <= k < i ==> (#[trigger] scratch@[k])@ == tab@[k]@,
            forms(scratch@) =~= forms(tab@).take(i as int),
        decreases tab@.len() - i,
    {
        scratch.push(tab[i].clone());
        i = i + 1;
        assert(forms(tab@).take(i as int) =~= forms(tab@).take(i - 1).push(tab@[i - 1]@));
    }
    assert(forms(scratch@) =~= forms(tab@));
    let mut n: usize = point.len();
    proof {
        assert forall|k: int| 0 <= k < scratch@.len() implies (#[trigger] scratch@[k]).bound()
            <= b0.wires() by {
            assert(tab@[k].bound() <= b0.wires());
        }
        assert forall|z: spec_fn(int) -> u128| values_at(scratch@, z) == #[trigger] values_at(
            tab@,
            z,
        ) by {
            assert forall|k: int| 0 <= k < tab@.len() implies scratch@[k].at(z) == tab@[k].at(z) by {
                assert(scratch@[k]@ == tab@[k]@);
            }
            assert(values_at(scratch@, z) =~= values_at(tab@, z));
        }
        assert(point@.take(n as int) =~= point@);
        lemma_pow2_pos(point@.len());
    }
    while n > 0
        invariant
            n <= point@.len(),
            b0.wf(),
            w == b0.witness(),
            all_below(point@, b0.wires()),
            scratch@.len() == pow2(n as nat),
            all_below(scratch@, b.wires()),
            refines(*b, b0),
            b.honest() <==> b0.honest(),
            b.wires() + scratch@.len() <= b0.wires() + tab@.len(),
            forall|z: spec_fn(int) -> u128| #[trigger]
                b.holds(z) ==> mle(
                    values_at(scratch@, z),
                    values_at(point@.take(n as int), z),
                ) == mle(values_at(tab@, z), values_at(point@, z)),
            mle(
                values_at(scratch@, b.witness()),
                values_at(point@.take(n as int), w),
            ) == mle(values_at(tab@, w), values_at(point@, w)),
            folds_step(entry.shape(), forms(tab@), forms(point@), n as nat) == (
                b.shape(),
                forms(scratch@),
            ),
        decreases n,
    {
        reveal(folds_step);
        let ghost mid = *b;
        let ghost m = (n - 1) as nat;
        let ghost old_scratch = scratch@;
        assert(point@[m as int].bound() <= b0.wires());
        scratch = fold_table(b, scratch, &point[n - 1], Ghost(m));
        proof {
            let c = point@[m as int];
            assert(point@.take(n as int).drop_last() =~= point@.take(m as int));
            assert forall|z: spec_fn(int) -> u128| #[trigger] b.holds(z) implies mle(
                values_at(scratch@, z),
                values_at(point@.take(m as int), z),
            ) == mle(values_at(tab@, z), values_at(point@, z)) by {
                assert(mid.holds(z));
                let r = values_at(point@.take(n as int), z);
                lemma_fold_high(values_at(old_scratch, z), r);
                assert(r.last() == c.at(z));
                assert(r.drop_last() =~= values_at(point@.take(m as int), z));
                assert(values_at(scratch@, z) == fold_high(values_at(old_scratch, z), c.at(z)));
            }
            let r = values_at(point@.take(n as int), w);
            assert(c@.at(mid.witness()) == c@.at(w));
            lemma_fold_high(values_at(old_scratch, mid.witness()), r);
            assert(r.last() == c.at(w));
            assert(r.drop_last() =~= values_at(point@.take(m as int), w));
        }
        n = n - 1;
    }
    proof {
        vstd::arithmetic::power2::lemma2_to64();
        assert(scratch@.len() == 1);
        assert forall|z: spec_fn(int) -> u128, s: Seq<u128>| s.len() == 0 implies #[trigger] mle(
            values_at(scratch@, z),
            s,
        ) == scratch@[0].at(z) by {
            let t = values_at(scratch@, z);
            assert(t.len() == 1);
            assert(weighted_sum(t, s, 0, 1) == weighted_sum(t, s, 0, 0) ^ fmul(
                t[0],
                eq_weight(s, 0, 0),
            ));
            lemma_fmul_unit(t[0]);
            lemma_xor(t[0], 0, 0);
        }
    }
    let r = scratch[0].clone();
    proof {
        assert forall|z: spec_fn(int) -> u128| #[trigger] b.holds(z) implies r.at(z) == mle(
            values_at(tab@, z),
            values_at(point@, z),
        ) by {
            let s = values_at(point@.take(0), z);
            assert(s.len() == 0);
            assert(mle(values_at(scratch@, z), s) == scratch@[0].at(z));
        }
        let s = values_at(point@.take(0), w);
        assert(s.len() == 0);
        assert(mle(values_at(scratch@, b.witness()), s) == scratch@[0].at(b.witness()));
    }
    r
}

/// Folds the upper half of a table into the lower half.
fn fold_table(b: &mut FieldR1csBuilder, tab: Vec<LinExpr>, c: &LinExpr, Ghost(m): Ghost<nat>) -> (r:
    Vec<LinExpr>)
    requires
        old(b).wf(),
        tab@.len() == pow2(m + 1),
        all_below(tab@, old(b).wires()),
        c.bound() <= old(b).wires(),
    ensures
        refines(*final(b), *old(b)),
        final(b).honest() <==> old(b).honest(),
        r@.len() == pow2(m),
        all_below(r@, final(b).wires()),
        final(b).wires() <= old(b).wires() + pow2(m),
        forall|z: spec_fn(int) -> u128| #[trigger]
            final(b).holds(z) ==> values_at(r@, z) == fold_high(values_at(tab@, z), c.at(z)),
        values_at(r@, final(b).witness()) == fold_high(
            values_at(tab@, old(b).witness()),
            c.at(old(b).witness()),
        ),
        fold_step(old(b).shape(), forms(tab@), c@, tab@.len() / 2, tab@.len() / 2) == (
            final(b).shape(),
            forms(r@),
        ),
{
    reveal(fold_step);
    let ghost entry = *b;
    assert(forms(Seq::<LinExpr>::empty()) =~= Seq::empty());
    let ghost b0 = *b;
    let ghost w = b0.witness();
    proof {
        lemma_pow2_unfold(m + 1);
    }
    let size = tab.len();
    let half = size / 2;
    let mut r: Vec<LinExpr> = Vec::new();
    let mut i: usize = 0;
    while i < half
        invariant
            i <= half,
            size == tab@.len(),
            2 * half == size,
            b0.wf(),
            w == b0.witness(),
            all_below(tab@, b0.wires()),
            c.bound() <= b0.wires(),
            refines(*b, b0),
            b.honest() <==> b0.honest(),
            b.wires() <= b0.wires() + i,
            r@.len() == i,
            all_below(r@, b.wires()),
            forall|z: spec_fn(int) -> u128, k: int|
                b.holds(z) && 0 <= k < i ==> #[trigger] r@[k].at(z) == tab@[k].at(z) ^ fmul(
                    c.at(z),
                    tab@[k].at(z) ^ tab@[k + half].at(z),
                ),
            forall|k: int|
                0 <= k < i ==> #[trigger] r@[k].at(b.witness()) == tab@[k].at(w) ^ fmul(
                    c.at(w),
                    tab@[k].at(w) ^ tab@[k + half].at(w),
                ),
            fold_step(entry.shape(), forms(tab@), c@, half as nat, i as nat) == (b.shape(), forms(r@)),
        decreases half - i,
    {
        reveal(fold_step);
        let ghost mid = *b;
        let ghost r0 = r@;
        let ghost x = tab@[i as int];
        let ghost y = tab@[i + half];
        assert(x.bound() <= b0.wires() && y.bound() <= b0.wires());
        let delta = tab[i].add(&tab[i + half]);
        let product = crate::trace::mul(b, c, &delta);
        let sum = tab[i].add(&product);
        r.push(sum);
        proof {
            assert(x@.at(mid.witness()) == x@.at(w));
            assert(y@.at(mid.witness()) == y@.at(w));
            assert(x@.at(b.witness()) == x@.at(w));
            assert(c@.at(mid.witness()) == c@.at(w));
            assert forall|z: spec_fn(int) -> u128, k: int| b.holds(z) && 0 <= k < i + 1 implies #[trigger] r@[k].at(
                z,
            ) == tab@[k].at(z) ^ fmul(c.at(z), tab@[k].at(z) ^ tab@[k + half].at(z)) by {
                assert(mid.holds(z));
                if k < i {
                    assert(r@[k] == r0[k]);
                } else {
                    assert(product.at(z) == fmul(c.at(z), delta.at(z)));
                }
            }
            assert forall|k: int| 0 <= k < i + 1 implies #[trigger] r@[k].at(b.witness())
                == tab@[k].at(w) ^ fmul(c.at(w), tab@[k].at(w) ^ tab@[k + half].at(w)) by {
                if k < i {
                    assert(r@[k] == r0[k]);
                    assert(r0[k].bound() <= mid.wires());
                    assert(r0[k]@.at(b.witness()) == r0[k]@.at(mid.witness()));
                    assert(r0[k].at(mid.witness()) == tab@[k].at(w) ^ fmul(
                        c.at(w),
                        tab@[k].at(w) ^ tab@[k + half].at(w),
                    ));
                }
            }
        }
        i = i + 1;
    }
    proof {
        assert forall|z: spec_fn(int) -> u128| #[trigger] b.holds(z) implies values_at(r@, z)
            == fold_high(values_at(tab@, z), c.at(z)) by {
            let t = values_at(tab@, z);
            assert(t.len() / 2 == half);
            assert forall|k: int| 0 <= k < half implies r@[k].at(z) == fold_high(t, c.at(z))[k] by {
                assert(r@[k].at(z) == tab@[k].at(z) ^ fmul(
                    c.at(z),
                    tab@[k].at(z) ^ tab@[k + half].at(z),
                ));
            }
            assert(values_at(r@, z) =~= fold_high(t, c.at(z)));
        }
        let t = values_at(tab@, w);
        assert(t.len() / 2 == half);
        assert forall|k: int| 0 <= k < half implies r@[k].at(b.witness()) == fold_high(
            t,
            c.at(w),
        )[k] by {
            assert(r@[k].at(b.witness()) == tab@[k].at(w) ^ fmul(
                c.at(w),
                tab@[k].at(w) ^ tab@[k + half].at(w),
            ));
        }
        assert(values_at(r@, b.witness()) =~= fold_high(t, c.at(w)));
    }
    r
}

/// Two numbers agree in their first `n` bits.
spec fn same_low_bits(n: nat, j: int, index: int) -> bool {
    forall|i: int| 0 <= i < n ==> #[trigger] index_bit(j, i) == index_bit(index, i)
}

/// The weight of `j` at the Boolean point of `index` is one where their bits
/// agree, and zero elsewhere.
proof fn lemma_boolean_weight(r: Seq<u128>, n: nat, index: int, j: int)
    requires
        n <= r.len(),
        forall|i: int|
            0 <= i < n ==> #[trigger] r[i] == if index_bit(index, i) {
                1u128
            } else {
                0u128
            },
    ensures
        eq_weight(r, n, j) == if same_low_bits(n, j, index) {
            1u128
        } else {
            0u128
        },
    decreases n,
{
    if n > 0 {
        lemma_boolean_weight(r, (n - 1) as nat, index, j);
        let f = eq_factor(r[n - 1], index_bit(j, n - 1));
        assert(r[n - 1] == if index_bit(index, n - 1) {
            1u128
        } else {
            0u128
        });
        lemma_xor(1, 1, 0);
        lemma_xor(1, 0, 0);
        lemma_fmul_unit(f);
        lemma_fmul_unit(eq_weight(r, (n - 1) as nat, j));
        if same_low_bits(n, j, index) {
            assert(index_bit(j, n - 1) == index_bit(index, n - 1));
            assert(same_low_bits((n - 1) as nat, j, index));
        }
    }
}

/// A Boolean point selects the entry that its bits name.
pub proof fn lemma_mle_selects(tab: Seq<u128>, r: Seq<u128>, index: int)
    requires
        tab.len() == pow2(r.len()),
        0 <= index < tab.len(),
        forall|i: int|
            0 <= i < r.len() ==> #[trigger] r[i] == if index_bit(index, i) {
                1u128
            } else {
                0u128
            },
    ensures
        mle(tab, r) == tab[index],
{
    lemma_select_sum(tab, r, index, tab.len());
}

proof fn lemma_select_sum(tab: Seq<u128>, r: Seq<u128>, index: int, k: nat)
    requires
        tab.len() == pow2(r.len()),
        0 <= index < tab.len(),
        k <= tab.len(),
        forall|i: int|
            0 <= i < r.len() ==> #[trigger] r[i] == if index_bit(index, i) {
                1u128
            } else {
                0u128
            },
    ensures
        weighted_sum(tab, r, r.len(), k) == if index < k {
            tab[index]
        } else {
            0
        },
    decreases k,
{
    if k > 0 {
        let j = k - 1;
        lemma_select_sum(tab, r, index, j as nat);
        lemma_boolean_weight(r, r.len(), index, j);
        lemma_fmul_unit(tab[j]);
        lemma_xor(tab[j], 0, 0);
        lemma_xor(tab[index], 0, 0);
        lemma_xor(0, 0, 0);
        if j == index {
            assert(same_low_bits(r.len(), j, index));
        } else if same_low_bits(r.len(), j, index) {
            crate::patterns::lemma_bits_determine(j, index, r.len());
        }
    }
}

/// The entry of a table that witness bits select, lowest bit first: one row
/// fewer than the table has entries.
pub fn select_by_bits(b: &mut FieldR1csBuilder, bits: &Vec<LinExpr>, arr: &Vec<LinExpr>) -> (r:
    LinExpr)
    requires
        old(b).wf(),
        all_below(arr@, old(b).wires()),
        all_below(bits@, old(b).wires()),
        arr@.len() == pow2(bits@.len()),
    ensures
        refines(*final(b), *old(b)),
        final(b).honest() <==> old(b).honest(),
        r.bound() <= final(b).wires(),
        final(b).wires() < old(b).wires() + arr@.len(),
        forall|z: spec_fn(int) -> u128, index: int|
            #![trigger final(b).holds(z), arr@[index]]
            final(b).holds(z) && 0 <= index < arr@.len() && (forall|i: int|
                0 <= i < bits@.len() ==> (#[trigger] bits@[i]).at(z) == if index_bit(index, i) {
                    1u128
                } else {
                    0u128
                }) ==> r.at(z) == arr@[index].at(z),
        r.at(final(b).witness()) == mle(
            values_at(arr@, old(b).witness()),
            values_at(bits@, old(b).witness()),
        ),
        mle_step(old(b).shape(), forms(arr@), forms(bits@)) == (final(b).shape(), r@),
{
    let r = mle_evaluate_small_trace(b, arr, bits);
    proof {
        assert forall|z: spec_fn(int) -> u128, index: int|
            #![trigger b.holds(z), arr@[index]]
            b.holds(z) && 0 <= index < arr@.len() && (forall|i: int|
                0 <= i < bits@.len() ==> (#[trigger] bits@[i]).at(z) == if index_bit(index, i) {
                    1u128
                } else {
                    0u128
                }) implies r.at(z) == arr@[index].at(z) by {
            let s = values_at(bits@, z);
            assert forall|i: int| 0 <= i < s.len() implies #[trigger] s[i] == if index_bit(
                index,
                i,
            ) {
                1u128
            } else {
                0u128
            } by {
                assert(s[i] == bits@[i].at(z));
            }
            lemma_mle_selects(values_at(arr@, z), s, index);
        }
    }
    r
}

/// The forms of `n` consecutive wires.
pub open spec fn forms_from(first: nat, n: nat) -> Seq<LinForm> {
    Seq::new(n, |i: int| wire_form((first + i) as nat))
}

/// A wire per value, each carrying the flat image of a tower value.
pub fn alloc_blocks(b: &mut FieldR1csBuilder, values: &[u128]) -> (r: Vec<LinExpr>)
    requires
        old(b).wf(),
    ensures
        final(b).extends(old(b)),
        final(b).wires() == old(b).wires() + values@.len(),
        forall|z: spec_fn(int) -> u128| #[trigger] final(b).holds(z) <==> old(b).holds(z),
        final(b).honest() <==> old(b).honest(),
        r@.len() == values@.len(),
        forall|i: int, z: spec_fn(int) -> u128|
            0 <= i < r@.len() ==> #[trigger] r@[i].at(z) == z(old(b).wires() + i),
        all_below(r@, final(b).wires()),
        forall|i: int|
            0 <= i < r@.len() ==> #[trigger] r@[i].at(final(b).witness()) == old(b).flat_basis().flat(values@[i]),
        final(b).shape() == free_step(old(b).shape(), values@.len()),
        forms(r@) == forms_from(old(b).wires(), values@.len()),
{
    reveal(free_step);
    assert(forms(Seq::<LinExpr>::empty()) =~= forms_from(b.wires(), 0));
    let ghost b0 = *b;
    let mut r: Vec<LinExpr> = Vec::new();
    let mut i: usize = 0;
    while i < values.len()
        invariant
            i <= values@.len(),
            b0.wf(),
            b.extends(&b0),
            b.wires() == b0.wires() + i,
            forall|z: spec_fn(int) -> u128| #[trigger] b.holds(z) <==> b0.holds(z),
            r@.len() == i,
            forall|k: int, z: spec_fn(int) -> u128|
                0 <= k < i ==> #[trigger] r@[k].at(z) == z(b0.wires() + k),
            all_below(r@, b.wires()),
            forall|k: int|
                0 <= k < i ==> #[trigger] b.witness()(b0.wires() + k) == b0.flat_basis().flat(
                    values@[k],
                ),
            b.shape() == free_step(b0.shape(), i as nat),
            forms(r@) == forms_from(b0.wires(), i as nat),
        decreases values@.len() - i,
    {
        reveal(free_step);
        let ghost mid = *b;
        let ghost r0 = r@;
        let e = crate::development_allocation::alloc_block(b, values[i]);
        r.push(e);
        proof {
            assert forall|k: int| 0 <= k < i + 1 implies #[trigger] b.witness()(b0.wires() + k)
                == b0.flat_basis().flat(values@[k]) by {
                if k < i {
                    assert(b.witness()(b0.wires() + k) == mid.witness()(b0.wires() + k));
                } else {
                    assert(e.at(b.witness()) == b.witness()(b0.wires() + k));
                }
            }
            assert forall|k: int, z: spec_fn(int) -> u128| 0 <= k < i + 1 implies #[trigger] r@[k].at(
                z,
            ) == z(b0.wires() + k) by {
                if k < i {
                    assert(r@[k] == r0[k]);
                }
            }
        }
        i = i + 1;
        assert(forms(r@) =~= forms_from(b0.wires(), i as nat));
    }
    r
}

} // verus!
