//! Products at Boolean points with shared prefixes, and round polynomials
//! whose linear coefficient is implied.
use crate::circuit::{group_agree, FieldR1csBuilder, LinExpr};
use crate::field::{fmul, lemma_fmul_unit, lemma_xor, F128};
use crate::mle_trace::{all_below, eq_factor, eq_weight, values_at};
use crate::trace::refines;
use crate::tx_root::index_bit;
use std::collections::HashMap;
use crate::circuit::{const_form, form_add, form_add_const, forms, LinForm, Shape};
use crate::columns::free_step;
use crate::mle_trace::forms_from;
use crate::trace::mul_step;
use vstd::arithmetic::power2::{lemma_pow2_pos, lemma_pow2_unfold, pow2};
use vstd::prelude::*;

verus! {

broadcast use {group_agree, vstd::std_specs::hash::group_hash_axioms};

/// Products of equality factors over one point, shared between all Boolean
/// points with the same low bits.
pub struct BooleanPointEqCache {
    pub r: Vec<LinExpr>,
    /// The product of the first `depth` factors of `index`, under the key
    /// `2^depth + index`.
    pub memo: HashMap<u64, LinExpr>,
}

/// The product of the first `depth` factors of `index`.
pub open spec fn is_product(
    b: FieldR1csBuilder,
    e: LinExpr,
    r: Seq<LinExpr>,
    depth: nat,
    index: int,
) -> bool {
    &&& e.bound() <= b.wires()
    &&& forall|z: spec_fn(int) -> u128| #[trigger]
        b.holds(z) ==> e.at(z) == eq_weight(values_at(r, z), depth, index)
    &&& e.at(b.witness()) == eq_weight(values_at(r, b.witness()), depth, index)
}

/// The key of a product.
pub open spec fn cache_key(depth: nat, index: int) -> u64 {
    (pow2(depth) + index) as u64
}

impl BooleanPointEqCache {
    /// The coordinates are wires of `b`, and every stored product is the
    /// product of its key.
    pub open spec fn wf(&self, b: FieldR1csBuilder) -> bool {
        &&& 1 <= self.r@.len() <= 63
        &&& all_below(self.r@, b.wires())
        &&& forall|depth: nat, index: int|
            1 <= depth <= self.r@.len() && 0 <= index < pow2(depth) && self.memo@.contains_key(
                #[trigger] cache_key(depth, index),
            ) ==> is_product(b, self.memo@[cache_key(depth, index)], self.r@, depth, index)
    }

    /// An empty cache over a point.
    pub fn new(r: Vec<LinExpr>) -> (c: BooleanPointEqCache)
        ensures
            c.r@ == r@,
            c.memo@ == Map::<u64, LinExpr>::empty(),
    {
        BooleanPointEqCache { r, memo: HashMap::new() }
    }
}

proof fn lemma_key_range(depth: nat)
    requires
        depth <= 63,
    ensures
        2 * pow2(depth) <= u64::MAX + 1,
{
    lemma_pow2_unfold(depth + 1);
    crate::dyadic::lemma_pow2_mono(depth + 1, 64);
    vstd::arithmetic::power2::lemma2_to64_rest();
}

proof fn lemma_key_unique(depth: nat, index: int, other: nat, other_index: int)
    requires
        0 <= index < pow2(depth),
        0 <= other_index < pow2(other),
        pow2(depth) + index == pow2(other) + other_index,
    ensures
        depth == other,
        index == other_index,
{
    if depth < other {
        crate::dyadic::lemma_pow2_mono(depth + 1, other);
        lemma_pow2_unfold(depth + 1);
    }
    if other < depth {
        crate::dyadic::lemma_pow2_mono(other + 1, depth);
        lemma_pow2_unfold(other + 1);
    }
}

/// Products stay products when the builder grows.
proof fn lemma_product_kept(
    after: FieldR1csBuilder,
    before: FieldR1csBuilder,
    e: LinExpr,
    r: Seq<LinExpr>,
    depth: nat,
    index: int,
)
    requires
        before.wf(),
        refines(after, before),
        all_below(r, before.wires()),
        is_product(before, e, r, depth, index),
    ensures
        is_product(after, e, r, depth, index),
{
    crate::mle_trace::lemma_values_agree(
        r,
        before.wires(),
        after.witness(),
        before.witness(),
    );
    assert(e@.at(after.witness()) == e@.at(before.witness()));
    assert forall|z: spec_fn(int) -> u128| #[trigger] after.holds(z) implies e.at(z) == eq_weight(
        values_at(r, z),
        depth,
        index,
    ) by {
        assert(before.holds(z));
    }
}

/// What the products of a cache read.
pub open spec fn memo_forms(memo: Map<u64, LinExpr>) -> Map<u64, LinForm> {
    memo.map_values(|e: LinExpr| e@)
}

/// The rows of the first `depth` factors of an index, the products known
/// afterwards, and the product itself. A known product records nothing.
#[verifier::opaque]
pub open spec fn eq_index_step(
    s: Shape,
    memo: Map<u64, LinForm>,
    r: Seq<LinForm>,
    index: int,
    depth: nat,
) -> (Shape, Map<u64, LinForm>, LinForm)
    decreases depth,
{
    if depth == 0 {
        (s, memo, const_form(1))
    } else {
        let (t, known, below) = eq_index_step(s, memo, r, index, (depth - 1) as nat);
        let key = cache_key(depth, index % pow2(depth) as int);
        if known.contains_key(key) {
            (t, known, known[key])
        } else {
            let factor = if (index / pow2((depth - 1) as nat) as int) % 2 == 1 {
                r[depth - 1]
            } else {
                form_add_const(r[depth - 1], 1)
            };
            let (u, product) = if depth == 1 {
                (t, factor)
            } else {
                mul_step(t, below, factor)
            };
            (u, known.insert(key, product), product)
        }
    }
}

proof fn lemma_submap(a: Map<u64, LinForm>, b: Map<u64, LinForm>, c: Map<u64, LinForm>)
    requires
        a.submap_of(b),
        b.submap_of(c),
    ensures
        a.submap_of(c),
{
    assert forall|k: u64| #[trigger] a.dom().contains(k) implies c.dom().contains(k) && a[k]
        == c[k] by {
        assert(b.dom().contains(k));
    }
}

/// The known products only grow, and hold the last one.
proof fn lemma_memo_grows(
    s: Shape,
    memo: Map<u64, LinForm>,
    r: Seq<LinForm>,
    index: int,
    depth: nat,
)
    ensures
        memo.submap_of(eq_index_step(s, memo, r, index, depth).1),
        depth > 0 ==> ({
            let (t, known, e) = eq_index_step(s, memo, r, index, depth);
            let key = cache_key(depth, index % pow2(depth) as int);
            known.contains_key(key) && known[key] == e
        }),
    decreases depth,
{
    reveal(eq_index_step);
    if depth > 0 {
        lemma_memo_grows(s, memo, r, index, (depth - 1) as nat);
        let key = cache_key(depth, index % pow2(depth) as int);
        let known = eq_index_step(s, memo, r, index, (depth - 1) as nat).1;
        assert(known.submap_of(eq_index_step(s, memo, r, index, depth).1));
        lemma_submap(memo, known, eq_index_step(s, memo, r, index, depth).1);
    }
}

/// Asking for a known index again gives the same product, records no row and
/// changes nothing: whatever builder is at hand and whatever else was asked
/// in between.
pub proof fn lemma_known_index(
    s: Shape,
    memo: Map<u64, LinForm>,
    r: Seq<LinForm>,
    index: int,
    depth: nat,
    later: Shape,
    known: Map<u64, LinForm>,
)
    requires
        eq_index_step(s, memo, r, index, depth).1.submap_of(known),
    ensures
        eq_index_step(later, known, r, index, depth) == (
            later,
            known,
            eq_index_step(s, memo, r, index, depth).2,
        ),
    decreases depth,
{
    reveal(eq_index_step);
    if depth > 0 {
        let below = eq_index_step(s, memo, r, index, (depth - 1) as nat);
        lemma_memo_grows(s, memo, r, index, depth);
        assert(below.1.submap_of(eq_index_step(s, memo, r, index, depth).1));
        lemma_submap(below.1, eq_index_step(s, memo, r, index, depth).1, known);
        lemma_known_index(s, memo, r, index, (depth - 1) as nat, later, known);
        let key = cache_key(depth, index % pow2(depth) as int);
        assert(known.contains_key(key));
    }
}

impl BooleanPointEqCache {
    /// The cache stays valid when the builder grows.
    pub proof fn lemma_kept(&self, after: FieldR1csBuilder, before: FieldR1csBuilder)
        requires
            before.wf(),
            refines(after, before),
            self.wf(before),
        ensures
            self.wf(after),
    {
        assert forall|i: int| 0 <= i < self.r@.len() implies (#[trigger] self.r@[i]).bound()
            <= after.wires() by {
            assert(self.r@[i].bound() <= before.wires());
        }
        assert forall|depth: nat, index: int|
            1 <= depth <= self.r@.len() && 0 <= index < pow2(depth) && self.memo@.contains_key(
                #[trigger] cache_key(depth, index),
            ) implies is_product(
            after,
            self.memo@[cache_key(depth, index)],
            self.r@,
            depth,
            index,
        ) by {
            lemma_product_kept(
                after,
                before,
                self.memo@[cache_key(depth, index)],
                self.r@,
                depth,
                index,
            );
        }
    }

    /// The product of all factors of a Boolean index, from the cache as far as
    /// it is known.
    pub fn eq_at_index(&mut self, b: &mut FieldR1csBuilder, index: u64) -> (e: LinExpr)
        requires
            old(b).wf(),
            old(self).wf(*old(b)),
            index < pow2(old(self).r@.len()),
        ensures
            refines(*final(b), *old(b)),
            final(b).honest() <==> old(b).honest(),
            final(self).wf(*final(b)),
            final(self).r@ == old(self).r@,
            is_product(*final(b), e, old(self).r@, old(self).r@.len(), index as int),
            eq_index_step(
                old(b).shape(),
                memo_forms(old(self).memo@),
                forms(old(self).r@),
                index as int,
                old(self).r@.len(),
            ) == (final(b).shape(), memo_forms(final(self).memo@), e@),
    {
        reveal(eq_index_step);
        let ghost known0 = memo_forms(self.memo@);
        let ghost b0 = *b;
        let ghost r = self.r@;
        let n = self.r.len();
        let mut e = LinExpr::one();
        let mut depth: usize = 0;
        let mut size: u64 = 1;
        proof {
            vstd::arithmetic::power2::lemma2_to64();
            assert(is_product(*b, e, r, 0, 0));
        }
        let mut low: u64 = 0;
        let mut rest: u64 = index;
        proof {
            assert(index as int / 1 == index as int);
        }
        while depth < n
            invariant
                depth <= n,
                n == r.len(),
                1 <= n <= 63,
                self.r@ == r,
                b0.wf(),
                b.wf(),
                refines(*b, b0),
                b.honest() <==> b0.honest(),
                self.wf(*b),
                size == pow2(depth as nat),
                low < size,
                index == low + size * rest,
                rest == index as int / pow2(depth as nat) as int,
                is_product(*b, e, r, depth as nat, low as int),
                forall|i: int|
                    0 <= i < depth ==> #[trigger] index_bit(low as int, i) == index_bit(
                        index as int,
                        i,
                    ),
                index < pow2(r.len()),
                low == index as int % pow2(depth as nat) as int,
                eq_index_step(b0.shape(), known0, forms(r), index as int, depth as nat) == (
                    b.shape(),
                    memo_forms(self.memo@),
                    e@,
                ),
            decreases n - depth,
        {
            reveal(eq_index_step);
            let ghost memo_before = self.memo@;
            let ghost mid = *b;
            let ghost low0 = low as int;
            let ghost mut next: int = 0;
            let ghost d = depth as nat;
            proof {
                lemma_pow2_unfold(d + 1);
                lemma_key_range(d + 1);
                next = lemma_step(index as int, low0, d, rest as int);
            }
            let set = rest % 2 == 1;
            if set {
                low = low + size;
            }
            size = 2 * size;
            rest = rest / 2;
            proof {
                assert(low as int == next);
                assert forall|i: int| 0 <= i < d + 1 implies #[trigger] index_bit(low as int, i)
                    == index_bit(index as int, i) by {
                    assert(index_bit(next, i) == index_bit(index as int, i));
                }
                assert(low < size);
                assert(cache_key(d + 1, low as int) == size + low);
            }
            let key: u64 = size + low;
            let known = match self.memo.get(&key) {
                Some(product) => Some(product.clone()),
                None => None,
            };
            match known {
                Some(product) => {
                    proof {
                        assert(self.memo@.contains_key(key));
                        assert(is_product(*b, self.memo@[key], r, d + 1, low as int));
                        lemma_product_view(*b, product, self.memo@[key], r, d + 1, low as int);
                    }
                    e = product;
                },
                None => {
                    let below = e;
                    assert(r[depth as int].bound() <= b.wires());
                    let factor = if set {
                        self.r[depth].clone()
                    } else {
                        self.r[depth].add_const(F128::one())
                    };
                    let product = if depth == 0 {
                        factor.clone()
                    } else {
                        crate::trace::mul(b, &below, &factor)
                    };
                    proof {
                        lemma_next_product(
                            *b,
                            mid,
                            below,
                            factor,
                            product,
                            r,
                            d,
                            low0,
                            low as int,
                            set,
                        );
                        self.lemma_kept(*b, mid);
                    }
                    let copy = product.clone();
                    proof {
                        lemma_product_view(*b, copy, product, r, d + 1, low as int);
                    }
                    let ghost memo0 = self.memo@;
                    self.memo.insert(key, copy);
                    proof {
                        assert forall|dd: nat, ii: int|
                            1 <= dd <= r.len() && 0 <= ii < pow2(dd) && self.memo@.contains_key(
                                #[trigger] cache_key(dd, ii),
                            ) implies is_product(
                            *b,
                            self.memo@[cache_key(dd, ii)],
                            r,
                            dd,
                            ii,
                        ) by {
                            if cache_key(dd, ii) == key {
                                lemma_key_range(dd);
                                lemma_key_unique(dd, ii, d + 1, low as int);
                            } else {
                                assert(memo0.contains_key(cache_key(dd, ii)));
                            }
                        }
                    }
                    e = product;
                },
            }
            depth = depth + 1;
            proof {
                assert(size == pow2(depth as nat));
            }
            proof {
                vstd::arithmetic::div_mod::lemma_fundamental_div_mod_converse(
                    index as int,
                    size as int,
                    rest as int,
                    low as int,
                );
                assert(forms(r)[depth - 1] == r[depth - 1]@);
                if memo_before.contains_key(key) {
                    assert(memo_forms(memo_before).contains_key(key));
                } else {
                    assert(!memo_forms(memo_before).contains_key(key));
                    assert(memo_forms(self.memo@) =~= memo_forms(memo_before).insert(key, e@));
                }
            }
        }
        proof {
            assert(rest == 0) by {
                vstd::arithmetic::div_mod::lemma_basic_div(index as int, pow2(r.len()) as int);
            }
            assert(size * rest == 0) by (nonlinear_arith)
                requires
                    rest == 0,
            ;
            assert(low == index);
        }
        e
    }
}

/// Equal forms are the same product.
proof fn lemma_product_view(
    b: FieldR1csBuilder,
    x: LinExpr,
    y: LinExpr,
    r: Seq<LinExpr>,
    depth: nat,
    index: int,
)
    requires
        x@ == y@,
        is_product(b, y, r, depth, index),
    ensures
        is_product(b, x, r, depth, index),
{
    assert forall|z: spec_fn(int) -> u128| #[trigger] b.holds(z) implies x.at(z) == eq_weight(
        values_at(r, z),
        depth,
        index,
    ) by {
        assert(y.at(z) == x.at(z));
    }
    assert(x.at(b.witness()) == y.at(b.witness()));
}

/// How the low part of an index grows by one bit.
proof fn lemma_step(index: int, low: int, d: nat, rest: int) -> (next: int)
    requires
        0 <= low < pow2(d),
        0 <= rest,
        index == low + pow2(d) * rest,
        rest == index / pow2(d) as int,
        forall|i: int|
            0 <= i < d ==> #[trigger] index_bit(low, i) == index_bit(index, i),
    ensures
        rest / 2 == index / pow2(d + 1) as int,
        rest % 2 == 1 ==> next == low + pow2(d),
        rest % 2 != 1 ==> next == low,
        0 <= next < pow2(d + 1),
        index == next + pow2(d + 1) * (rest / 2),
        index_bit(next, d as int) == (rest % 2 == 1),
        forall|i: int| 0 <= i < d + 1 ==> #[trigger] index_bit(next, i) == index_bit(index, i),
{
    lemma_pow2_unfold(d + 1);
    lemma_pow2_pos(d);
    let p = pow2(d) as int;
    vstd::arithmetic::div_mod::lemma_div_denominator(index, p, 2);
    assert(p * 2 == pow2(d + 1));
    let next = if rest % 2 == 1 {
        low + p
    } else {
        low
    };
    assert(p * rest == p * (rest % 2) + (2 * p) * (rest / 2)) by (nonlinear_arith)
        requires
            rest == 2 * (rest / 2) + rest % 2,
    ;
    assert(p * (rest % 2) == if rest % 2 == 1 {
        p
    } else {
        0
    }) by (nonlinear_arith)
        requires
            rest % 2 == 0 || rest % 2 == 1,
    ;
    assert forall|i: int| 0 <= i < d implies #[trigger] index_bit(next, i) == index_bit(low, i) by {
        if rest % 2 == 1 {
            crate::mle_trace::lemma_high_bit(low, d, i);
        }
    }
    assert(index_bit(next, d as int) == (rest % 2 == 1)) by {
        vstd::arithmetic::div_mod::lemma_basic_div(low, p);
        if rest % 2 == 1 {
            vstd::arithmetic::div_mod::lemma_hoist_over_denominator(low, 1, p as nat);
            assert(1 * p == p);
        }
    }
    assert forall|i: int| 0 <= i < d + 1 implies #[trigger] index_bit(next, i) == index_bit(
        index,
        i,
    ) by {
        if i < d {
            assert(index_bit(low, i) == index_bit(index, i));
        }
    }
    next
}

/// One more factor makes the next product.
proof fn lemma_next_product(
    b: FieldR1csBuilder,
    mid: FieldR1csBuilder,
    below: LinExpr,
    factor: LinExpr,
    product: LinExpr,
    r: Seq<LinExpr>,
    d: nat,
    low: int,
    next: int,
    set: bool,
)
    requires
        mid.wf(),
        refines(b, mid),
        d < r.len(),
        all_below(r, mid.wires()),
        is_product(mid, below, r, d, low),
        0 <= low < pow2(d),
        next == if set {
            low + pow2(d)
        } else {
            low
        },
        factor.bound() <= mid.wires(),
        forall|z: spec_fn(int) -> u128| #[trigger]
            factor.at(z) == eq_factor(r[d as int].at(z), set),
        product.bound() <= b.wires(),
        d == 0 ==> product@ == factor@,
        d > 0 ==> (forall|z: spec_fn(int) -> u128| #[trigger]
            b.holds(z) ==> product.at(z) == fmul(below.at(z), factor.at(z))),
        d > 0 ==> product.at(b.witness()) == fmul(
            below.at(mid.witness()),
            factor.at(mid.witness()),
        ),
        index_bit(next, d as int) == set,
    ensures
        is_product(b, product, r, d + 1, next),
{
    let w = mid.witness();
    crate::mle_trace::lemma_values_agree(r, mid.wires(), b.witness(), w);
    assert forall|z: spec_fn(int) -> u128| #[trigger]
        values_at(r, z).len() == r.len() implies eq_weight(values_at(r, z), d + 1, next) == fmul(
        eq_weight(values_at(r, z), d, low),
        factor.at(z),
    ) by {
        let v = values_at(r, z);
        assert(v[d as int] == r[d as int].at(z));
        if set {
            crate::mle_trace::lemma_weight_low(v, d, d, low);
        }
    }
    assert forall|z: spec_fn(int) -> u128| #[trigger] b.holds(z) implies product.at(z) == eq_weight(
        values_at(r, z),
        d + 1,
        next,
    ) by {
        assert(mid.holds(z));
        assert(values_at(r, z).len() == r.len());
        if d == 0 {
            assert(product.at(z) == factor.at(z));
            lemma_fmul_unit(factor.at(z));
        }
    }
    assert(values_at(r, w).len() == r.len());
    if d == 0 {
        assert(product.at(b.witness()) == factor.at(b.witness()));
        assert(factor@.at(b.witness()) == factor@.at(w));
        lemma_fmul_unit(factor.at(w));
    }
}

/// The value at `x` of the polynomial with these coefficients from `from` on,
/// lowest first.
pub open spec fn poly_from(coeffs: Seq<u128>, x: u128, from: int) -> u128
    decreases coeffs.len() - from,
{
    if from >= coeffs.len() {
        0
    } else {
        coeffs[from] ^ fmul(poly_from(coeffs, x, from + 1), x)
    }
}

/// The sum of the coefficients from `from` on.
pub open spec fn coeff_sum(coeffs: Seq<u128>, from: int) -> u128
    decreases coeffs.len() - from,
{
    if from >= coeffs.len() {
        0
    } else {
        coeffs[from] ^ coeff_sum(coeffs, from + 1)
    }
}

/// All coefficients of a round polynomial: the transmitted ones without the
/// linear one, and the linear one that the running claim implies.
pub open spec fn full_coeffs(sent: Seq<u128>, claim: u128) -> Seq<u128> {
    seq![sent[0], claim ^ coeff_sum(sent, 1)] + sent.subrange(1, sent.len() as int)
}

proof fn lemma_poly_zero(coeffs: Seq<u128>)
    requires
        coeffs.len() > 0,
    ensures
        poly_from(coeffs, 0, 0) == coeffs[0],
{
    lemma_fmul_unit(poly_from(coeffs, 0, 1));
    lemma_xor(coeffs[0], 0, 0);
}

proof fn lemma_poly_one(coeffs: Seq<u128>, from: int)
    requires
        0 <= from,
    ensures
        poly_from(coeffs, 1, from) == coeff_sum(coeffs, from),
    decreases coeffs.len() - from,
{
    if from < coeffs.len() {
        lemma_poly_one(coeffs, from + 1);
        lemma_fmul_unit(poly_from(coeffs, 1, from + 1));
    }
}

proof fn lemma_sum_shift(x: Seq<u128>, y: Seq<u128>, from: int, by: int)
    requires
        0 <= from,
        y.len() == x.len() + by,
        0 <= from + by,
        forall|i: int| from <= i < x.len() ==> #[trigger] x[i] == y[i + by],
    ensures
        coeff_sum(x, from) == coeff_sum(y, from + by),
    decreases x.len() - from,
{
    if from < x.len() {
        assert(x[from] == y[from + by]);
        lemma_sum_shift(x, y, from + 1, by);
    }
}

/// A round polynomial meets its claim by construction: its values at zero and
/// one add up to it.
pub proof fn lemma_round_identity(sent: Seq<u128>, claim: u128)
    requires
        sent.len() > 0,
    ensures
        poly_from(full_coeffs(sent, claim), 0, 0) ^ poly_from(full_coeffs(sent, claim), 1, 0)
            == claim,
{
    let full = full_coeffs(sent, claim);
    lemma_poly_zero(full);
    lemma_poly_one(full, 0);
    assert forall|i: int| 1 <= i < sent.len() implies #[trigger] sent[i] == full[i + 1] by {}
    lemma_sum_shift(sent, full, 1, 1);
    let rest = coeff_sum(sent, 1);
    assert(coeff_sum(full, 0) == full[0] ^ coeff_sum(full, 1));
    assert(coeff_sum(full, 1) == full[1] ^ coeff_sum(full, 2));
    lemma_xor(claim, rest, 0);
    lemma_xor(full[0], claim, 0);
}

/// A univariate round polynomial as it is sent: `[c_0, c_2, .., c_d]`. The
/// linear coefficient follows from the running claim.
pub struct RoundPolyTrace {
    pub coeffs_no_linear: Vec<LinExpr>,
}

/// The sum of the coefficients from `i` on.
#[verifier::opaque]
pub open spec fn rest_form(coeffs: Seq<LinForm>, i: nat) -> LinForm
    decreases coeffs.len() - i,
{
    if i >= coeffs.len() {
        const_form(0)
    } else {
        form_add(coeffs[i as int], rest_form(coeffs, i + 1))
    }
}

/// The rows of an evaluation from the top coefficient down to `k`.
#[verifier::opaque]
pub open spec fn horner_rows(
    s: Shape,
    coeffs: Seq<LinForm>,
    linear: LinForm,
    x: LinForm,
    k: nat,
) -> (Shape, LinForm)
    decreases coeffs.len() - k,
{
    if k >= coeffs.len() {
        (s, const_form(0))
    } else {
        let (t, acc) = horner_rows(s, coeffs, linear, x, k + 1);
        let (u, p) = mul_step(t, acc, x);
        if k > 0 {
            (u, form_add(coeffs[k as int], p))
        } else {
            let (v, q) = mul_step(u, form_add(linear, p), x);
            (v, form_add(coeffs[0], q))
        }
    }
}

/// The rows of a round polynomial at a point, and its value.
#[verifier::opaque]
pub open spec fn round_step(s: Shape, coeffs: Seq<LinForm>, claim: LinForm, x: LinForm) -> (
    Shape,
    LinForm,
) {
    horner_rows(s, coeffs, form_add(claim, rest_form(coeffs, 1)), x, 0)
}

impl RoundPolyTrace {
    /// Allocates the coefficients of a polynomial of the expected degree.
    pub fn allocate(b: &mut FieldR1csBuilder, coeffs: &[u128], expected_degree: usize) -> (r:
        RoundPolyTrace)
        requires
            old(b).wf(),
            coeffs@.len() == expected_degree,
        ensures
            final(b).extends(old(b)),
            forall|z: spec_fn(int) -> u128| #[trigger] final(b).holds(z) <==> old(b).holds(z),
            final(b).honest() <==> old(b).honest(),
            r.coeffs_no_linear@.len() == expected_degree,
            all_below(r.coeffs_no_linear@, final(b).wires()),
            forall|i: int|
                0 <= i < expected_degree ==> #[trigger] r.coeffs_no_linear@[i].at(
                    final(b).witness(),
                ) == old(b).flat_basis().flat(coeffs@[i]),
            final(b).shape() == free_step(old(b).shape(), coeffs@.len()),
            forms(r.coeffs_no_linear@) == forms_from(old(b).wires(), coeffs@.len()),
    {
        RoundPolyTrace { coeffs_no_linear: crate::mle_trace::alloc_blocks(b, coeffs) }
    }

    /// The value at `x` of the polynomial that meets `claim`.
    pub fn evaluate_reconstructed(&self, b: &mut FieldR1csBuilder, claim: &LinExpr, x: &LinExpr) -> (r:
        LinExpr)
        requires
            old(b).wf(),
            self.coeffs_no_linear@.len() > 0,
            all_below(self.coeffs_no_linear@, old(b).wires()),
            claim.bound() <= old(b).wires(),
            x.bound() <= old(b).wires(),
        ensures
            refines(*final(b), *old(b)),
            final(b).honest() <==> old(b).honest(),
            r.bound() <= final(b).wires(),
            forall|z: spec_fn(int) -> u128| #[trigger]
                final(b).holds(z) ==> r.at(z) == poly_from(
                    full_coeffs(values_at(self.coeffs_no_linear@, z), claim.at(z)),
                    x.at(z),
                    0,
                ),
            r.at(final(b).witness()) == poly_from(
                full_coeffs(
                    values_at(self.coeffs_no_linear@, old(b).witness()),
                    claim.at(old(b).witness()),
                ),
                x.at(old(b).witness()),
                0,
            ),
            round_step(old(b).shape(), forms(self.coeffs_no_linear@), claim@, x@) == (
                final(b).shape(),
                r@,
            ),
    {
        reveal(rest_form);
        reveal(horner_rows);
        reveal(round_step);
        let ghost entry = *b;
        let ghost cs = forms(self.coeffs_no_linear@);
        let ghost b0 = *b;
        let ghost w = b0.witness();
        let ghost sent = self.coeffs_no_linear@;
        let n = self.coeffs_no_linear.len();
        let mut rest = LinExpr::zero();
        let mut i: usize = n;
        while i > 1
            invariant
                1 <= i <= n,
                n == sent.len(),
                sent == self.coeffs_no_linear@,
                all_below(sent, b0.wires()),
                rest.bound() <= b0.wires(),
                forall|z: spec_fn(int) -> u128| #[trigger]
                    rest.at(z) == coeff_sum(values_at(sent, z), i as int),
                cs == forms(self.coeffs_no_linear@),
                rest@ == rest_form(cs, i as nat),
            decreases i,
        {
            reveal(rest_form);
            let ghost rest0 = rest;
            i = i - 1;
            assert(sent[i as int].bound() <= b0.wires());
            rest = self.coeffs_no_linear[i].add(&rest);
            proof {
                assert forall|z: spec_fn(int) -> u128| #[trigger] rest.at(z) == coeff_sum(
                    values_at(sent, z),
                    i as int,
                ) by {
                    assert(rest0.at(z) == coeff_sum(values_at(sent, z), i + 1));
                    assert(values_at(sent, z)[i as int] == sent[i as int].at(z));
                }
            }
        }
        let linear = claim.add(&rest);
        let mut acc = LinExpr::zero();
        let mut k: usize = n;
        while k > 0
            invariant
                k <= n,
                n == sent.len(),
                n > 0,
                sent == self.coeffs_no_linear@,
                b0.wf(),
                w == b0.witness(),
                all_below(sent, b0.wires()),
                linear.bound() <= b0.wires(),
                x.bound() <= b0.wires(),
                forall|z: spec_fn(int) -> u128| #[trigger]
                    linear.at(z) == claim.at(z) ^ coeff_sum(values_at(sent, z), 1),
                refines(*b, b0),
                b.honest() <==> b0.honest(),
                acc.bound() <= b.wires(),
                forall|z: spec_fn(int) -> u128| #[trigger]
                    b.holds(z) ==> acc.at(z) == poly_from(
                        full_coeffs(values_at(sent, z), claim.at(z)),
                        x.at(z),
                        if k == 0 {
                            0
                        } else {
                            k + 1
                        },
                    ),
                acc.at(b.witness()) == poly_from(
                    full_coeffs(values_at(sent, w), claim.at(w)),
                    x.at(w),
                    if k == 0 {
                        0
                    } else {
                        k + 1
                    },
                ),
                cs == forms(self.coeffs_no_linear@),
                horner_rows(entry.shape(), cs, linear@, x@, k as nat) == (b.shape(), acc@),
            decreases k,
        {
            reveal(horner_rows);
            k = k - 1;
            if k > 0 {
                assert(sent[k as int].bound() <= b0.wires());
                acc = horner_step(
                    b,
                    acc,
                    &self.coeffs_no_linear[k],
                    x,
                    Ghost(|z: spec_fn(int) -> u128| full_coeffs(values_at(sent, z), claim.at(z))),
                    Ghost(k + 1),
                    Ghost(b0),
                );
            } else {
                acc = horner_step(
                    b,
                    acc,
                    &linear,
                    x,
                    Ghost(|z: spec_fn(int) -> u128| full_coeffs(values_at(sent, z), claim.at(z))),
                    Ghost(1),
                    Ghost(b0),
                );
                assert(sent[0].bound() <= b0.wires());
                acc = horner_step(
                    b,
                    acc,
                    &self.coeffs_no_linear[0],
                    x,
                    Ghost(|z: spec_fn(int) -> u128| full_coeffs(values_at(sent, z), claim.at(z))),
                    Ghost(0),
                    Ghost(b0),
                );
            }
        }
        acc
    }
}

/// One step of the evaluation from the highest coefficient down.
fn horner_step(
    b: &mut FieldR1csBuilder,
    acc: LinExpr,
    coeff: &LinExpr,
    x: &LinExpr,
    Ghost(coeffs): Ghost<spec_fn(spec_fn(int) -> u128) -> Seq<u128>>,
    Ghost(at): Ghost<int>,
    Ghost(b0): Ghost<FieldR1csBuilder>,
) -> (r: LinExpr)
    requires
        b0.wf(),
        old(b).wf(),
        refines(*old(b), b0),
        old(b).honest() <==> b0.honest(),
        acc.bound() <= old(b).wires(),
        coeff.bound() <= b0.wires(),
        x.bound() <= b0.wires(),
        0 <= at,
        forall|z: spec_fn(int) -> u128| #[trigger] coeffs(z).len() > at,
        forall|z: spec_fn(int) -> u128| #[trigger] coeff.at(z) == coeffs(z)[at],
        forall|z: spec_fn(int) -> u128| #[trigger]
            old(b).holds(z) ==> acc.at(z) == poly_from(coeffs(z), x.at(z), at + 1),
        acc.at(old(b).witness()) == poly_from(
            coeffs(b0.witness()),
            x.at(b0.witness()),
            at + 1,
        ),
    ensures
        refines(*final(b), b0),
        final(b).wf(),
        final(b).honest() <==> b0.honest(),
        r.bound() <= final(b).wires(),
        forall|z: spec_fn(int) -> u128| #[trigger]
            final(b).holds(z) ==> r.at(z) == poly_from(coeffs(z), x.at(z), at),
        r.at(final(b).witness()) == poly_from(coeffs(b0.witness()), x.at(b0.witness()), at),
        ({
            let (u, p) = mul_step(old(b).shape(), acc@, x@);
            &&& final(b).shape() == u
            &&& r@ == form_add(coeff@, p)
        }),
{
    let ghost mid = *b;
    let ghost w = b0.witness();
    let product = crate::trace::mul(b, &acc, x);
    let r = coeff.add(&product);
    proof {
        assert forall|z: spec_fn(int) -> u128| #[trigger] b.holds(z) implies r.at(z) == poly_from(
            coeffs(z),
            x.at(z),
            at,
        ) by {
            assert(mid.holds(z));
            assert(coeffs(z).len() > at);
            assert(coeff.at(z) == coeffs(z)[at]);
        }
        assert(coeffs(w).len() > at);
        assert(coeff.at(w) == coeffs(w)[at]);
        assert(x@.at(mid.witness()) == x@.at(w));
        assert(coeff@.at(b.witness()) == coeff@.at(w));
    }
    r
}

/// A reduced claim: a point and the value at it.
pub struct BatchEvalReductionTrace {
    pub point: Vec<LinExpr>,
    pub value: LinExpr,
}

} // verus!
