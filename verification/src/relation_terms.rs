//! The terms of the column relations that a walk is reduced by.
//!
//! A term multiplies a coefficient by cells of columns. The coefficients are
//! the weights of the four lanes under one challenge, so that a relation is
//! fixed by which lane weighs which cells.
use crate::circuit::{group_agree, FieldR1csBuilder, LinExpr};
use crate::duplex_union::DuplexFamilyRefs;
use crate::field::{fmul, lemma_xor, F128};
use crate::meta_region::STATE_SIZE;
use crate::mle_trace::{all_below, values_at};
use crate::trace::refines;
use crate::circuit::{const_form, form_add, form_scale, forms, LinForm, Shape};
use crate::trace::mul_step;
use vstd::prelude::*;

verus! {

broadcast use group_agree;

/// A cell that a term reads: of a committed column on the same slot, one slot
/// back or two slots back, of an output lane, of a fixed pattern, or of a
/// strided window.
#[derive(Clone, Copy, Debug, PartialEq, Eq, Structural)]
pub enum ColRef {
    Committed(usize),
    CommittedShift(usize),
    CommittedShift2(usize),
    Internal(usize),
    Fixed(usize),
    Window { col: usize, stride_log: usize, offset: usize },
}

/// A coefficient times a product of cells.
#[derive(Debug)]
pub struct RelationTerm {
    pub coeff: F128,
    pub factors: Vec<ColRef>,
}

/// The same with a coefficient that is an expression.
pub struct RelationTermTrace {
    pub coeff: LinExpr,
    pub factors: Vec<ColRef>,
}

/// A term as values.
pub struct TermView {
    pub coeff: u128,
    pub factors: Seq<ColRef>,
}

impl RelationTerm {
    pub open spec fn view(&self) -> TermView {
        TermView { coeff: self.coeff@, factors: self.factors@ }
    }
}

impl RelationTermTrace {
    pub open spec fn at(&self, z: spec_fn(int) -> u128) -> TermView {
        TermView { coeff: self.coeff.at(z), factors: self.factors@ }
    }
}

pub open spec fn term_views(terms: Seq<RelationTerm>) -> Seq<TermView> {
    Seq::new(terms.len(), |i: int| terms[i].view())
}

pub open spec fn trace_views(terms: Seq<RelationTermTrace>, z: spec_fn(int) -> u128) -> Seq<
    TermView,
> {
    Seq::new(terms.len(), |i: int| terms[i].at(z))
}

/// The product of the first `n` cells of a term.
pub open spec fn cells_at(factors: Seq<ColRef>, cell: spec_fn(ColRef) -> u128, n: nat) -> u128
    decreases n,
{
    if n == 0 {
        1
    } else {
        fmul(cells_at(factors, cell, (n - 1) as nat), cell(factors[n - 1]))
    }
}

pub open spec fn term_at(t: TermView, cell: spec_fn(ColRef) -> u128) -> u128 {
    fmul(t.coeff, cells_at(t.factors, cell, t.factors.len()))
}

/// The value of a relation where its cells are given.
pub open spec fn sum_at(ts: Seq<TermView>, cell: spec_fn(ColRef) -> u128) -> u128
    decreases ts.len(),
{
    if ts.len() == 0 {
        0
    } else {
        sum_at(ts.drop_last(), cell) ^ term_at(ts.last(), cell)
    }
}

pub proof fn lemma_sum_append(a: Seq<TermView>, c: Seq<TermView>, cell: spec_fn(ColRef) -> u128)
    ensures
        sum_at(a + c, cell) == sum_at(a, cell) ^ sum_at(c, cell),
    decreases c.len(),
{
    if c.len() == 0 {
        assert(a + c =~= a);
        lemma_xor(sum_at(a, cell), 0, 0);
    } else {
        lemma_sum_append(a, c.drop_last(), cell);
        assert((a + c).drop_last() =~= a + c.drop_last());
        assert((a + c).last() == c.last());
        lemma_xor(sum_at(a, cell), sum_at(c.drop_last(), cell), term_at(c.last(), cell));
    }
}

/// A term whose coefficient is the weight of a lane: an optional fixed gate
/// times an optional cell.
#[derive(Clone, Copy, Debug, PartialEq, Eq, Structural)]
pub struct LaneTerm {
    pub lane: usize,
    pub gate: Option<usize>,
    pub column: Option<ColRef>,
}

impl LaneTerm {
    pub open spec fn factors(self) -> Seq<ColRef> {
        let gate = match self.gate {
            Some(g) => seq![ColRef::Fixed(g)],
            None => seq![],
        };
        match self.column {
            Some(c) => gate.push(c),
            None => gate,
        }
    }

    pub fn to_factors(&self) -> (r: Vec<ColRef>)
        ensures
            r@ == self.factors(),
    {
        let mut r: Vec<ColRef> = Vec::new();
        if let Some(g) = self.gate {
            r.push(ColRef::Fixed(g));
        }
        if let Some(c) = self.column {
            r.push(c);
        }
        assert(r@ =~= self.factors());
        r
    }

    pub open spec fn weighted(self, m: Seq<u128>) -> TermView {
        TermView { coeff: m[self.lane as int], factors: self.factors() }
    }
}

/// A gate times a cell, in a lane.
pub open spec fn gated_cell(lane: int, gate: int, column: ColRef) -> LaneTerm {
    LaneTerm { lane: lane as usize, gate: Some(gate as usize), column: Some(column) }
}

/// A fixed pattern, in a lane.
pub open spec fn fixed_cell(lane: int, gate: int) -> LaneTerm {
    LaneTerm { lane: lane as usize, gate: Some(gate as usize), column: None }
}

/// An ungated cell, in a lane.
pub open spec fn plain_cell(lane: int, column: ColRef) -> LaneTerm {
    LaneTerm { lane: lane as usize, gate: None, column: Some(column) }
}

pub open spec fn committed(column: int) -> ColRef {
    ColRef::Committed(column as usize)
}

pub open spec fn shifted(column: int) -> ColRef {
    ColRef::CommittedShift(column as usize)
}

/// The terms under the weights `m`.
pub open spec fn weighted(ts: Seq<LaneTerm>, m: Seq<u128>) -> Seq<TermView> {
    Seq::new(ts.len(), |i: int| ts[i].weighted(m))
}

/// Every lane is one of the four.
pub open spec fn lanes_ok(ts: Seq<LaneTerm>) -> bool {
    forall|i: int| 0 <= i < ts.len() ==> (#[trigger] ts[i]).lane < STATE_SIZE
}

fn gated(lane: usize, gate: usize, column: ColRef) -> (r: LaneTerm)
    ensures
        r == gated_cell(lane as int, gate as int, column),
{
    LaneTerm { lane, gate: Some(gate), column: Some(column) }
}

fn fixed(lane: usize, gate: usize) -> (r: LaneTerm)
    ensures
        r == fixed_cell(lane as int, gate as int),
{
    LaneTerm { lane, gate: Some(gate), column: None }
}

fn plain(lane: usize, column: ColRef) -> (r: LaneTerm)
    ensures
        r == plain_cell(lane as int, column),
{
    LaneTerm { lane, gate: None, column: Some(column) }
}

/// Lane terms under values.
pub(crate) fn weigh(ts: &Vec<LaneTerm>, m: &Vec<F128>) -> (r: Vec<RelationTerm>)
    requires
        m@.len() == STATE_SIZE,
        lanes_ok(ts@),
    ensures
        term_views(r@) == weighted(ts@, weight_values(m@)),
{
    let mut r: Vec<RelationTerm> = Vec::new();
    let mut i: usize = 0;
    while i < ts.len()
        invariant
            i <= ts@.len(),
            m@.len() == STATE_SIZE,
            lanes_ok(ts@),
            r@.len() == i,
            forall|k: int|
                0 <= k < i ==> (#[trigger] r@[k]).view() == ts@[k].weighted(weight_values(m@)),
        decreases ts@.len() - i,
    {
        let t = ts[i];
        assert(ts@[i as int].lane < STATE_SIZE);
        let factors = t.to_factors();
        r.push(RelationTerm { coeff: m[t.lane], factors });
        i = i + 1;
    }
    assert(term_views(r@) =~= weighted(ts@, weight_values(m@)));
    r
}

pub open spec fn weight_values(m: Seq<F128>) -> Seq<u128> {
    m.map_values(|f: F128| f@)
}

/// Lane terms under expressions.
pub(crate) fn weigh_trace(ts: &Vec<LaneTerm>, m: &Vec<LinExpr>) -> (r: Vec<RelationTermTrace>)
    requires
        m@.len() == STATE_SIZE,
        lanes_ok(ts@),
    ensures
        r@.len() == ts@.len(),
        forall|i: int|
            0 <= i < r@.len() ==> (#[trigger] r@[i]).coeff@ == m@[ts@[i].lane as int]@,
        forall|z: spec_fn(int) -> u128| #[trigger]
            trace_views(r@, z) == weighted(ts@, values_at(m@, z)),
{
    let mut r: Vec<RelationTermTrace> = Vec::new();
    let mut i: usize = 0;
    while i < ts.len()
        invariant
            i <= ts@.len(),
            m@.len() == STATE_SIZE,
            lanes_ok(ts@),
            r@.len() == i,
            forall|k: int|
                0 <= k < i ==> (#[trigger] r@[k]).coeff@ == m@[ts@[k].lane as int]@
                    && r@[k].factors@ == ts@[k].factors(),
        decreases ts@.len() - i,
    {
        let t = ts[i];
        assert(ts@[i as int].lane < STATE_SIZE);
        let factors = t.to_factors();
        let coeff = m[t.lane].clone();
        r.push(RelationTermTrace { coeff, factors });
        i = i + 1;
    }
    proof {
        assert forall|z: spec_fn(int) -> u128| #[trigger] trace_views(r@, z) == weighted(
            ts@,
            values_at(m@, z),
        ) by {
            assert forall|k: int| 0 <= k < r@.len() implies (#[trigger] r@[k]).at(z)
                == ts@[k].weighted(values_at(m@, z)) by {
                assert(ts@[k].lane < STATE_SIZE);
                assert(r@[k].coeff@ == m@[ts@[k].lane as int]@);
                assert(values_at(m@, z)[ts@[k].lane as int] == m@[ts@[k].lane as int].at(z));
            }
            assert(trace_views(r@, z) =~= weighted(ts@, values_at(m@, z)));
        }
    }
    r
}

// ---------------------------------------------------------------------------
// The weights of the lanes.
// ---------------------------------------------------------------------------
/// The mixing matrix of the permutation, row by row, in the field.
pub struct MdsTable {
    pub entries: [F128; 16],
}

impl MdsTable {
    pub open spec fn entry(&self, e: int, j: int) -> u128 {
        self.entries@[4 * e + j]@
    }
}

/// A power of a challenge.
pub open spec fn power(alpha: u128, k: nat) -> u128
    decreases k,
{
    if k == 0 {
        1
    } else {
        fmul(power(alpha, (k - 1) as nat), alpha)
    }
}

/// The sum of `alpha^(e + 1) MDS[e][j]` over the first `n` rows.
pub open spec fn lane_weight(mds: MdsTable, alpha: u128, j: int, n: nat) -> u128
    decreases n,
{
    if n == 0 {
        0
    } else {
        lane_weight(mds, alpha, j, (n - 1) as nat) ^ fmul(power(alpha, n), mds.entry(n - 1, j))
    }
}

/// The weights of the four lanes.
pub open spec fn lane_weights(mds: MdsTable, alpha: u128) -> Seq<u128> {
    Seq::new(STATE_SIZE as nat, |j: int| lane_weight(mds, alpha, j, STATE_SIZE as nat))
}

/// The weights of the four lanes under a challenge.
pub fn duplex_mds_weights(mds: &MdsTable, alpha: F128) -> (m: Vec<F128>)
    ensures
        weight_values(m@) == lane_weights(*mds, alpha@),
{
    let mut m: Vec<F128> = Vec::new();
    let mut j: usize = 0;
    while j < STATE_SIZE
        invariant
            j <= STATE_SIZE,
            m@.len() == j,
            forall|k: int|
                0 <= k < j ==> (#[trigger] m@[k])@ == lane_weight(
                    *mds,
                    alpha@,
                    k,
                    STATE_SIZE as nat,
                ),
        decreases STATE_SIZE - j,
    {
        let mut acc = F128::zero();
        let mut pw = F128::one();
        let mut e: usize = 0;
        while e < STATE_SIZE
            invariant
                e <= STATE_SIZE,
                j < STATE_SIZE,
                pw@ == power(alpha@, e as nat),
                acc@ == lane_weight(*mds, alpha@, j as int, e as nat),
            decreases STATE_SIZE - e,
        {
            pw = pw.times(alpha);
            acc = acc.plus(pw.times(mds.entries[4 * e + j]));
            e = e + 1;
        }
        m.push(acc);
        j = j + 1;
    }
    assert(weight_values(m@) =~= lane_weights(*mds, alpha@));
    m
}

/// The rows of the first `n` powers of a form, and the powers.
#[verifier::opaque]
pub open spec fn powers_step(s: Shape, alpha: LinForm, n: nat) -> (Shape, Seq<LinForm>)
    decreases n,
{
    if n == 0 {
        (s, Seq::empty())
    } else {
        let (t, powers) = powers_step(s, alpha, (n - 1) as nat);
        let last = if n == 1 {
            const_form(1)
        } else {
            powers.last()
        };
        let (u, next) = mul_step(t, last, alpha);
        (u, powers.push(next))
    }
}

/// The weight of one lane: the first `n` powers, weighed by a column of the table.
#[verifier::opaque]
pub open spec fn mds_form(mds: MdsTable, powers: Seq<LinForm>, j: int, n: nat) -> LinForm
    decreases n,
{
    if n == 0 {
        const_form(0)
    } else {
        form_add(
            mds_form(mds, powers, j, (n - 1) as nat),
            form_scale(powers[n - 1], mds.entries@[4 * (n - 1) + j]@),
        )
    }
}

/// The weights of the four lanes.
pub open spec fn mds_forms(mds: MdsTable, powers: Seq<LinForm>) -> Seq<LinForm> {
    Seq::new(4, |j: int| mds_form(mds, powers, j, 4))
}

/// The weights as rows, with the powers of the challenge.
pub fn mds_alpha_weights(b: &mut FieldR1csBuilder, mds: &MdsTable, alpha: &LinExpr) -> (r: (
    Vec<LinExpr>,
    Vec<LinExpr>,
))
    requires
        old(b).wf(),
        alpha.bound() <= old(b).wires(),
    ensures
        refines(*final(b), *old(b)),
        final(b).honest() <==> old(b).honest(),
        r.0@.len() == STATE_SIZE,
        r.1@.len() == STATE_SIZE,
        all_below(r.0@, final(b).wires()),
        all_below(r.1@, final(b).wires()),
        forall|z: spec_fn(int) -> u128| #[trigger]
            final(b).holds(z) ==> values_at(r.0@, z) == lane_weights(*mds, alpha.at(z)) && forall|
                k: int,
            |
                0 <= k < STATE_SIZE ==> #[trigger] r.1@[k].at(z) == power(
                    alpha.at(z),
                    (k + 1) as nat,
                ),
        values_at(r.0@, final(b).witness()) == lane_weights(*mds, alpha.at(old(b).witness())),
        forall|k: int|
            0 <= k < STATE_SIZE ==> #[trigger] r.1@[k].at(final(b).witness()) == power(
                alpha.at(old(b).witness()),
                (k + 1) as nat,
            ),
        powers_step(old(b).shape(), alpha@, 4) == (final(b).shape(), forms(r.1@)),
        forms(r.0@) == mds_forms(*mds, forms(r.1@)),
{
    reveal(powers_step);
    reveal(mds_form);
    let ghost entry = *b;
    assert(forms(Seq::<LinExpr>::empty()) =~= Seq::empty());
    let ghost b0 = *b;
    let ghost w = b0.witness();
    let mut ap: Vec<LinExpr> = Vec::new();
    let mut acc = LinExpr::one();
    let mut k: usize = 0;
    while k < STATE_SIZE
        invariant
            k <= STATE_SIZE,
            b0.wf(),
            w == b0.witness(),
            alpha.bound() <= b0.wires(),
            refines(*b, b0),
            b.honest() <==> b0.honest(),
            acc.bound() <= b.wires(),
            ap@.len() == k,
            all_below(ap@, b.wires()),
            forall|z: spec_fn(int) -> u128| #[trigger]
                b.holds(z) ==> acc.at(z) == power(alpha.at(z), k as nat),
            acc.at(b.witness()) == power(alpha.at(w), k as nat),
            forall|z: spec_fn(int) -> u128, i: int|
                b.holds(z) && 0 <= i < k ==> #[trigger] ap@[i].at(z) == power(
                    alpha.at(z),
                    (i + 1) as nat,
                ),
            forall|i: int|
                0 <= i < k ==> #[trigger] ap@[i].at(b.witness()) == power(
                    alpha.at(w),
                    (i + 1) as nat,
                ),
            powers_step(entry.shape(), alpha@, k as nat) == (b.shape(), forms(ap@)),
            acc@ == if k == 0 {
                const_form(1)
            } else {
                ap@[k - 1]@
            },
        decreases STATE_SIZE - k,
    {
        reveal(powers_step);
        let ghost mid = *b;
        let ghost ap0 = ap@;
        assert(alpha@.at(mid.witness()) == alpha@.at(w));
        acc = crate::trace::mul(b, &acc, alpha);
        ap.push(acc.clone());
        proof {
            assert forall|z: spec_fn(int) -> u128, i: int| b.holds(z) && 0 <= i < k + 1 implies #[trigger] ap@[i].at(
                z,
            ) == power(alpha.at(z), (i + 1) as nat) by {
                assert(mid.holds(z));
                if i < k {
                    assert(ap@[i] == ap0[i]);
                }
            }
            assert forall|i: int| 0 <= i < k + 1 implies #[trigger] ap@[i].at(b.witness())
                == power(alpha.at(w), (i + 1) as nat) by {
                if i < k {
                    assert(ap@[i] == ap0[i]);
                    assert(ap0[i].bound() <= mid.wires());
                    assert(ap0[i]@.at(b.witness()) == ap0[i]@.at(mid.witness()));
                    assert(ap0[i].at(mid.witness()) == power(alpha.at(w), (i + 1) as nat));
                }
            }
        }
        k = k + 1;
    }
    let mut m: Vec<LinExpr> = Vec::new();
    let mut j: usize = 0;
    while j < STATE_SIZE
        invariant
            j <= STATE_SIZE,
            ap@.len() == STATE_SIZE,
            all_below(ap@, b.wires()),
            m@.len() == j,
            all_below(m@, b.wires()),
            forall|z: spec_fn(int) -> u128, i: int|
                b.holds(z) && 0 <= i < STATE_SIZE ==> #[trigger] ap@[i].at(z) == power(
                    alpha.at(z),
                    (i + 1) as nat,
                ),
            forall|i: int|
                0 <= i < STATE_SIZE ==> #[trigger] ap@[i].at(b.witness()) == power(
                    alpha.at(w),
                    (i + 1) as nat,
                ),
            forall|z: spec_fn(int) -> u128, i: int|
                b.holds(z) && 0 <= i < j ==> #[trigger] m@[i].at(z) == lane_weight(
                    *mds,
                    alpha.at(z),
                    i,
                    STATE_SIZE as nat,
                ),
            forall|i: int|
                0 <= i < j ==> #[trigger] m@[i].at(b.witness()) == lane_weight(
                    *mds,
                    alpha.at(w),
                    i,
                    STATE_SIZE as nat,
                ),
            forall|i: int| 0 <= i < j ==> (#[trigger] m@[i])@ == mds_form(*mds, forms(ap@), i, 4),
        decreases STATE_SIZE - j,
    {
        reveal(mds_form);
        let mut sum = LinExpr::zero();
        let mut e: usize = 0;
        while e < STATE_SIZE
            invariant
                e <= STATE_SIZE,
                j < STATE_SIZE,
                ap@.len() == STATE_SIZE,
                all_below(ap@, b.wires()),
                sum.bound() <= b.wires(),
                forall|z: spec_fn(int) -> u128, i: int|
                    b.holds(z) && 0 <= i < STATE_SIZE ==> #[trigger] ap@[i].at(z) == power(
                        alpha.at(z),
                        (i + 1) as nat,
                    ),
                forall|i: int|
                    0 <= i < STATE_SIZE ==> #[trigger] ap@[i].at(b.witness()) == power(
                        alpha.at(w),
                        (i + 1) as nat,
                    ),
                forall|z: spec_fn(int) -> u128| #[trigger]
                    b.holds(z) ==> sum.at(z) == lane_weight(
                        *mds,
                        alpha.at(z),
                        j as int,
                        e as nat,
                    ),
                sum.at(b.witness()) == lane_weight(*mds, alpha.at(w), j as int, e as nat),
                sum@ == mds_form(*mds, forms(ap@), j as int, e as nat),
            decreases STATE_SIZE - e,
        {
            reveal(mds_form);
            assert(ap@[e as int].bound() <= b.wires());
            let part = ap[e].scale(mds.entries[4 * e + j]);
            let ghost sum0 = sum;
            sum = sum.add(&part);
            proof {
                assert(ap@[e as int].at(b.witness()) == power(alpha.at(w), (e + 1) as nat));
                assert forall|z: spec_fn(int) -> u128| #[trigger] b.holds(z) implies sum.at(z)
                    == lane_weight(*mds, alpha.at(z), j as int, (e + 1) as nat) by {
                    assert(ap@[e as int].at(z) == power(alpha.at(z), (e + 1) as nat));
                    assert(sum0.at(z) == lane_weight(*mds, alpha.at(z), j as int, e as nat));
                }
            }
            e = e + 1;
        }
        let ghost m0 = m@;
        m.push(sum);
        proof {
            assert forall|z: spec_fn(int) -> u128, i: int| b.holds(z) && 0 <= i < j + 1 implies #[trigger] m@[i].at(
                z,
            ) == lane_weight(*mds, alpha.at(z), i, STATE_SIZE as nat) by {
                if i < j {
                    assert(m@[i] == m0[i]);
                }
            }
            assert forall|i: int| 0 <= i < j + 1 implies #[trigger] m@[i].at(b.witness())
                == lane_weight(*mds, alpha.at(w), i, STATE_SIZE as nat) by {
                if i < j {
                    assert(m@[i] == m0[i]);
                }
            }
        }
        j = j + 1;
    }
    proof {
        assert forall|z: spec_fn(int) -> u128| #[trigger] b.holds(z) implies values_at(m@, z)
            == lane_weights(*mds, alpha.at(z)) by {
            assert(values_at(m@, z) =~= lane_weights(*mds, alpha.at(z)));
        }
        assert(values_at(m@, b.witness()) =~= lane_weights(*mds, alpha.at(w)));
    }
    assert(forms(m@) =~= mds_forms(*mds, forms(ap@)));
    (m, ap)
}

// ---------------------------------------------------------------------------
// The families of the leaf walk.
// ---------------------------------------------------------------------------
/// The columns and patterns of a sponge family.
#[derive(Clone, Copy, Debug)]
pub struct SpongeLeafRefs {
    pub in_: [usize; 2],
    pub c: [usize; 4],
    pub odd: usize,
    pub iv: [usize; 2],
}

/// The columns and patterns of a source tree.
#[derive(Clone, Copy, Debug)]
pub struct SourceTreeRefs {
    pub kid: [usize; 2],
    pub c: [usize; 4],
    pub code: [usize; 2],
    pub even_int: usize,
    pub odd_int: usize,
    pub leafodd: usize,
    pub iv: [usize; 2],
}

/// A transcript suffix relocated into a leaf walk. `region` selects every live
/// permutation, `carry` all but the first, `first` only the first. The slot
/// before the first carries the capacity lanes in the data columns.
#[derive(Clone, Copy, Debug)]
pub struct SplitDuplexTailRefs {
    pub a: [usize; 2],
    pub c: [usize; 4],
    pub region: usize,
    pub carry: usize,
    pub first: usize,
    pub consts: [usize; 2],
}

/// The runs of a duplex family are addressable.
pub open spec fn refs_fit(refs: DuplexFamilyRefs) -> bool {
    &&& refs.a + 1 <= usize::MAX
    &&& refs.c + 3 <= usize::MAX
    &&& refs.abs + 1 <= usize::MAX
    &&& refs.consts + 3 <= usize::MAX
}

/// A sponge family: the inputs under its region, the carries under its own gate,
/// the initial capacity from its patterns.
pub open spec fn sponge_lanes(sr: SpongeLeafRefs, region: int) -> Seq<LaneTerm> {
    seq![
        gated_cell(0, region as int, committed(sr.in_[0] as int)),
        gated_cell(0, sr.odd as int, shifted(sr.c[0] as int)),
        gated_cell(1, region as int, committed(sr.in_[1] as int)),
        gated_cell(1, sr.odd as int, shifted(sr.c[1] as int)),
        fixed_cell(2, sr.iv[0] as int),
        gated_cell(2, sr.odd as int, shifted(sr.c[2] as int)),
        fixed_cell(3, sr.iv[1] as int),
        gated_cell(3, sr.odd as int, shifted(sr.c[3] as int)),
    ]
}

pub(crate) fn sponge_terms(sr: &SpongeLeafRefs, region: usize) -> (r: Vec<LaneTerm>)
    ensures
        r@ == sponge_lanes(*sr, region as int),
        lanes_ok(r@),
{
    let mut r: Vec<LaneTerm> = Vec::new();
    r.push(gated(0, region, ColRef::Committed(sr.in_[0])));
    r.push(gated(0, sr.odd, ColRef::CommittedShift(sr.c[0])));
    r.push(gated(1, region, ColRef::Committed(sr.in_[1])));
    r.push(gated(1, sr.odd, ColRef::CommittedShift(sr.c[1])));
    r.push(fixed(2, sr.iv[0]));
    r.push(gated(2, sr.odd, ColRef::CommittedShift(sr.c[2])));
    r.push(fixed(3, sr.iv[1]));
    r.push(gated(3, sr.odd, ColRef::CommittedShift(sr.c[3])));
    assert(r@ =~= sponge_lanes(*sr, region as int));
    r
}

/// A transcript suffix: inputs, constants and carries of the rate lanes, then
/// the capacity lanes, which the first permutation takes from the slot before.
pub open spec fn tail_lanes(refs: SplitDuplexTailRefs) -> Seq<LaneTerm> {
    seq![
        gated_cell(0, refs.region as int, committed(refs.a[0] as int)),
        fixed_cell(0, refs.consts[0] as int),
        gated_cell(0, refs.carry as int, shifted(refs.c[0] as int)),
        gated_cell(1, refs.region as int, committed(refs.a[1] as int)),
        fixed_cell(1, refs.consts[1] as int),
        gated_cell(1, refs.carry as int, shifted(refs.c[1] as int)),
        gated_cell(2, refs.first as int, shifted(refs.a[0] as int)),
        gated_cell(2, refs.carry as int, shifted(refs.c[2] as int)),
        gated_cell(3, refs.first as int, shifted(refs.a[1] as int)),
        gated_cell(3, refs.carry as int, shifted(refs.c[3] as int)),
    ]
}

pub(crate) fn tail_terms(refs: &SplitDuplexTailRefs) -> (r: Vec<LaneTerm>)
    ensures
        r@ == tail_lanes(*refs),
        lanes_ok(r@),
{
    let mut r: Vec<LaneTerm> = Vec::new();
    r.push(gated(0, refs.region, ColRef::Committed(refs.a[0])));
    r.push(fixed(0, refs.consts[0]));
    r.push(gated(0, refs.carry, ColRef::CommittedShift(refs.c[0])));
    r.push(gated(1, refs.region, ColRef::Committed(refs.a[1])));
    r.push(fixed(1, refs.consts[1]));
    r.push(gated(1, refs.carry, ColRef::CommittedShift(refs.c[1])));
    r.push(gated(2, refs.first, ColRef::CommittedShift(refs.a[0])));
    r.push(gated(2, refs.carry, ColRef::CommittedShift(refs.c[2])));
    r.push(gated(3, refs.first, ColRef::CommittedShift(refs.a[1])));
    r.push(gated(3, refs.carry, ColRef::CommittedShift(refs.c[3])));
    assert(r@ =~= tail_lanes(*refs));
    r
}

/// A source tree: a node takes its children, then carries.
pub open spec fn tree_lanes(st: SourceTreeRefs) -> Seq<LaneTerm> {
    seq![
        gated_cell(0, st.even_int as int, committed(st.kid[0] as int)),
        gated_cell(0, st.odd_int as int, committed(st.kid[0] as int)),
        gated_cell(0, st.odd_int as int, shifted(st.c[0] as int)),
        gated_cell(0, st.leafodd as int, committed(st.code[0] as int)),
        gated_cell(1, st.even_int as int, committed(st.kid[1] as int)),
        gated_cell(1, st.odd_int as int, committed(st.kid[1] as int)),
        gated_cell(1, st.odd_int as int, shifted(st.c[1] as int)),
        gated_cell(1, st.leafodd as int, committed(st.code[1] as int)),
        fixed_cell(2, st.iv[0] as int),
        gated_cell(2, st.odd_int as int, shifted(st.c[2] as int)),
        fixed_cell(3, st.iv[1] as int),
        gated_cell(3, st.odd_int as int, shifted(st.c[3] as int)),
    ]
}

pub(crate) fn tree_terms(st: &SourceTreeRefs) -> (r: Vec<LaneTerm>)
    ensures
        r@ == tree_lanes(*st),
        lanes_ok(r@),
{
    let mut r: Vec<LaneTerm> = Vec::new();
    r.push(gated(0, st.even_int, ColRef::Committed(st.kid[0])));
    r.push(gated(0, st.odd_int, ColRef::Committed(st.kid[0])));
    r.push(gated(0, st.odd_int, ColRef::CommittedShift(st.c[0])));
    r.push(gated(0, st.leafodd, ColRef::Committed(st.code[0])));
    r.push(gated(1, st.even_int, ColRef::Committed(st.kid[1])));
    r.push(gated(1, st.odd_int, ColRef::Committed(st.kid[1])));
    r.push(gated(1, st.odd_int, ColRef::CommittedShift(st.c[1])));
    r.push(gated(1, st.leafodd, ColRef::Committed(st.code[1])));
    r.push(fixed(2, st.iv[0]));
    r.push(gated(2, st.odd_int, ColRef::CommittedShift(st.c[2])));
    r.push(fixed(3, st.iv[1]));
    r.push(gated(3, st.odd_int, ColRef::CommittedShift(st.c[3])));
    assert(r@ =~= tree_lanes(*st));
    r
}

/// The gated wiring of a duplex family: a start cancels the carry, a data
/// selector adds a cell, a constant is added.
pub open spec fn pattern_lanes(refs: DuplexFamilyRefs) -> Seq<LaneTerm> {
    seq![
        gated_cell(0, refs.start as int, shifted(refs.c as int)),
        gated_cell(0, refs.abs as int, committed(refs.a as int)),
        fixed_cell(0, refs.consts as int),
        gated_cell(1, refs.start as int, shifted((refs.c + 1) as int)),
        gated_cell(1, (refs.abs + 1) as int, committed((refs.a + 1) as int)),
        fixed_cell(1, (refs.consts + 1) as int),
        gated_cell(2, refs.start as int, shifted((refs.c + 2) as int)),
        fixed_cell(2, (refs.consts + 2) as int),
        gated_cell(3, refs.start as int, shifted((refs.c + 3) as int)),
        fixed_cell(3, (refs.consts + 3) as int),
    ]
}

pub(crate) fn pattern_terms(refs: &DuplexFamilyRefs) -> (r: Vec<LaneTerm>)
    requires
        refs_fit(*refs),
    ensures
        r@ == pattern_lanes(*refs),
        lanes_ok(r@),
{
    let mut r: Vec<LaneTerm> = Vec::new();
    r.push(gated(0, refs.start, ColRef::CommittedShift(refs.c)));
    r.push(gated(0, refs.abs, ColRef::Committed(refs.a)));
    r.push(fixed(0, refs.consts));
    r.push(gated(1, refs.start, ColRef::CommittedShift(refs.c + 1)));
    r.push(gated(1, refs.abs + 1, ColRef::Committed(refs.a + 1)));
    r.push(fixed(1, refs.consts + 1));
    r.push(gated(2, refs.start, ColRef::CommittedShift(refs.c + 2)));
    r.push(fixed(2, refs.consts + 2));
    r.push(gated(3, refs.start, ColRef::CommittedShift(refs.c + 3)));
    r.push(fixed(3, refs.consts + 3));
    assert(r@ =~= pattern_lanes(*refs));
    r
}

/// The carry of every slot.
pub open spec fn carry_lanes(refs: DuplexFamilyRefs) -> Seq<LaneTerm> {
    seq![
        plain_cell(0, shifted(refs.c as int)),
        plain_cell(1, shifted((refs.c + 1) as int)),
        plain_cell(2, shifted((refs.c + 2) as int)),
        plain_cell(3, shifted((refs.c + 3) as int)),
    ]
}

pub(crate) fn carry_terms(refs: &DuplexFamilyRefs) -> (r: Vec<LaneTerm>)
    requires
        refs_fit(*refs),
    ensures
        r@ == carry_lanes(*refs),
        lanes_ok(r@),
{
    let mut r: Vec<LaneTerm> = Vec::new();
    r.push(plain(0, ColRef::CommittedShift(refs.c)));
    r.push(plain(1, ColRef::CommittedShift(refs.c + 1)));
    r.push(plain(2, ColRef::CommittedShift(refs.c + 2)));
    r.push(plain(3, ColRef::CommittedShift(refs.c + 3)));
    assert(r@ =~= carry_lanes(*refs));
    r
}

/// A duplex family alone: each lane carries, then takes its wiring.
pub open spec fn single_lanes(refs: DuplexFamilyRefs) -> Seq<LaneTerm> {
    seq![
        plain_cell(0, shifted(refs.c as int)),
        gated_cell(0, refs.start as int, shifted(refs.c as int)),
        gated_cell(0, refs.abs as int, committed(refs.a as int)),
        fixed_cell(0, refs.consts as int),
        plain_cell(1, shifted((refs.c + 1) as int)),
        gated_cell(1, refs.start as int, shifted((refs.c + 1) as int)),
        gated_cell(1, (refs.abs + 1) as int, committed((refs.a + 1) as int)),
        fixed_cell(1, (refs.consts + 1) as int),
        plain_cell(2, shifted((refs.c + 2) as int)),
        gated_cell(2, refs.start as int, shifted((refs.c + 2) as int)),
        fixed_cell(2, (refs.consts + 2) as int),
        plain_cell(3, shifted((refs.c + 3) as int)),
        gated_cell(3, refs.start as int, shifted((refs.c + 3) as int)),
        fixed_cell(3, (refs.consts + 3) as int),
    ]
}

pub(crate) fn single_terms(refs: &DuplexFamilyRefs) -> (r: Vec<LaneTerm>)
    requires
        refs_fit(*refs),
    ensures
        r@ == single_lanes(*refs),
        lanes_ok(r@),
{
    let mut r: Vec<LaneTerm> = Vec::new();
    r.push(plain(0, ColRef::CommittedShift(refs.c)));
    r.push(gated(0, refs.start, ColRef::CommittedShift(refs.c)));
    r.push(gated(0, refs.abs, ColRef::Committed(refs.a)));
    r.push(fixed(0, refs.consts));
    r.push(plain(1, ColRef::CommittedShift(refs.c + 1)));
    r.push(gated(1, refs.start, ColRef::CommittedShift(refs.c + 1)));
    r.push(gated(1, refs.abs + 1, ColRef::Committed(refs.a + 1)));
    r.push(fixed(1, refs.consts + 1));
    r.push(plain(2, ColRef::CommittedShift(refs.c + 2)));
    r.push(gated(2, refs.start, ColRef::CommittedShift(refs.c + 2)));
    r.push(fixed(2, refs.consts + 2));
    r.push(plain(3, ColRef::CommittedShift(refs.c + 3)));
    r.push(gated(3, refs.start, ColRef::CommittedShift(refs.c + 3)));
    r.push(fixed(3, refs.consts + 3));
    assert(r@ =~= single_lanes(*refs));
    r
}

} // verus!
