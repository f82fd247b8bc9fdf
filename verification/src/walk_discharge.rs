//! The walks checked in rows: their openings as expressions.
use crate::circuit::{group_agree, FieldR1csBuilder, LinExpr};
use crate::duplex::DuplexLayout;
use crate::field::{fmul, F128};
use crate::meta_region::STATE_SIZE;
use crate::mle_trace::{all_below, values_at};
use crate::relation_terms::{power, trace_views, ColRef, RelationTermTrace, TermView};
use crate::trace::refines;
use crate::tx_root::{index_bit, index_bits};
use crate::walk_claims::{
    duplex_kind, merkle_pass, merkle_prefix, merkle_suffix, pass, pass_to, selection_prefix,
    suffix, ClaimView, PassKind, PassState, PrefixView, ReplayView, ShiftView, UnionVerifyError,
};
use crate::circuit::{forms, Shape};
use crate::columns::free_step;
use crate::integer_program::select_step;
use crate::mle_trace::forms_from;
use crate::relation_terms::powers_step;
use crate::circuit::const_form;
use vstd::prelude::*;

verus! {

broadcast use group_agree;

/// An opening of a column at a point of expressions.
pub struct TraceClaim {
    pub column: usize,
    pub point: Vec<LinExpr>,
    pub value: LinExpr,
}

impl TraceClaim {
    pub open spec fn at(&self, z: spec_fn(int) -> u128) -> ClaimView {
        ClaimView {
            column: self.column,
            point: values_at(self.point@, z),
            value: self.value.at(z),
        }
    }

    pub open spec fn below(&self, n: nat) -> bool {
        all_below(self.point@, n) && self.value.bound() <= n
    }
}

pub open spec fn claims_at(claims: Seq<TraceClaim>, z: spec_fn(int) -> u128) -> Seq<ClaimView> {
    Seq::new(claims.len(), |i: int| claims[i].at(z))
}

pub open spec fn claims_below(claims: Seq<TraceClaim>, n: nat) -> bool {
    forall|i: int| 0 <= i < claims.len() ==> (#[trigger] claims[i]).below(n)
}

/// Where a shift check in rows ends.
pub struct TraceShift {
    pub final_value: LinExpr,
    pub point: Vec<LinExpr>,
}

impl TraceShift {
    pub open spec fn at(&self, z: spec_fn(int) -> u128) -> ShiftView<()> {
        ShiftView { final_value: self.final_value.at(z), verdict: Ok(values_at(self.point@, z)) }
    }
}

pub open spec fn shifts_at(shifts: Seq<TraceShift>, z: spec_fn(int) -> u128) -> Seq<
    ShiftView<()>,
> {
    Seq::new(shifts.len(), |i: int| shifts[i].at(z))
}

/// What a pass over expressions gives under an assignment.
pub open spec fn pass_at(
    kind: PassKind,
    references: Seq<ColRef>,
    values: Seq<LinExpr>,
    point: Seq<LinExpr>,
    shifts: Seq<TraceShift>,
    n: nat,
    z: spec_fn(int) -> u128,
) -> Result<PassState, UnionVerifyError<()>> {
    pass_to(kind, references, values_at(values, z), values_at(point, z), shifts_at(shifts, z), n)
}

pub(crate) fn copy_exprs(es: &Vec<LinExpr>) -> (r: Vec<LinExpr>)
    ensures
        r@.len() == es@.len(),
        forall|i: int| 0 <= i < r@.len() ==> (#[trigger] r@[i])@ == es@[i]@,
        forall|z: spec_fn(int) -> u128| #[trigger] values_at(r@, z) == values_at(es@, z),
        forall|n: nat| all_below(es@, n) ==> #[trigger] all_below(r@, n),
{
    let mut r: Vec<LinExpr> = Vec::new();
    let mut i: usize = 0;
    while i < es.len()
        invariant
            i <= es@.len(),
            r@.len() == i,
            forall|k: int| 0 <= k < i ==> (#[trigger] r@[k])@ == es@[k]@,
        decreases es@.len() - i,
    {
        r.push(es[i].clone());
        i = i + 1;
    }
    proof {
        assert forall|z: spec_fn(int) -> u128| #[trigger] values_at(r@, z) == values_at(
            es@,
            z,
        ) by {
            assert forall|k: int| 0 <= k < r@.len() implies r@[k].at(z) == es@[k].at(z) by {
                assert(r@[k]@ == es@[k]@);
            }
            assert(values_at(r@, z) =~= values_at(es@, z));
        }
        assert forall|n: nat| all_below(es@, n) implies #[trigger] all_below(r@, n) by {
            assert forall|k: int| 0 <= k < r@.len() implies (#[trigger] r@[k]).bound() <= n by {
                assert(r@[k]@ == es@[k]@);
                assert(es@[k].bound() <= n);
            }
        }
    }
    r
}

/// Walks the cells of a relation that was checked in rows. Under every
/// assignment the openings are those of the pass over the values.
#[verifier::rlimit(40)]
#[verifier::spinoff_prover]
pub fn trace_claim_pass(
    kind: PassKind,
    references: &Vec<ColRef>,
    values: &Vec<LinExpr>,
    point: &Vec<LinExpr>,
    shifts: &Vec<TraceShift>,
) -> (r: Option<(Vec<LinExpr>, Vec<TraceClaim>)>)
    ensures
        forall|z: spec_fn(int) -> u128|
            match (
                r,
                #[trigger] pass(
                    kind,
                    references@,
                    values_at(values@, z),
                    values_at(point@, z),
                    shifts_at(shifts@, z),
                ),
            ) {
                (Some((lanes, claims)), Ok(s)) => lanes@.len() == STATE_SIZE && values_at(
                    lanes@,
                    z,
                ) == s.lanes && claims_at(claims@, z) == s.claims,
                (None, Err(e)) => e == UnionVerifyError::<()>::Shape,
                _ => false,
            },
{
    let n: usize = if references.len() <= values.len() {
        references.len()
    } else {
        values.len()
    };
    let mut lanes: Vec<LinExpr> = Vec::new();
    lanes.push(LinExpr::zero());
    lanes.push(LinExpr::zero());
    lanes.push(LinExpr::zero());
    lanes.push(LinExpr::zero());
    let mut claims: Vec<TraceClaim> = Vec::new();
    let mut cursor: usize = 0;
    let mut k: usize = 0;
    proof {
        assert forall|z: spec_fn(int) -> u128| #[trigger]
            pass_at(kind, references@, values@, point@, shifts@, 0, z) == Ok::<
            PassState,
            UnionVerifyError<()>,
        >(
            PassState {
                claims: claims_at(claims@, z),
                lanes: values_at(lanes@, z),
                cursor: cursor as nat,
            },
        ) by {
            assert(values_at(lanes@, z) =~= seq![0u128, 0, 0, 0]);
            assert(claims_at(claims@, z) =~= seq![]);
        }
    }
    while k < n
        invariant
            k <= n,
            n <= references@.len(),
            n <= values@.len(),
            n == references@.len() || n == values@.len(),
            lanes@.len() == STATE_SIZE,
            cursor <= shifts@.len(),
            forall|z: spec_fn(int) -> u128| #[trigger]
                pass_at(kind, references@, values@, point@, shifts@, k as nat, z) == Ok::<
                    PassState,
                    UnionVerifyError<()>,
                >(
                    PassState {
                        claims: claims_at(claims@, z),
                        lanes: values_at(lanes@, z),
                        cursor: cursor as nat,
                    },
                ),
        decreases n - k,
    {
        let ghost claims0 = claims@;
        let ghost lanes0 = lanes@;
        let ghost cursor0 = cursor;
        let reference = references[k];
        let value = values[k].clone();
        let mut good = true;
        match reference {
            ColRef::Committed(column) => {
                let end = copy_exprs(point);
                claims.push(TraceClaim { column, point: end, value });
            },
            ColRef::Internal(lane) => {
                if !kind.lanes || lane >= STATE_SIZE {
                    good = false;
                } else {
                    lanes.set(lane, value);
                }
            },
            ColRef::CommittedShift(column) | ColRef::CommittedShift2(column) => {
                let accepted = match reference {
                    ColRef::CommittedShift(_) => kind.shift,
                    _ => kind.shift2,
                };
                if !accepted || cursor >= shifts.len() {
                    good = false;
                } else {
                    let end = copy_exprs(&shifts[cursor].point);
                    let last = shifts[cursor].final_value.clone();
                    claims.push(TraceClaim { column, point: end, value: last });
                    cursor = cursor + 1;
                }
            },
            _ => {
                good = false;
            },
        }
        if !good {
            proof {
                assert forall|z: spec_fn(int) -> u128| #[trigger]
                    pass(
                        kind,
                        references@,
                        values_at(values@, z),
                        values_at(point@, z),
                        shifts_at(shifts@, z),
                    ) == Err::<PassState, UnionVerifyError<()>>(UnionVerifyError::Shape) by {
                    assert(pass_at(kind, references@, values@, point@, shifts@, k as nat, z) is Ok);
                    assert(pass_at(
                        kind,
                        references@,
                        values@,
                        point@,
                        shifts@,
                        (k + 1) as nat,
                        z,
                    ) == Err::<PassState, UnionVerifyError<()>>(UnionVerifyError::Shape));
                    crate::walk_claims::lemma_pass_stuck(
                        kind,
                        references@,
                        values_at(values@, z),
                        values_at(point@, z),
                        shifts_at(shifts@, z),
                        (k + 1) as nat,
                        n as nat,
                    );
                }
            }
            return None;
        }
        proof {
            assert forall|z: spec_fn(int) -> u128| #[trigger]
                pass_at(kind, references@, values@, point@, shifts@, (k + 1) as nat, z) == Ok::<
                PassState,
                UnionVerifyError<()>,
            >(
                PassState {
                    claims: claims_at(claims@, z),
                    lanes: values_at(lanes@, z),
                    cursor: cursor as nat,
                },
            ) by {
                assert(pass_at(kind, references@, values@, point@, shifts@, k as nat, z) is Ok);
                let vs = values_at(values@, z);
                assert(vs[k as int] == values@[k as int].at(z));
                match reference {
                    ColRef::Internal(lane) => {
                        assert(values_at(lanes@, z) =~= values_at(lanes0, z).update(
                            lane as int,
                            vs[k as int],
                        ));
                    },
                    ColRef::Committed(column) => {
                        assert(claims@[claims0.len() as int].at(z).point == values_at(
                            point@,
                            z,
                        ));
                        assert(claims_at(claims@, z) =~= claims_at(claims0, z).push(
                            ClaimView {
                                column,
                                point: values_at(point@, z),
                                value: vs[k as int],
                            },
                        ));
                    },
                    _ => {
                        let from = shifts@[cursor0 as int];
                        assert(shifts_at(shifts@, z)[cursor0 as int] == from.at(z));
                        assert(claims@[claims0.len() as int].at(z).point == values_at(
                            from.point@,
                            z,
                        ));
                        assert(claims_at(claims@, z) =~= claims_at(claims0, z).push(
                            ClaimView {
                                column: crate::walk_claims::shift_column(reference),
                                point: values_at(from.point@, z),
                                value: from.final_value.at(z),
                            },
                        ));
                    },
                }
            }
        }
        k = k + 1;
    }
    proof {
        assert forall|z: spec_fn(int) -> u128| #[trigger]
            values_at(values@, z).len() == values@.len() by {}
        assert forall|z: spec_fn(int) -> u128|
            (#[trigger] pass(
                kind,
                references@,
                values_at(values@, z),
                values_at(point@, z),
                shifts_at(shifts@, z),
            )) == if cursor == shifts@.len() {
                Ok::<PassState, UnionVerifyError<()>>(
                    PassState {
                        claims: claims_at(claims@, z),
                        lanes: values_at(lanes@, z),
                        cursor: cursor as nat,
                    },
                )
            } else {
                Err::<PassState, UnionVerifyError<()>>(UnionVerifyError::Shape)
            } by {
            assert(pass_at(kind, references@, values@, point@, shifts@, n as nat, z) is Ok);
        }
    }
    if cursor != shifts.len() {
        return None;
    }
    Some((lanes, claims))
}

// ---------------------------------------------------------------------------
// The relations around a walk, in rows.
// ---------------------------------------------------------------------------
/// The selection of the output lanes up to lane `n`: each carry column against
/// its lane, under its power of the challenge.
pub open spec fn selection_views(c: Seq<usize>, beta: u128, n: nat) -> Seq<TermView>
    decreases n,
{
    if n == 0 {
        seq![]
    } else {
        selection_views(c, beta, (n - 1) as nat).push(
            TermView {
                coeff: power(beta, n),
                factors: seq![ColRef::Committed(c[n - 1])],
            },
        ).push(
            TermView {
                coeff: power(beta, n),
                factors: seq![ColRef::Internal((n - 1) as usize)],
            },
        )
    }
}

fn one_cell(reference: ColRef) -> (r: Vec<ColRef>)
    ensures
        r@ == seq![reference],
{
    let mut r: Vec<ColRef> = Vec::new();
    r.push(reference);
    assert(r@ =~= seq![reference]);
    r
}

/// The selection of the output lanes as rows.
pub fn carry_selection_terms_trace(b: &mut FieldR1csBuilder, c: &[usize; 4], beta: &LinExpr) -> (r:
    Vec<RelationTermTrace>)
    requires
        old(b).wf(),
        beta.bound() <= old(b).wires(),
    ensures
        refines(*final(b), *old(b)),
        final(b).honest() <==> old(b).honest(),
        forall|i: int|
            0 <= i < r@.len() ==> (#[trigger] r@[i]).coeff.bound() <= final(b).wires(),
        forall|z: spec_fn(int) -> u128| #[trigger]
            final(b).holds(z) ==> trace_views(r@, z) == selection_views(
                c@,
                beta.at(z),
                STATE_SIZE as nat,
            ),
        trace_views(r@, final(b).witness()) == selection_views(
            c@,
            beta.at(old(b).witness()),
            STATE_SIZE as nat,
        ),
        ({
            let (t, powers) = powers_step(old(b).shape(), beta@, 4);
            &&& final(b).shape() == t
            &&& forall|j: int|
                0 <= j < 4 ==> r@[2 * j].coeff@ == #[trigger] powers[j] && r@[2 * j + 1].coeff@
                    == powers[j]
        }),
{
    reveal(powers_step);
    let ghost entry = *b;
    let ghost b0 = *b;
    let ghost w = b0.witness();
    let mut pw = LinExpr::one();
    let mut r: Vec<RelationTermTrace> = Vec::new();
    let mut j: usize = 0;
    proof {
        assert forall|z: spec_fn(int) -> u128| #[trigger] trace_views(r@, z) == selection_views(
            c@,
            beta.at(z),
            0,
        ) by {
            assert(trace_views(r@, z) =~= seq![]);
        }
        assert(trace_views(r@, b.witness()) =~= selection_views(c@, beta.at(w), 0));
    }
    while j < STATE_SIZE
        invariant
            j <= STATE_SIZE,
            b0.wf(),
            w == b0.witness(),
            beta.bound() <= b0.wires(),
            refines(*b, b0),
            b.honest() <==> b0.honest(),
            pw.bound() <= b.wires(),
            r@.len() == 2 * j,
            forall|i: int| 0 <= i < r@.len() ==> (#[trigger] r@[i]).coeff.bound() <= b.wires(),
            forall|z: spec_fn(int) -> u128| #[trigger]
                b.holds(z) ==> pw.at(z) == power(beta.at(z), j as nat),
            pw.at(b.witness()) == power(beta.at(w), j as nat),
            forall|z: spec_fn(int) -> u128| #[trigger]
                b.holds(z) ==> trace_views(r@, z) == selection_views(c@, beta.at(z), j as nat),
            trace_views(r@, b.witness()) == selection_views(c@, beta.at(w), j as nat),
            powers_step(entry.shape(), beta@, j as nat).0 == b.shape(),
            powers_step(entry.shape(), beta@, j as nat).1.len() == j,
            pw@ == if j == 0 {
                const_form(1)
            } else {
                powers_step(entry.shape(), beta@, j as nat).1.last()
            },
            forall|i: int|
                0 <= i < j ==> r@[2 * i].coeff@ == #[trigger] powers_step(
                    entry.shape(),
                    beta@,
                    j as nat,
                ).1[i] && r@[2 * i + 1].coeff@ == powers_step(entry.shape(), beta@, j as nat).1[i],
        decreases STATE_SIZE - j,
    {
        reveal(powers_step);
        let ghost mid = *b;
        let ghost r0 = r@;
        assert(beta@.at(mid.witness()) == beta@.at(w));
        pw = crate::trace::mul(b, &pw, beta);
        let column = one_cell(ColRef::Committed(c[j]));
        let lane = one_cell(ColRef::Internal(j));
        r.push(RelationTermTrace { coeff: pw.clone(), factors: column });
        r.push(RelationTermTrace { coeff: pw.clone(), factors: lane });
        proof {
            let n = (j + 1) as nat;
            assert forall|z: spec_fn(int) -> u128| #[trigger] b.holds(z) implies trace_views(
                r@,
                z,
            ) == selection_views(c@, beta.at(z), n) by {
                assert(mid.holds(z));
                assert(pw.at(z) == power(beta.at(z), n));
                assert(trace_views(r@, z) =~= trace_views(r0, z).push(r@[2 * j as int].at(z)).push(
                    r@[2 * j + 1].at(z),
                ));
            }
            assert(trace_views(r0, b.witness()) =~= trace_views(r0, mid.witness())) by {
                assert forall|i: int| 0 <= i < r0.len() implies r0[i].at(b.witness()) == r0[i].at(
                    mid.witness(),
                ) by {
                    assert(r0[i].coeff.bound() <= mid.wires());
                    assert(r0[i].coeff@.at(b.witness()) == r0[i].coeff@.at(mid.witness()));
                }
            }
            assert(trace_views(r@, b.witness()) =~= trace_views(r0, b.witness()).push(
                r@[2 * j as int].at(b.witness()),
            ).push(r@[2 * j + 1].at(b.witness())));
            assert forall|i: int| 0 <= i < r@.len() implies (#[trigger] r@[i]).coeff.bound()
                <= b.wires() by {
                if i < r0.len() {
                    assert(r@[i] == r0[i]);
                    assert(r0[i].coeff.bound() <= mid.wires());
                }
            }
        }
        j = j + 1;
    }
    r
}

/// The sum of the products of the first `n` entries.
pub open spec fn dot(x: Seq<u128>, y: Seq<u128>, n: nat) -> u128
    decreases n,
{
    if n == 0 {
        0
    } else {
        dot(x, y, (n - 1) as nat) ^ fmul(x[n - 1], y[n - 1])
    }
}

/// What the substitution is checked against, as rows: the lanes at the end of
/// the walk under the powers of the challenge.
pub fn walk_target_trace(b: &mut FieldR1csBuilder, powers: &Vec<LinExpr>, values: &Vec<LinExpr>) -> (r:
    LinExpr)
    requires
        old(b).wf(),
        powers@.len() == values@.len(),
        all_below(powers@, old(b).wires()),
        all_below(values@, old(b).wires()),
    ensures
        refines(*final(b), *old(b)),
        final(b).honest() <==> old(b).honest(),
        r.bound() <= final(b).wires(),
        forall|z: spec_fn(int) -> u128| #[trigger]
            final(b).holds(z) ==> r.at(z) == dot(
                values_at(powers@, z),
                values_at(values@, z),
                values@.len(),
            ),
        r.at(final(b).witness()) == dot(
            values_at(powers@, old(b).witness()),
            values_at(values@, old(b).witness()),
            values@.len(),
        ),
        select_step(old(b).shape(), forms(powers@), forms(values@), values@.len()) == (
            final(b).shape(),
            r@,
        ),
{
    reveal(select_step);
    let ghost entry = *b;
    let ghost b0 = *b;
    let ghost w = b0.witness();
    let mut sum = LinExpr::zero();
    let mut e: usize = 0;
    while e < values.len()
        invariant
            e <= values@.len(),
            powers@.len() == values@.len(),
            b0.wf(),
            w == b0.witness(),
            all_below(powers@, b0.wires()),
            all_below(values@, b0.wires()),
            refines(*b, b0),
            b.honest() <==> b0.honest(),
            sum.bound() <= b.wires(),
            forall|z: spec_fn(int) -> u128| #[trigger]
                b.holds(z) ==> sum.at(z) == dot(
                    values_at(powers@, z),
                    values_at(values@, z),
                    e as nat,
                ),
            sum.at(b.witness()) == dot(
                values_at(powers@, w),
                values_at(values@, w),
                e as nat,
            ),
            select_step(entry.shape(), forms(powers@), forms(values@), e as nat) == (b.shape(), sum@),
        decreases values@.len() - e,
    {
        reveal(select_step);
        let ghost mid = *b;
        let ghost sum0 = sum;
        let ghost x = powers@[e as int];
        let ghost y = values@[e as int];
        assert(x.bound() <= b0.wires() && y.bound() <= b0.wires());
        let product = crate::trace::mul(b, &powers[e], &values[e]);
        sum = sum.add(&product);
        proof {
            assert(x@.at(mid.witness()) == x@.at(w));
            assert(y@.at(mid.witness()) == y@.at(w));
            assert(sum0@.at(b.witness()) == sum0@.at(mid.witness()));
            assert forall|z: spec_fn(int) -> u128| #[trigger] b.holds(z) implies sum.at(z) == dot(
                values_at(powers@, z),
                values_at(values@, z),
                (e + 1) as nat,
            ) by {
                assert(mid.holds(z));
                assert(values_at(powers@, z)[e as int] == x.at(z));
                assert(values_at(values@, z)[e as int] == y.at(z));
            }
            assert(values_at(powers@, w)[e as int] == x.at(w));
            assert(values_at(values@, w)[e as int] == y.at(w));
        }
        e = e + 1;
    }
    sum
}

/// A relation that was checked in rows: the cells that it leaves open, their
/// values, and the point at which they are claimed.
pub struct TraceRelation {
    pub references: Vec<ColRef>,
    pub values: Vec<LinExpr>,
    pub point: Vec<LinExpr>,
}

impl TraceRelation {
    pub open spec fn at(&self, z: spec_fn(int) -> u128) -> ReplayView<()> {
        ReplayView {
            references: self.references@,
            values: values_at(self.values@, z),
            verdict: Ok(values_at(self.point@, z)),
        }
    }
}

/// The openings of a finished prefix, and the group that the walk reduces.
pub struct TracePrefix {
    pub pending: Vec<TraceClaim>,
    pub point: Vec<LinExpr>,
    pub lanes: Vec<LinExpr>,
}

impl TracePrefix {
    pub open spec fn at(&self, z: spec_fn(int) -> u128) -> PrefixView {
        PrefixView {
            pending: claims_at(self.pending@, z),
            point: values_at(self.point@, z),
            lanes: values_at(self.lanes@, z),
        }
    }
}

/// A prefix in rows takes, under an assignment, the stated values.
pub open spec fn trace_prefix_is(
    r: Option<TracePrefix>,
    stated: Result<PrefixView, UnionVerifyError<()>>,
    z: spec_fn(int) -> u128,
) -> bool {
    match (r, stated) {
        (Some(prefix), Ok(view)) => prefix.at(z) == view && prefix.lanes@.len() == STATE_SIZE,
        (None, Err(e)) => e == UnionVerifyError::<()>::Shape,
        _ => false,
    }
}

pub open spec fn trace_claims_are(
    r: Option<Vec<TraceClaim>>,
    stated: Result<Seq<ClaimView>, UnionVerifyError<()>>,
    z: spec_fn(int) -> u128,
) -> bool {
    match (r, stated) {
        (Some(claims), Ok(views)) => claims_at(claims@, z) == views,
        (None, Err(e)) => e == UnionVerifyError::<()>::Shape,
        _ => false,
    }
}

fn append_trace(pending: Vec<TraceClaim>, more: Vec<TraceClaim>) -> (r: Vec<TraceClaim>)
    ensures
        forall|z: spec_fn(int) -> u128| #[trigger]
            claims_at(r@, z) == claims_at(pending@, z) + claims_at(more@, z),
{
    let mut r = pending;
    let mut more = more;
    let ghost r0 = r@;
    let ghost m0 = more@;
    r.append(&mut more);
    proof {
        assert forall|z: spec_fn(int) -> u128| #[trigger] claims_at(r@, z) == claims_at(r0, z)
            + claims_at(m0, z) by {
            assert(claims_at(r@, z) =~= claims_at(r0, z) + claims_at(m0, z));
        }
    }
    r
}

/// The prefix of the duplex walk from its selection in rows. Under every
/// assignment it is the prefix that the values give.
pub fn discharge_duplex_prefix(selection: &TraceRelation) -> (r: Option<TracePrefix>)
    ensures
        forall|z: spec_fn(int) -> u128|
            trace_prefix_is(r, #[trigger] selection_prefix(selection.at(z)), z),
{
    let none: Vec<TraceShift> = Vec::new();
    let kind = PassKind { lanes: true, shift: false, shift2: false };
    let passed = trace_claim_pass(
        kind,
        &selection.references,
        &selection.values,
        &selection.point,
        &none,
    );
    proof {
        assert forall|z: spec_fn(int) -> u128| #[trigger]
            shifts_at(none@, z) == Seq::<ShiftView<()>>::empty() by {
            assert(shifts_at(none@, z) =~= Seq::<ShiftView<()>>::empty());
        }
        assert forall|z: spec_fn(int) -> u128|
            selection_prefix(#[trigger] selection.at(z)) == match pass(
                kind,
                selection.references@,
                values_at(selection.values@, z),
                values_at(selection.point@, z),
                shifts_at(none@, z),
            ) {
                Err(e) => Err::<PrefixView, UnionVerifyError<()>>(e),
                Ok(s) => Ok(
                    PrefixView {
                        pending: s.claims,
                        point: values_at(selection.point@, z),
                        lanes: s.lanes,
                    },
                ),
            } by {
            assert(shifts_at(none@, z) == Seq::<ShiftView<()>>::empty());
        }
    }
    match passed {
        None => None,
        Some((lanes, claims)) => {
            let point = copy_exprs(&selection.point);
            Some(TracePrefix { pending: claims, point, lanes })
        },
    }
}

/// The suffix of the duplex walk from its substitution and shifts in rows.
pub fn discharge_duplex_suffix(
    prefix: TracePrefix,
    substitution: &TraceRelation,
    shifts: &Vec<TraceShift>,
) -> (r: Option<Vec<TraceClaim>>)
    ensures
        forall|z: spec_fn(int) -> u128|
            trace_claims_are(
                r,
                #[trigger] suffix(
                    duplex_kind(),
                    prefix.at(z).pending,
                    substitution.at(z),
                    shifts_at(shifts@, z),
                ),
                z,
            ),
{
    let kind = PassKind { lanes: false, shift: true, shift2: false };
    let passed = trace_claim_pass(
        kind,
        &substitution.references,
        &substitution.values,
        &substitution.point,
        shifts,
    );
    match passed {
        None => None,
        Some((_, claims)) => Some(append_trace(prefix.pending, claims)),
    }
}

/// One pass of the Merkle walk in rows.
fn merkle_trace_pass(relation: &TraceRelation, shifts: &Vec<TraceShift>) -> (r: Option<
    (Vec<LinExpr>, Vec<TraceClaim>),
>)
    ensures
        forall|z: spec_fn(int) -> u128|
            match (
                r,
                #[trigger] merkle_pass(
                    relation.at(z),
                    values_at(relation.point@, z),
                    shifts_at(shifts@, z),
                ),
            ) {
                (Some((lanes, claims)), Ok(s)) => lanes@.len() == STATE_SIZE && values_at(
                    lanes@,
                    z,
                ) == s.lanes && claims_at(claims@, z) == s.claims,
                (None, Err(e)) => e == UnionVerifyError::<()>::Shape,
                _ => false,
            },
{
    if relation.references.len() != relation.values.len() {
        return None;
    }
    let kind = PassKind { lanes: true, shift: true, shift2: true };
    trace_claim_pass(kind, &relation.references, &relation.values, &relation.point, shifts)
}

/// The prefix of the Merkle walk from its two relations in rows.
pub fn discharge_merkle_prefix(
    zero: &TraceRelation,
    zero_shifts: &Vec<TraceShift>,
    selection: &TraceRelation,
) -> (r: Option<TracePrefix>)
    ensures
        forall|z: spec_fn(int) -> u128|
            trace_prefix_is(
                r,
                #[trigger] merkle_prefix(
                    zero.at(z),
                    shifts_at(zero_shifts@, z),
                    selection.at(z),
                ),
                z,
            ),
{
    let none: Vec<TraceShift> = Vec::new();
    proof {
        assert forall|z: spec_fn(int) -> u128| #[trigger]
            shifts_at(none@, z) == Seq::<ShiftView<()>>::empty() by {
            assert(shifts_at(none@, z) =~= Seq::<ShiftView<()>>::empty());
        }
    }
    let first = merkle_trace_pass(zero, zero_shifts);
    let second = merkle_trace_pass(selection, &none);
    let ghost first0 = first;
    let ghost second0 = second;
    proof {
        assert forall|z: spec_fn(int) -> u128|
            (#[trigger] merkle_prefix(
                zero.at(z),
                shifts_at(zero_shifts@, z),
                selection.at(z),
            )) == (if first0 is Some && second0 is Some {
                Ok::<PrefixView, UnionVerifyError<()>>(
                    PrefixView {
                        pending: claims_at((first0->0).1@, z) + claims_at((second0->0).1@, z),
                        point: values_at(selection.point@, z),
                        lanes: values_at((second0->0).0@, z),
                    },
                )
            } else {
                Err::<PrefixView, UnionVerifyError<()>>(UnionVerifyError::Shape)
            }) by {
            let a = merkle_pass(
                zero.at(z),
                values_at(zero.point@, z),
                shifts_at(zero_shifts@, z),
            );
            let c = merkle_pass(
                selection.at(z),
                values_at(selection.point@, z),
                shifts_at(none@, z),
            );
            assert(shifts_at(none@, z) == Seq::<ShiftView<()>>::empty());
        }
    }
    match (first, second) {
        (Some((_, claims)), Some((lanes, more))) => {
            let pending = append_trace(claims, more);
            let point = copy_exprs(&selection.point);
            let prefix = TracePrefix { pending, point, lanes };
            proof {
                assert forall|z: spec_fn(int) -> u128|
                    trace_prefix_is(
                        Some(prefix),
                        #[trigger] merkle_prefix(
                            zero.at(z),
                            shifts_at(zero_shifts@, z),
                            selection.at(z),
                        ),
                        z,
                    ) by {
                    let c = merkle_pass(
                        selection.at(z),
                        values_at(selection.point@, z),
                        shifts_at(none@, z),
                    );
                    assert(claims_at(pending@, z) == claims_at(claims@, z) + claims_at(more@, z));
                    assert(values_at(point@, z) == values_at(selection.point@, z));
                }
            }
            Some(prefix)
        },
        _ => None,
    }
}

/// The suffix of the Merkle walk from its substitution and shifts in rows.
pub fn discharge_merkle_suffix(
    prefix: TracePrefix,
    substitution: &TraceRelation,
    shifts: &Vec<TraceShift>,
) -> (r: Option<Vec<TraceClaim>>)
    ensures
        forall|z: spec_fn(int) -> u128|
            trace_claims_are(
                r,
                #[trigger] merkle_suffix(
                    prefix.at(z).pending,
                    substitution.at(z),
                    shifts_at(shifts@, z),
                ),
                z,
            ),
{
    let passed = merkle_trace_pass(substitution, shifts);
    proof {
        assert forall|z: spec_fn(int) -> u128|
            (#[trigger] merkle_suffix(
                prefix.at(z).pending,
                substitution.at(z),
                shifts_at(shifts@, z),
            )) == match merkle_pass(
                substitution.at(z),
                values_at(substitution.point@, z),
                shifts_at(shifts@, z),
            ) {
                Err(e) => Err::<Seq<ClaimView>, UnionVerifyError<()>>(e),
                Ok(s) => Ok(prefix.at(z).pending + s.claims),
            } by {}
    }
    match passed {
        None => None,
        Some((_, claims)) => Some(append_trace(prefix.pending, claims)),
    }
}

/// Columns moved to where their walk starts in a table of all columns.
pub open spec fn rebased(claims: Seq<ClaimView>, base: usize) -> Seq<ClaimView> {
    Seq::new(
        claims.len(),
        |i: int| ClaimView { column: (base + claims[i].column) as usize, ..claims[i] },
    )
}

pub fn rebase_claims(claims: Vec<TraceClaim>, base: usize) -> (r: Vec<TraceClaim>)
    requires
        forall|i: int|
            0 <= i < claims@.len() ==> base + (#[trigger] claims@[i]).column <= usize::MAX,
    ensures
        forall|z: spec_fn(int) -> u128| #[trigger]
            claims_at(r@, z) == rebased(claims_at(claims@, z), base),
        forall|n: nat| claims_below(claims@, n) ==> #[trigger] claims_below(r@, n),
{
    let mut r: Vec<TraceClaim> = Vec::new();
    let mut i: usize = 0;
    while i < claims.len()
        invariant
            i <= claims@.len(),
            forall|k: int|
                0 <= k < claims@.len() ==> base + (#[trigger] claims@[k]).column <= usize::MAX,
            r@.len() == i,
            forall|k: int|
                0 <= k < i ==> (#[trigger] r@[k]).column == base + claims@[k].column,
            forall|k: int, z: spec_fn(int) -> u128|
                0 <= k < i ==> (#[trigger] r@[k].at(z)).point == claims@[k].at(z).point
                    && r@[k].at(z).value == claims@[k].at(z).value,
            forall|k: int, n: nat|
                0 <= k < i && claims@[k].below(n) ==> #[trigger] r@[k].below(n),
        decreases claims@.len() - i,
    {
        let ghost r0 = r@;
        assert(base + claims@[i as int].column <= usize::MAX);
        let point = copy_exprs(&claims[i].point);
        let value = claims[i].value.clone();
        r.push(TraceClaim { column: base + claims[i].column, point, value });
        proof {
            assert forall|k: int, z: spec_fn(int) -> u128| 0 <= k < i + 1 implies (
            #[trigger] r@[k].at(z)).point == claims@[k].at(z).point && r@[k].at(z).value
                == claims@[k].at(z).value by {
                if k < i {
                    assert(r@[k] == r0[k]);
                    assert(r0[k].at(z).point == claims@[k].at(z).point);
                } else {
                    assert(values_at(point@, z) == values_at(claims@[k].point@, z));
                    assert(value@ == claims@[k].value@);
                }
            }
            assert forall|k: int, n: nat| 0 <= k < i + 1 && claims@[k].below(n) implies #[trigger] r@[k].below(
                n,
            ) by {
                if k < i {
                    assert(r@[k] == r0[k]);
                }
            }
        }
        i = i + 1;
    }
    proof {
        assert forall|z: spec_fn(int) -> u128| #[trigger] claims_at(r@, z) == rebased(
            claims_at(claims@, z),
            base,
        ) by {
            assert forall|k: int| 0 <= k < r@.len() implies claims_at(r@, z)[k] == rebased(
                claims_at(claims@, z),
                base,
            )[k] by {
                assert(r@[k].at(z).point == claims@[k].at(z).point);
                assert(r@[k].column == base + claims@[k].column);
            }
            assert(claims_at(r@, z) =~= rebased(claims_at(claims@, z), base));
        }
        assert forall|n: nat| claims_below(claims@, n) implies #[trigger] claims_below(r@, n) by {
            assert forall|k: int| 0 <= k < r@.len() implies (#[trigger] r@[k]).below(n) by {
                assert(claims@[k].below(n));
            }
        }
    }
    r
}

// ---------------------------------------------------------------------------
// Challenges read off the carry cells of a channel walk.
// ---------------------------------------------------------------------------
/// The coordinates of a slot.
pub open spec fn slot_bits(slot: int, w_log: nat) -> Seq<u128> {
    Seq::new(
        w_log,
        |k: int|
            if index_bit(slot, k) {
                1u128
            } else {
                0u128
            },
    )
}

/// The point that selects a slot.
pub fn slot_point(slot: usize, w_log: usize) -> (r: Vec<LinExpr>)
    ensures
        forall|z: spec_fn(int) -> u128| #[trigger]
            values_at(r@, z) == slot_bits(slot as int, w_log as nat),
        all_below(r@, 0),
{
    let bits = index_bits(slot, w_log);
    let mut r: Vec<LinExpr> = Vec::new();
    let mut k: usize = 0;
    while k < w_log
        invariant
            k <= w_log,
            bits@.len() == w_log,
            forall|l: int| 0 <= l < w_log ==> #[trigger] bits@[l] == index_bit(slot as int, l),
            r@.len() == k,
            all_below(r@, 0),
            forall|l: int, z: spec_fn(int) -> u128|
                0 <= l < k ==> #[trigger] r@[l].at(z) == slot_bits(slot as int, w_log as nat)[l],
        decreases w_log - k,
    {
        let ghost r0 = r@;
        let value = if bits[k] {
            F128::one()
        } else {
            F128::zero()
        };
        r.push(LinExpr::constant(value));
        proof {
            assert(bits@[k as int] == index_bit(slot as int, k as int));
            assert forall|l: int, z: spec_fn(int) -> u128| 0 <= l < k + 1 implies #[trigger] r@[l].at(
                z,
            ) == slot_bits(slot as int, w_log as nat)[l] by {
                if l < k {
                    assert(r@[l] == r0[l]);
                }
            }
        }
        k = k + 1;
    }
    proof {
        assert forall|z: spec_fn(int) -> u128| #[trigger] values_at(r@, z) == slot_bits(
            slot as int,
            w_log as nat,
        ) by {
            assert(values_at(r@, z) =~= slot_bits(slot as int, w_log as nat));
        }
    }
    r
}

/// The openings that bind the challenges of row `t` of a channel walk: the
/// carry column of each challenge, at its slot in that row.
pub open spec fn challenge_claims(
    layout: DuplexLayout,
    c: int,
    per_row: int,
    w_log: nat,
    t: int,
    wires: Seq<LinExpr>,
    z: spec_fn(int) -> u128,
    n: nat,
) -> Seq<ClaimView> {
    Seq::new(
        n,
        |k: int|
            ClaimView {
                column: (c + layout.challenges@[k].lane) as usize,
                point: slot_bits(t * per_row + layout.challenges@[k].slot, w_log),
                value: wires[k].at(z),
            },
    )
}

/// Binds the challenge wires of one row to the carry cells of its channel; `c`
/// is the first carry column and `per_row` the slots of a row.
pub fn bind_duplex_challenges(
    layout: &DuplexLayout,
    c: usize,
    per_row: usize,
    w_log: usize,
    t: usize,
    wires: &Vec<LinExpr>,
) -> (r: Vec<TraceClaim>)
    requires
        wires@.len() == layout.challenges@.len(),
        forall|k: int|
            0 <= k < layout.challenges@.len() ==> c + (#[trigger] layout.challenges@[k]).lane
                <= usize::MAX && t * per_row + layout.challenges@[k].slot <= usize::MAX,
    ensures
        forall|z: spec_fn(int) -> u128| #[trigger]
            claims_at(r@, z) == challenge_claims(
                *layout,
                c as int,
                per_row as int,
                w_log as nat,
                t as int,
                wires@,
                z,
                wires@.len(),
            ),
        forall|n: nat| all_below(wires@, n) ==> #[trigger] claims_below(r@, n),
{
    let mut r: Vec<TraceClaim> = Vec::new();
    let mut k: usize = 0;
    while k < wires.len()
        invariant
            k <= wires@.len(),
            wires@.len() == layout.challenges@.len(),
            forall|i: int|
                0 <= i < layout.challenges@.len() ==> c + (#[trigger] layout.challenges@[i]).lane
                    <= usize::MAX && t * per_row + layout.challenges@[i].slot <= usize::MAX,
            r@.len() == k,
            forall|i: int, z: spec_fn(int) -> u128|
                0 <= i < k ==> #[trigger] r@[i].at(z) == challenge_claims(
                    *layout,
                    c as int,
                    per_row as int,
                    w_log as nat,
                    t as int,
                    wires@,
                    z,
                    wires@.len(),
                )[i],
            forall|i: int, n: nat|
                0 <= i < k && all_below(wires@, n) ==> #[trigger] r@[i].below(n),
        decreases wires@.len() - k,
    {
        let ghost r0 = r@;
        let position = layout.challenges[k];
        assert(c + layout.challenges@[k as int].lane <= usize::MAX);
        assert(t * per_row >= 0) by (nonlinear_arith);
        let point = slot_point(t * per_row + position.slot, w_log);
        let value = wires[k].clone();
        r.push(TraceClaim { column: c + position.lane, point, value });
        proof {
            assert forall|i: int, z: spec_fn(int) -> u128| 0 <= i < k + 1 implies #[trigger] r@[i].at(
                z,
            ) == challenge_claims(
                *layout,
                c as int,
                per_row as int,
                w_log as nat,
                t as int,
                wires@,
                z,
                wires@.len(),
            )[i] by {
                if i < k {
                    assert(r@[i] == r0[i]);
                } else {
                    assert(values_at(point@, z) == slot_bits(
                        t * per_row + position.slot,
                        w_log as nat,
                    ));
                    assert(value@ == wires@[i]@);
                }
            }
            assert forall|i: int, n: nat| 0 <= i < k + 1 && all_below(wires@, n) implies #[trigger] r@[i].below(
                n,
            ) by {
                if i < k {
                    assert(r@[i] == r0[i]);
                } else {
                    assert(wires@[i].bound() <= n);
                    assert forall|l: int| 0 <= l < point@.len() implies (
                    #[trigger] point@[l]).bound() <= n by {
                        assert(point@[l].bound() <= 0);
                    }
                }
            }
        }
        k = k + 1;
    }
    proof {
        assert forall|z: spec_fn(int) -> u128| #[trigger] claims_at(r@, z) == challenge_claims(
            *layout,
            c as int,
            per_row as int,
            w_log as nat,
            t as int,
            wires@,
            z,
            wires@.len(),
        ) by {
            assert(claims_at(r@, z) =~= challenge_claims(
                *layout,
                c as int,
                per_row as int,
                w_log as nat,
                t as int,
                wires@,
                z,
                wires@.len(),
            ));
        }
        assert forall|n: nat| all_below(wires@, n) implies #[trigger] claims_below(r@, n) by {
            assert forall|i: int| 0 <= i < r@.len() implies (#[trigger] r@[i]).below(n) by {}
        }
    }
    r
}

/// Reads the challenges of one row into fresh wires and binds them.
pub fn read_duplex_challenges(
    b: &mut FieldR1csBuilder,
    layout: &DuplexLayout,
    c: usize,
    per_row: usize,
    w_log: usize,
    t: usize,
    challenges: &Vec<F128>,
) -> (r: (Vec<LinExpr>, Vec<TraceClaim>))
    requires
        old(b).wf(),
        challenges@.len() == layout.challenges@.len(),
        forall|k: int|
            0 <= k < layout.challenges@.len() ==> c + (#[trigger] layout.challenges@[k]).lane
                <= usize::MAX && t * per_row + layout.challenges@[k].slot <= usize::MAX,
    ensures
        refines(*final(b), *old(b)),
        final(b).honest() <==> old(b).honest(),
        final(b).wires() == old(b).wires() + challenges@.len(),
        r.0@.len() == challenges@.len(),
        forall|k: int|
            0 <= k < r.0@.len() ==> #[trigger] r.0@[k].at(final(b).witness()) == challenges@[k]@,
        claims_below(r.1@, final(b).wires()),
        forall|z: spec_fn(int) -> u128| #[trigger]
            claims_at(r.1@, z) == challenge_claims(
                *layout,
                c as int,
                per_row as int,
                w_log as nat,
                t as int,
                r.0@,
                z,
                r.0@.len(),
            ),
        final(b).shape() == free_step(old(b).shape(), challenges@.len()),
        forms(r.0@) == forms_from(old(b).wires(), challenges@.len()),
{
    reveal(free_step);
    let ghost entry = *b;
    assert(forms(Seq::<LinExpr>::empty()) =~= forms_from(b.wires(), 0));
    let ghost b0 = *b;
    let mut wires: Vec<LinExpr> = Vec::new();
    let mut k: usize = 0;
    while k < challenges.len()
        invariant
            k <= challenges@.len(),
            b0.wf(),
            refines(*b, b0),
            b.honest() <==> b0.honest(),
            b.wires() == b0.wires() + k,
            wires@.len() == k,
            all_below(wires@, b.wires()),
            forall|i: int|
                0 <= i < k ==> #[trigger] wires@[i].at(b.witness()) == challenges@[i]@,
            entry.wf(),
            b.wires() == entry.wires() + k,
            b.shape() == free_step(entry.shape(), k as nat),
            forms(wires@) == forms_from(entry.wires(), k as nat),
        decreases challenges@.len() - k,
    {
        reveal(free_step);
        let ghost mid = *b;
        let ghost wires0 = wires@;
        let wire = b.alloc_f128(challenges[k]);
        wires.push(LinExpr::from_wire(wire));
        proof {
            assert(b.holds(b.witness()) == mid.holds(b.witness()));
            assert(mid.holds(b.witness()) == mid.holds(mid.witness()));
            assert forall|i: int| 0 <= i < k + 1 implies #[trigger] wires@[i].at(b.witness())
                == challenges@[i]@ by {
                if i < k {
                    assert(wires@[i] == wires0[i]);
                    assert(wires0[i].bound() <= mid.wires());
                    assert(wires0[i]@.at(b.witness()) == wires0[i]@.at(mid.witness()));
                    assert(wires0[i].at(mid.witness()) == challenges@[i]@);
                }
            }
        }
        k = k + 1;
        assert(forms(wires@) =~= forms_from(entry.wires(), k as nat));
    }
    let claims = bind_duplex_challenges(layout, c, per_row, w_log, t, &wires);
    (wires, claims)
}

} // verus!
