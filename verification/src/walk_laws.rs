//! What the openings, targets and round polynomials of the walks stand for.
use crate::circuit::LinExpr;
use crate::duplex::DuplexLayout;
use crate::field::{fmul, lemma_fmul_assoc, lemma_fmul_distrib, lemma_xor};
use crate::mle_trace::{eq_product, eq_weight, lemma_mle_selects, mle};
use crate::relation_terms::{cells_at, power, sum_at, term_at, ColRef};
use crate::round_trace::{full_coeffs, poly_from};
use crate::tx_root::index_bit;
use crate::spine_union::SpineUnionSpec;
use crate::walk_claims::{
    duplex_kind, exposed, exposed_claim, exposed_to, leaf_kind, leaf_suffix, merkle_kind, merkle_prefix,
    merkle_suffix, paired, pass, pass_to, selection_kind, selection_prefix, suffix, target_to,
    ClaimView, PassKind, PrefixView, ReplayView, ShiftView, UnionVerifyError,
};
use crate::walk_discharge::{challenge_claims, rebased, selection_views};
use crate::wiring_laws::lemma_plain;
use vstd::arithmetic::power2::pow2;
use vstd::prelude::*;

verus! {

/// The target of a substitution weighs the four lanes by the powers of the challenge, from
/// one on.
pub proof fn lemma_target_value(alpha: u128, values: Seq<u128>)
    requires
        values.len() == 4,
    ensures
        ({
            let a2 = fmul(alpha, alpha);
            let a3 = fmul(a2, alpha);
            let a4 = fmul(a3, alpha);
            target_to(alpha, values, 4) == ((fmul(alpha, values[0]) ^ fmul(a2, values[1])) ^ fmul(
                a3,
                values[2],
            )) ^ fmul(a4, values[3])
        }),
{
    lemma_plain();
    reveal_with_fuel(power, 5);
    reveal_with_fuel(target_to, 5);
}

/// The selection compares each carry column with its output lane, under the powers of its
/// challenge: it vanishes wherever all four agree.
pub proof fn lemma_selection_value(c: Seq<usize>, beta: u128, cell: spec_fn(ColRef) -> u128)
    requires
        c.len() == 4,
    ensures
        ({
            let b2 = fmul(beta, beta);
            let b3 = fmul(b2, beta);
            let b4 = fmul(b3, beta);
            let gap = |l: int| cell(ColRef::Committed(c[l])) ^ cell(ColRef::Internal(l as usize));
            &&& sum_at(selection_views(c, beta, 4), cell) == ((fmul(beta, gap(0)) ^ fmul(
                b2,
                gap(1),
            )) ^ fmul(b3, gap(2))) ^ fmul(b4, gap(3))
            &&& (forall|l: int|
                0 <= l < 4 ==> cell(ColRef::Internal(l as usize)) == cell(
                    ColRef::Committed(#[trigger] c[l]),
                )) ==> sum_at(selection_views(c, beta, 4), cell) == 0
        }),
{
    lemma_plain();
    reveal_with_fuel(power, 5);
    let gap = |l: int| cell(ColRef::Committed(c[l])) ^ cell(ColRef::Internal(l as usize));
    assert(selection_views(c, beta, 0) =~= seq![]);
    lemma_selection_step(c, beta, cell, 1);
    lemma_selection_step(c, beta, cell, 2);
    lemma_selection_step(c, beta, cell, 3);
    lemma_selection_step(c, beta, cell, 4);
    if forall|l: int|
        0 <= l < 4 ==> cell(ColRef::Internal(l as usize)) == cell(
            ColRef::Committed(#[trigger] c[l]),
        ) {
        assert(c[0] == c[0] && c[1] == c[1] && c[2] == c[2] && c[3] == c[3]);
        assert(gap(0) == 0 && gap(1) == 0 && gap(2) == 0 && gap(3) == 0);
    }
}

proof fn lemma_selection_step(
    c: Seq<usize>,
    beta: u128,
    cell: spec_fn(ColRef) -> u128,
    n: nat,
)
    requires
        1 <= n <= 4,
        c.len() == 4,
    ensures
        sum_at(selection_views(c, beta, n), cell) == sum_at(
            selection_views(c, beta, (n - 1) as nat),
            cell,
        ) ^ fmul(
            power(beta, n),
            cell(ColRef::Committed(c[n - 1])) ^ cell(ColRef::Internal((n - 1) as usize)),
        ),
{
    let rest = selection_views(c, beta, (n - 1) as nat);
    let all = selection_views(c, beta, n);
    let mid = all.drop_last();
    assert(mid.drop_last() =~= rest);
    reveal_with_fuel(cells_at, 2);
    lemma_plain();
    let x = cell(ColRef::Committed(c[n - 1]));
    let y = cell(ColRef::Internal((n - 1) as usize));
    assert(term_at(mid.last(), cell) == fmul(power(beta, n), x));
    assert(term_at(all.last(), cell) == fmul(power(beta, n), y));
    assert(mid.len() == rest.len() + 1);
    assert(sum_at(mid, cell) == sum_at(rest, cell) ^ fmul(power(beta, n), x));
    assert(sum_at(all, cell) == sum_at(mid, cell) ^ fmul(power(beta, n), y));
    lemma_fmul_distrib(x, y, power(beta, n));
    lemma_xor(sum_at(rest, cell), fmul(power(beta, n), x), fmul(power(beta, n), y));
}

/// The opening of a challenge reads the carry column of the challenge's lane at the
/// challenge's own slot in the row: whatever that column holds, the opening is of that
/// cell.
pub proof fn lemma_challenge_opens(
    layout: DuplexLayout,
    c: int,
    per_row: int,
    w_log: nat,
    t: int,
    wires: Seq<LinExpr>,
    z: spec_fn(int) -> u128,
    n: nat,
    k: int,
    column: Seq<u128>,
)
    requires
        0 <= k < n,
        n <= layout.challenges@.len(),
        0 <= c + layout.challenges@[k].lane <= usize::MAX,
        column.len() == pow2(w_log),
        0 <= t * per_row + layout.challenges@[k].slot < column.len(),
    ensures
        ({
            let claim = challenge_claims(layout, c, per_row, w_log, t, wires, z, n)[k];
            &&& claim.column == c + layout.challenges@[k].lane
            &&& claim.value == wires[k].at(z)
            &&& mle(column, claim.point) == column[t * per_row + layout.challenges@[k].slot]
        }),
{
    let claim = challenge_claims(layout, c, per_row, w_log, t, wires, z, n)[k];
    let at = t * per_row + layout.challenges@[k].slot;
    lemma_mle_selects(column, claim.point, at);
}

/// The equality of a point with a corner is the weight of the corner's index, and equality
/// is symmetric.
pub proof fn lemma_equality_weighs(x: Seq<u128>, y: Seq<u128>, n: nat, j: int)
    requires
        forall|i: int|
            0 <= i < n ==> #[trigger] y[i] == if index_bit(j, i) {
                1u128
            } else {
                0u128
            },
    ensures
        eq_product(x, y, n) == eq_weight(x, n, j),
        eq_product(y, x, n) == eq_product(x, y, n),
    decreases n,
{
    if n > 0 {
        lemma_equality_weighs(x, y, (n - 1) as nat, j);
        let a = x[n - 1];
        let b = y[n - 1];
        lemma_xor(a, b, 1);
        lemma_xor(a, 0, 1);
        lemma_xor(a, 1, 1);
    }
}

/// A round polynomial evaluates as its coefficients say: one more coefficient adds itself
/// times the next power of the point, and the coefficients are the sent ones in order with
/// the linear one between the constant and the rest.
pub proof fn lemma_polynomial(coeffs: Seq<u128>, a: u128, x: u128)
    ensures
        poly_from(seq![], x, 0) == 0,
        poly_from(coeffs.push(a), x, 0) == poly_from(coeffs, x, 0) ^ fmul(
            a,
            power(x, coeffs.len()),
        ),
{
    lemma_poly_push(coeffs, a, x, 0);
}

proof fn lemma_poly_push(coeffs: Seq<u128>, a: u128, x: u128, from: int)
    requires
        0 <= from <= coeffs.len(),
    ensures
        poly_from(coeffs.push(a), x, from) == poly_from(coeffs, x, from) ^ fmul(
            a,
            power(x, (coeffs.len() - from) as nat),
        ),
    decreases coeffs.len() - from,
{
    let all = coeffs.push(a);
    lemma_plain();
    if from == coeffs.len() {
        reveal_with_fuel(poly_from, 2);
    } else {
        lemma_poly_push(coeffs, a, x, from + 1);
        let p = poly_from(coeffs, x, from + 1);
        let k = (coeffs.len() - from - 1) as nat;
        let q = fmul(a, power(x, k));
        lemma_fmul_distrib(p, q, x);
        lemma_fmul_assoc(a, power(x, k), x);
        lemma_xor(coeffs[from], fmul(p, x), fmul(q, x));
        assert(all[from] == coeffs[from]);
    }
}

/// What a round sends is the polynomial without its linear coefficient; the linear one
/// makes the values at zero and one sum to the claim.
pub proof fn lemma_sent_coefficients(sent: Seq<u128>, claim: u128)
    requires
        sent.len() > 0,
    ensures
        full_coeffs(sent, claim).len() == sent.len() + 1,
        full_coeffs(sent, claim)[0] == sent[0],
        forall|i: int| 1 <= i < sent.len() ==> full_coeffs(sent, claim)[i + 1] == #[trigger] sent[i],
        poly_from(full_coeffs(sent, claim), 0, 0) ^ poly_from(full_coeffs(sent, claim), 1, 0)
            == claim,
{
    let f = full_coeffs(sent, claim);
    assert forall|i: int| 1 <= i < sent.len() implies f[i + 1] == #[trigger] sent[i] by {}
    crate::round_trace::lemma_round_identity(sent, claim);
}

/// What one more cell does to a pass. A committed cell opens its column at the point of the
/// pass with its own value. An output lane takes its value where the pass accepts lanes.
/// A shifted cell takes the next shift, where the pass accepts shifts of its length, and
/// opens its column where that shift ended. Any other cell is out of shape.
pub proof fn lemma_pass_next<E>(
    kind: PassKind,
    references: Seq<ColRef>,
    values: Seq<u128>,
    point: Seq<u128>,
    shifts: Seq<ShiftView<E>>,
    n: nat,
)
    requires
        pass_to(kind, references, values, point, shifts, n) is Ok,
    ensures
        ({
            let s = pass_to(kind, references, values, point, shifts, n)->Ok_0;
            let out = pass_to(kind, references, values, point, shifts, n + 1);
            let value = values[n as int];
            let shape = Err::<crate::walk_claims::PassState, _>(UnionVerifyError::<E>::Shape);
            match references[n as int] {
                ColRef::Committed(column) => {
                    &&& out is Ok
                    &&& out->Ok_0.claims == s.claims.push(ClaimView { column, point, value })
                    &&& out->Ok_0.lanes == s.lanes
                    &&& out->Ok_0.cursor == s.cursor
                },
                ColRef::Internal(lane) => if kind.lanes && lane < 4 {
                    &&& out is Ok
                    &&& out->Ok_0.claims == s.claims
                    &&& out->Ok_0.lanes == s.lanes.update(lane as int, value)
                    &&& out->Ok_0.cursor == s.cursor
                } else {
                    out == shape
                },
                ColRef::CommittedShift(column) => if kind.shift && s.cursor < shifts.len() {
                    match shifts[s.cursor as int].verdict {
                        Ok(end) => {
                            &&& out is Ok
                            &&& out->Ok_0.claims == s.claims.push(
                                ClaimView {
                                    column,
                                    point: end,
                                    value: shifts[s.cursor as int].final_value,
                                },
                            )
                            &&& out->Ok_0.lanes == s.lanes
                            &&& out->Ok_0.cursor == s.cursor + 1
                        },
                        Err(e) => out == Err::<crate::walk_claims::PassState, _>(
                            UnionVerifyError::Shift(e),
                        ),
                    }
                } else {
                    out == shape
                },
                ColRef::CommittedShift2(column) => if kind.shift2 && s.cursor < shifts.len() {
                    match shifts[s.cursor as int].verdict {
                        Ok(end) => {
                            &&& out is Ok
                            &&& out->Ok_0.claims == s.claims.push(
                                ClaimView {
                                    column,
                                    point: end,
                                    value: shifts[s.cursor as int].final_value,
                                },
                            )
                            &&& out->Ok_0.lanes == s.lanes
                            &&& out->Ok_0.cursor == s.cursor + 1
                        },
                        Err(e) => out == Err::<crate::walk_claims::PassState, _>(
                            UnionVerifyError::Shift(e),
                        ),
                    }
                } else {
                    out == shape
                },
                _ => out == shape,
            }
        }),
{
}

/// A pass starts with no openings and zero lanes, stops at the first cell that fails, and
/// passes only when it has used every shift.
pub proof fn lemma_pass_ends<E>(
    kind: PassKind,
    references: Seq<ColRef>,
    values: Seq<u128>,
    point: Seq<u128>,
    shifts: Seq<ShiftView<E>>,
)
    requires
        references.len() == values.len(),
    ensures
        pass_to(kind, references, values, point, shifts, 0) is Ok,
        pass_to(kind, references, values, point, shifts, 0)->Ok_0.claims.len() == 0,
        pass_to(kind, references, values, point, shifts, 0)->Ok_0.cursor == 0,
        forall|l: int|
            0 <= l < 4 ==> #[trigger] pass_to(
                kind,
                references,
                values,
                point,
                shifts,
                0,
            )->Ok_0.lanes[l] == 0,
        pass(kind, references, values, point, shifts) is Ok <==> ({
            let s = pass_to(kind, references, values, point, shifts, references.len());
            s is Ok && s->Ok_0.cursor == shifts.len()
        }),
        pass(kind, references, values, point, shifts) is Ok ==> pass(
            kind,
            references,
            values,
            point,
            shifts,
        ) == pass_to(kind, references, values, point, shifts, references.len()),
{
}

/// A selection takes lanes and no shifts, a substitution of the leaf walk shifts of both
/// lengths and no lanes, one of the duplex walk single shifts alone, and a pass of the
/// Merkle walk everything.
pub proof fn lemma_pass_kinds()
    ensures
        selection_kind().lanes && !selection_kind().shift && !selection_kind().shift2,
        !leaf_kind().lanes && leaf_kind().shift && leaf_kind().shift2,
        !duplex_kind().lanes && duplex_kind().shift && !duplex_kind().shift2,
        merkle_kind().lanes && merkle_kind().shift && merkle_kind().shift2,
{
}

/// A prefix passes exactly when its selection does, without shifts, and leaves the openings
/// and the lanes of that pass at the selection's point.
pub proof fn lemma_prefix_of_selection<E>(selection: ReplayView<E>)
    ensures
        match selection.verdict {
            Err(e) => selection_prefix(selection) == Err::<PrefixView, _>(
                UnionVerifyError::Selection(e),
            ),
            Ok(point) => {
                let s = pass::<E>(
                    selection_kind(),
                    selection.references,
                    selection.values,
                    point,
                    seq![],
                );
                &&& selection_prefix(selection) is Ok <==> s is Ok
                &&& s is Ok ==> {
                    let out = selection_prefix(selection)->Ok_0;
                    out.pending == s->Ok_0.claims && out.lanes == s->Ok_0.lanes && out.point == point
                }
            },
        },
{
}

/// The prefix of the Merkle walk opens what vanishes first and what is selected after it;
/// the point and the lanes are the selection's.
pub proof fn lemma_prefix_of_merkle<E>(
    zero: ReplayView<E>,
    zero_shifts: Seq<ShiftView<E>>,
    selection: ReplayView<E>,
)
    requires
        merkle_prefix(zero, zero_shifts, selection) is Ok,
    ensures
        zero.verdict is Ok,
        selection.verdict is Ok,
        zero.references.len() == zero.values.len(),
        selection.references.len() == selection.values.len(),
        ({
            let out = merkle_prefix(zero, zero_shifts, selection)->Ok_0;
            let first = pass(
                merkle_kind(),
                zero.references,
                zero.values,
                zero.verdict->Ok_0,
                zero_shifts,
            );
            let second = pass::<E>(
                merkle_kind(),
                selection.references,
                selection.values,
                selection.verdict->Ok_0,
                seq![],
            );
            &&& first is Ok
            &&& second is Ok
            &&& out.pending == first->Ok_0.claims + second->Ok_0.claims
            &&& out.point == selection.verdict->Ok_0
            &&& out.lanes == second->Ok_0.lanes
        }),
{
}

/// A suffix keeps the openings of its prefix, in front, and adds those of its substitution.
pub proof fn lemma_suffix_keeps<E>(
    kind: PassKind,
    pending: Seq<ClaimView>,
    substitution: ReplayView<E>,
    shifts: Seq<ShiftView<E>>,
)
    ensures
        match substitution.verdict {
            Err(e) => {
                &&& suffix(kind, pending, substitution, shifts) == Err::<Seq<ClaimView>, _>(
                    UnionVerifyError::Substitution(e),
                )
                &&& merkle_suffix(pending, substitution, shifts) == Err::<Seq<ClaimView>, _>(
                    UnionVerifyError::Substitution(e),
                )
            },
            Ok(point) => {
                let s = pass(kind, substitution.references, substitution.values, point, shifts);
                let t = pass(
                    merkle_kind(),
                    substitution.references,
                    substitution.values,
                    point,
                    shifts,
                );
                let even = substitution.references.len() == substitution.values.len();
                &&& suffix(kind, pending, substitution, shifts) is Ok <==> s is Ok
                &&& s is Ok ==> suffix(kind, pending, substitution, shifts)->Ok_0 == pending
                    + s->Ok_0.claims
                &&& merkle_suffix(pending, substitution, shifts) is Ok <==> even && t is Ok
                &&& even && t is Ok ==> merkle_suffix(pending, substitution, shifts)->Ok_0
                    == pending + t->Ok_0.claims
            },
        },
{
}

/// The exposure of the spine is there exactly where the spine is; it opens, behind what is
/// pending, the children of the tree and the odd slots of its state, each at its own
/// place in the leaf walk.
pub proof fn lemma_exposure<E>(
    spine: Option<SpineUnionSpec>,
    exposure: Option<ReplayView<E>>,
    pending: Seq<ClaimView>,
)
    ensures
        spine is None && exposure is None ==> exposed(spine, exposure, pending) == Ok::<
            Seq<ClaimView>,
            UnionVerifyError<E>,
        >(pending),
        spine is Some != exposure is Some ==> exposed(spine, exposure, pending) == Err::<
            Seq<ClaimView>,
            UnionVerifyError<E>,
        >(UnionVerifyError::Shape),
        spine is Some && exposed(spine, exposure, pending) is Ok ==> {
            let replay = exposure->0;
            let out = exposed(spine, exposure, pending)->Ok_0;
            let n = if replay.references.len() < replay.values.len() {
                replay.references.len()
            } else {
                replay.values.len()
            };
            &&& exposure is Some
            &&& replay.verdict is Ok
            &&& out.len() == pending.len() + n
            &&& out.take(pending.len() as int) == pending
            &&& forall|i: int|
                0 <= i < n ==> Some(#[trigger] out[pending.len() + i]) == exposed_claim(
                    spine->0,
                    replay.references[i],
                    replay.verdict->Ok_0,
                    replay.values[i],
                )
        },
{
    if spine is Some && exposed(spine, exposure, pending) is Ok {
        let replay = exposure->0;
        let n = paired(replay);
        let claims = exposed_to(
            spine->0,
            replay.references,
            replay.values,
            replay.verdict->Ok_0,
            n,
        )->0;
        let out = exposed(spine, exposure, pending)->Ok_0;
        lemma_exposed_each(
            spine->0,
            replay.references,
            replay.values,
            replay.verdict->Ok_0,
            n,
        );
        assert(out.take(pending.len() as int) =~= pending);
        assert forall|i: int| 0 <= i < n implies Some(#[trigger] out[pending.len() + i])
            == exposed_claim(
            spine->0,
            replay.references[i],
            replay.verdict->Ok_0,
            replay.values[i],
        ) by {
            assert(out[pending.len() + i] == claims[i]);
        }
    }
}

proof fn lemma_exposed_each(
    spec: SpineUnionSpec,
    references: Seq<ColRef>,
    values: Seq<u128>,
    point: Seq<u128>,
    n: nat,
)
    requires
        exposed_to(spec, references, values, point, n) is Some,
    ensures
        exposed_to(spec, references, values, point, n)->0.len() == n,
        forall|i: int|
            0 <= i < n ==> Some(
                #[trigger] exposed_to(spec, references, values, point, n)->0[i],
            ) == exposed_claim(spec, references[i], point, values[i]),
    decreases n,
{
    if n > 0 {
        lemma_exposed_each(spec, references, values, point, (n - 1) as nat);
        let rest = exposed_to(spec, references, values, point, (n - 1) as nat)->0;
        let all = exposed_to(spec, references, values, point, n)->0;
        assert forall|i: int| 0 <= i < n implies Some(#[trigger] all[i]) == exposed_claim(
            spec,
            references[i],
            point,
            values[i],
        ) by {
            if i < n - 1 {
                assert(all[i] == rest[i]);
            }
        }
    }
}

/// An exposed child opens its column of the leaf walk on the lower half of the tree run; an
/// exposed state opens its column on the odd slots.
pub proof fn lemma_exposed_places(
    spec: SpineUnionSpec,
    point: Seq<u128>,
    value: u128,
    l: usize,
)
    requires
        l < 2,
    ensures
        exposed_claim(spec, ColRef::Committed(l), point, value) == Some(
            ClaimView { column: spec.kid_meta[l as int], point: spec.kid_point(point), value },
        ),
        exposed_claim(
            spec,
            ColRef::Window { col: (l + 2) as usize, stride_log: 1, offset: 1 },
            point,
            value,
        ) == Some(ClaimView { column: spec.c_meta[l as int], point: spec.c_point(point), value }),
{
}

/// Moving openings to another table of columns moves their columns and nothing else.
pub proof fn lemma_rebased(claims: Seq<ClaimView>, base: usize, i: int)
    requires
        0 <= i < claims.len(),
        base + claims[i].column <= usize::MAX,
    ensures
        rebased(claims, base).len() == claims.len(),
        rebased(claims, base)[i].column == base + claims[i].column,
        rebased(claims, base)[i].point == claims[i].point,
        rebased(claims, base)[i].value == claims[i].value,
{
}

/// The suffix of the leaf walk opens its substitution and then its exposure.
pub proof fn lemma_leaf_suffix<E>(
    spine: Option<SpineUnionSpec>,
    pending: Seq<ClaimView>,
    substitution: ReplayView<E>,
    shifts: Seq<ShiftView<E>>,
    exposure: Option<ReplayView<E>>,
)
    ensures
        leaf_suffix(spine, pending, substitution, shifts, exposure) is Ok ==> {
            let first = suffix(leaf_kind(), pending, substitution, shifts);
            &&& first is Ok
            &&& exposed(spine, exposure, first->Ok_0) is Ok
            &&& leaf_suffix(spine, pending, substitution, shifts, exposure)->Ok_0 == exposed(
                spine,
                exposure,
                first->Ok_0,
            )->Ok_0
        },
        leaf_suffix(spine, pending, substitution, shifts, exposure) is Err ==> {
            let first = suffix(leaf_kind(), pending, substitution, shifts);
            first is Err || exposed(spine, exposure, first->Ok_0) is Err
        },
{
}

} // verus!
