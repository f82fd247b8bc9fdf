//! What the walks leave to be opened.
//!
//! A walk ends in openings of committed columns. Which columns, at which points
//! and with which values follows from the relations of the walk and from the
//! endpoints of their checks. The checks themselves are the host's: here they
//! are verdicts, each a point or a refusal.
use crate::field::{fmul, F128};
use crate::meta_region::STATE_SIZE;
use crate::relation_terms::{power, ColRef};
use crate::spine_union::{point_values, SpineUnionSpec};
use vstd::prelude::*;

verus! {

/// An opening of a committed column.
#[derive(Debug, Clone, PartialEq, Eq)]
pub struct ColumnClaim {
    pub column: usize,
    pub point: Vec<F128>,
    pub value: F128,
}

/// An opening as values.
pub struct ClaimView {
    pub column: usize,
    pub point: Seq<u128>,
    pub value: u128,
}

impl ColumnClaim {
    pub open spec fn view(&self) -> ClaimView {
        ClaimView { column: self.column, point: point_values(self.point@), value: self.value@ }
    }
}

pub open spec fn claim_views(claims: Seq<ColumnClaim>) -> Seq<ClaimView> {
    Seq::new(claims.len(), |i: int| claims[i].view())
}

/// The output lanes at a point: what a walk is asked to reduce.
#[derive(Debug, Clone, PartialEq, Eq)]
pub struct LaneClaimGroup {
    pub point: Vec<F128>,
    pub values: Vec<F128>,
}

/// A checked relation: the cells that it leaves open, their values, and the
/// point at which they are claimed, or why the check refused.
pub struct RelationReplay<E> {
    pub references: Vec<ColRef>,
    pub values: Vec<F128>,
    pub verdict: Result<Vec<F128>, E>,
}

/// A checked shift: the value and the point of the unshifted column, or why the
/// check refused.
pub struct ShiftReplay<E> {
    pub final_value: F128,
    pub verdict: Result<Vec<F128>, E>,
}

/// A checked relation as values.
pub struct ReplayView<E> {
    pub references: Seq<ColRef>,
    pub values: Seq<u128>,
    pub verdict: Result<Seq<u128>, E>,
}

impl<E> RelationReplay<E> {
    pub open spec fn view(&self) -> ReplayView<E> {
        ReplayView {
            references: self.references@,
            values: point_values(self.values@),
            verdict: match self.verdict {
                Ok(end) => Ok(point_values(end@)),
                Err(e) => Err(e),
            },
        }
    }
}

/// Why a union is refused.
#[derive(Debug, Clone, Copy, PartialEq, Eq)]
pub enum UnionVerifyError<E> {
    Shape,
    Zero(E),
    Selection(E),
    Substitution(E),
    Shift(E),
    SpineExposure(E),
}

/// The cells that a pass accepts besides committed ones.
#[derive(Clone, Copy, Debug, PartialEq, Eq, Structural)]
pub struct PassKind {
    pub lanes: bool,
    pub shift: bool,
    pub shift2: bool,
}

/// The openings so far, the lanes so far and the shifts consumed.
pub struct PassState {
    pub claims: Seq<ClaimView>,
    pub lanes: Seq<u128>,
    pub cursor: nat,
}

/// A cell is an output lane that the pass accepts.
pub open spec fn takes_lane(kind: PassKind, reference: ColRef) -> bool {
    kind.lanes && (reference matches ColRef::Internal(lane) && lane < STATE_SIZE)
}

/// A cell is a shift that the pass accepts.
pub open spec fn takes_shift(kind: PassKind, reference: ColRef) -> bool {
    (kind.shift && reference is CommittedShift) || (kind.shift2 && reference is CommittedShift2)
}

/// The column that a shift shifts.
pub open spec fn shift_column(reference: ColRef) -> usize {
    match reference {
        ColRef::CommittedShift(column) => column,
        ColRef::CommittedShift2(column) => column,
        _ => 0,
    }
}

/// A checked shift as values.
pub struct ShiftView<E> {
    pub final_value: u128,
    pub verdict: Result<Seq<u128>, E>,
}

impl<E> ShiftReplay<E> {
    pub open spec fn view(&self) -> ShiftView<E> {
        ShiftView {
            final_value: self.final_value@,
            verdict: match self.verdict {
                Ok(end) => Ok(point_values(end@)),
                Err(e) => Err(e),
            },
        }
    }
}

pub open spec fn shift_views<E>(shifts: Seq<ShiftReplay<E>>) -> Seq<ShiftView<E>> {
    Seq::new(shifts.len(), |i: int| shifts[i].view())
}

/// One cell: a committed cell is opened where the relation ends, an output lane
/// joins the walk, a shift is opened where the next shift check ends.
pub open spec fn pass_step<E>(
    kind: PassKind,
    s: PassState,
    reference: ColRef,
    value: u128,
    point: Seq<u128>,
    shifts: Seq<ShiftView<E>>,
) -> Result<PassState, UnionVerifyError<E>> {
    if let ColRef::Committed(column) = reference {
        Ok(PassState { claims: s.claims.push(ClaimView { column, point, value }), ..s })
    } else if takes_lane(kind, reference) {
        Ok(PassState { lanes: s.lanes.update(reference->Internal_0 as int, value), ..s })
    } else if !takes_shift(kind, reference) || s.cursor >= shifts.len() {
        Err(UnionVerifyError::Shape)
    } else {
        match shifts[s.cursor as int].verdict {
            Err(e) => Err(UnionVerifyError::Shift(e)),
            Ok(end) => Ok(
                PassState {
                    claims: s.claims.push(
                        ClaimView {
                            column: shift_column(reference),
                            point: end,
                            value: shifts[s.cursor as int].final_value,
                        },
                    ),
                    cursor: s.cursor + 1,
                    ..s
                },
            ),
        }
    }
}

/// The first `n` cells of a pass.
pub open spec fn pass_to<E>(
    kind: PassKind,
    references: Seq<ColRef>,
    values: Seq<u128>,
    point: Seq<u128>,
    shifts: Seq<ShiftView<E>>,
    n: nat,
) -> Result<PassState, UnionVerifyError<E>>
    decreases n,
{
    if n == 0 {
        Ok(PassState { claims: seq![], lanes: seq![0u128, 0, 0, 0], cursor: 0 })
    } else {
        match pass_to(kind, references, values, point, shifts, (n - 1) as nat) {
            Err(e) => Err(e),
            Ok(s) => pass_step(kind, s, references[n - 1], values[n - 1], point, shifts),
        }
    }
}

/// A whole pass: every cell, and every shift consumed.
pub open spec fn pass<E>(
    kind: PassKind,
    references: Seq<ColRef>,
    values: Seq<u128>,
    point: Seq<u128>,
    shifts: Seq<ShiftView<E>>,
) -> Result<PassState, UnionVerifyError<E>> {
    let n = if references.len() <= values.len() {
        references.len()
    } else {
        values.len()
    };
    match pass_to(kind, references, values, point, shifts, n) {
        Err(e) => Err(e),
        Ok(s) => if s.cursor == shifts.len() {
            Ok(s)
        } else {
            Err(UnionVerifyError::Shape)
        },
    }
}

/// A pass fails at a prefix and then at every longer one.
pub proof fn lemma_pass_stuck<E>(
    kind: PassKind,
    references: Seq<ColRef>,
    values: Seq<u128>,
    point: Seq<u128>,
    shifts: Seq<ShiftView<E>>,
    n: nat,
    m: nat,
)
    requires
        n <= m,
        pass_to(kind, references, values, point, shifts, n) is Err,
    ensures
        pass_to(kind, references, values, point, shifts, m) == pass_to(
            kind,
            references,
            values,
            point,
            shifts,
            n,
        ),
    decreases m - n,
{
    if n < m {
        lemma_pass_stuck(kind, references, values, point, shifts, n, (m - 1) as nat);
    }
}

/// A copy of a point.
fn copy_point(p: &Vec<F128>) -> (r: Vec<F128>)
    ensures
        r@ == p@,
{
    let mut r: Vec<F128> = Vec::new();
    let mut i: usize = 0;
    while i < p.len()
        invariant
            i <= p@.len(),
            r@ == p@.take(i as int),
        decreases p@.len() - i,
    {
        r.push(p[i]);
        assert(p@.take(i + 1) =~= p@.take(i as int).push(p@[i as int]));
        i = i + 1;
    }
    assert(r@ =~= p@);
    r
}

/// Walks the cells of a checked relation: the openings, and the output lanes.
pub fn claim_pass<E: Copy>(
    kind: PassKind,
    references: &Vec<ColRef>,
    values: &Vec<F128>,
    point: &Vec<F128>,
    shifts: &Vec<ShiftReplay<E>>,
) -> (r: Result<(Vec<F128>, Vec<ColumnClaim>), UnionVerifyError<E>>)
    ensures
        match (
            r,
            pass(
                kind,
                references@,
                point_values(values@),
                point_values(point@),
                shift_views(shifts@),
            ),
        ) {
            (Ok((lanes, claims)), Ok(s)) => lanes@.len() == STATE_SIZE && point_values(lanes@)
                == s.lanes && claim_views(claims@) == s.claims,
            (Err(e), Err(f)) => e == f,
            _ => false,
        },
{
    let ghost p = point_values(point@);
    let n: usize = if references.len() <= values.len() {
        references.len()
    } else {
        values.len()
    };
    let mut lanes: Vec<F128> = Vec::new();
    lanes.push(F128::zero());
    lanes.push(F128::zero());
    lanes.push(F128::zero());
    lanes.push(F128::zero());
    let mut claims: Vec<ColumnClaim> = Vec::new();
    let mut cursor: usize = 0;
    let mut k: usize = 0;
    assert(point_values(lanes@) =~= seq![0u128, 0, 0, 0]);
    assert(claim_views(claims@) =~= seq![]);
    while k < n
        invariant
            k <= n,
            n <= references@.len(),
            n <= values@.len(),
            n == references@.len() || n == values@.len(),
            p == point_values(point@),
            lanes@.len() == STATE_SIZE,
            cursor <= shifts@.len(),
            pass_to(kind, references@, point_values(values@), p, shift_views(shifts@), k as nat) == Ok::<
                PassState,
                UnionVerifyError<E>,
            >(
                PassState {
                    claims: claim_views(claims@),
                    lanes: point_values(lanes@),
                    cursor: cursor as nat,
                },
            ),
        decreases n - k,
    {
        let ghost claims0 = claims@;
        let ghost lanes0 = lanes@;
        let reference = references[k];
        let value = values[k];
        proof {
            if pass_to(kind, references@, point_values(values@), p, shift_views(shifts@), (k + 1) as nat) is Err {
                lemma_pass_stuck(
                    kind,
                    references@,
                    point_values(values@),
                    p,
                    shift_views(shifts@),
                    (k + 1) as nat,
                    n as nat,
                );
            }
        }
        match reference {
            ColRef::Committed(column) => {
                let end = copy_point(point);
                claims.push(ColumnClaim { column, point: end, value });
                assert(claim_views(claims@) =~= claim_views(claims0).push(
                    ClaimView { column, point: p, value: value@ },
                ));
            },
            ColRef::Internal(lane) => {
                if !kind.lanes || lane >= STATE_SIZE {
                    return Err(UnionVerifyError::Shape);
                }
                lanes.set(lane, value);
                assert(point_values(lanes@) =~= point_values(lanes0).update(
                    lane as int,
                    value@,
                ));
            },
            ColRef::CommittedShift(column) | ColRef::CommittedShift2(column) => {
                let accepted = match reference {
                    ColRef::CommittedShift(_) => kind.shift,
                    _ => kind.shift2,
                };
                if !accepted || cursor >= shifts.len() {
                    return Err(UnionVerifyError::Shape);
                }
                match &shifts[cursor].verdict {
                    Err(e) => {
                        return Err(UnionVerifyError::Shift(*e));
                    },
                    Ok(end) => {
                        let at = copy_point(end);
                        let last = shifts[cursor].final_value;
                        claims.push(ColumnClaim { column, point: at, value: last });
                        assert(claim_views(claims@) =~= claim_views(claims0).push(
                            ClaimView { column, point: point_values(end@), value: last@ },
                        ));
                        cursor = cursor + 1;
                    },
                }
            },
            _ => {
                return Err(UnionVerifyError::Shape);
            },
        }
        k = k + 1;
    }
    if cursor != shifts.len() {
        return Err(UnionVerifyError::Shape);
    }
    Ok((lanes, claims))
}

/// The openings of a finished prefix, and the group that the walk reduces.
pub struct WalkPrefix {
    pub pending: Vec<ColumnClaim>,
    pub walk_group: LaneClaimGroup,
}

pub struct PrefixView {
    pub pending: Seq<ClaimView>,
    pub point: Seq<u128>,
    pub lanes: Seq<u128>,
}

impl WalkPrefix {
    pub open spec fn view(&self) -> PrefixView {
        PrefixView {
            pending: claim_views(self.pending@),
            point: point_values(self.walk_group.point@),
            lanes: point_values(self.walk_group.values@),
        }
    }

    pub fn walk_group(&self) -> (r: &LaneClaimGroup)
        ensures
            *r == self.walk_group,
    {
        &self.walk_group
    }
}

/// A selection leaves committed cells and output lanes.
pub open spec fn selection_kind() -> PassKind {
    PassKind { lanes: true, shift: false, shift2: false }
}

/// A substitution of the leaf walk leaves committed cells and shifts.
pub open spec fn leaf_kind() -> PassKind {
    PassKind { lanes: false, shift: true, shift2: true }
}

/// A substitution of the duplex walk leaves committed cells and single shifts.
pub open spec fn duplex_kind() -> PassKind {
    PassKind { lanes: false, shift: true, shift2: false }
}

/// A pass of the Merkle walk leaves cells of every kind.
pub open spec fn merkle_kind() -> PassKind {
    PassKind { lanes: true, shift: true, shift2: true }
}

/// The prefix of the leaf walk and of the duplex walk: the selection.
pub open spec fn selection_prefix<E>(selection: ReplayView<E>) -> Result<
    PrefixView,
    UnionVerifyError<E>,
> {
    match selection.verdict {
        Err(e) => Err(UnionVerifyError::Selection(e)),
        Ok(point) => match pass::<E>(
            selection_kind(),
            selection.references,
            selection.values,
            point,
            seq![],
        ) {
            Err(e) => Err(e),
            Ok(s) => Ok(
                PrefixView { pending: s.claims, point: point, lanes: s.lanes },
            ),
        },
    }
}

/// An executable result is the stated one.
pub open spec fn prefix_is<E>(
    r: Result<WalkPrefix, UnionVerifyError<E>>,
    stated: Result<PrefixView, UnionVerifyError<E>>,
) -> bool {
    match (r, stated) {
        (Ok(prefix), Ok(view)) => prefix.view() == view && prefix.walk_group.values@.len()
            == STATE_SIZE,
        (Err(e), Err(f)) => e == f,
        _ => false,
    }
}

pub open spec fn claims_are<E>(
    r: Result<Vec<ColumnClaim>, UnionVerifyError<E>>,
    stated: Result<Seq<ClaimView>, UnionVerifyError<E>>,
) -> bool {
    match (r, stated) {
        (Ok(claims), Ok(views)) => claim_views(claims@) == views,
        (Err(e), Err(f)) => e == f,
        _ => false,
    }
}

fn verify_selection_prefix<E: Copy>(selection: &RelationReplay<E>) -> (r: Result<
    WalkPrefix,
    UnionVerifyError<E>,
>)
    ensures
        prefix_is(r, selection_prefix(selection.view())),
{
    match &selection.verdict {
        Err(e) => Err(UnionVerifyError::Selection(*e)),
        Ok(point) => {
            let none: Vec<ShiftReplay<E>> = Vec::new();
            assert(none@ =~= seq![]);
            assert(shift_views(none@) =~= seq![]);
            let kind = PassKind { lanes: true, shift: false, shift2: false };
            match claim_pass(kind, &selection.references, &selection.values, point, &none) {
                Err(e) => Err(e),
                Ok((lanes, claims)) => {
                    let at = copy_point(point);
                    Ok(
                        WalkPrefix {
                            pending: claims,
                            walk_group: LaneClaimGroup { point: at, values: lanes },
                        },
                    )
                },
            }
        },
    }
}

/// The prefix of the leaf walk from its checked selection.
pub fn verify_walk_a_union_walk_prefix<E: Copy>(selection: &RelationReplay<E>) -> (r: Result<
    WalkPrefix,
    UnionVerifyError<E>,
>)
    ensures
        prefix_is(r, selection_prefix(selection.view())),
{
    verify_selection_prefix(selection)
}

/// The prefix of the duplex walk from its checked selection.
pub fn verify_duplex_union_walk_prefix<E: Copy>(selection: &RelationReplay<E>) -> (r: Result<
    WalkPrefix,
    UnionVerifyError<E>,
>)
    ensures
        prefix_is(r, selection_prefix(selection.view())),
{
    verify_selection_prefix(selection)
}

/// What the substitution is checked against: the lanes at the end of the walk,
/// weighted by the powers of the challenge.
pub open spec fn target_to(alpha: u128, values: Seq<u128>, n: nat) -> u128
    decreases n,
{
    if n == 0 {
        0
    } else {
        target_to(alpha, values, (n - 1) as nat) ^ fmul(power(alpha, n), values[n - 1])
    }
}

pub fn walk_target(alpha: F128, terminal: &LaneClaimGroup) -> (r: F128)
    ensures
        r@ == target_to(alpha@, point_values(terminal.values@), terminal.values@.len()),
{
    let mut target = F128::zero();
    let mut pw = F128::one();
    let mut k: usize = 0;
    while k < terminal.values.len()
        invariant
            k <= terminal.values@.len(),
            pw@ == power(alpha@, k as nat),
            target@ == target_to(alpha@, point_values(terminal.values@), k as nat),
        decreases terminal.values@.len() - k,
    {
        pw = pw.times(alpha);
        target = target.plus(pw.times(terminal.values[k]));
        k = k + 1;
    }
    target
}

/// A substitution after a prefix: the openings of the prefix, then its own.
pub open spec fn suffix<E>(
    kind: PassKind,
    pending: Seq<ClaimView>,
    substitution: ReplayView<E>,
    shifts: Seq<ShiftView<E>>,
) -> Result<Seq<ClaimView>, UnionVerifyError<E>> {
    match substitution.verdict {
        Err(e) => Err(UnionVerifyError::Substitution(e)),
        Ok(point) => match pass(
            kind,
            substitution.references,
            substitution.values,
            point,
            shifts,
        ) {
            Err(e) => Err(e),
            Ok(s) => Ok(pending + s.claims),
        },
    }
}

fn append_claims(pending: Vec<ColumnClaim>, more: Vec<ColumnClaim>) -> (r: Vec<ColumnClaim>)
    ensures
        claim_views(r@) == claim_views(pending@) + claim_views(more@),
{
    let mut r = pending;
    let mut more = more;
    let ghost r0 = r@;
    let ghost m0 = more@;
    r.append(&mut more);
    assert(claim_views(r@) =~= claim_views(r0) + claim_views(m0));
    r
}

fn verify_suffix<E: Copy>(
    kind: PassKind,
    pending: Vec<ColumnClaim>,
    substitution: &RelationReplay<E>,
    shifts: &Vec<ShiftReplay<E>>,
) -> (r: Result<Vec<ColumnClaim>, UnionVerifyError<E>>)
    ensures
        claims_are(
            r,
            suffix(kind, claim_views(pending@), substitution.view(), shift_views(shifts@)),
        ),
{
    match &substitution.verdict {
        Err(e) => Err(UnionVerifyError::Substitution(*e)),
        Ok(point) => match claim_pass(
            kind,
            &substitution.references,
            &substitution.values,
            point,
            shifts,
        ) {
            Err(e) => Err(e),
            Ok((_, claims)) => Ok(append_claims(pending, claims)),
        },
    }
}

/// The suffix of the duplex walk from its checked substitution and shifts.
pub fn verify_duplex_union_walk_suffix<E: Copy>(
    prefix: WalkPrefix,
    substitution: &RelationReplay<E>,
    shifts: &Vec<ShiftReplay<E>>,
) -> (r: Result<Vec<ColumnClaim>, UnionVerifyError<E>>)
    ensures
        claims_are(
            r,
            suffix(
                duplex_kind(),
                prefix.view().pending,
                substitution.view(),
                shift_views(shifts@),
            ),
        ),
{
    let kind = PassKind { lanes: false, shift: true, shift2: false };
    verify_suffix(kind, prefix.pending, substitution, shifts)
}

// ---------------------------------------------------------------------------
// The exposure of the spine.
// ---------------------------------------------------------------------------
/// The opening that an exposed cell asks for: a child or an odd state window,
/// in the leaf walk.
pub open spec fn exposed_claim(
    spec: SpineUnionSpec,
    reference: ColRef,
    point: Seq<u128>,
    value: u128,
) -> Option<ClaimView> {
    match reference {
        ColRef::Committed(local) => if local < 2 {
            Some(
                ClaimView {
                    column: spec.kid_meta[local as int],
                    point: spec.kid_point(point),
                    value,
                },
            )
        } else {
            None
        },
        ColRef::Window { col, stride_log, offset } => if stride_log == 1 && offset == 1 && 2
            <= col < 4 {
            Some(
                ClaimView {
                    column: spec.c_meta[col - 2],
                    point: spec.c_point(point),
                    value,
                },
            )
        } else {
            None
        },
        _ => None,
    }
}

/// The first `n` exposed cells, if each can be placed.
pub open spec fn exposed_to(
    spec: SpineUnionSpec,
    references: Seq<ColRef>,
    values: Seq<u128>,
    point: Seq<u128>,
    n: nat,
) -> Option<Seq<ClaimView>>
    decreases n,
{
    if n == 0 {
        Some(seq![])
    } else {
        match (
            exposed_to(spec, references, values, point, (n - 1) as nat),
            exposed_claim(spec, references[n - 1], point, values[n - 1]),
        ) {
            (Some(before), Some(claim)) => Some(before.push(claim)),
            _ => None,
        }
    }
}

/// The cells and the values that a relation pairs.
pub open spec fn paired<E>(replay: ReplayView<E>) -> nat {
    if replay.references.len() <= replay.values.len() {
        replay.references.len()
    } else {
        replay.values.len()
    }
}

/// The openings of the leaf walk: those so far, then those of the exposure,
/// which is there exactly where the spine is.
pub open spec fn exposed<E>(
    spine: Option<SpineUnionSpec>,
    exposure: Option<ReplayView<E>>,
    pending: Seq<ClaimView>,
) -> Result<Seq<ClaimView>, UnionVerifyError<E>> {
    match (spine, exposure) {
        (None, None) => Ok(pending),
        (Some(spec), Some(replay)) => match replay.verdict {
            Err(e) => Err(UnionVerifyError::SpineExposure(e)),
            Ok(point) => match exposed_to(
                spec,
                replay.references,
                replay.values,
                point,
                paired(replay),
            ) {
                Some(claims) => Ok(pending + claims),
                None => Err(UnionVerifyError::Shape),
            },
        },
        _ => Err(UnionVerifyError::Shape),
    }
}

/// The suffix of the leaf walk: the substitution, then the exposure.
pub open spec fn leaf_suffix<E>(
    spine: Option<SpineUnionSpec>,
    pending: Seq<ClaimView>,
    substitution: ReplayView<E>,
    shifts: Seq<ShiftView<E>>,
    exposure: Option<ReplayView<E>>,
) -> Result<Seq<ClaimView>, UnionVerifyError<E>> {
    match suffix(leaf_kind(), pending, substitution, shifts) {
        Err(e) => Err(e),
        Ok(claims) => exposed(spine, exposure, claims),
    }
}

proof fn lemma_exposed_stuck(
    spec: SpineUnionSpec,
    references: Seq<ColRef>,
    values: Seq<u128>,
    point: Seq<u128>,
    n: nat,
    m: nat,
)
    requires
        n <= m,
        exposed_to(spec, references, values, point, n) is None,
    ensures
        exposed_to(spec, references, values, point, m) is None,
    decreases m - n,
{
    if n < m {
        lemma_exposed_stuck(spec, references, values, point, n, (m - 1) as nat);
    }
}

fn exposure_claims(
    spec: &SpineUnionSpec,
    references: &Vec<ColRef>,
    values: &Vec<F128>,
    point: &Vec<F128>,
) -> (r: Option<Vec<ColumnClaim>>)
    requires
        spec.wf(),
        4 + spec.cap_log <= point@.len(),
    ensures
        match (
            r,
            exposed_to(
                *spec,
                references@,
                point_values(values@),
                point_values(point@),
                if references@.len() <= values@.len() {
                    references@.len()
                } else {
                    values@.len()
                },
            ),
        ) {
            (Some(claims), Some(views)) => claim_views(claims@) == views,
            (None, None) => true,
            _ => false,
        },
{
    let ghost p = point_values(point@);
    let n: usize = if references.len() <= values.len() {
        references.len()
    } else {
        values.len()
    };
    let mut claims: Vec<ColumnClaim> = Vec::new();
    let mut k: usize = 0;
    assert(claim_views(claims@) =~= seq![]);
    while k < n
        invariant
            k <= n,
            n <= references@.len(),
            n <= values@.len(),
            n == references@.len() || n == values@.len(),
            p == point_values(point@),
            spec.wf(),
            4 + spec.cap_log <= point@.len(),
            exposed_to(*spec, references@, point_values(values@), p, k as nat) == Some(claim_views(claims@)),
        decreases n - k,
    {
        let ghost claims0 = claims@;
        let value = values[k];
        proof {
            if exposed_to(*spec, references@, point_values(values@), p, (k + 1) as nat) is None {
                lemma_exposed_stuck(*spec, references@, point_values(values@), p, (k + 1) as nat, n as nat);
            }
        }
        match references[k] {
            ColRef::Committed(local) => {
                if local >= 2 {
                    return None;
                }
                let at = spec.repoint_kid(point);
                claims.push(ColumnClaim { column: spec.kid_meta[local], point: at, value });
            },
            ColRef::Window { col, stride_log, offset } => {
                if stride_log != 1 || offset != 1 || col < 2 || col >= 4 {
                    return None;
                }
                let at = spec.repoint_c(point);
                claims.push(ColumnClaim { column: spec.c_meta[col - 2], point: at, value });
            },
            _ => {
                return None;
            },
        }
        proof {
            assert(claim_views(claims@) =~= claim_views(claims0).push(
                claims@[k as int].view(),
            )) by {
                lemma_exposed_len(*spec, references@, point_values(values@), p, k as nat);
            }
        }
        k = k + 1;
    }
    Some(claims)
}

proof fn lemma_exposed_len(
    spec: SpineUnionSpec,
    references: Seq<ColRef>,
    values: Seq<u128>,
    point: Seq<u128>,
    n: nat,
)
    requires
        exposed_to(spec, references, values, point, n) is Some,
    ensures
        exposed_to(spec, references, values, point, n)->0.len() == n,
    decreases n,
{
    if n > 0 {
        lemma_exposed_len(spec, references, values, point, (n - 1) as nat);
    }
}

/// The suffix of the leaf walk from its checked substitution, shifts and
/// exposure.
pub fn verify_walk_a_union_walk_suffix<E: Copy>(
    spine: &Option<SpineUnionSpec>,
    prefix: WalkPrefix,
    substitution: &RelationReplay<E>,
    shifts: &Vec<ShiftReplay<E>>,
    exposure: &Option<RelationReplay<E>>,
) -> (r: Result<Vec<ColumnClaim>, UnionVerifyError<E>>)
    requires
        spine matches Some(spec) ==> spec.wf() && (exposure matches Some(replay) ==> (
        replay.verdict matches Ok(point) ==> 4 + spec.cap_log <= point@.len())),
    ensures
        claims_are(
            r,
            leaf_suffix(
                *spine,
                prefix.view().pending,
                substitution.view(),
                shift_views(shifts@),
                match exposure {
                    Some(replay) => Some(replay.view()),
                    None => None,
                },
            ),
        ),
{
    let kind = PassKind { lanes: false, shift: true, shift2: true };
    let claims = match verify_suffix(kind, prefix.pending, substitution, shifts) {
        Err(e) => {
            return Err(e);
        },
        Ok(claims) => claims,
    };
    match (spine, exposure) {
        (None, None) => Ok(claims),
        (Some(spec), Some(replay)) => match &replay.verdict {
            Err(e) => Err(UnionVerifyError::SpineExposure(*e)),
            Ok(point) => match exposure_claims(spec, &replay.references, &replay.values, point) {
                Some(more) => Ok(append_claims(claims, more)),
                None => Err(UnionVerifyError::Shape),
            },
        },
        _ => Err(UnionVerifyError::Shape),
    }
}

// ---------------------------------------------------------------------------
// The Merkle walk.
// ---------------------------------------------------------------------------
/// A pass of the Merkle walk, which takes as many values as cells.
pub open spec fn merkle_pass<E>(
    replay: ReplayView<E>,
    point: Seq<u128>,
    shifts: Seq<ShiftView<E>>,
) -> Result<PassState, UnionVerifyError<E>> {
    if replay.references.len() != replay.values.len() {
        Err(UnionVerifyError::Shape)
    } else {
        pass(
            merkle_kind(),
            replay.references,
            replay.values,
            point,
            shifts,
        )
    }
}

/// The prefix of the Merkle walk: the relation that vanishes, then the
/// selection, which leaves no shift.
pub open spec fn merkle_prefix<E>(
    zero: ReplayView<E>,
    zero_shifts: Seq<ShiftView<E>>,
    selection: ReplayView<E>,
) -> Result<PrefixView, UnionVerifyError<E>> {
    match zero.verdict {
        Err(e) => Err(UnionVerifyError::Zero(e)),
        Ok(end) => match merkle_pass(zero, end, zero_shifts) {
            Err(e) => Err(e),
            Ok(first) => match selection.verdict {
                Err(e) => Err(UnionVerifyError::Selection(e)),
                Ok(point) => match merkle_pass::<E>(selection, point, seq![]) {
                    Err(e) => Err(e),
                    Ok(s) => Ok(
                        PrefixView {
                            pending: first.claims + s.claims,
                            point: point,
                            lanes: s.lanes,
                        },
                    ),
                },
            },
        },
    }
}

/// The suffix of the Merkle walk: the openings of the prefix, then those of the
/// substitution.
pub open spec fn merkle_suffix<E>(
    pending: Seq<ClaimView>,
    substitution: ReplayView<E>,
    shifts: Seq<ShiftView<E>>,
) -> Result<Seq<ClaimView>, UnionVerifyError<E>> {
    match substitution.verdict {
        Err(e) => Err(UnionVerifyError::Substitution(e)),
        Ok(point) => match merkle_pass(substitution, point, shifts) {
            Err(e) => Err(e),
            Ok(s) => Ok(pending + s.claims),
        },
    }
}

/// One pass of the Merkle walk: the output lanes and the openings.
pub fn verify_merkle_claim_pass<E: Copy>(
    replay: &RelationReplay<E>,
    point: &Vec<F128>,
    shifts: &Vec<ShiftReplay<E>>,
) -> (r: Result<(Vec<F128>, Vec<ColumnClaim>), UnionVerifyError<E>>)
    ensures
        match (r, merkle_pass(replay.view(), point_values(point@), shift_views(shifts@))) {
            (Ok((lanes, claims)), Ok(s)) => lanes@.len() == STATE_SIZE && point_values(lanes@)
                == s.lanes && claim_views(claims@) == s.claims,
            (Err(e), Err(f)) => e == f,
            _ => false,
        },
{
    if replay.references.len() != replay.values.len() {
        return Err(UnionVerifyError::Shape);
    }
    let kind = PassKind { lanes: true, shift: true, shift2: true };
    claim_pass(kind, &replay.references, &replay.values, point, shifts)
}

/// The prefix of the Merkle walk from its checked relations and shifts.
pub fn verify_merkle_union_walk_prefix<E: Copy>(
    zero: &RelationReplay<E>,
    zero_shifts: &Vec<ShiftReplay<E>>,
    selection: &RelationReplay<E>,
) -> (r: Result<WalkPrefix, UnionVerifyError<E>>)
    ensures
        prefix_is(r, merkle_prefix(zero.view(), shift_views(zero_shifts@), selection.view())),
{
    let first = match &zero.verdict {
        Err(e) => {
            return Err(UnionVerifyError::Zero(*e));
        },
        Ok(end) => match verify_merkle_claim_pass(zero, end, zero_shifts) {
            Err(e) => {
                return Err(e);
            },
            Ok((_, claims)) => claims,
        },
    };
    match &selection.verdict {
        Err(e) => Err(UnionVerifyError::Selection(*e)),
        Ok(point) => {
            let none: Vec<ShiftReplay<E>> = Vec::new();
            assert(none@ =~= seq![]);
            assert(shift_views(none@) =~= seq![]);
            match verify_merkle_claim_pass(selection, point, &none) {
                Err(e) => Err(e),
                Ok((lanes, claims)) => {
                    let pending = append_claims(first, claims);
                    let at = copy_point(point);
                    Ok(
                        WalkPrefix {
                            pending,
                            walk_group: LaneClaimGroup { point: at, values: lanes },
                        },
                    )
                },
            }
        },
    }
}

/// The suffix of the Merkle walk from its checked substitution and shifts.
pub fn verify_merkle_union_walk_suffix<E: Copy>(
    prefix: WalkPrefix,
    substitution: &RelationReplay<E>,
    shifts: &Vec<ShiftReplay<E>>,
) -> (r: Result<Vec<ColumnClaim>, UnionVerifyError<E>>)
    ensures
        claims_are(
            r,
            merkle_suffix(
                prefix.view().pending,
                substitution.view(),
                shift_views(shifts@),
            ),
        ),
{
    match &substitution.verdict {
        Err(e) => Err(UnionVerifyError::Substitution(*e)),
        Ok(point) => match verify_merkle_claim_pass(substitution, point, shifts) {
            Err(e) => Err(e),
            Ok((_, claims)) => Ok(append_claims(prefix.pending, claims)),
        },
    }
}

// ---------------------------------------------------------------------------
// What an accepted pass opens.
// ---------------------------------------------------------------------------
/// A cell names the column of an opening.
pub open spec fn names_column(reference: ColRef, column: usize) -> bool {
    reference == ColRef::Committed(column) || reference == ColRef::CommittedShift(column)
        || reference == ColRef::CommittedShift2(column)
}

/// The cells among the first `n` that a pass opens.
pub open spec fn opened(kind: PassKind, references: Seq<ColRef>, n: nat) -> nat
    decreases n,
{
    if n == 0 {
        0
    } else {
        opened(kind, references, (n - 1) as nat) + if takes_lane(kind, references[n - 1]) {
            0nat
        } else {
            1
        }
    }
}

/// An accepted pass opens a column for every cell that is not an output lane,
/// each column is one that a cell of the relation names, and every shift check
/// it consumed was accepted.
pub proof fn lemma_pass_opens<E>(
    kind: PassKind,
    references: Seq<ColRef>,
    values: Seq<u128>,
    point: Seq<u128>,
    shifts: Seq<ShiftView<E>>,
    n: nat,
)
    requires
        n <= references.len(),
        pass_to(kind, references, values, point, shifts, n) is Ok,
    ensures
        ({
            let s = pass_to(kind, references, values, point, shifts, n)->Ok_0;
            &&& s.lanes.len() == STATE_SIZE
            &&& s.claims.len() == opened(kind, references, n)
            &&& s.cursor <= shifts.len()
            &&& forall|i: int| 0 <= i < s.cursor ==> (#[trigger] shifts[i]).verdict is Ok
            &&& forall|i: int|
                0 <= i < s.claims.len() ==> exists|k: int|
                    0 <= k < n && names_column(
                        #[trigger] references[k],
                        (#[trigger] s.claims[i]).column,
                    )
        }),
    decreases n,
{
    if n > 0 {
        let m = (n - 1) as nat;
        lemma_pass_opens(kind, references, values, point, shifts, m);
        let s = pass_to(kind, references, values, point, shifts, m)->Ok_0;
        let t = pass_to(kind, references, values, point, shifts, n)->Ok_0;
        assert forall|i: int| 0 <= i < t.claims.len() implies exists|k: int|
            0 <= k < n && names_column(#[trigger] references[k], (#[trigger] t.claims[i]).column) by {
            if i < s.claims.len() {
                assert(t.claims[i] == s.claims[i]);
                let k = choose|k: int|
                    0 <= k < m && names_column(#[trigger] references[k], s.claims[i].column);
                assert(names_column(references[k], t.claims[i].column));
            } else {
                assert(names_column(references[m as int], t.claims[i].column));
            }
        }
    }
}

} // verus!
