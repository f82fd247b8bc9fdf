//! The reduction of legacy matrix obligations at a scheduled fork.
//!
//! A request holds every obligation of a replayed legacy terminal. A reduction
//! folds the fresh obligation of the tip class into that class's lane; all
//! other lanes are kept. Nothing here proves a matrix evaluation: every claim
//! that is left must be closed by a separate evaluation proof. The hash of a
//! request and the fold itself are the host's.
use crate::circuit::{group_agree, FieldR1csBuilder, LinExpr};
use crate::ext_trace::F256;
use crate::field::{fmul, lemma_boolean, lemma_fmul_unit, lemma_xor, F128, is_bit};
use crate::le_bytes::{
    le, lemma_le_len, lemma_le_value, lemma_ranges, lemma_value_le, push_le, read_le,
};
use crate::scheduled_allocation::V2Activation;
use crate::trace::{pin_eq, refines};
use crate::circuit::{const_form, form_add_const, forms, LinForm, Shape};
use crate::trace::{mul_step, pin_eq_step};
use vstd::prelude::*;

verus! {

broadcast use group_agree;

fn push_field(bytes: &mut Vec<u8>, value: F256)
    ensures
        final(bytes)@ == old(bytes)@ + value.bytes(),
{
    let ghost before = bytes@;
    push_le(bytes, value.lo.bits, 16);
    push_le(bytes, value.hi.bits, 16);
    assert(bytes@ =~= before + value.bytes());
}

/// The encoding of the first `n` elements.
pub open spec fn fields(values: Seq<F256>, n: nat) -> Seq<u8>
    decreases n,
{
    if n == 0 {
        seq![]
    } else {
        fields(values, (n - 1) as nat) + values[n - 1].bytes()
    }
}

/// The encoding of a list: its length in eight bytes, then its elements.
pub open spec fn field_list(values: Seq<F256>) -> Seq<u8> {
    le(values.len(), 8) + fields(values, values.len())
}

fn push_elements(bytes: &mut Vec<u8>, values: &Vec<F256>)
    ensures
        final(bytes)@ == old(bytes)@ + fields(values@, values@.len()),
{
    let ghost before = bytes@;
    let mut i: usize = 0;
    assert(bytes@ =~= before + fields(values@, 0));
    while i < values.len()
        invariant
            i <= values@.len(),
            bytes@ == before + fields(values@, i as nat),
        decreases values@.len() - i,
    {
        push_field(bytes, values[i]);
        i = i + 1;
        assert(bytes@ =~= before + fields(values@, i as nat));
    }
}

fn push_fields(bytes: &mut Vec<u8>, values: &Vec<F256>)
    ensures
        final(bytes)@ == old(bytes)@ + field_list(values@),
{
    let ghost before = bytes@;
    push_le(bytes, values.len() as u128, 8);
    push_elements(bytes, values);
    assert(bytes@ =~= before + field_list(values@));
}

fn push_bytes(bytes: &mut Vec<u8>, more: &[u8])
    ensures
        final(bytes)@ == old(bytes)@ + more@,
{
    let ghost before = bytes@;
    let mut i: usize = 0;
    assert(bytes@ =~= before + more@.take(0));
    while i < more.len()
        invariant
            i <= more@.len(),
            bytes@ == before + more@.take(i as int),
        decreases more@.len() - i,
    {
        bytes.push(more[i]);
        i = i + 1;
        assert(bytes@ =~= before + more@.take(i as int));
    }
    assert(more@.take(more@.len() as int) =~= more@);
}

fn same_digest(x: &[u8; 32], y: &[u8; 32]) -> (r: bool)
    ensures
        r == (x@ == y@),
{
    let mut i: usize = 0;
    while i < 32
        invariant
            i <= 32,
            forall|k: int| 0 <= k < i ==> x@[k] == #[trigger] y@[k],
        decreases 32 - i,
    {
        if x[i] != y[i] {
            assert(x@[i as int] != y@[i as int]);
            return false;
        }
        i = i + 1;
    }
    assert(x@ =~= y@);
    true
}

fn is_zero_digest(x: &[u8; 32]) -> (r: bool)
    ensures
        r == (forall|i: int| 0 <= i < 32 ==> #[trigger] x@[i] == 0),
{
    let mut i: usize = 0;
    while i < 32
        invariant
            i <= 32,
            forall|k: int| 0 <= k < i ==> #[trigger] x@[k] == 0,
        decreases 32 - i,
    {
        if x[i] != 0 {
            assert(x@[i as int] != 0);
            return false;
        }
        i = i + 1;
    }
    true
}

/// The scheduled forks.
#[derive(Clone, Copy, Debug, PartialEq, Eq, Structural)]
pub struct ForkSchedule {
    pub v1_1_height: Option<u64>,
    pub v2: Option<V2Activation>,
}

/// Why a matrix is not the one that a class requires.
#[derive(Clone, Copy, Debug, PartialEq, Eq, Structural)]
pub enum HistoryStepBankError {
    MatrixShape(ClassId),
    MatrixDigest(ClassId),
}

/// Why a retirement is refused. A refused fold and a refused replay of the
/// terminal carry the host's own reason.
#[derive(Clone, Copy, Debug, PartialEq, Eq)]
pub enum HistoryStepRetirementError<F = (), R = ()> {
    Schedule,
    BankIdentity,
    Boundary,
    AlreadyDischarged,
    Binding,
    Wire,
    Matrix(HistoryStepBankError),
    Fold(F),
    Replay(R),
}

/// The verifier's policy at a fork: the schedule, the old bank and the new
/// one. The digest of the new bank is not certified here.
#[derive(Clone, Copy, Debug)]
pub struct HistoryStepRetirementTarget {
    pub schedule: ForkSchedule,
    pub legacy_bank_digest: [u8; 32],
    pub next_bank_digest: [u8; 32],
    pub activation_height: u64,
}

/// All bytes are zero.
pub open spec fn zero_digest(x: [u8; 32]) -> bool {
    forall|i: int| 0 <= i < 32 ==> #[trigger] x@[i] == 0
}

impl HistoryStepRetirementTarget {
    /// The target's height is that of its scheduled second fork, and its banks
    /// differ.
    pub open spec fn wf(&self) -> bool {
        &&& (self.schedule.v2 matches Some(fork) && fork.height == self.activation_height)
        &&& self.activation_height > 1
        &&& !zero_digest(self.next_bank_digest)
        &&& self.next_bank_digest@ != self.legacy_bank_digest@
    }

    pub fn new(
        schedule: ForkSchedule,
        legacy_bank_digest: [u8; 32],
        next_bank_digest: [u8; 32],
    ) -> (r: Result<HistoryStepRetirementTarget, HistoryStepRetirementError>)
        ensures
            !(schedule.v2 matches Some(fork) && fork.height > 1) ==> r == Err::<
                HistoryStepRetirementTarget,
                HistoryStepRetirementError,
            >(HistoryStepRetirementError::Schedule),
            (schedule.v2 matches Some(fork) && fork.height > 1) && (zero_digest(next_bank_digest)
                || next_bank_digest@ == legacy_bank_digest@) ==> r == Err::<
                HistoryStepRetirementTarget,
                HistoryStepRetirementError,
            >(HistoryStepRetirementError::BankIdentity),
            (schedule.v2 matches Some(fork) && fork.height > 1) && !zero_digest(next_bank_digest)
                && next_bank_digest@ != legacy_bank_digest@ ==> {
                &&& r is Ok
                &&& r->Ok_0.wf()
                &&& r->Ok_0.schedule == schedule
                &&& r->Ok_0.legacy_bank_digest == legacy_bank_digest
                &&& r->Ok_0.next_bank_digest == next_bank_digest
            },
    {
        let activation_height = match schedule.v2 {
            Some(fork) => if fork.height > 1 {
                fork.height
            } else {
                return Err(HistoryStepRetirementError::Schedule);
            },
            None => {
                return Err(HistoryStepRetirementError::Schedule);
            },
        };
        if is_zero_digest(&next_bank_digest) || same_digest(
            &next_bank_digest,
            &legacy_bank_digest,
        ) {
            return Err(HistoryStepRetirementError::BankIdentity);
        }
        Ok(
            HistoryStepRetirementTarget {
                schedule,
                legacy_bank_digest,
                next_bank_digest,
                activation_height,
            },
        )
    }

    pub fn activation_height(&self) -> (r: u64)
        ensures
            r == self.activation_height,
    {
        self.activation_height
    }

    pub fn next_bank_digest(&self) -> (r: [u8; 32])
        ensures
            r == self.next_bank_digest,
    {
        self.next_bank_digest
    }

    pub fn legacy_bank_digest(&self) -> (r: [u8; 32])
        ensures
            r == self.legacy_bank_digest,
    {
        self.legacy_bank_digest
    }

    pub fn schedule(&self) -> (r: ForkSchedule)
        ensures
            r == self.schedule,
    {
        self.schedule
    }

    /// The parent is the last block before the fork.
    pub fn check_parent_height(&self, height: u64) -> (r: Result<(), HistoryStepRetirementError>)
        ensures
            r == if height + 1 == self.activation_height {
                Ok::<(), HistoryStepRetirementError>(())
            } else {
                Err::<(), HistoryStepRetirementError>(HistoryStepRetirementError::Boundary)
            },
    {
        if height < u64::MAX && height + 1 == self.activation_height {
            Ok(())
        } else {
            Err(HistoryStepRetirementError::Boundary)
        }
    }

    pub fn check_legacy_bank(&self, digest: &[u8; 32]) -> (r: Result<
        (),
        HistoryStepRetirementError,
    >)
        ensures
            r == if self.legacy_bank_digest@ == digest@ {
                Ok::<(), HistoryStepRetirementError>(())
            } else {
                Err::<(), HistoryStepRetirementError>(HistoryStepRetirementError::BankIdentity)
            },
    {
        if same_digest(&self.legacy_bank_digest, digest) {
            Ok(())
        } else {
            Err(HistoryStepRetirementError::BankIdentity)
        }
    }
}

/// The shape of a constraint matrix.
#[derive(Clone, Copy, Debug, PartialEq, Eq, Structural)]
pub struct FieldShape {
    pub m: usize,
    pub k_log: usize,
    pub k_skip: usize,
    pub const_pin: Option<usize>,
}

/// What a matrix of the bank must be.
#[derive(Clone, Copy, Debug)]
pub struct MatrixRequirement {
    pub shape: FieldShape,
    pub digest: [u8; 32],
}

/// A class of the bank: its index and its wire identifier.
#[derive(Clone, Copy, Debug, PartialEq, Eq, Structural)]
pub struct ClassId {
    pub index: usize,
    pub wire_id: u8,
}

/// A claimed evaluation of a matrix at a point.
#[derive(Clone, Debug, PartialEq, Eq)]
pub struct MatrixAccClaim {
    pub point: Vec<F256>,
    pub value: F256,
}

impl MatrixAccClaim {
    pub open spec fn same(&self, other: &MatrixAccClaim) -> bool {
        self.point@ == other.point@ && self.value == other.value
    }

    pub fn copy(&self) -> (r: MatrixAccClaim)
        ensures
            r.same(self),
    {
        let mut point: Vec<F256> = Vec::new();
        let mut i: usize = 0;
        while i < self.point.len()
            invariant
                i <= self.point@.len(),
                point@ == self.point@.take(i as int),
            decreases self.point@.len() - i,
        {
            point.push(self.point[i]);
            i = i + 1;
            assert(point@ =~= self.point@.take(i as int));
        }
        assert(point@ =~= self.point@);
        MatrixAccClaim { point, value: self.value }
    }

    /// The claim of a dead lane: zero at the zero point.
    pub fn zero(k_log: usize) -> (r: MatrixAccClaim)
        requires
            2 * k_log + 1 <= usize::MAX,
        ensures
            r.point@.len() == 2 * k_log + 1,
            forall|i: int|
                0 <= i < r.point@.len() ==> (#[trigger] r.point@[i]).lo@ == 0 && r.point@[i].hi@
                    == 0,
            r.value.lo@ == 0,
            r.value.hi@ == 0,
    {
        let n: usize = 2 * k_log + 1;
        let mut point: Vec<F256> = Vec::new();
        let mut i: usize = 0;
        while i < n
            invariant
                i <= n,
                point@.len() == i,
                forall|k: int|
                    0 <= k < i ==> (#[trigger] point@[k]).lo@ == 0 && point@[k].hi@ == 0,
            decreases n - i,
        {
            point.push(F256::zero());
            i = i + 1;
        }
        MatrixAccClaim { point, value: F256::zero() }
    }
}

/// The fresh claim of the tip.
#[derive(Clone, Debug, PartialEq, Eq)]
pub struct FreshLincheckClaim {
    pub alpha: F256,
    pub z_skip: F256,
    pub x_inner_rest: Vec<F256>,
    pub r_inner_rest: Vec<F256>,
    pub z_partial: Vec<F256>,
    pub value: F256,
}

/// One lane of a replayed terminal: an obligation that is still open, none, or
/// one that was checked locally.
#[derive(Clone, Debug, PartialEq, Eq)]
pub enum PendingBankLane {
    Pending(MatrixAccClaim),
    Dead,
    Checked,
}

/// A replayed legacy terminal.
pub struct PendingHistoryStepBankDecision {
    pub bank_digest: [u8; 32],
    pub base: bool,
    pub tip_class: ClassId,
    pub requirements: Vec<MatrixRequirement>,
    pub tip_fresh: Option<FreshLincheckClaim>,
    pub lanes: Vec<PendingBankLane>,
}

/// The chain boundary that a terminal's accumulator decodes to, where it does
/// and agrees with the two headers.
#[derive(Clone, Debug, PartialEq, Eq)]
pub struct ChainBoundary {
    pub height: u64,
    pub lanes: Vec<u128>,
}

/// A header as the request needs it: its height and its encoding.
#[derive(Clone, Debug, PartialEq, Eq)]
pub struct HeaderBytes {
    pub height: u64,
    pub encoded: Vec<u8>,
}

/// The exact outstanding obligations of a replayed legacy terminal, before its
/// digest is known.
pub struct RequestContext {
    pub target: HistoryStepRetirementTarget,
    pub parent_header: HeaderBytes,
    pub epoch_anchor_header: HeaderBytes,
    pub boundary: ChainBoundary,
    pub tip_class: ClassId,
    pub requirements: Vec<MatrixRequirement>,
    pub fresh: FreshLincheckClaim,
    pub lanes: Vec<Option<MatrixAccClaim>>,
}

/// No lane was checked locally.
pub open spec fn undischarged(lanes: Seq<PendingBankLane>) -> bool {
    forall|i: int| 0 <= i < lanes.len() ==> !(#[trigger] lanes[i] is Checked)
}

/// The open claims of a terminal's lanes.
pub open spec fn open_claims(
    lanes: Seq<PendingBankLane>,
    claims: Seq<Option<MatrixAccClaim>>,
) -> bool {
    &&& claims.len() == lanes.len()
    &&& forall|i: int|
        0 <= i < lanes.len() ==> match #[trigger] lanes[i] {
            PendingBankLane::Pending(claim) => claims[i] == Some(claim),
            _ => claims[i] is None,
        }
}

fn has_checked(lanes: &Vec<PendingBankLane>) -> (r: bool)
    ensures
        r == !undischarged(lanes@),
{
    let mut i: usize = 0;
    while i < lanes.len()
        invariant
            i <= lanes@.len(),
            forall|k: int| 0 <= k < i ==> !(#[trigger] lanes@[k] is Checked),
        decreases lanes@.len() - i,
    {
        match &lanes[i] {
            PendingBankLane::Checked => {
                assert(lanes@[i as int] is Checked);
                return true;
            },
            _ => {},
        }
        i = i + 1;
    }
    false
}

fn take_claims(lanes: Vec<PendingBankLane>) -> (r: Vec<Option<MatrixAccClaim>>)
    ensures
        open_claims(lanes@, r@),
{
    let ghost lanes0 = lanes@;
    let mut rest = lanes;
    let mut reversed: Vec<Option<MatrixAccClaim>> = Vec::new();
    let n = rest.len();
    while rest.len() > 0
        invariant
            n == lanes0.len(),
            rest@.len() <= n,
            rest@ == lanes0.take(rest@.len() as int),
            reversed@.len() == n - rest@.len(),
            forall|k: int|
                rest@.len() <= k < n ==> match #[trigger] lanes0[k] {
                    PendingBankLane::Pending(claim) => reversed@[n - 1 - k] == Some(claim),
                    _ => reversed@[n - 1 - k] is None,
                },
        decreases rest@.len(),
    {
        let ghost m = rest@.len() as int;
        let ghost reversed0 = reversed@;
        match rest.pop() {
            Some(PendingBankLane::Pending(claim)) => {
                reversed.push(Some(claim));
            },
            _ => {
                reversed.push(None);
            },
        }
        proof {
            assert(lanes0.take(m).last() == lanes0[m - 1]);
            assert(rest@ =~= lanes0.take(m - 1));
            assert forall|k: int| m - 1 <= k < n implies match #[trigger] lanes0[k] {
                PendingBankLane::Pending(claim) => reversed@[n - 1 - k] == Some(claim),
                _ => reversed@[n - 1 - k] is None,
            } by {
                if k >= m {
                    assert(reversed@[n - 1 - k] == reversed0[n - 1 - k]);
                }
            }
        }
    }
    let ghost list = reversed@;
    let mut r: Vec<Option<MatrixAccClaim>> = Vec::new();
    while reversed.len() > 0
        invariant
            list.len() == n,
            reversed@.len() <= n,
            reversed@ == list.take(reversed@.len() as int),
            r@.len() == n - reversed@.len(),
            forall|k: int| 0 <= k < r@.len() ==> #[trigger] r@[k] == list[n - 1 - k],
        decreases reversed@.len(),
    {
        let ghost m = reversed@.len() as int;
        match reversed.pop() {
            Some(claim) => {
                r.push(claim);
            },
            None => {},
        }
        proof {
            assert(list.take(m).last() == list[m - 1]);
            assert(reversed@ =~= list.take(m - 1));
        }
    }
    proof {
        assert forall|i: int| 0 <= i < n implies match #[trigger] lanes0[i] {
            PendingBankLane::Pending(claim) => r@[i] == Some(claim),
            _ => r@[i] is None,
        } by {
            assert(r@[i] == list[n - 1 - i]);
        }
    }
    r
}

/// Why a terminal cannot be retired, if it cannot.
pub open spec fn request_refusal(
    pending: PendingHistoryStepBankDecision,
    target: HistoryStepRetirementTarget,
    parent_height: u64,
    boundary: Option<ChainBoundary>,
) -> Option<HistoryStepRetirementError> {
    if parent_height + 1 != target.activation_height {
        Some(HistoryStepRetirementError::Boundary)
    } else if target.legacy_bank_digest@ != pending.bank_digest@ {
        Some(HistoryStepRetirementError::BankIdentity)
    } else if pending.tip_fresh is None || !undischarged(pending.lanes@) {
        Some(HistoryStepRetirementError::AlreadyDischarged)
    } else if boundary is None || pending.base != (boundary->0.height == 1) {
        Some(HistoryStepRetirementError::Boundary)
    } else {
        None
    }
}

/// A request that has no binding yet. Only a terminal gives one.
pub struct UnboundRequest {
    context: RequestContext,
}

impl View for UnboundRequest {
    type V = RequestContext;

    closed spec fn view(&self) -> RequestContext {
        self.context
    }
}

impl UnboundRequest {
    /// The request of a terminal. A lane that was checked locally is not
    /// transferable evidence: only an untouched replay is accepted, so no lane
    /// is lost.
    pub fn from_pending(
        pending: PendingHistoryStepBankDecision,
        target: HistoryStepRetirementTarget,
        parent_header: HeaderBytes,
        epoch_anchor_header: HeaderBytes,
        boundary: Option<ChainBoundary>,
    ) -> (r: Result<UnboundRequest, HistoryStepRetirementError>)
        ensures
            match request_refusal(pending, target, parent_header.height, boundary) {
                Some(error) => r == Err::<UnboundRequest, _>(error),
                None => {
                    &&& r is Ok
                    &&& r->Ok_0@.target == target
                    &&& r->Ok_0@.parent_header == parent_header
                    &&& r->Ok_0@.epoch_anchor_header == epoch_anchor_header
                    &&& r->Ok_0@.boundary == boundary->0
                    &&& r->Ok_0@.tip_class == pending.tip_class
                    &&& r->Ok_0@.requirements == pending.requirements
                    &&& Some(r->Ok_0@.fresh) == pending.tip_fresh
                    &&& open_claims(pending.lanes@, r->Ok_0@.lanes@)
                },
            },
    {
        match target.check_parent_height(parent_header.height) {
            Ok(()) => {},
            Err(error) => {
                return Err(error);
            },
        }
        match target.check_legacy_bank(&pending.bank_digest) {
            Ok(()) => {},
            Err(error) => {
                return Err(error);
            },
        }
        if has_checked(&pending.lanes) {
            return Err(HistoryStepRetirementError::AlreadyDischarged);
        }
        let fresh = match pending.tip_fresh {
            Some(fresh) => fresh,
            None => {
                return Err(HistoryStepRetirementError::AlreadyDischarged);
            },
        };
        let boundary = match boundary {
            Some(boundary) => boundary,
            None => {
                return Err(HistoryStepRetirementError::Boundary);
            },
        };
        if pending.base != (boundary.height == 1) {
            return Err(HistoryStepRetirementError::Boundary);
        }
        Ok(
            UnboundRequest {
                context: RequestContext {
                    target,
                    parent_header,
                    epoch_anchor_header,
                    boundary,
                    tip_class: pending.tip_class,
                    requirements: pending.requirements,
                    fresh,
                    lanes: take_claims(pending.lanes),
                },
            },
        )
    }
}

/// The constant pin of a shape, as it is encoded: one more, or zero for none.
pub open spec fn pin_code(shape: FieldShape) -> nat {
    match shape.const_pin {
        Some(pin) => (pin + 1) as nat,
        None => 0,
    }
}

/// The encoding of one lane of a request: its index, what its matrix must be,
/// and its claim if it is live.
pub open spec fn lane_bytes(
    index: int,
    requirement: MatrixRequirement,
    claim: Option<MatrixAccClaim>,
) -> Seq<u8> {
    seq![index as u8] + requirement.digest@ + le(requirement.shape.m as nat, 8) + le(
        requirement.shape.k_log as nat,
        8,
    ) + le(requirement.shape.k_skip as nat, 8) + le(pin_code(requirement.shape), 8) + match claim {
        Some(claim) => seq![1u8] + field_list(claim.point@) + claim.value.bytes(),
        None => seq![0u8],
    }
}

/// The encoding of the first `n` lanes.
pub open spec fn lanes_bytes(
    requirements: Seq<MatrixRequirement>,
    lanes: Seq<Option<MatrixAccClaim>>,
    n: nat,
) -> Seq<u8>
    decreases n,
{
    if n == 0 {
        seq![]
    } else {
        lanes_bytes(requirements, lanes, (n - 1) as nat) + lane_bytes(
            n - 1,
            requirements[n - 1],
            lanes[n - 1],
        )
    }
}

/// The encoding of the first `n` lanes of a boundary.
pub open spec fn boundary_bytes(lanes: Seq<u128>, n: nat) -> Seq<u8>
    decreases n,
{
    if n == 0 {
        seq![]
    } else {
        boundary_bytes(lanes, (n - 1) as nat) + le(lanes[n - 1] as nat, 16)
    }
}

/// The encoding of the tip's fresh claim.
pub open spec fn fresh_bytes(fresh: FreshLincheckClaim) -> Seq<u8> {
    fresh.alpha.bytes() + fresh.z_skip.bytes() + field_list(fresh.x_inner_rest@) + field_list(
        fresh.r_inner_rest@,
    ) + field_list(fresh.z_partial@) + fresh.value.bytes()
}

/// The encoding of a target: both banks, both fork heights and the block time.
pub open spec fn target_bytes(target: HistoryStepRetirementTarget) -> Seq<u8> {
    target.legacy_bank_digest@ + target.next_bank_digest@ + le(
        target.schedule.v1_1_height->0 as nat,
        8,
    ) + le(target.activation_height as nat, 8) + le(target.schedule.v2->0.block_time as nat, 8)
}

fn push_lane(
    bytes: &mut Vec<u8>,
    index: usize,
    requirement: &MatrixRequirement,
    claim: &Option<MatrixAccClaim>,
)
    requires
        index < 256,
        requirement.shape.const_pin matches Some(pin) ==> pin < usize::MAX,
    ensures
        final(bytes)@ == old(bytes)@ + lane_bytes(index as int, *requirement, *claim),
{
    let ghost before = bytes@;
    bytes.push(index as u8);
    push_bytes(bytes, &requirement.digest);
    push_le(bytes, requirement.shape.m as u128, 8);
    push_le(bytes, requirement.shape.k_log as u128, 8);
    push_le(bytes, requirement.shape.k_skip as u128, 8);
    let pin: usize = match requirement.shape.const_pin {
        Some(pin) => pin + 1,
        None => 0,
    };
    push_le(bytes, pin as u128, 8);
    match claim {
        Some(claim) => {
            bytes.push(1);
            push_fields(bytes, &claim.point);
            push_field(bytes, claim.value);
        },
        None => {
            bytes.push(0);
        },
    }
    assert(bytes@ =~= before + lane_bytes(index as int, *requirement, *claim));
}

impl RequestContext {
    /// The request is complete enough to encode: the first fork is scheduled,
    /// and every lane has its requirement.
    pub open spec fn wf(&self) -> bool {
        &&& self.target.wf()
        &&& self.target.schedule.v1_1_height is Some
        &&& self.requirements@.len() == self.lanes@.len()
        &&& self.lanes@.len() <= 256
        &&& self.tip_class.index < self.lanes@.len()
        &&& forall|i: int|
            0 <= i < self.requirements@.len() ==> ((
            #[trigger] self.requirements@[i]).shape.const_pin matches Some(pin) ==> pin
                < usize::MAX)
    }

    /// Whether the request is complete enough to encode.
    pub fn complete(&self) -> (r: bool)
        ensures
            r == self.wf(),
    {
        let fork = match self.target.schedule.v2 {
            Some(fork) => fork.height,
            None => {
                return false;
            },
        };
        let lanes = self.lanes.len();
        if fork != self.target.activation_height || fork <= 1
            || self.target.schedule.v1_1_height.is_none() || is_zero_digest(
            &self.target.next_bank_digest,
        ) || same_digest(&self.target.next_bank_digest, &self.target.legacy_bank_digest)
            || self.requirements.len() != lanes || lanes > 256 || self.tip_class.index >= lanes {
            return false;
        }
        let mut i: usize = 0;
        while i < self.requirements.len()
            invariant
                i <= self.requirements@.len(),
                forall|k: int|
                    0 <= k < i ==> ((
                    #[trigger] self.requirements@[k]).shape.const_pin matches Some(pin) ==> pin
                        < usize::MAX),
            decreases self.requirements@.len() - i,
        {
            match self.requirements[i].shape.const_pin {
                Some(pin) => {
                    if pin == usize::MAX {
                        assert(self.requirements@[i as int].shape.const_pin == Some(pin));
                        return false;
                    }
                },
                None => {},
            }
            i = i + 1;
        }
        true
    }

    /// What the digest of the request is taken of.
    pub open spec fn preimage(&self) -> Seq<u8> {
        target_bytes(self.target) + self.parent_header.encoded@ + self.epoch_anchor_header.encoded@
            + boundary_bytes(self.boundary.lanes@, self.boundary.lanes@.len())
            + seq![self.tip_class.wire_id] + lanes_bytes(
            self.requirements@,
            self.lanes@,
            self.lanes@.len(),
        ) + fresh_bytes(self.fresh)
    }

    /// The bytes that the host hashes into the binding of the request.
    pub fn binding_preimage(&self) -> (bytes: Vec<u8>)
        requires
            self.wf(),
        ensures
            bytes@ == self.preimage(),
    {
        let mut bytes: Vec<u8> = Vec::new();
        let v1_1 = match self.target.schedule.v1_1_height {
            Some(height) => height,
            None => 0,
        };
        let block_time = match self.target.schedule.v2 {
            Some(fork) => fork.block_time,
            None => 0,
        };
        push_bytes(&mut bytes, &self.target.legacy_bank_digest);
        push_bytes(&mut bytes, &self.target.next_bank_digest);
        push_le(&mut bytes, v1_1 as u128, 8);
        push_le(&mut bytes, self.target.activation_height as u128, 8);
        push_le(&mut bytes, block_time as u128, 8);
        assert(bytes@ =~= target_bytes(self.target));
        push_bytes(&mut bytes, self.parent_header.encoded.as_slice());
        push_bytes(&mut bytes, self.epoch_anchor_header.encoded.as_slice());
        let ghost head = bytes@;
        let mut i: usize = 0;
        assert(bytes@ =~= head + boundary_bytes(self.boundary.lanes@, 0));
        while i < self.boundary.lanes.len()
            invariant
                i <= self.boundary.lanes@.len(),
                bytes@ == head + boundary_bytes(self.boundary.lanes@, i as nat),
            decreases self.boundary.lanes@.len() - i,
        {
            push_le(&mut bytes, self.boundary.lanes[i], 16);
            i = i + 1;
            assert(bytes@ =~= head + boundary_bytes(self.boundary.lanes@, i as nat));
        }
        bytes.push(self.tip_class.wire_id);
        let ghost middle = bytes@;
        let mut i: usize = 0;
        assert(bytes@ =~= middle + lanes_bytes(self.requirements@, self.lanes@, 0));
        while i < self.lanes.len()
            invariant
                i <= self.lanes@.len(),
                self.wf(),
                bytes@ == middle + lanes_bytes(self.requirements@, self.lanes@, i as nat),
            decreases self.lanes@.len() - i,
        {
            assert(self.requirements@[i as int].shape.const_pin matches Some(pin) ==> pin
                < usize::MAX);
            push_lane(&mut bytes, i, &self.requirements[i], &self.lanes[i]);
            i = i + 1;
            assert(bytes@ =~= middle + lanes_bytes(self.requirements@, self.lanes@, i as nat));
        }
        let ghost tail = bytes@;
        push_field(&mut bytes, self.fresh.alpha);
        push_field(&mut bytes, self.fresh.z_skip);
        push_fields(&mut bytes, &self.fresh.x_inner_rest);
        push_fields(&mut bytes, &self.fresh.r_inner_rest);
        push_fields(&mut bytes, &self.fresh.z_partial);
        push_field(&mut bytes, self.fresh.value);
        assert(bytes@ =~= tail + fresh_bytes(self.fresh));
        assert(bytes@ =~= self.preimage());
        bytes
    }
}

impl UnboundRequest {
    /// What the binding is the digest of.
    pub fn context(&self) -> (r: &RequestContext)
        ensures
            *r == self@,
    {
        &self.context
    }

    /// The bytes that the host hashes into the binding of the request.
    pub fn binding_preimage(&self) -> (bytes: Vec<u8>)
        requires
            self@.wf(),
        ensures
            bytes@ == self@.preimage(),
    {
        self.context.binding_preimage()
    }

    /// The request under its binding.
    pub fn bind(self, binding: [u8; 32]) -> (r: HistoryStepRetirementRequest)
        ensures
            r@.inner == self@,
            r@.binding == binding,
    {
        HistoryStepRetirementRequest { inner: self.context, binding }
    }
}

/// A request and the digest that binds a reduction to it.
pub struct HistoryStepRetirementRequest {
    inner: RequestContext,
    binding: [u8; 32],
}

/// What a request holds.
pub struct RetirementRequestView {
    pub inner: RequestContext,
    pub binding: [u8; 32],
}

impl View for HistoryStepRetirementRequest {
    type V = RetirementRequestView;

    closed spec fn view(&self) -> RetirementRequestView {
        RetirementRequestView { inner: self.inner, binding: self.binding }
    }
}

impl HistoryStepRetirementRequest {
    /// The shape of the tip's matrix.
    pub open spec fn tip_shape(&self) -> FieldShape {
        self@.inner.requirements@[self@.inner.tip_class.index as int].shape
    }

    pub open spec fn wf(&self) -> bool {
        &&& self@.inner.wf()
        &&& 41 + (4 * self.tip_shape().k_log + 5) * 32 <= usize::MAX
    }

    /// What the binding is the digest of.
    pub fn inner(&self) -> (r: &RequestContext)
        ensures
            *r == self@.inner,
    {
        &self.inner
    }

    pub fn binding(&self) -> (r: [u8; 32])
        ensures
            r == self@.binding,
    {
        self.binding
    }

    pub fn boundary(&self) -> (r: &ChainBoundary)
        ensures
            *r == self@.inner.boundary,
    {
        &self.inner.boundary
    }

    pub fn parent_header(&self) -> (r: &HeaderBytes)
        ensures
            *r == self@.inner.parent_header,
    {
        &self.inner.parent_header
    }

    pub fn epoch_anchor_header(&self) -> (r: &HeaderBytes)
        ensures
            *r == self@.inner.epoch_anchor_header,
    {
        &self.inner.epoch_anchor_header
    }

    pub fn target(&self) -> (r: &HistoryStepRetirementTarget)
        ensures
            *r == self@.inner.target,
    {
        &self.inner.target
    }

    pub fn tip_class(&self) -> (r: ClassId)
        ensures
            r == self@.inner.tip_class,
    {
        self.inner.tip_class
    }

    /// The shape of the tip's matrix.
    pub fn shape(&self) -> (r: FieldShape)
        requires
            self.wf(),
        ensures
            r == self.tip_shape(),
    {
        self.inner.requirements[self.inner.tip_class.index].shape
    }

    /// The claim that the fold starts from: the lane of the tip class, or zero
    /// if it is dead.
    pub fn incoming(&self) -> (r: MatrixAccClaim)
        requires
            self.wf(),
        ensures
            match self@.inner.lanes@[self@.inner.tip_class.index as int] {
                Some(claim) => r.same(&claim),
                None => {
                    &&& r.point@.len() == 2 * self.tip_shape().k_log + 1
                    &&& forall|i: int|
                        0 <= i < r.point@.len() ==> (#[trigger] r.point@[i]).lo@ == 0
                            && r.point@[i].hi@ == 0
                    &&& r.value.lo@ == 0
                    &&& r.value.hi@ == 0
                },
            },
    {
        match &self.inner.lanes[self.inner.tip_class.index] {
            Some(claim) => claim.copy(),
            None => MatrixAccClaim::zero(self.shape().k_log),
        }
    }

    /// Whether the lane of the tip class is live.
    pub fn incoming_live(&self) -> (r: bool)
        requires
            self.wf(),
        ensures
            r == self@.inner.lanes@[self@.inner.tip_class.index as int] is Some,
    {
        match &self.inner.lanes[self.inner.tip_class.index] {
            Some(_) => true,
            None => false,
        }
    }

    /// Checks that a matrix is the one the tip class requires.
    pub fn check_matrix(&self, shape: FieldShape, digest: &[u8; 32]) -> (r: Result<
        (),
        HistoryStepRetirementError,
    >)
        requires
            self.wf(),
        ensures
            r == if shape != self.tip_shape() {
                Err::<(), HistoryStepRetirementError>(
                    HistoryStepRetirementError::Matrix(
                        HistoryStepBankError::MatrixShape(self@.inner.tip_class),
                    ),
                )
            } else if digest@
                != self@.inner.requirements@[self@.inner.tip_class.index as int].digest@ {
                Err::<(), HistoryStepRetirementError>(
                    HistoryStepRetirementError::Matrix(
                        HistoryStepBankError::MatrixDigest(self@.inner.tip_class),
                    ),
                )
            } else {
                Ok::<(), HistoryStepRetirementError>(())
            },
    {
        if shape != self.shape() {
            return Err(
                HistoryStepRetirementError::Matrix(
                    HistoryStepBankError::MatrixShape(self.inner.tip_class),
                ),
            );
        }
        if !same_digest(digest, &self.inner.requirements[self.inner.tip_class.index].digest) {
            return Err(
                HistoryStepRetirementError::Matrix(
                    HistoryStepBankError::MatrixDigest(self.inner.tip_class),
                ),
            );
        }
        Ok(())
    }

    /// The length of every encoded reduction of this request.
    pub fn reduction_wire_bytes(&self) -> (r: usize)
        requires
            self.wf(),
        ensures
            r == 41 + (4 * self.tip_shape().k_log + 5) * 32,
    {
        41 + (4 * self.shape().k_log + 5) * 32
    }
}

/// One round of the fold: two evaluations.
#[derive(Clone, Copy, Debug, PartialEq, Eq, Structural)]
pub struct RoundPair {
    pub first: F256,
    pub second: F256,
}

/// The proof of the fold.
#[derive(Clone, Debug, PartialEq, Eq)]
pub struct MatrixFoldProof {
    pub phase1_rounds: Vec<RoundPair>,
    pub g_v: F256,
    pub g_e: F256,
    pub phase2_rounds: Vec<RoundPair>,
    pub final_matrix_eval: F256,
}

impl MatrixFoldProof {
    pub open spec fn same(&self, other: &MatrixFoldProof) -> bool {
        &&& self.phase1_rounds@ == other.phase1_rounds@
        &&& self.g_v == other.g_v
        &&& self.g_e == other.g_e
        &&& self.phase2_rounds@ == other.phase2_rounds@
        &&& self.final_matrix_eval == other.final_matrix_eval
    }
}

/// A reduction proof, bound to a class and a request.
#[derive(Clone, Debug, PartialEq, Eq)]
pub struct HistoryStepRetirementReduction {
    pub class_id: ClassId,
    pub request_binding: [u8; 32],
    pub fold: MatrixFoldProof,
}

/// The encoding of the first `n` rounds.
pub open spec fn rounds_bytes(rounds: Seq<RoundPair>, n: nat) -> Seq<u8>
    decreases n,
{
    if n == 0 {
        seq![]
    } else {
        rounds_bytes(rounds, (n - 1) as nat) + rounds[n - 1].first.bytes() + rounds[n
            - 1].second.bytes()
    }
}

/// The eight bytes that open an encoded reduction.
pub open spec fn reduction_magic() -> Seq<u8> {
    seq![0x4Fu8, 0x31, 0x4D, 0x52, 0x45, 0x44, 0x30, 0x31]
}

/// The encoding of a reduction.
pub open spec fn wire(
    class: ClassId,
    binding: [u8; 32],
    fold: MatrixFoldProof,
) -> Seq<u8> {
    reduction_magic() + seq![class.wire_id] + binding@ + rounds_bytes(
        fold.phase1_rounds@,
        fold.phase1_rounds@.len(),
    ) + fold.g_v.bytes() + fold.g_e.bytes() + rounds_bytes(
        fold.phase2_rounds@,
        fold.phase2_rounds@.len(),
    ) + fold.final_matrix_eval.bytes()
}

fn push_rounds(bytes: &mut Vec<u8>, rounds: &Vec<RoundPair>)
    ensures
        final(bytes)@ == old(bytes)@ + rounds_bytes(rounds@, rounds@.len()),
{
    let ghost before = bytes@;
    let mut i: usize = 0;
    assert(bytes@ =~= before + rounds_bytes(rounds@, 0));
    while i < rounds.len()
        invariant
            i <= rounds@.len(),
            bytes@ == before + rounds_bytes(rounds@, i as nat),
        decreases rounds@.len() - i,
    {
        push_field(bytes, rounds[i].first);
        push_field(bytes, rounds[i].second);
        i = i + 1;
        assert(bytes@ =~= before + rounds_bytes(rounds@, i as nat));
    }
}

impl HistoryStepRetirementReduction {
    /// Why the reduction does not belong to a request, if it does not.
    pub open spec fn mismatch(&self, request: &HistoryStepRetirementRequest) -> Option<
        HistoryStepRetirementError,
    > {
        if self.class_id != request@.inner.tip_class || self.request_binding@ != request@.binding@ {
            Some(HistoryStepRetirementError::Binding)
        } else if self.fold.phase1_rounds@.len() != request.tip_shape().k_log + 1
            || self.fold.phase2_rounds@.len() != request.tip_shape().k_log {
            Some(HistoryStepRetirementError::Wire)
        } else {
            None
        }
    }

    /// Checks that the reduction answers a request.
    pub fn check_binding(&self, request: &HistoryStepRetirementRequest) -> (r: Result<
        (),
        HistoryStepRetirementError,
    >)
        requires
            request.wf(),
        ensures
            r == match self.mismatch(request) {
                Some(error) => Err::<(), _>(error),
                None => Ok::<(), HistoryStepRetirementError>(()),
            },
    {
        if self.class_id != request.inner.tip_class || !same_digest(
            &self.request_binding,
            &request.binding,
        ) {
            return Err(HistoryStepRetirementError::Binding);
        }
        let k_log = request.shape().k_log;
        if self.fold.phase1_rounds.len() != k_log + 1 || self.fold.phase2_rounds.len() != k_log {
            return Err(HistoryStepRetirementError::Wire);
        }
        Ok(())
    }

    /// Encodes a reduction for the request it answers.
    pub fn encode_for(&self, request: &HistoryStepRetirementRequest) -> (r: Result<
        Vec<u8>,
        HistoryStepRetirementError,
    >)
        requires
            request.wf(),
        ensures
            match self.mismatch(request) {
                Some(error) => r == Err::<Vec<u8>, _>(error),
                None => {
                    &&& r is Ok
                    &&& r->Ok_0@ == wire(self.class_id, self.request_binding, self.fold)
                    &&& r->Ok_0@.len() == 41 + (4 * request.tip_shape().k_log + 5) * 32
                },
            },
    {
        match self.check_binding(request) {
            Ok(()) => {},
            Err(error) => {
                return Err(error);
            },
        }
        let mut bytes: Vec<u8> = Vec::new();
        bytes.push(0x4F);
        bytes.push(0x31);
        bytes.push(0x4D);
        bytes.push(0x52);
        bytes.push(0x45);
        bytes.push(0x44);
        bytes.push(0x30);
        bytes.push(0x31);
        assert(bytes@ =~= reduction_magic());
        bytes.push(self.class_id.wire_id);
        push_bytes(&mut bytes, &self.request_binding);
        push_rounds(&mut bytes, &self.fold.phase1_rounds);
        push_field(&mut bytes, self.fold.g_v);
        push_field(&mut bytes, self.fold.g_e);
        push_rounds(&mut bytes, &self.fold.phase2_rounds);
        push_field(&mut bytes, self.fold.final_matrix_eval);
        proof {
            assert(bytes@ =~= wire(self.class_id, self.request_binding, self.fold));
            lemma_wire_len(self.class_id, self.request_binding, self.fold);
        }
        Ok(bytes)
    }
}

proof fn lemma_field_len(value: F256)
    ensures
        value.bytes().len() == 32,
{
    lemma_le_len(value.lo@ as nat, 16);
    lemma_le_len(value.hi@ as nat, 16);
}

proof fn lemma_rounds_len(rounds: Seq<RoundPair>, n: nat)
    ensures
        rounds_bytes(rounds, n).len() == 64 * n,
    decreases n,
{
    if n > 0 {
        lemma_rounds_len(rounds, (n - 1) as nat);
        lemma_field_len(rounds[n - 1].first);
        lemma_field_len(rounds[n - 1].second);
    }
}

proof fn lemma_wire_len(class: ClassId, binding: [u8; 32], fold: MatrixFoldProof)
    ensures
        wire(class, binding, fold).len() == 41 + 64 * fold.phase1_rounds@.len() + 64 * fold.phase2_rounds@.len()
            + 96,
{
    lemma_rounds_len(fold.phase1_rounds@, fold.phase1_rounds@.len());
    lemma_rounds_len(fold.phase2_rounds@, fold.phase2_rounds@.len());
    lemma_field_len(fold.g_v);
    lemma_field_len(fold.g_e);
    lemma_field_len(fold.final_matrix_eval);
}

fn read_field(bytes: &[u8], at: usize) -> (r: F256)
    requires
        at + 32 <= bytes@.len(),
    ensures
        r.bytes() == bytes@.subrange(at as int, at + 32),
{
    let len = bytes.len();
    let lo = read_le(bytes, at, 16);
    let hi = read_le(bytes, at + 16, 16);
    let r = F256 { lo: F128 { bits: lo }, hi: F128 { bits: hi } };
    proof {
        let s = bytes@.subrange(at as int, at + 16);
        let t = bytes@.subrange(at + 16, at + 32);
        lemma_value_le(s);
        lemma_value_le(t);
        assert(bytes@.subrange(at as int, at + 32) =~= s + t);
    }
    r
}

fn read_rounds(bytes: &[u8], at: usize, n: usize) -> (r: Vec<RoundPair>)
    requires
        at + 64 * n <= bytes@.len(),
    ensures
        r@.len() == n,
        rounds_bytes(r@, n as nat) == bytes@.subrange(at as int, at + 64 * n),
{
    let len = bytes.len();
    let mut r: Vec<RoundPair> = Vec::new();
    let mut i: usize = 0;
    assert(rounds_bytes(r@, 0) =~= bytes@.subrange(at as int, at as int));
    while i < n
        invariant
            i <= n,
            len == bytes@.len(),
            at + 64 * n <= len,
            r@.len() == i,
            rounds_bytes(r@, i as nat) == bytes@.subrange(at as int, at + 64 * i),
        decreases n - i,
    {
        let ghost before = r@;
        let from: usize = at + 64 * i;
        let pair = RoundPair {
            first: read_field(bytes, from),
            second: read_field(bytes, from + 32),
        };
        r.push(pair);
        proof {
            lemma_rounds_prefix(before, r@, i as nat);
            assert(rounds_bytes(r@, (i + 1) as nat) =~= bytes@.subrange(
                at as int,
                at + 64 * (i + 1),
            ));
        }
        i = i + 1;
    }
    r
}

proof fn lemma_rounds_prefix(x: Seq<RoundPair>, y: Seq<RoundPair>, n: nat)
    requires
        n <= x.len(),
        n <= y.len(),
        forall|i: int| 0 <= i < n ==> x[i] == #[trigger] y[i],
    ensures
        rounds_bytes(x, n) == rounds_bytes(y, n),
    decreases n,
{
    if n > 0 {
        lemma_rounds_prefix(x, y, (n - 1) as nat);
        assert(x[n - 1] == y[n - 1]);
    }
}

/// The first eight bytes are the magic.
pub open spec fn opens_reduction(bytes: Seq<u8>) -> bool {
    bytes.subrange(0, 8) == reduction_magic()
}

fn starts_with_magic(bytes: &[u8]) -> (r: bool)
    requires
        bytes@.len() >= 8,
    ensures
        r == opens_reduction(bytes@),
{
    let r = bytes[0] == 0x4F && bytes[1] == 0x31 && bytes[2] == 0x4D && bytes[3] == 0x52 && bytes[4]
        == 0x45 && bytes[5] == 0x44 && bytes[6] == 0x30 && bytes[7] == 0x31;
    proof {
        let s = bytes@.subrange(0, 8);
        if r {
            assert(s =~= reduction_magic());
        }
        if s == reduction_magic() {
            assert(s[0] == 0x4F && s[1] == 0x31 && s[2] == 0x4D && s[3] == 0x52 && s[4] == 0x45
                && s[5] == 0x44 && s[6] == 0x30 && s[7] == 0x31);
        }
    }
    r
}

fn digest_at(bytes: &[u8], at: usize, digest: &[u8; 32]) -> (r: bool)
    requires
        at + 32 <= bytes@.len(),
    ensures
        r == (bytes@.subrange(at as int, at + 32) == digest@),
{
    let len = bytes.len();
    let mut i: usize = 0;
    while i < 32
        invariant
            i <= 32,
            len == bytes@.len(),
            at + 32 <= len,
            forall|k: int| 0 <= k < i ==> bytes@[at + k] == #[trigger] digest@[k],
        decreases 32 - i,
    {
        if bytes[at + i] != digest[i] {
            assert(bytes@.subrange(at as int, at + 32)[i as int] != digest@[i as int]);
            return false;
        }
        i = i + 1;
    }
    assert(bytes@.subrange(at as int, at + 32) =~= digest@);
    true
}

/// Why bytes are no reduction for a request, if they are not: length and magic
/// come before class and binding.
pub open spec fn wire_refusal(request: &HistoryStepRetirementRequest, bytes: Seq<u8>) -> Option<
    HistoryStepRetirementError,
> {
    if bytes.len() != 41 + (4 * request.tip_shape().k_log + 5) * 32 || !opens_reduction(bytes) {
        Some(HistoryStepRetirementError::Wire)
    } else if bytes[8] != request@.inner.tip_class.wire_id || bytes.subrange(9, 41)
        != request@.binding@ {
        Some(HistoryStepRetirementError::Binding)
    } else {
        None
    }
}

impl HistoryStepRetirementReduction {
    /// Decodes a reduction for a request. Length, version and context are
    /// checked before any round is read.
    pub fn decode_for(request: &HistoryStepRetirementRequest, bytes: &[u8]) -> (r: Result<
        HistoryStepRetirementReduction,
        HistoryStepRetirementError,
    >)
        requires
            request.wf(),
        ensures
            match wire_refusal(request, bytes@) {
                Some(error) => r == Err::<HistoryStepRetirementReduction, _>(error),
                None => {
                    &&& r is Ok
                    &&& r->Ok_0.mismatch(request) is None
                    &&& wire(r->Ok_0.class_id, r->Ok_0.request_binding, r->Ok_0.fold) == bytes@
                },
            },
    {
        if bytes.len() != request.reduction_wire_bytes() || !starts_with_magic(bytes) {
            return Err(HistoryStepRetirementError::Wire);
        }
        if bytes[8] != request.inner.tip_class.wire_id || !digest_at(bytes, 9, &request.binding) {
            return Err(HistoryStepRetirementError::Binding);
        }
        let k_log = request.shape().k_log;
        let phase1_rounds = read_rounds(bytes, 41, k_log + 1);
        let at: usize = 41 + 64 * (k_log + 1);
        let g_v = read_field(bytes, at);
        let g_e = read_field(bytes, at + 32);
        let phase2_rounds = read_rounds(bytes, at + 64, k_log);
        let last: usize = at + 64 + 64 * k_log;
        let final_matrix_eval = read_field(bytes, last);
        let fold = MatrixFoldProof { phase1_rounds, g_v, g_e, phase2_rounds, final_matrix_eval };
        proof {
            let s = bytes@;
            let whole = wire(request.inner.tip_class, request.binding, fold);
            assert(s.subrange(8, 9) =~= seq![request.inner.tip_class.wire_id]);
            assert(s =~= s.subrange(0, 8) + s.subrange(8, 9) + s.subrange(9, 41) + s.subrange(
                41,
                at as int,
            ) + s.subrange(at as int, at + 32) + s.subrange(at + 32, at + 64) + s.subrange(
                at + 64,
                last as int,
            ) + s.subrange(last as int, last + 32));
            assert(whole =~= s);
        }
        Ok(
            HistoryStepRetirementReduction {
                class_id: request.inner.tip_class,
                request_binding: request.binding,
                fold,
            },
        )
    }
}

proof fn lemma_field_injective(x: F256, y: F256)
    requires
        x.bytes() == y.bytes(),
    ensures
        x == y,
{
    lemma_ranges();
    lemma_le_len(x.lo@ as nat, 16);
    lemma_le_len(y.lo@ as nat, 16);
    lemma_le_len(x.hi@ as nat, 16);
    lemma_le_len(y.hi@ as nat, 16);
    lemma_le_value(x.lo@ as nat, 16);
    lemma_le_value(y.lo@ as nat, 16);
    lemma_le_value(x.hi@ as nat, 16);
    lemma_le_value(y.hi@ as nat, 16);
    assert(x.bytes().subrange(0, 16) =~= le(x.lo@ as nat, 16));
    assert(y.bytes().subrange(0, 16) =~= le(y.lo@ as nat, 16));
    assert(x.bytes().subrange(16, 32) =~= le(x.hi@ as nat, 16));
    assert(y.bytes().subrange(16, 32) =~= le(y.hi@ as nat, 16));
}

proof fn lemma_rounds_injective(x: Seq<RoundPair>, y: Seq<RoundPair>, n: nat)
    requires
        x.len() == n,
        y.len() == n,
        rounds_bytes(x, n) == rounds_bytes(y, n),
    ensures
        x == y,
    decreases n,
{
    if n > 0 {
        let m = (n - 1) as nat;
        lemma_rounds_len(x, m);
        lemma_rounds_len(y, m);
        lemma_field_len(x[n - 1].first);
        lemma_field_len(x[n - 1].second);
        lemma_field_len(y[n - 1].first);
        lemma_field_len(y[n - 1].second);
        let s = rounds_bytes(x, n);
        let c = 64 * m as int;
        assert(s.subrange(0, c) =~= rounds_bytes(x, m));
        assert(s.subrange(0, c) =~= rounds_bytes(y, m));
        assert(s.subrange(c, c + 32) =~= x[n - 1].first.bytes());
        assert(s.subrange(c, c + 32) =~= y[n - 1].first.bytes());
        assert(s.subrange(c + 32, c + 64) =~= x[n - 1].second.bytes());
        assert(s.subrange(c + 32, c + 64) =~= y[n - 1].second.bytes());
        lemma_field_injective(x[n - 1].first, y[n - 1].first);
        lemma_field_injective(x[n - 1].second, y[n - 1].second);
        lemma_rounds_prefix(x, x.drop_last(), m);
        lemma_rounds_prefix(y, y.drop_last(), m);
        lemma_rounds_injective(x.drop_last(), y.drop_last(), m);
        assert(x =~= x.drop_last().push(x[n - 1]));
        assert(y =~= y.drop_last().push(y[n - 1]));
    } else {
        assert(x =~= y);
    }
}

/// Two proofs of the same shape with the same encoding are the same: decoding
/// what was encoded gives the reduction back, and no second reduction has the
/// same bytes.
pub proof fn lemma_wire_injective(
    class: ClassId,
    binding: [u8; 32],
    x: MatrixFoldProof,
    y: MatrixFoldProof,
)
    requires
        x.phase1_rounds@.len() == y.phase1_rounds@.len(),
        x.phase2_rounds@.len() == y.phase2_rounds@.len(),
        wire(class, binding, x) == wire(class, binding, y),
    ensures
        x.same(&y),
{
    let n = x.phase1_rounds@.len();
    let m = x.phase2_rounds@.len();
    lemma_rounds_len(x.phase1_rounds@, n);
    lemma_rounds_len(y.phase1_rounds@, n);
    lemma_rounds_len(x.phase2_rounds@, m);
    lemma_rounds_len(y.phase2_rounds@, m);
    lemma_field_len(x.g_v);
    lemma_field_len(y.g_v);
    lemma_field_len(x.g_e);
    lemma_field_len(y.g_e);
    lemma_field_len(x.final_matrix_eval);
    lemma_field_len(y.final_matrix_eval);
    let s = wire(class, binding, x);
    let a = 41 + 64 * n as int;
    let b = a + 64 + 64 * m as int;
    assert(s.subrange(41, a) =~= rounds_bytes(x.phase1_rounds@, n));
    assert(s.subrange(41, a) =~= rounds_bytes(y.phase1_rounds@, n));
    assert(s.subrange(a, a + 32) =~= x.g_v.bytes());
    assert(s.subrange(a, a + 32) =~= y.g_v.bytes());
    assert(s.subrange(a + 32, a + 64) =~= x.g_e.bytes());
    assert(s.subrange(a + 32, a + 64) =~= y.g_e.bytes());
    assert(s.subrange(a + 64, b) =~= rounds_bytes(x.phase2_rounds@, m));
    assert(s.subrange(a + 64, b) =~= rounds_bytes(y.phase2_rounds@, m));
    assert(s.subrange(b, b + 32) =~= x.final_matrix_eval.bytes());
    assert(s.subrange(b, b + 32) =~= y.final_matrix_eval.bytes());
    lemma_rounds_injective(x.phase1_rounds@, y.phase1_rounds@, n);
    lemma_rounds_injective(x.phase2_rounds@, y.phase2_rounds@, m);
    lemma_field_injective(x.g_v, y.g_v);
    lemma_field_injective(x.g_e, y.g_e);
    lemma_field_injective(x.final_matrix_eval, y.final_matrix_eval);
}

/// What a reduction encodes to is accepted for the request it answers.
pub proof fn lemma_encoded_accepted(
    request: &HistoryStepRetirementRequest,
    reduction: &HistoryStepRetirementReduction,
)
    requires
        reduction.mismatch(request) is None,
    ensures
        wire_refusal(
            request,
            wire(reduction.class_id, reduction.request_binding, reduction.fold),
        ) is None,
{
    let s = wire(reduction.class_id, reduction.request_binding, reduction.fold);
    lemma_wire_len(reduction.class_id, reduction.request_binding, reduction.fold);
    assert(s.subrange(0, 8) =~= reduction_magic());
    assert(s[8] == reduction.class_id.wire_id);
    assert(s.subrange(9, 41) =~= reduction.request_binding@);
}

/// One matrix claim that is still to be proved.
pub struct PendingRetiredMatrixClaim {
    pub class_id: ClassId,
    pub shape: FieldShape,
    pub matrix_digest: [u8; 32],
    pub claim: MatrixAccClaim,
}

impl PendingRetiredMatrixClaim {
    pub fn class_id(&self) -> (r: ClassId)
        ensures
            r == self.class_id,
    {
        self.class_id
    }

    pub fn shape(&self) -> (r: FieldShape)
        ensures
            r == self.shape,
    {
        self.shape
    }

    pub fn matrix_digest(&self) -> (r: [u8; 32])
        ensures
            r == self.matrix_digest,
    {
        self.matrix_digest
    }

    pub fn claim(&self) -> (r: &MatrixAccClaim)
        ensures
            *r == self.claim,
    {
        &self.claim
    }
}

/// A verified reduction whose matrix evaluations are still to be proved: one
/// entry per live class, in order.
pub struct PendingHistoryStepRetirement {
    request_binding: [u8; 32],
    target: HistoryStepRetirementTarget,
    boundary: ChainBoundary,
    obligations: Vec<PendingRetiredMatrixClaim>,
}

/// What a verified reduction leaves open.
pub struct PendingRetirementView {
    pub request_binding: [u8; 32],
    pub target: HistoryStepRetirementTarget,
    pub boundary: ChainBoundary,
    pub obligations: Vec<PendingRetiredMatrixClaim>,
}

impl View for PendingHistoryStepRetirement {
    type V = PendingRetirementView;

    closed spec fn view(&self) -> PendingRetirementView {
        PendingRetirementView {
            request_binding: self.request_binding,
            target: self.target,
            boundary: self.boundary,
            obligations: self.obligations,
        }
    }
}

/// The claim of lane `i` after the fold: the outgoing claim for the tip class,
/// the old claim for every other.
pub open spec fn lane_after(
    lanes: Seq<Option<MatrixAccClaim>>,
    tip: int,
    outgoing: MatrixAccClaim,
    i: int,
) -> Option<MatrixAccClaim> {
    if i == tip {
        Some(outgoing)
    } else {
        lanes[i]
    }
}

/// How many of the first `n` lanes are live after the fold.
pub open spec fn live_count(
    lanes: Seq<Option<MatrixAccClaim>>,
    tip: int,
    n: nat,
) -> nat
    decreases n,
{
    if n == 0 {
        0
    } else {
        live_count(lanes, tip, (n - 1) as nat) + if n - 1 == tip || lanes[n - 1] is Some {
            1nat
        } else {
            0
        }
    }
}

/// Every lane that is live after the fold has its obligation, in the order of
/// the classes; a dead lane has none.
pub open spec fn obligations_of(
    obligations: Seq<PendingRetiredMatrixClaim>,
    request: HistoryStepRetirementRequest,
    class_wires: Seq<u8>,
    outgoing: MatrixAccClaim,
) -> bool {
    let lanes = request@.inner.lanes@;
    let tip = request@.inner.tip_class.index as int;
    &&& obligations.len() == live_count(lanes, tip, lanes.len())
    &&& forall|i: int|
        0 <= i < lanes.len() ==> (#[trigger] lane_after(lanes, tip, outgoing, i) matches Some(claim)
            ==> {
            let ob = obligations[live_count(lanes, tip, i as nat) as int];
            &&& ob.class_id == (ClassId { index: i as usize, wire_id: class_wires[i] })
            &&& ob.shape == request@.inner.requirements@[i].shape
            &&& ob.matrix_digest == request@.inner.requirements@[i].digest
            &&& ob.claim.same(&claim)
        })
}

proof fn lemma_live_mono(lanes: Seq<Option<MatrixAccClaim>>, tip: int, m: nat, n: nat)
    requires
        m <= n,
    ensures
        live_count(lanes, tip, m) <= live_count(lanes, tip, n),
    decreases n,
{
    if m < n {
        lemma_live_mono(lanes, tip, m, (n - 1) as nat);
    }
}

fn copy_boundary(b: &ChainBoundary) -> (r: ChainBoundary)
    ensures
        r.height == b.height,
        r.lanes@ == b.lanes@,
{
    let mut lanes: Vec<u128> = Vec::new();
    let mut i: usize = 0;
    while i < b.lanes.len()
        invariant
            i <= b.lanes@.len(),
            lanes@ == b.lanes@.take(i as int),
        decreases b.lanes@.len() - i,
    {
        lanes.push(b.lanes[i]);
        i = i + 1;
        assert(lanes@ =~= b.lanes@.take(i as int));
    }
    assert(lanes@ =~= b.lanes@);
    ChainBoundary { height: b.height, lanes }
}

impl HistoryStepRetirementRequest {
    /// The obligations that are left once the fold of a reduction is verified
    /// and has given `outgoing`. Only the tip's lane changes; no lane is lost.
    pub fn accept_fold(
        &self,
        proof: &HistoryStepRetirementReduction,
        outgoing: &MatrixAccClaim,
        class_wires: &Vec<u8>,
    ) -> (r: Result<PendingHistoryStepRetirement, HistoryStepRetirementError>)
        requires
            self.wf(),
            class_wires@.len() == self@.inner.lanes@.len(),
        ensures
            match proof.mismatch(self) {
                Some(error) => r == Err::<PendingHistoryStepRetirement, _>(error),
                None => {
                    &&& r is Ok
                    &&& r->Ok_0@.request_binding == self@.binding
                    &&& r->Ok_0@.target == self@.inner.target
                    &&& r->Ok_0@.boundary.height == self@.inner.boundary.height
                    &&& r->Ok_0@.boundary.lanes@ == self@.inner.boundary.lanes@
                    &&& obligations_of(r->Ok_0@.obligations@, *self, class_wires@, *outgoing)
                },
            },
    {
        match proof.check_binding(self) {
            Ok(()) => {},
            Err(error) => {
                return Err(error);
            },
        }
        let ghost lanes = self.inner.lanes@;
        let ghost tip = self.inner.tip_class.index as int;
        let mut obligations: Vec<PendingRetiredMatrixClaim> = Vec::new();
        let mut i: usize = 0;
        while i < self.inner.lanes.len()
            invariant
                i <= lanes.len(),
                lanes == self.inner.lanes@,
                tip == self.inner.tip_class.index,
                self.wf(),
                class_wires@.len() == lanes.len(),
                obligations@.len() == live_count(lanes, tip, i as nat),
                forall|k: int|
                    0 <= k < i ==> (#[trigger] lane_after(lanes, tip, *outgoing, k) matches Some(
                        claim,
                    ) ==> {
                        let ob = obligations@[live_count(lanes, tip, k as nat) as int];
                        &&& ob.class_id == (ClassId {
                            index: k as usize,
                            wire_id: class_wires@[k],
                        })
                        &&& ob.shape == self.inner.requirements@[k].shape
                        &&& ob.matrix_digest == self.inner.requirements@[k].digest
                        &&& ob.claim.same(&claim)
                    }),
            decreases lanes.len() - i,
        {
            let ghost before = obligations@;
            let class_id = ClassId { index: i, wire_id: class_wires[i] };
            let claim: Option<MatrixAccClaim> = if i == self.inner.tip_class.index {
                Some(outgoing.copy())
            } else {
                match &self.inner.lanes[i] {
                    Some(claim) => Some(claim.copy()),
                    None => None,
                }
            };
            match claim {
                Some(claim) => {
                    obligations.push(
                        PendingRetiredMatrixClaim {
                            class_id,
                            shape: self.inner.requirements[i].shape,
                            matrix_digest: self.inner.requirements[i].digest,
                            claim,
                        },
                    );
                },
                None => {},
            }
            proof {
                assert forall|k: int| 0 <= k < i + 1 implies (#[trigger] lane_after(
                    lanes,
                    tip,
                    *outgoing,
                    k,
                ) matches Some(claim) ==> {
                    let ob = obligations@[live_count(lanes, tip, k as nat) as int];
                    &&& ob.class_id == (ClassId { index: k as usize, wire_id: class_wires@[k] })
                    &&& ob.shape == self.inner.requirements@[k].shape
                    &&& ob.matrix_digest == self.inner.requirements@[k].digest
                    &&& ob.claim.same(&claim)
                }) by {
                    if k < i && lane_after(lanes, tip, *outgoing, k) is Some {
                        lemma_live_mono(lanes, tip, (k + 1) as nat, i as nat);
                        let at = live_count(lanes, tip, k as nat) as int;
                        assert(obligations@[at] == before[at]);
                    }
                }
            }
            i = i + 1;
        }
        Ok(
            PendingHistoryStepRetirement {
                request_binding: self.binding,
                target: self.inner.target,
                boundary: copy_boundary(&self.inner.boundary),
                obligations,
            },
        )
    }
}

impl HistoryStepRetirementRequest {
    /// Verifies a reduction: its binding and shape, then the fold, of which the
    /// host gives the reduced claim or its refusal.
    pub fn verify_reduction<F>(
        &self,
        proof: &HistoryStepRetirementReduction,
        outgoing: Result<MatrixAccClaim, F>,
        class_wires: &Vec<u8>,
    ) -> (r: Result<PendingHistoryStepRetirement, HistoryStepRetirementError<F>>)
        requires
            self.wf(),
            class_wires@.len() == self@.inner.lanes@.len(),
        ensures
            match (proof.mismatch(self), outgoing) {
                (Some(error), _) => r == Err::<PendingHistoryStepRetirement, _>(
                    error.with_cause::<F>(),
                ),
                (None, Err(cause)) => r == Err::<PendingHistoryStepRetirement, _>(
                    HistoryStepRetirementError::<F>::Fold(cause),
                ),
                (None, Ok(claim)) => {
                    &&& r is Ok
                    &&& r->Ok_0@.request_binding == self@.binding
                    &&& r->Ok_0@.target == self@.inner.target
                    &&& r->Ok_0@.boundary.height == self@.inner.boundary.height
                    &&& r->Ok_0@.boundary.lanes@ == self@.inner.boundary.lanes@
                    &&& obligations_of(r->Ok_0@.obligations@, *self, class_wires@, claim)
                },
            },
    {
        match proof.check_binding(self) {
            Ok(()) => {},
            Err(error) => {
                return Err(error.lift());
            },
        }
        match outgoing {
            Ok(claim) => match self.accept_fold(proof, &claim, class_wires) {
                Ok(pending) => Ok(pending),
                Err(error) => Err(error.lift()),
            },
            Err(cause) => Err(HistoryStepRetirementError::Fold(cause)),
        }
    }
}

/// Why matrix evaluations are refused. A refused proof carries the host's own
/// reason.
#[derive(Clone, Copy, Debug, PartialEq, Eq)]
pub enum RetirementEvaluationError<E = ()> {
    Coverage,
    Identity,
    Proof(E),
}

impl<E> RetirementEvaluationError<E> {
    /// What is refused. The reason of a refused proof follows it.
    pub fn message(&self) -> (r: &'static str)
        ensures
            r@ == match self {
                RetirementEvaluationError::Coverage =>
                    "every live retirement lane requires exactly one evaluation proof"@,
                RetirementEvaluationError::Identity =>
                    "retirement evaluation class, shape or matrix identity mismatch"@,
                RetirementEvaluationError::Proof(_) => "retirement matrix evaluation: "@,
            },
    {
        match self {
            RetirementEvaluationError::Coverage =>
                "every live retirement lane requires exactly one evaluation proof",
            RetirementEvaluationError::Identity =>
                "retirement evaluation class, shape or matrix identity mismatch",
            RetirementEvaluationError::Proof(_) => "retirement matrix evaluation: ",
        }
    }
}

impl RetirementEvaluationError {
    /// A refusal before any proof is checked, among the refusals of a host.
    pub open spec fn with_cause<E>(self) -> RetirementEvaluationError<E> {
        match self {
            RetirementEvaluationError::Coverage => RetirementEvaluationError::Coverage,
            _ => RetirementEvaluationError::Identity,
        }
    }

    fn lift<E>(self) -> (r: RetirementEvaluationError<E>)
        requires
            !(self is Proof),
        ensures
            r == self.with_cause::<E>(),
    {
        match self {
            RetirementEvaluationError::Coverage => RetirementEvaluationError::Coverage,
            _ => RetirementEvaluationError::Identity,
        }
    }
}

impl HistoryStepRetirementError {
    /// A refusal of the library itself, among the refusals of a host.
    pub open spec fn with_cause<F>(self) -> HistoryStepRetirementError<F> {
        match self {
            HistoryStepRetirementError::Schedule => HistoryStepRetirementError::Schedule,
            HistoryStepRetirementError::BankIdentity => HistoryStepRetirementError::BankIdentity,
            HistoryStepRetirementError::Boundary => HistoryStepRetirementError::Boundary,
            HistoryStepRetirementError::AlreadyDischarged =>
                HistoryStepRetirementError::AlreadyDischarged,
            HistoryStepRetirementError::Binding => HistoryStepRetirementError::Binding,
            HistoryStepRetirementError::Matrix(error) => HistoryStepRetirementError::Matrix(error),
            HistoryStepRetirementError::Replay(cause) => HistoryStepRetirementError::Replay(cause),
            _ => HistoryStepRetirementError::Wire,
        }
    }

    fn lift<F>(self) -> (r: HistoryStepRetirementError<F>)
        requires
            !(self is Fold),
        ensures
            r == self.with_cause::<F>(),
    {
        match self {
            HistoryStepRetirementError::Schedule => HistoryStepRetirementError::Schedule,
            HistoryStepRetirementError::BankIdentity => HistoryStepRetirementError::BankIdentity,
            HistoryStepRetirementError::Boundary => HistoryStepRetirementError::Boundary,
            HistoryStepRetirementError::AlreadyDischarged =>
                HistoryStepRetirementError::AlreadyDischarged,
            HistoryStepRetirementError::Binding => HistoryStepRetirementError::Binding,
            HistoryStepRetirementError::Matrix(error) => HistoryStepRetirementError::Matrix(error),
            HistoryStepRetirementError::Replay(cause) => HistoryStepRetirementError::Replay(cause),
            _ => HistoryStepRetirementError::Wire,
        }
    }
}

impl<F, R> HistoryStepRetirementError<F, R> {
    /// What is refused. The reason of a refused matrix, fold or replay follows
    /// it.
    pub fn message(&self) -> (r: &'static str)
        ensures
            r@ == match self {
                HistoryStepRetirementError::Schedule =>
                    "retirement requires a scheduled v2 with a legacy terminal"@,
                HistoryStepRetirementError::BankIdentity => "retirement bank identity mismatch"@,
                HistoryStepRetirementError::Boundary =>
                    "retirement must consume the exact pre-fork chain boundary"@,
                HistoryStepRetirementError::AlreadyDischarged =>
                    "a local matrix check cannot replace a retirement obligation"@,
                HistoryStepRetirementError::Binding => "retirement reduction request mismatch"@,
                HistoryStepRetirementError::Wire =>
                    "invalid retirement reduction encoding or shape"@,
                HistoryStepRetirementError::Matrix(_) => "retirement matrix: "@,
                HistoryStepRetirementError::Fold(_) => "retirement reduction: "@,
                HistoryStepRetirementError::Replay(_) => "retirement terminal replay: "@,
            },
    {
        match self {
            HistoryStepRetirementError::Schedule =>
                "retirement requires a scheduled v2 with a legacy terminal",
            HistoryStepRetirementError::BankIdentity => "retirement bank identity mismatch",
            HistoryStepRetirementError::Boundary =>
                "retirement must consume the exact pre-fork chain boundary",
            HistoryStepRetirementError::AlreadyDischarged =>
                "a local matrix check cannot replace a retirement obligation",
            HistoryStepRetirementError::Binding => "retirement reduction request mismatch",
            HistoryStepRetirementError::Wire => "invalid retirement reduction encoding or shape",
            HistoryStepRetirementError::Matrix(_) => "retirement matrix: ",
            HistoryStepRetirementError::Fold(_) => "retirement reduction: ",
            HistoryStepRetirementError::Replay(_) => "retirement terminal replay: ",
        }
    }
}

/// One evaluation proof: the class it is for, what its key was made of, and
/// the digest of the key.
#[derive(Clone, Copy, Debug)]
pub struct HistoryStepRetirementEvaluation {
    pub class_id: ClassId,
    pub shape: FieldShape,
    pub matrix_digest: [u8; 32],
    pub key_digest: [u8; 32],
}

/// A reduction all of whose matrix claims have an evaluation proof.
pub struct CheckedHistoryStepRetirementMatrices {
    request_binding: [u8; 32],
    target: HistoryStepRetirementTarget,
    boundary: ChainBoundary,
    evaluation_key_digests: Vec<Option<[u8; 32]>>,
}

/// What a closed reduction says.
pub struct CheckedRetirementView {
    pub request_binding: [u8; 32],
    pub target: HistoryStepRetirementTarget,
    pub boundary: ChainBoundary,
    pub evaluation_key_digests: Vec<Option<[u8; 32]>>,
}

impl View for CheckedHistoryStepRetirementMatrices {
    type V = CheckedRetirementView;

    closed spec fn view(&self) -> CheckedRetirementView {
        CheckedRetirementView {
            request_binding: self.request_binding,
            target: self.target,
            boundary: self.boundary,
            evaluation_key_digests: self.evaluation_key_digests,
        }
    }
}

impl CheckedHistoryStepRetirementMatrices {
    pub fn request_binding(&self) -> (r: [u8; 32])
        ensures
            r == self@.request_binding,
    {
        self.request_binding
    }

    pub fn target(&self) -> (r: &HistoryStepRetirementTarget)
        ensures
            *r == self@.target,
    {
        &self.target
    }

    pub fn boundary(&self) -> (r: &ChainBoundary)
        ensures
            *r == self@.boundary,
    {
        &self.boundary
    }

    pub fn evaluation_key_digests(&self) -> (r: &Vec<Option<[u8; 32]>>)
        ensures
            *r == self@.evaluation_key_digests,
    {
        &self.evaluation_key_digests
    }
}

/// An evaluation is for an obligation: same class, shape and matrix.
pub open spec fn answers(
    ob: PendingRetiredMatrixClaim,
    evaluation: HistoryStepRetirementEvaluation,
) -> bool {
    &&& ob.class_id == evaluation.class_id
    &&& ob.shape == evaluation.shape
    &&& ob.matrix_digest@ == evaluation.matrix_digest@
}

/// The key of the last of the first `n` evaluations of class `c`.
pub open spec fn key_of(
    evaluations: Seq<HistoryStepRetirementEvaluation>,
    n: nat,
    c: int,
) -> Option<[u8; 32]>
    decreases n,
{
    if n == 0 {
        None
    } else if evaluations[n - 1].class_id.index == c {
        Some(evaluations[n - 1].key_digest)
    } else {
        key_of(evaluations, (n - 1) as nat, c)
    }
}

/// Why evaluations are refused before any proof is checked, if they are: one
/// per obligation, in order; then all identities.
pub open spec fn evaluation_refusal(
    obligations: Seq<PendingRetiredMatrixClaim>,
    evaluations: Seq<HistoryStepRetirementEvaluation>,
) -> Option<RetirementEvaluationError> {
    if evaluations.len() != obligations.len() {
        Some(RetirementEvaluationError::Coverage)
    } else if exists|i: int|
        0 <= i < obligations.len() && !#[trigger] answers(obligations[i], evaluations[i]) {
        Some(RetirementEvaluationError::Identity)
    } else {
        None
    }
}

/// The host's verdicts on `n` proofs, taken in order up to the first refusal.
pub open spec fn verdicts<E>(outcomes: Seq<Result<(), E>>, n: nat) -> bool {
    &&& outcomes.len() <= n
    &&& forall|i: int| 0 <= i < outcomes.len() - 1 ==> (#[trigger] outcomes[i]) is Ok
    &&& (outcomes.len() == n || outcomes.len() > 0 && outcomes.last() is Err)
}

/// The last verdict is a refusal.
pub open spec fn refused_last<E>(outcomes: Seq<Result<(), E>>) -> bool {
    outcomes.len() > 0 && outcomes.last() is Err
}

impl PendingHistoryStepRetirement {
    pub fn request_binding(&self) -> (r: [u8; 32])
        ensures
            r == self@.request_binding,
    {
        self.request_binding
    }

    pub fn target(&self) -> (r: &HistoryStepRetirementTarget)
        ensures
            *r == self@.target,
    {
        &self.target
    }

    pub fn boundary(&self) -> (r: &ChainBoundary)
        ensures
            *r == self@.boundary,
    {
        &self.boundary
    }

    pub fn obligations(&self) -> (r: &Vec<PendingRetiredMatrixClaim>)
        ensures
            *r == self@.obligations,
    {
        &self.obligations
    }

    /// Checks that the evaluations are one per obligation, in order. The order
    /// refuses duplicates, an omitted lane and extra proofs.
    pub fn check_evaluations(&self, evaluations: &Vec<HistoryStepRetirementEvaluation>) -> (r:
        Result<(), RetirementEvaluationError>)
        ensures
            r == match evaluation_refusal(self@.obligations@, evaluations@) {
                Some(error) => Err::<(), _>(error),
                None => Ok::<(), RetirementEvaluationError>(()),
            },
    {
        if evaluations.len() != self.obligations.len() {
            return Err(RetirementEvaluationError::Coverage);
        }
        let mut i: usize = 0;
        while i < evaluations.len()
            invariant
                i <= evaluations@.len(),
                evaluations@.len() == self.obligations@.len(),
                forall|k: int|
                    0 <= k < i ==> #[trigger] answers(self.obligations@[k], evaluations@[k]),
            decreases evaluations@.len() - i,
        {
            let ob = &self.obligations[i];
            if ob.class_id != evaluations[i].class_id || ob.shape != evaluations[i].shape
                || !same_digest(&ob.matrix_digest, &evaluations[i].matrix_digest) {
                assert(!answers(self.obligations@[i as int], evaluations@[i as int]));
                return Err(RetirementEvaluationError::Identity);
            }
            i = i + 1;
        }
        Ok(())
    }

    /// Closes the obligations. `outcomes` are the host's verdicts on the proof of
    /// each evaluation for this request and the claim of its obligation, in
    /// order up to the first refusal.
    pub fn verify_matrix_evaluations<E>(
        self,
        evaluations: &Vec<HistoryStepRetirementEvaluation>,
        outcomes: Vec<Result<(), E>>,
        class_count: usize,
    ) -> (r: Result<CheckedHistoryStepRetirementMatrices, RetirementEvaluationError<E>>)
        requires
            evaluation_refusal(self@.obligations@, evaluations@) is None ==> verdicts(
                outcomes@,
                evaluations@.len(),
            ),
            forall|i: int|
                0 <= i < self@.obligations@.len() ==> (
                #[trigger] self@.obligations@[i]).class_id.index < class_count,
        ensures
            match evaluation_refusal(self@.obligations@, evaluations@) {
                Some(error) => r == Err::<CheckedHistoryStepRetirementMatrices, _>(
                    error.with_cause::<E>(),
                ),
                None => if refused_last(outcomes@) {
                    r == Err::<CheckedHistoryStepRetirementMatrices, _>(
                        RetirementEvaluationError::<E>::Proof(outcomes@.last()->Err_0),
                    )
                } else {
                    &&& r is Ok
                    &&& r->Ok_0@.request_binding == self@.request_binding
                    &&& r->Ok_0@.target == self@.target
                    &&& r->Ok_0@.boundary == self@.boundary
                    &&& r->Ok_0@.evaluation_key_digests@.len() == class_count
                    &&& forall|c: int|
                        0 <= c < class_count ==> #[trigger] r->Ok_0@.evaluation_key_digests@[c]
                            == key_of(evaluations@, evaluations@.len(), c)
                },
            },
    {
        match self.check_evaluations(evaluations) {
            Ok(()) => {},
            Err(error) => {
                return Err(error.lift());
            },
        }
        let mut outcomes = outcomes;
        match outcomes.pop() {
            Some(Err(cause)) => {
                return Err(RetirementEvaluationError::Proof(cause));
            },
            _ => {},
        }
        let mut digests: Vec<Option<[u8; 32]>> = Vec::new();
        let mut c: usize = 0;
        while c < class_count
            invariant
                c <= class_count,
                digests@.len() == c,
                forall|k: int| 0 <= k < c ==> #[trigger] digests@[k] is None,
            decreases class_count - c,
        {
            digests.push(None);
            c = c + 1;
        }
        let mut i: usize = 0;
        while i < evaluations.len()
            invariant
                i <= evaluations@.len(),
                evaluations@.len() == self.obligations@.len(),
                evaluation_refusal(self.obligations@, evaluations@) is None,
                forall|k: int|
                    0 <= k < self.obligations@.len() ==> (
                    #[trigger] self.obligations@[k]).class_id.index < class_count,
                digests@.len() == class_count,
                forall|d: int|
                    0 <= d < class_count ==> #[trigger] digests@[d] == key_of(
                        evaluations@,
                        i as nat,
                        d,
                    ),
            decreases evaluations@.len() - i,
        {
            assert(answers(self.obligations@[i as int], evaluations@[i as int]));
            assert(self.obligations@[i as int].class_id.index < class_count);
            let index = evaluations[i].class_id.index;
            let key = evaluations[i].key_digest;
            digests.set(index, Some(key));
            i = i + 1;
        }
        Ok(
            CheckedHistoryStepRetirementMatrices {
                request_binding: self.request_binding,
                target: self.target,
                boundary: self.boundary,
                evaluation_key_digests: digests,
            },
        )
    }
}

/// A lane that is not live is zero in all its limbs.
pub open spec fn lane_shape(
    live: LinExpr,
    limbs: Seq<LinExpr>,
    n: int,
    z: spec_fn(int) -> u128,
) -> bool {
    &&& is_bit(live.at(z))
    &&& forall|i: int|
        0 <= i < n ==> (live.at(z) == 0 ==> (#[trigger] limbs[i]).at(z) == 0)
}

/// The rows that hold the first `n` limbs of a dead lane to zero.
#[verifier::opaque]
pub open spec fn limbs_step(s: Shape, dead: LinForm, limbs: Seq<LinForm>, n: nat) -> Shape
    decreases n,
{
    if n == 0 {
        s
    } else {
        let t = limbs_step(s, dead, limbs, (n - 1) as nat);
        let (u, unused) = mul_step(t, dead, limbs[n - 1]);
        pin_eq_step(u, unused, const_form(0))
    }
}

/// The rows of an incoming lane.
#[verifier::opaque]
pub open spec fn lane_step(s: Shape, live: LinForm, limbs: Seq<LinForm>) -> Shape {
    let dead = form_add_const(live, 1);
    let (t, boolean) = mul_step(s, live, dead);
    limbs_step(pin_eq_step(t, boolean, const_form(0)), dead, limbs, limbs.len())
}

/// Binds the lane that a fold starts from: the live flag is a bit, and every
/// limb of a dead lane is zero.
pub fn bind_incoming_lane(b: &mut FieldR1csBuilder, live: &LinExpr, limbs: &Vec<LinExpr>)
    requires
        old(b).wf(),
        live.bound() <= old(b).wires(),
        forall|i: int|
            0 <= i < limbs@.len() ==> (#[trigger] limbs@[i]).bound() <= old(b).wires(),
    ensures
        refines(*final(b), *old(b)),
        forall|z: spec_fn(int) -> u128| #[trigger]
            final(b).holds(z) && old(b).live(z) ==> lane_shape(
                *live,
                limbs@,
                limbs@.len() as int,
                z,
            ),
        old(b).live(old(b).witness()) ==> (final(b).honest() <==> old(b).honest() && lane_shape(
            *live,
            limbs@,
            limbs@.len() as int,
            old(b).witness(),
        )),
        final(b).shape() == lane_step(old(b).shape(), live@, forms(limbs@)),
{
    reveal(limbs_step);
    reveal(lane_step);
    let ghost b0 = *b;
    let ghost w = b0.witness();
    let dead = live.add_const(F128::one());
    let boolean = crate::trace::mul(b, live, &dead);
    let ghost b1 = *b;
    pin_eq(b, &boolean, &LinExpr::zero());
    proof {
        assert forall|z: spec_fn(int) -> u128| #[trigger]
            b.holds(z) && b0.live(z) implies lane_shape(*live, limbs@, 0, z) by {
            assert(b1.holds(z) && b1.live(z));
            lemma_boolean(live.at(z));
        }
        lemma_boolean(live.at(w));
        assert(live@.at(b1.witness()) == live@.at(w));
        assert(dead@.at(b1.witness()) == dead@.at(w));
    }
    let ghost shape1 = b.shape();
    let mut i: usize = 0;
    while i < limbs.len()
        invariant
            i <= limbs@.len(),
            b0.wf(),
            w == b0.witness(),
            live.bound() <= b0.wires(),
            dead.bound() <= b0.wires(),
            forall|z: spec_fn(int) -> u128| #[trigger] dead.at(z) == live.at(z) ^ 1,
            forall|k: int|
                0 <= k < limbs@.len() ==> (#[trigger] limbs@[k]).bound() <= b0.wires(),
            refines(*b, b0),
            forall|z: spec_fn(int) -> u128| #[trigger]
                b.holds(z) && b0.live(z) ==> lane_shape(*live, limbs@, i as int, z),
            b0.live(w) ==> (b.honest() <==> b0.honest() && lane_shape(
                *live,
                limbs@,
                i as int,
                w,
            )),
            b.shape() == limbs_step(shape1, dead@, forms(limbs@), i as nat),
        decreases limbs@.len() - i,
    {
        reveal(limbs_step);
        let ghost mid = *b;
        let ghost limb = limbs@[i as int];
        assert(limb.bound() <= b0.wires());
        let unused = crate::trace::mul(b, &dead, &limbs[i]);
        let ghost b2 = *b;
        pin_eq(b, &unused, &LinExpr::zero());
        proof {
            assert forall|z: spec_fn(int) -> u128| is_bit(live.at(z)) implies (#[trigger] fmul(
                dead.at(z),
                limb.at(z),
            ) == 0 <==> (live.at(z) == 0 ==> limb.at(z) == 0)) by {
                lemma_dead_limb(live.at(z), limb.at(z));
            }
            assert forall|z: spec_fn(int) -> u128| #[trigger]
                b.holds(z) && b0.live(z) implies lane_shape(*live, limbs@, i + 1, z) by {
                assert(b2.holds(z) && b2.live(z));
                assert(mid.holds(z));
                assert(unused.at(z) == fmul(dead.at(z), limb.at(z)));
            }
            assert(live@.at(mid.witness()) == live@.at(w));
            assert(dead@.at(mid.witness()) == dead@.at(w));
            assert(limb@.at(mid.witness()) == limb@.at(w));
            if b0.live(w) {
                assert(b2.live(b2.witness()));
                if lane_shape(*live, limbs@, i as int, w) {
                    lemma_dead_limb(live.at(w), limb.at(w));
                }
                assert(lane_shape(*live, limbs@, i + 1, w) ==> (live.at(w) == 0
                    ==> limbs@[i as int].at(w) == 0));
            }
        }
        i = i + 1;
    }
}

proof fn lemma_dead_limb(live: u128, limb: u128)
    requires
        is_bit(live),
    ensures
        fmul(live ^ 1, limb) == 0 <==> (live == 0 ==> limb == 0),
{
    lemma_fmul_unit(limb);
    lemma_xor(1, 1, 0);
    lemma_xor(1, 0, 0);
}

} // verus!
