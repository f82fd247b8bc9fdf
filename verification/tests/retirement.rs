//! Retiring a legacy terminal at a fork.
use noid_recursive::circuit::{FieldR1cs, FieldR1csBuilder, LinExpr};
use noid_recursive::ext_trace::F256;
use noid_recursive::field::F128;
use noid_recursive::retirement::{
    bind_incoming_lane, ChainBoundary, ClassId, FieldShape, ForkSchedule, FreshLincheckClaim,
    HeaderBytes, HistoryStepBankError, HistoryStepRetirementError, HistoryStepRetirementEvaluation,
    HistoryStepRetirementReduction, HistoryStepRetirementRequest, HistoryStepRetirementTarget,
    MatrixAccClaim, MatrixFoldProof, MatrixRequirement, PendingBankLane,
    PendingHistoryStepBankDecision, PendingHistoryStepRetirement, RetirementEvaluationError,
    RoundPair, UnboundRequest,
};
use noid_recursive::scheduled_allocation::V2Activation;

const BANK: [u8; 32] = [0x31; 32];
const HEADER_BYTES: usize = 41;
const CLASS_WIRES: [u8; 2] = [1, 2];
const ACC_LANES: usize = 13;

fn value(seed: u64) -> F256 {
    F256 {
        lo: F128::new(seed, seed.rotate_left(7)),
        hi: F128::new(!seed, seed ^ 0xC1),
    }
}

fn plus_one(x: F256) -> F256 {
    F256 { lo: x.lo.plus(F128::one()), hi: x.hi }
}

fn class(index: usize) -> ClassId {
    ClassId { index, wire_id: CLASS_WIRES[index] }
}

fn schedule(v1: u64, v2: Option<(u64, u64)>) -> ForkSchedule {
    ForkSchedule {
        v1_1_height: Some(v1),
        v2: v2.map(|(height, block_time)| V2Activation { height, block_time }),
    }
}

fn local_schedule() -> ForkSchedule {
    schedule(5, Some((10, 30)))
}

fn fresh(shape: FieldShape) -> FreshLincheckClaim {
    let rest = (shape.k_log - shape.k_skip) as u64;
    FreshLincheckClaim {
        alpha: value(1),
        z_skip: value(2),
        x_inner_rest: (0..rest).map(|i| value(10 + i)).collect(),
        r_inner_rest: (0..rest).map(|i| value(30 + i)).collect(),
        z_partial: (0..1u64 << shape.k_skip).map(|i| value(50 + i)).collect(),
        value: value(100),
    }
}

fn lane(shape: FieldShape, salt: u64) -> MatrixAccClaim {
    MatrixAccClaim {
        point: (0..2 * shape.k_log as u64 + 1).map(|i| value(salt + i)).collect(),
        value: value(salt + 100),
    }
}

fn requirement(index: usize, k_log: usize) -> MatrixRequirement {
    MatrixRequirement {
        shape: FieldShape { m: k_log, k_log, k_skip: 2, const_pin: Some(0) },
        digest: [index as u8 + 1; 32],
    }
}

fn boundary() -> ChainBoundary {
    ChainBoundary { height: 9, lanes: (0..ACC_LANES as u128).map(|i| 1000 + i).collect() }
}

fn header(height: u64, salt: u8) -> HeaderBytes {
    HeaderBytes { height, encoded: vec![salt; 80] }
}

struct Fixture {
    pending: PendingHistoryStepBankDecision,
    target: HistoryStepRetirementTarget,
    parent: HeaderBytes,
    epoch: HeaderBytes,
    boundary: Option<ChainBoundary>,
}

fn fixture(selected: usize, live_mask: usize, k_logs: [usize; 2]) -> Fixture {
    let requirements = vec![requirement(0, k_logs[0]), requirement(1, k_logs[1])];
    let lanes = (0..2)
        .map(|index| {
            if live_mask & (1 << index) != 0 {
                PendingBankLane::Pending(lane(requirements[index].shape, 300 + index as u64))
            } else {
                PendingBankLane::Dead
            }
        })
        .collect();
    let tip_fresh = Some(fresh(requirements[selected].shape));
    Fixture {
        pending: PendingHistoryStepBankDecision {
            bank_digest: BANK,
            base: false,
            tip_class: class(selected),
            requirements,
            tip_fresh,
            lanes,
        },
        target: HistoryStepRetirementTarget::new(local_schedule(), BANK, [0xAA; 32]).unwrap(),
        parent: header(9, 0x71),
        epoch: header(0, 0x11),
        boundary: Some(boundary()),
    }
}

impl Fixture {
    fn request(self) -> Result<UnboundRequest, HistoryStepRetirementError> {
        UnboundRequest::from_pending(
            self.pending,
            self.target,
            self.parent,
            self.epoch,
            self.boundary,
        )
    }

    fn refusal(self) -> Option<HistoryStepRetirementError> {
        self.request().err()
    }
}

/// A stand-in for the digest of the preimage.
fn digest(bytes: &[u8]) -> [u8; 32] {
    let mut state = [0xcbf2_9ce4_8422_2325u64, 1, 2, 3];
    for &byte in bytes {
        for (k, word) in state.iter_mut().enumerate() {
            *word = (*word ^ byte as u64 ^ k as u64).wrapping_mul(0x0000_0100_0000_01b3);
        }
        let carry = state[3];
        state[0] = state[0].rotate_left(13) ^ carry;
    }
    let mut out = [0; 32];
    for (k, word) in state.iter().enumerate() {
        out[8 * k..8 * k + 8].copy_from_slice(&word.to_le_bytes());
    }
    out
}

fn bind(request: UnboundRequest) -> HistoryStepRetirementRequest {
    let binding = digest(&request.binding_preimage());
    request.bind(binding)
}

fn small_request(selected: usize, live_mask: usize) -> HistoryStepRetirementRequest {
    bind(fixture(selected, live_mask, [7, 8]).request().unwrap())
}

fn proof_for(request: &HistoryStepRetirementRequest) -> HistoryStepRetirementReduction {
    let k_log = request.shape().k_log as u64;
    let pair = |i: u64| RoundPair { first: value(700 + i), second: value(800 + i) };
    HistoryStepRetirementReduction {
        class_id: request.tip_class(),
        request_binding: request.binding(),
        fold: MatrixFoldProof {
            phase1_rounds: (0..k_log + 1).map(pair).collect(),
            g_v: value(900),
            g_e: value(901),
            phase2_rounds: (0..k_log).map(|i| pair(50 + i)).collect(),
            final_matrix_eval: value(902),
        },
    }
}

fn pending_of(request: &HistoryStepRetirementRequest) -> PendingHistoryStepRetirement {
    let outgoing = lane(request.shape(), 5000);
    request.accept_fold(&proof_for(request), &outgoing, &CLASS_WIRES.to_vec()).unwrap()
}

fn evaluations(pending: &PendingHistoryStepRetirement) -> Vec<HistoryStepRetirementEvaluation> {
    pending
        .obligations()
        .iter()
        .map(|ob| HistoryStepRetirementEvaluation {
            class_id: ob.class_id(),
            shape: ob.shape(),
            matrix_digest: ob.matrix_digest(),
            key_digest: [0x60 + ob.class_id().index as u8; 32],
        })
        .collect()
}

#[test]
fn sparse_evaluations_close_both_live_lanes_without_matrix_rows() {
    let request = small_request(0, 3);
    let pending = pending_of(&request);
    let evaluations = evaluations(&pending);
    let verdicts: Vec<Result<(), ()>> = vec![Ok(()), Ok(())];
    let checked = pending.verify_matrix_evaluations(&evaluations, verdicts, 2).unwrap();
    assert_eq!(checked.request_binding(), request.binding());
    assert_eq!(checked.boundary().lanes, request.boundary().lanes);
    assert_eq!(checked.target().activation_height(), request.target().activation_height());
    assert_eq!(checked.evaluation_key_digests(), &vec![Some([0x60; 32]), Some([0x61; 32])]);
}

#[test]
fn sparse_evaluations_reject_missing_duplicate_reordered_and_wrong_keys() {
    let request = small_request(0, 3);
    let good = evaluations(&pending_of(&request));
    let outcome = |list: &[HistoryStepRetirementEvaluation],
                   verdicts: Vec<Result<(), &'static str>>| {
        pending_of(&request).verify_matrix_evaluations(&list.to_vec(), verdicts, 2).err()
    };
    let accepted = |n: usize| -> Vec<Result<(), &'static str>> { vec![Ok(()); n] };
    for count in 0..2 {
        assert_eq!(
            outcome(&good[..count], accepted(count)),
            Some(RetirementEvaluationError::Coverage)
        );
    }
    let swapped = [good[1], good[0]];
    assert_eq!(outcome(&swapped, accepted(2)), Some(RetirementEvaluationError::Identity));
    let mut duplicate = good.clone();
    duplicate[1].class_id = duplicate[0].class_id;
    assert_eq!(outcome(&duplicate, accepted(2)), Some(RetirementEvaluationError::Identity));
    let mut wrong_key = good.clone();
    wrong_key[0].shape = wrong_key[1].shape;
    wrong_key[0].matrix_digest = wrong_key[1].matrix_digest;
    assert_eq!(outcome(&wrong_key, accepted(2)), Some(RetirementEvaluationError::Identity));
    assert_eq!(
        outcome(&good, vec![Ok(()), Err("opening")]),
        Some(RetirementEvaluationError::Proof("opening"))
    );
    assert_eq!(
        outcome(&good, vec![Err("first")]),
        Some(RetirementEvaluationError::Proof("first")),
        "the first refusal decides"
    );
    let extra = [good[0], good[1], good[0]];
    assert_eq!(outcome(&extra, accepted(3)), Some(RetirementEvaluationError::Coverage));
    assert!(pending_of(&request).check_evaluations(&good).is_ok());
}

#[test]
fn sparse_evaluations_close_the_other_selected_class_with_no_old_live_lane() {
    let request = small_request(1, 0);
    let pending = pending_of(&request);
    let evaluations = evaluations(&pending);
    assert_eq!(evaluations.len(), 1);
    let verdicts: Vec<Result<(), ()>> = vec![Ok(())];
    let checked = pending.verify_matrix_evaluations(&evaluations, verdicts, 2).unwrap();
    assert_eq!(checked.evaluation_key_digests()[0], None);
    assert_eq!(checked.evaluation_key_digests()[1], Some([0x61; 32]));
}

#[test]
fn target_requires_a_scheduled_fork_and_distinct_bank() {
    for schedule in [schedule(5, None), schedule(0, Some((1, 30)))] {
        assert!(matches!(
            HistoryStepRetirementTarget::new(schedule, BANK, [0xAA; 32]),
            Err(HistoryStepRetirementError::Schedule)
        ));
    }
    for digest in [[0; 32], BANK] {
        assert!(matches!(
            HistoryStepRetirementTarget::new(local_schedule(), BANK, digest),
            Err(HistoryStepRetirementError::BankIdentity)
        ));
    }
    let target = HistoryStepRetirementTarget::new(
        schedule(5, Some((u64::MAX, 30))),
        BANK,
        [0xAA; 32],
    )
    .unwrap();
    assert!(target.check_parent_height(u64::MAX - 1).is_ok());
    assert!(target.check_parent_height(u64::MAX).is_err());
    assert!(target.check_parent_height(0).is_err());
    assert_eq!(target.next_bank_digest(), [0xAA; 32]);
    assert_eq!(target.legacy_bank_digest(), BANK);
    assert_eq!(target.schedule(), schedule(5, Some((u64::MAX, 30))));
}

#[test]
fn request_requires_exact_boundary_and_keeps_all_lanes() {
    for selected in 0..2 {
        let request = bind(fixture(selected, 3, [22, 24]).request().unwrap());
        assert_eq!(request.boundary().height, 9);
        assert_eq!(request.target().activation_height(), 10);
        assert_eq!(request.tip_class(), class(selected));
        assert!(request.inner().lanes.iter().all(Option::is_some));
        assert_eq!(request.parent_header().height, 9);
        assert_eq!(request.epoch_anchor_header().height, 0);
    }
    for height in [0, 8, 10, u64::MAX] {
        let mut wrong = fixture(0, 3, [22, 24]);
        wrong.parent.height = height;
        assert_eq!(wrong.refusal(), Some(HistoryStepRetirementError::Boundary));
    }
    let mut unmatched = fixture(0, 3, [22, 24]);
    unmatched.boundary = None;
    assert_eq!(unmatched.refusal(), Some(HistoryStepRetirementError::Boundary));
    let mut other_bank = fixture(0, 3, [22, 24]);
    other_bank.pending.bank_digest[0] ^= 1;
    assert_eq!(other_bank.refusal(), Some(HistoryStepRetirementError::BankIdentity));
}

#[test]
fn locally_checked_obligations_cannot_be_omitted_from_a_certificate() {
    for checked in 0..3 {
        let mut fixture = fixture(0, 3, [22, 24]);
        if checked == 2 {
            fixture.pending.tip_fresh = None;
        } else {
            fixture.pending.lanes[checked] = PendingBankLane::Checked;
        }
        assert_eq!(fixture.refusal(), Some(HistoryStepRetirementError::AlreadyDischarged));
    }
}

#[test]
fn reduction_replays_without_matrices_and_preserves_nonselected_claims() {
    for selected in 0..2 {
        for live_mask in 0..4 {
            let request = small_request(selected, live_mask);
            let proof = proof_for(&request);
            let encoded = proof.encode_for(&request).unwrap();
            let decoded = HistoryStepRetirementReduction::decode_for(&request, &encoded).unwrap();
            assert_eq!(decoded, proof);
            let outgoing = lane(request.shape(), 5000);
            let pending =
                request.accept_fold(&decoded, &outgoing, &CLASS_WIRES.to_vec()).unwrap();
            assert_eq!(pending.request_binding(), request.binding());
            assert_eq!(pending.boundary().lanes, request.boundary().lanes);
            assert_eq!(
                pending.obligations().len(),
                1 + usize::from(live_mask & (1 << (1 - selected)) != 0)
            );
            for item in pending.obligations() {
                let index = item.class_id().index;
                assert_eq!(item.class_id(), class(index));
                assert_eq!(item.shape(), request.inner().requirements[index].shape);
                assert_eq!(item.matrix_digest(), [index as u8 + 1; 32]);
                if index == selected {
                    assert_eq!(*item.claim(), outgoing);
                } else {
                    assert_eq!(Some(item.claim()), request.inner().lanes[index].as_ref());
                }
            }
        }
    }
}

fn open_claim(lane: &mut PendingBankLane) -> &mut MatrixAccClaim {
    match lane {
        PendingBankLane::Pending(claim) => claim,
        _ => panic!("no claim"),
    }
}

#[test]
fn changed_context_cannot_relabel_an_existing_fold() {
    let original = small_request(0, 3);
    let proof = proof_for(&original);
    for mutation in 0..16 {
        let mut other = fixture(0, 3, [7, 8]);
        match mutation {
            0 => {
                other.target.activation_height += 1;
                other.parent.height += 1;
            }
            1 => other.target.next_bank_digest[0] ^= 1,
            2 => {
                other.target.legacy_bank_digest[0] ^= 1;
                other.pending.bank_digest[0] ^= 1;
            }
            3 => other.target.schedule = schedule(4, Some((10, 30))),
            4 => other.parent.encoded[70] ^= 1,
            5 => other.parent.encoded[10] ^= 1,
            6 => other.boundary.as_mut().unwrap().lanes[2] ^= 1,
            7 => other.boundary.as_mut().unwrap().lanes[6] += 1,
            8 => other.epoch.encoded[70] ^= 1,
            9 => {
                let claim = open_claim(&mut other.pending.lanes[1]);
                claim.value = plus_one(claim.value);
            }
            10 => {
                let claim = open_claim(&mut other.pending.lanes[1]);
                claim.point[0] = plus_one(claim.point[0]);
            }
            11 => other.pending.lanes[1] = PendingBankLane::Dead,
            12 => {
                let fresh = other.pending.tip_fresh.as_mut().unwrap();
                fresh.value = plus_one(fresh.value);
            }
            13 => other.pending.requirements[1].digest[0] ^= 1,
            14 => other.pending.requirements[1].shape.const_pin = None,
            15 => other.target.schedule = schedule(5, Some((10, 40))),
            _ => unreachable!(),
        }
        let request = bind(other.request().unwrap());
        assert_ne!(request.binding(), original.binding(), "unbound context {mutation}");
        assert_eq!(proof.check_binding(&request).err(), Some(HistoryStepRetirementError::Binding));
        let outgoing = lane(request.shape(), 5000);
        assert!(request.accept_fold(&proof, &outgoing, &CLASS_WIRES.to_vec()).is_err());
    }
}

#[test]
fn sealed_parent_nonce_changes_request_even_with_identical_semantic_tip() {
    let original = bind(fixture(0, 3, [22, 24]).request().unwrap());
    let mut other = fixture(0, 3, [22, 24]);
    other.parent.encoded[79] ^= 1;
    let changed = bind(other.request().unwrap());
    assert_eq!(original.boundary().lanes, changed.boundary().lanes);
    assert_ne!(original.binding(), changed.binding());
}

#[test]
fn codec_rejects_truncation_extensions_versions_and_wrong_requests() {
    let request = small_request(0, 3);
    let proof = proof_for(&request);
    let bytes = proof.encode_for(&request).unwrap();
    assert_eq!(bytes.len(), request.reduction_wire_bytes());
    for length in 0..bytes.len() {
        assert!(HistoryStepRetirementReduction::decode_for(&request, &bytes[..length]).is_err());
    }
    let mut extended = bytes.clone();
    extended.push(0);
    assert!(HistoryStepRetirementReduction::decode_for(&request, &extended).is_err());
    for offset in 0..HEADER_BYTES {
        let mut bad = bytes.clone();
        bad[offset] ^= 0xFF;
        assert!(
            HistoryStepRetirementReduction::decode_for(&request, &bad).is_err(),
            "header byte {offset}"
        );
    }
    let mut wrong_shape = proof;
    wrong_shape.fold.phase1_rounds.push(RoundPair { first: F256::zero(), second: F256::zero() });
    assert_eq!(wrong_shape.encode_for(&request).err(), Some(HistoryStepRetirementError::Wire));
    let outgoing = lane(request.shape(), 5000);
    assert!(request.accept_fold(&wrong_shape, &outgoing, &CLASS_WIRES.to_vec()).is_err());
    for (index, expected) in [(0, 3017), (1, 3273)] {
        let request = bind(fixture(index, 3, [22, 24]).request().unwrap());
        assert_eq!(request.reduction_wire_bytes(), expected);
    }
}

#[test]
fn prover_rejects_substituted_matrix_even_with_seeded_identity() {
    let request = small_request(0, 3);
    let shape = request.shape();
    assert!(request.check_matrix(shape, &[1; 32]).is_ok());
    assert_eq!(
        request.check_matrix(shape, &[9; 32]).err(),
        Some(HistoryStepRetirementError::Matrix(HistoryStepBankError::MatrixDigest(class(0))))
    );
    let wrong = FieldShape { k_log: 8, m: 8, ..shape };
    assert_eq!(
        request.check_matrix(wrong, &[1; 32]).err(),
        Some(HistoryStepRetirementError::Matrix(HistoryStepBankError::MatrixShape(class(0))))
    );
}

#[test]
fn a_refused_fold_leaves_nothing() {
    let request = small_request(0, 3);
    let proof = proof_for(&request);
    let wires = CLASS_WIRES.to_vec();
    assert_eq!(
        request.verify_reduction(&proof, Err("round"), &wires).err(),
        Some(HistoryStepRetirementError::Fold("round"))
    );
    let mut other = proof_for(&request);
    other.request_binding[0] ^= 1;
    assert_eq!(
        request.verify_reduction(&other, Err("round"), &wires).err(),
        Some(HistoryStepRetirementError::Binding)
    );
    let outgoing: Result<_, ()> = Ok(lane(request.shape(), 5000));
    let pending = request.verify_reduction(&proof, outgoing, &wires).unwrap();
    assert_eq!(pending.obligations().len(), 2);
}

#[test]
fn the_fold_starts_from_the_tip_lane_or_from_zero() {
    let live = small_request(0, 1);
    assert!(live.incoming_live());
    assert_eq!(live.incoming(), lane(live.shape(), 300));
    let dead = small_request(1, 1);
    assert!(!dead.incoming_live());
    let zero = dead.incoming();
    assert_eq!(zero.point.len(), 17);
    assert!(zero.point.iter().all(|x| *x == F256::zero()));
    assert_eq!(zero.value, F256::zero());
}

fn incoming_rows(live: u64, limbs: &[u64]) -> (FieldR1cs, Vec<F128>) {
    let mut b = FieldR1csBuilder::new();
    let live = LinExpr::from_wire(b.alloc_f128(F128::new(live, 0)));
    let limbs = limbs
        .iter()
        .map(|&limb| LinExpr::from_wire(b.alloc_f128(F128::new(limb, 0))))
        .collect();
    bind_incoming_lane(&mut b, &live, &limbs);
    b.build()
}

#[test]
fn retirement_trace_rejects_nonboolean_liveness_and_noncanonical_dead_claims() {
    for (live, limbs, accepted) in [
        (0, [0, 0, 0], true),
        (1, [5, 6, 7], true),
        (1, [0, 0, 0], true),
        (2, [0, 0, 0], false),
        (0, [1, 0, 0], false),
        (0, [0, 0, 9], false),
    ] {
        let (relation, witness) = incoming_rows(live, &limbs);
        assert_eq!(relation.satisfies(&witness), accepted, "{live} {limbs:?}");
    }
}

#[test]
fn every_refusal_has_its_words() {
    let refusals: [(HistoryStepRetirementError, &str); 5] = [
        (
            HistoryStepRetirementError::Boundary,
            "retirement must consume the exact pre-fork chain boundary",
        ),
        (
            HistoryStepRetirementError::Wire,
            "invalid retirement reduction encoding or shape",
        ),
        (
            HistoryStepRetirementError::Matrix(HistoryStepBankError::MatrixShape(class(0))),
            "retirement matrix: ",
        ),
        (HistoryStepRetirementError::Fold(()), "retirement reduction: "),
        (HistoryStepRetirementError::Replay(()), "retirement terminal replay: "),
    ];
    for (refusal, words) in refusals {
        assert_eq!(refusal.message(), words);
    }
    let refusal: RetirementEvaluationError = RetirementEvaluationError::Coverage;
    assert_eq!(
        refusal.message(),
        "every live retirement lane requires exactly one evaluation proof"
    );
    assert_eq!(
        RetirementEvaluationError::Proof("opening").message(),
        "retirement matrix evaluation: "
    );
}
