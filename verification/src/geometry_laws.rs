//! The ladders of trees that a parent commits, the paths that its queries open, and what
//! is refused before anything is laid out.
use crate::parent_geometry::{deepest, folded, HistoryStepPcsCarrierGeometry, PcsParams, TreeInfo};
use crate::parent_geometry::{fewest, fewest_upto};
use crate::parent_link::{carried_path, query_path, tile_stream, LinkProof};
use crate::pin_laws::{lemma_number, number};
use crate::retirement::{
    HistoryStepRetirementReduction, HistoryStepRetirementRequest, MatrixAccClaim,
    evaluation_refusal, lane_after, live_count, obligations_of, request_refusal, wire_refusal,
    ChainBoundary, HistoryStepRetirementError,
    HistoryStepRetirementEvaluation, HistoryStepRetirementTarget, PendingHistoryStepBankDecision,
    PendingRetiredMatrixClaim,
};
use crate::tx_root::MerklePathWitness;
use crate::dyadic::ceil_pow2;
use crate::parent_link::{all_leaves_open, leaves_open, link_error, proof_fits, proofs_fit, roles_fit};
use crate::retirement::{key_of, refused_last, verdicts};
use crate::duplex::{block_sizes, packed_offset, total, DuplexLayout};
use crate::dyadic::ceil_log;
use crate::parent_link::{
    arm_lengths, arm_packed, arms_agree, ladders_error, HistoryStepParentGeometry,
};
use crate::circuit::LinExpr;
use crate::retirement::{lane_shape, open_claims, PendingBankLane};
use vstd::arithmetic::power2::{lemma_pow2_adds, lemma_pow2_pos, lemma_pow2_unfold, pow2};
use vstd::prelude::*;

verus! {

/// The first tree of a ladder is that of the codeword, with one lane per row of a batch;
/// every fold by `a` leaves a tree `a` levels lower, whose leaves hold two lanes for each of
/// the `2^a` values that are folded.
pub proof fn lemma_ladder(params: PcsParams, log_packing: int, max_lanes: int, t: int)
    requires
        params.ladder_error(log_packing, max_lanes) is None,
        0 <= log_packing,
        0 <= t < params.tree_count(),
        max_lanes <= usize::MAX,
    ensures
        t == 0 ==> params.tree(log_packing, 0).lanes == pow2(params.log_batch_size as nat),
        t == 0 ==> params.tree(log_packing, 0).depth + log_packing + params.log_batch_size
            == params.m + params.log_inv_rate,
        t > 0 ==> params.tree(log_packing, t).depth + params.arities@[t - 1] == params.tree(
            log_packing,
            t - 1,
        ).depth,
        t > 0 && 2 * pow2(params.arities@[t - 1] as nat) <= usize::MAX ==> params.tree(
            log_packing,
            t,
        ).lanes == 2 * pow2(params.arities@[t - 1] as nat),
        params.tree(log_packing, t).depth > 0,
{
    assert(params.trees_deep(log_packing));
    assert(params.tree(log_packing, t).depth > 0);
    if t > 0 {
        lemma_pow2_unfold((params.arities@[t - 1] + 1) as nat);
        let top = (params.fri_commits + 1) as nat;
        lemma_folded(params.arities@, t as nat, top);
        lemma_folded(params.arities@, (t - 1) as nat, top);
        if t > 1 {
            assert(params.tree(log_packing, t - 1).depth > 0);
        }
        assert(folded(params.arities@, t as nat) == folded(params.arities@, (t - 1) as nat)
            + params.arities@[t - 1]);
        assert(folded(params.arities@, 0) == 0);
    }
}

proof fn lemma_folded(arities: Seq<usize>, n: nat, m: nat)
    requires
        n <= m,
    ensures
        folded(arities, n) <= folded(arities, m),
    decreases m,
{
    if n < m {
        lemma_folded(arities, n, (m - 1) as nat);
    }
}

/// A ladder is accepted exactly when its rate is one of the supported, its codeword fits
/// and has at least two entries, its leaves are not wider than the walk, its folds exist
/// and stay within the codeword, and every tree has a level.
pub proof fn lemma_ladder_accepted(params: PcsParams, log_packing: int, max_lanes: int)
    ensures
        params.ladder_error(log_packing, max_lanes) is None <==> {
            let k = params.m - log_packing - params.log_batch_size + params.log_inv_rate;
            &&& 1 <= params.log_inv_rate <= 5
            &&& log_packing + params.log_batch_size <= params.m
            &&& params.log_batch_size < usize::BITS
            &&& 0 < k <= 64
            &&& k < usize::BITS
            &&& k <= usize::MAX
            &&& pow2(params.log_batch_size as nat) <= max_lanes
            &&& params.arities@.len() > 0 ==> params.fri_commits < params.arities@.len() && folded(
                params.arities@,
                (params.fri_commits + 1) as nat,
            ) <= k
            &&& forall|t: int|
                0 <= t < params.tree_count() ==> (#[trigger] params.tree(log_packing, t)).depth > 0
        },
{
}

/// The carrier of a position is as deep as its deepest tree: no tree there is deeper, and
/// one is as deep unless there is none.
pub proof fn lemma_carrier_depth(carrier: HistoryStepPcsCarrierGeometry, position: int, g: int)
    requires
        0 <= position,
    ensures
        0 <= g < carrier.groups@.len() && position < carrier.groups@[g]@.len()
            ==> carrier.groups@[g]@[position].depth <= carrier.depth_at(position),
        carrier.depth_at(position) > 0 ==> exists|h: int|
            0 <= h < carrier.groups@.len() && position < (#[trigger] carrier.groups@[h])@.len()
                && carrier.groups@[h]@[position].depth == carrier.depth_at(position),
{
    lemma_deepest(carrier.groups@, position, carrier.groups@.len(), g);
}

proof fn lemma_deepest(groups: Seq<Vec<TreeInfo>>, position: int, n: nat, g: int)
    requires
        n <= groups.len(),
        0 <= position,
    ensures
        0 <= g < n && position < groups[g]@.len() ==> groups[g]@[position].depth <= deepest(
            groups,
            position,
            n,
        ),
        deepest(groups, position, n) > 0 ==> exists|h: int|
            0 <= h < n && position < (#[trigger] groups[h])@.len() && groups[h]@[position].depth
                == deepest(groups, position, n),
    decreases n,
{
    if n > 0 {
        lemma_deepest(groups, position, (n - 1) as nat, g);
        let top = n - 1;
        if position < groups[top]@.len() && groups[top]@[position].depth > deepest(
            groups,
            position,
            (n - 1) as nat,
        ) {
            assert(groups[top]@[position].depth == deepest(groups, position, n));
        }
    }
}

/// The directions of an opened path are the position of the query within the tree: the
/// lower bits that the folds before it bound are dropped, and the levels of the carrier
/// above the tree all go left, with zero siblings. On its own levels the siblings are
/// those that were opened.
pub proof fn lemma_query_directions(
    proof: LinkProof,
    query: int,
    tree: int,
    depth: int,
    w: MerklePathWitness,
)
    requires
        query_path(proof, query, tree, depth, w),
        0 <= tree < proof.trees@.len(),
        proof.trees@[tree].depth <= depth,
        proof.trees@[tree].depth <= proof.trees@[0].depth,
        proof.queries@[query].paths@[tree]@.len() == proof.trees@[tree].depth,
    ensures
        ({
            let levels = proof.trees@[tree].depth as int;
            let dropped = (proof.trees@[0].depth - levels) as nat;
            let at = proof.queries@[query].position as int / pow2(dropped) as int;
            &&& w.entry == proof.digests@[query]@[tree]
            &&& w.siblings@.len() == depth
            &&& w.directions@.len() == depth
            &&& number(w.directions@.take(levels)) == at % pow2(levels as nat) as int
            &&& w.siblings@.take(levels) == proof.queries@[query].paths@[tree]@
            &&& forall|l: int|
                levels <= l < depth ==> !#[trigger] w.directions@[l] && w.siblings@[l].a@ == 0
                    && w.siblings@[l].b@ == 0
        }),
{
    let levels = proof.trees@[tree].depth as int;
    let dropped = (proof.trees@[0].depth - levels) as nat;
    let position = proof.queries@[query].position as int;
    let at = position / pow2(dropped) as int;
    let d = w.directions@.take(levels);
    lemma_pow2_pos(dropped);
    assert(at >= 0) by {
        vstd::arithmetic::div_mod::lemma_div_pos_is_pos(position, pow2(dropped) as int);
    }
    assert forall|l: int| 0 <= l < d.len() implies #[trigger] d[l] == ((at / pow2(l as nat) as int)
        % 2 == 1) by {
        assert(d[l] == w.directions@[l]);
        lemma_pow2_pos(l as nat);
        lemma_pow2_adds(dropped, l as nat);
        vstd::arithmetic::div_mod::lemma_div_denominator(
            position,
            pow2(dropped) as int,
            pow2(l as nat) as int,
        );
    }
    lemma_number(at, d);
    assert(w.siblings@.take(levels) =~= proof.queries@[query].paths@[tree]@) by {
        assert forall|l: int| 0 <= l < levels implies #[trigger] w.siblings@[l]
            == proof.queries@[query].paths@[tree]@[l] by {}
    }
    assert forall|l: int| levels <= l < depth implies !#[trigger] w.directions@[l]
        && w.siblings@[l].a@ == 0 && w.siblings@[l].b@ == 0 by {
        let s = w.siblings@[l];
    }
}

/// A terminal can be retired exactly when its parent is the last block before the
/// activation, the target names its bank, its tip's claim is fresh, no lane was checked
/// locally, and its boundary is known and is the first block's exactly where the terminal
/// is a base. What fails first is reported.
pub proof fn lemma_request_accepted(
    pending: PendingHistoryStepBankDecision,
    target: HistoryStepRetirementTarget,
    parent_height: u64,
    boundary: Option<ChainBoundary>,
)
    ensures
        ({
            let r = request_refusal(pending, target, parent_height, boundary);
            let next = parent_height + 1 == target.activation_height;
            let bank = target.legacy_bank_digest@ == pending.bank_digest@;
            let fresh = pending.tip_fresh is Some && forall|i: int|
                0 <= i < pending.lanes@.len() ==> !(#[trigger] pending.lanes@[i]
                    is Checked);
            let edge = boundary matches Some(b) && (pending.base <==> b.height == 1);
            &&& r is None <==> next && bank && fresh && edge
            &&& r == Some(HistoryStepRetirementError::<()>::BankIdentity) <==> next && !bank
            &&& r == Some(HistoryStepRetirementError::<()>::AlreadyDischarged) <==> next && bank
                && !fresh
            &&& r == Some(HistoryStepRetirementError::<()>::Boundary) <==> !next || (bank && fresh
                && !edge)
        }),
{
}

/// Evaluations are taken up exactly when there is one for each obligation, in order, of the
/// same class, shape and matrix.
pub proof fn lemma_evaluations_accepted(
    obligations: Seq<PendingRetiredMatrixClaim>,
    evaluations: Seq<HistoryStepRetirementEvaluation>,
)
    ensures
        evaluation_refusal(obligations, evaluations) is None <==> evaluations.len()
            == obligations.len() && forall|i: int|
            0 <= i < obligations.len() ==> (#[trigger] obligations[i]).class_id
                == evaluations[i].class_id && obligations[i].shape == evaluations[i].shape
                && obligations[i].matrix_digest@ == evaluations[i].matrix_digest@,
{
    if evaluation_refusal(obligations, evaluations) is None {
        assert forall|i: int| 0 <= i < obligations.len() implies (
        #[trigger] obligations[i]).class_id == evaluations[i].class_id && obligations[i].shape
            == evaluations[i].shape && obligations[i].matrix_digest@
            == evaluations[i].matrix_digest@ by {
            assert(crate::retirement::answers(obligations[i], evaluations[i]));
        }
    }
}

/// The blocks of the path walk follow the proofs, all queries of one before those of the
/// next; behind the last query the paths are blank.
pub proof fn lemma_carried_blocks(
    proofs: Seq<LinkProof>,
    n_queries: int,
    live: int,
    tree: int,
    depth: int,
    p: int,
    q: int,
    w: MerklePathWitness,
)
    requires
        0 <= p,
        0 <= q < n_queries,
        carried_path(proofs, n_queries, live, tree, depth, p * n_queries + q, w),
    ensures
        p * n_queries + q < live ==> query_path(proofs[p], q, tree, depth, w),
        p * n_queries + q >= live ==> {
            &&& w.entry.a@ == 0
            &&& w.entry.b@ == 0
            &&& w.siblings@.len() == depth
            &&& w.directions@.len() == depth
            &&& forall|l: int|
                0 <= l < depth ==> (#[trigger] w.siblings@[l]).a@ == 0 && w.siblings@[l].b@ == 0
            &&& forall|l: int| 0 <= l < depth ==> !#[trigger] w.directions@[l]
        },
{
    vstd::arithmetic::div_mod::lemma_fundamental_div_mod_converse(
        p * n_queries + q,
        n_queries,
        p,
        q,
    );
}

/// A query whose tier lacks a tree carries a blank path and a leaf of zeros there.
pub proof fn lemma_missing_tree(
    proof: LinkProof,
    query: int,
    tree: int,
    depth: int,
    w: MerklePathWitness,
    lanes: Seq<usize>,
    stream: Seq<crate::field::F128>,
)
    requires
        tree >= proof.trees@.len(),
        query_path(proof, query, tree, depth, w),
        tile_stream(proof, query, tree, lanes, stream),
    ensures
        w.siblings@.len() == depth,
        w.directions@.len() == depth,
        forall|l: int|
            0 <= l < depth ==> (#[trigger] w.siblings@[l]).a@ == 0 && w.siblings@[l].b@ == 0,
        forall|l: int| 0 <= l < depth ==> !#[trigger] w.directions@[l],
        stream.len() == lanes[tree],
        forall|i: int| 0 <= i < stream.len() ==> (#[trigger] stream[i])@ == 0,
{
}

proof fn lemma_first_upto(depths: Seq<usize>, rest: int, f: nat, g: int)
    requires
        rest > 0,
        f <= depths.len(),
    ensures
        ({
            let best = fewest_upto(depths, rest, f);
            &&& best is Some ==> {
                let (n, h) = best->0;
                &&& 0 <= h < f
                &&& 0 < depths[h] <= rest
                &&& fewest(depths, rest - depths[h]) == Some((n - 1) as nat)
                &&& n > 0
                &&& (0 <= g < f && 0 < depths[g] <= rest ==> match fewest(depths, rest - depths[g]) {
                    Some(m) => m + 1 >= n && (g < h ==> m + 1 > n),
                    None => true,
                })
            }
            &&& best is None ==> (0 <= g < f && 0 < depths[g] <= rest ==> fewest(
                depths,
                rest - depths[g],
            ) is None)
        }),
    decreases f,
{
    if f > 0 {
        lemma_first_upto(depths, rest, (f - 1) as nat, g);
        lemma_first_upto(depths, rest, (f - 1) as nat, f - 1);
    }
}

/// The walk is filled up with the family that leaves the fewest paths to add, and of
/// several such families with the first.
pub proof fn lemma_first_family_wins(depths: Seq<usize>, rest: int, g: int)
    requires
        rest > 0,
        0 <= g < depths.len(),
        0 < depths[g] <= rest,
        fewest(depths, rest - depths[g]) is Some,
    ensures
        ({
            let best = fewest_upto(depths, rest, depths.len());
            let m = fewest(depths, rest - depths[g])->0;
            &&& best is Some
            &&& best matches Some((n, h)) && {
                &&& fewest(depths, rest) == Some(n)
                &&& 0 <= h < depths.len()
                &&& n <= m + 1
                &&& n == m + 1 ==> h <= g
                &&& fewest(depths, rest - depths[h]) == Some((n - 1) as nat)
            }
        }),
{
    lemma_first_upto(depths, rest, depths.len(), g);
}

/// Bytes are taken for a reduction exactly when they have the length of the request's own
/// rounds and the opening letters, and then only for the class and the binding of that
/// request.
pub proof fn lemma_bytes_accepted(request: &HistoryStepRetirementRequest, bytes: Seq<u8>)
    ensures
        ({
            let r = wire_refusal(request, bytes);
            let framed = bytes.len() == 41 + 128 * request.tip_shape().k_log + 160
                && bytes.subrange(0, 8) == seq![79u8, 49, 77, 82, 69, 68, 48, 49];
            let bound = bytes[8] == request@.inner.tip_class.wire_id && bytes.subrange(9, 41)
                == request@.binding@;
            &&& r is None <==> framed && bound
            &&& r == Some(HistoryStepRetirementError::<()>::Wire) <==> !framed
            &&& r == Some(HistoryStepRetirementError::<()>::Binding) <==> framed && !bound
        }),
{
}

/// A reduction is for a request exactly when it names the request's class and binding and
/// has a round for every variable of the tip's matrix, one more in the first phase.
pub proof fn lemma_reduction_matches(
    reduction: &HistoryStepRetirementReduction,
    request: &HistoryStepRetirementRequest,
)
    ensures
        ({
            let r = reduction.mismatch(request);
            let bound = reduction.class_id == request@.inner.tip_class
                && reduction.request_binding@ == request@.binding@;
            let rounds = reduction.fold.phase1_rounds@.len() == request.tip_shape().k_log + 1
                && reduction.fold.phase2_rounds@.len() == request.tip_shape().k_log;
            &&& r is None <==> bound && rounds
            &&& r == Some(HistoryStepRetirementError::<()>::Binding) <==> !bound
            &&& r == Some(HistoryStepRetirementError::<()>::Wire) <==> bound && !rounds
        }),
{
}

proof fn lemma_live_index(lanes: Seq<Option<MatrixAccClaim>>, tip: int, n: nat, k: nat) -> (i: int)
    requires
        n <= lanes.len(),
        k < live_count(lanes, tip, n),
    ensures
        0 <= i < n,
        i == tip || lanes[i] is Some,
        live_count(lanes, tip, i as nat) == k,
    decreases n,
{
    if k < live_count(lanes, tip, (n - 1) as nat) {
        lemma_live_index(lanes, tip, (n - 1) as nat, k)
    } else {
        n - 1
    }
}

proof fn lemma_live_mono(lanes: Seq<Option<MatrixAccClaim>>, tip: int, i: nat, n: nat)
    requires
        i < n,
        i == tip || lanes[i as int] is Some,
    ensures
        live_count(lanes, tip, i) < live_count(lanes, tip, n),
    decreases n,
{
    if i + 1 < n {
        lemma_live_mono(lanes, tip, i, (n - 1) as nat);
    }
}

/// The obligations of a reduction are one for each class that is live after the fold, and
/// no others, in the order of the classes. The tip's class owes the outgoing claim, every
/// other live class the claim it had, each of its own matrix.
pub proof fn lemma_obligations_in_order(
    obligations: Seq<PendingRetiredMatrixClaim>,
    request: HistoryStepRetirementRequest,
    class_wires: Seq<u8>,
    outgoing: MatrixAccClaim,
    i: int,
    k: int,
)
    requires
        obligations_of(obligations, request, class_wires, outgoing),
        request@.inner.lanes@.len() <= usize::MAX,
    ensures
        ({
            let lanes = request@.inner.lanes@;
            let tip = request@.inner.tip_class.index;
            &&& 0 <= i < lanes.len() && (i == tip || lanes[i] is Some) ==> exists|a: int|
                0 <= a < obligations.len() && ({
                    let ob = #[trigger] obligations[a];
                    &&& ob.class_id.index == i
                    &&& ob.class_id.wire_id == class_wires[i]
                    &&& ob.shape == request@.inner.requirements@[i].shape
                    &&& ob.matrix_digest == request@.inner.requirements@[i].digest
                    &&& i == tip ==> ob.claim.same(&outgoing)
                    &&& i != tip ==> ob.claim.same(&lanes[i]->0)
                })
            &&& 0 <= k < obligations.len() ==> {
                let c = obligations[k].class_id.index as int;
                0 <= c < lanes.len() && (c == tip || lanes[c] is Some)
            }
            &&& 0 <= k && k + 1 < obligations.len() ==> obligations[k].class_id.index
                < obligations[k + 1].class_id.index
        }),
{
    let lanes = request@.inner.lanes@;
    let tip = request@.inner.tip_class.index as int;
    if 0 <= i < lanes.len() && (i == tip || lanes[i] is Some) {
        let a = live_count(lanes, tip, i as nat) as int;
        lemma_live_mono(lanes, tip, i as nat, lanes.len());
        assert(lane_after(lanes, tip, outgoing, i) is Some);
        assert(obligations[a].class_id.index == i);
    }
    if 0 <= k < obligations.len() {
        let x = lemma_live_index(lanes, tip, lanes.len(), k as nat);
        assert(lane_after(lanes, tip, outgoing, x) is Some);
        assert(obligations[k].class_id.index == x);
        if k + 1 < obligations.len() {
            let y = lemma_live_index(lanes, tip, lanes.len(), (k + 1) as nat);
            assert(lane_after(lanes, tip, outgoing, y) is Some);
            assert(obligations[k + 1].class_id.index == y);
            if y < x {
                lemma_live_mono(lanes, tip, y as nat, x as nat);
            }
        }
    }
}

/// The key of a class is that of its last evaluation; a class without one has none.
pub proof fn lemma_class_key(
    evaluations: Seq<HistoryStepRetirementEvaluation>,
    n: nat,
    c: int,
    i: int,
)
    requires
        n <= evaluations.len(),
    ensures
        (0 <= i < n && evaluations[i].class_id.index == c && forall|j: int|
            i < j < n ==> (#[trigger] evaluations[j]).class_id.index != c) ==> key_of(
            evaluations,
            n,
            c,
        ) == Some(evaluations[i].key_digest),
        (forall|j: int| 0 <= j < n ==> (#[trigger] evaluations[j]).class_id.index != c) ==> key_of(
            evaluations,
            n,
            c,
        ) is None,
    decreases n,
{
    if n > 0 {
        let last = evaluations[n - 1];
        lemma_class_key(evaluations, (n - 1) as nat, c, i);
    }
}

/// Verdicts end in a refusal exactly when one of the proofs was refused, and it is the first
/// that was.
pub proof fn lemma_first_refusal<E>(outcomes: Seq<Result<(), E>>, n: nat)
    requires
        verdicts(outcomes, n),
    ensures
        refused_last(outcomes) <==> exists|i: int|
            0 <= i < outcomes.len() && (#[trigger] outcomes[i]) is Err,
        !refused_last(outcomes) ==> outcomes.len() == n,
        forall|i: int| 0 <= i < outcomes.len() - 1 ==> (#[trigger] outcomes[i]) is Ok,
{
    if refused_last(outcomes) {
        assert(outcomes[outcomes.len() - 1] is Err);
    }
}

/// A carrier has one path for each query of each role, one leaf tile at least, and is
/// refused exactly when a position lacks a path, the tiers disagree, the numbers do not fit
/// the machine, there is no query, or the walk cannot be filled up with whole paths.
pub proof fn lemma_carrier_accepted(carrier: HistoryStepPcsCarrierGeometry, max_lanes: int)
    ensures
        carrier.path_count() == carrier.proof_roles * carrier.n_queries,
        ({
            let live = carrier.path_count() * folded(carrier.depths(), carrier.positions());
            carrier.dense_error() is None <==> {
                &&& forall|p: int| 0 <= p < carrier.positions() ==> #[trigger] carrier.depth_at(p) > 0
                &&& 0 < carrier.path_count() <= usize::MAX
                &&& live <= usize::MAX
                &&& ceil_pow2(live) <= usize::MAX
                &&& fewest(carrier.depths(), ceil_pow2(live) - live) is Some
            }
        }),
        carrier.leaf_error(max_lanes) is None <==> {
            &&& carrier.positions() >= 2
            &&& forall|p: int|
                0 <= p < carrier.positions() ==> #[trigger] carrier.lanes_agree(p, max_lanes)
            &&& carrier.path_count() <= usize::MAX
            &&& ceil_pow2(
                if carrier.path_count() == 0 {
                    1
                } else {
                    carrier.path_count()
                },
            ) <= usize::MAX
        },
{
}

/// The tiers agree on a position when all of them that have it have the same even number of
/// lanes there, within the limit.
pub proof fn lemma_lanes_shared(
    carrier: HistoryStepPcsCarrierGeometry,
    position: int,
    max_lanes: int,
    g: int,
    h: int,
)
    requires
        carrier.lanes_agree(position, max_lanes),
        0 <= position,
        0 <= g < carrier.groups@.len(),
        0 <= h < carrier.groups@.len(),
        position < carrier.groups@[g]@.len(),
        position < carrier.groups@[h]@.len(),
    ensures
        carrier.groups@[g]@[position].lanes == carrier.groups@[h]@[position].lanes,
        carrier.groups@[g]@[position].lanes == carrier.lanes_at(position),
        2 <= carrier.groups@[g]@[position].lanes <= max_lanes,
        carrier.groups@[g]@[position].lanes % 2 == 0,
{
}

/// Proofs that share a carrier are one or two, as many as its roles, each for a tier of the
/// carrier, the first of two for the base tier and the second for another.
pub proof fn lemma_roles_fit(
    proofs: Seq<LinkProof>,
    carrier: HistoryStepPcsCarrierGeometry,
    active: Seq<usize>,
)
    ensures
        roles_fit(proofs, carrier, active) <==> {
            &&& proofs.len() == 1 || proofs.len() == 2
            &&& active.len() == proofs.len()
            &&& carrier.proof_roles == proofs.len()
            &&& forall|i: int| 0 <= i < active.len() ==> #[trigger] active[i] < carrier.groups@.len()
            &&& proofs.len() == 2 ==> active[0] == 0 && active[1] > 0
        },
{
}

/// A proof fits its tier when it has the queries of the carrier and the trees and the
/// statement of that tier; proofs fit a carrier when their roles do and each fits the tier
/// it claims.
pub proof fn lemma_proofs_fit(
    proofs: Seq<LinkProof>,
    carrier: HistoryStepPcsCarrierGeometry,
    statements: Seq<Vec<u8>>,
    active: Seq<usize>,
    i: int,
)
    requires
        0 <= i < proofs.len(),
    ensures
        proofs_fit(proofs, carrier, statements, active) ==> roles_fit(proofs, carrier, active)
            && proof_fits(proofs[i], carrier, statements, active[i] as int),
        proof_fits(proofs[i], carrier, statements, active[i] as int) <==> {
            &&& proofs[i].queries@.len() == carrier.n_queries
            &&& proofs[i].trees@ == carrier.groups@[active[i] as int]@
            &&& proofs[i].statement@ == statements[active[i] as int]@
        },
        roles_fit(proofs, carrier, active) && !proofs_fit(proofs, carrier, statements, active)
            ==> exists|k: int|
            0 <= k < proofs.len() && !proof_fits(
                #[trigger] proofs[k],
                carrier,
                statements,
                active[k] as int,
            ),
{
}

/// A link of proofs is refused for its shape when a proof does not fit its tier, the tiers
/// disagree on their leaves, or a query opens a leaf of another width; and otherwise only
/// where the path walk is.
pub proof fn lemma_link_accepted(
    proofs: Seq<LinkProof>,
    carrier: HistoryStepPcsCarrierGeometry,
    statements: Seq<Vec<u8>>,
    active: Seq<usize>,
    max_lanes: int,
)
    ensures
        link_error(proofs, carrier, statements, active, max_lanes) is None <==> {
            &&& proofs_fit(proofs, carrier, statements, active)
            &&& carrier.leaves_fit(max_lanes)
            &&& forall|p: int, q: int, t: int|
                0 <= p < proofs.len() && 0 <= q < proofs[p].queries@.len() && 0 <= t
                    < proofs[p].trees@.len() ==> (
                #[trigger] proofs[p].queries@[q].leaves@[t])@.len() == proofs[p].trees@[t].lanes
            &&& carrier.dense_error() is None
        },
{
    if all_leaves_open(proofs) {
        assert forall|p: int, q: int, t: int|
            0 <= p < proofs.len() && 0 <= q < proofs[p].queries@.len() && 0 <= t
                < proofs[p].trees@.len() implies (
        #[trigger] proofs[p].queries@[q].leaves@[t])@.len() == proofs[p].trees@[t].lanes by {
            assert(leaves_open(proofs[p], q));
        }
    } else {
        let (p, q) = choose|p: int, q: int|
            0 <= p < proofs.len() && 0 <= q < proofs[p].queries@.len() && !#[trigger] leaves_open(
                proofs[p],
                q,
            );
        let t = choose|t: int|
            0 <= t < proofs[p].trees@.len() && (
            #[trigger] proofs[p].queries@[q].leaves@[t])@.len() != proofs[p].trees@[t].lanes;
        assert(proofs[p].queries@[q].leaves@[t]@.len() != proofs[p].trees@[t].lanes);
    }
}

/// The two recordings of a tier are packed from the start, the larger block first and the
/// child's where both are as large; the walk is the least power of two that holds them.
pub proof fn lemma_two_recordings(
    children: Seq<DuplexLayout>,
    r_prev: Seq<DuplexLayout>,
    arm: int,
    child_offset: int,
    r_prev_offset: int,
    w_log: int,
)
    requires
        arm_packed(children, r_prev, arm, child_offset, r_prev_offset, w_log),
        0 < children[arm].slots@.len() <= usize::MAX,
        0 < r_prev[arm].slots@.len() <= usize::MAX,
    ensures
        ({
            let a = ceil_pow2(children[arm].slots@.len()) as int;
            let b = ceil_pow2(r_prev[arm].slots@.len()) as int;
            &&& a >= b ==> child_offset == 0 && r_prev_offset == a
            &&& a < b ==> r_prev_offset == 0 && child_offset == b
            &&& w_log == ceil_log((a + b) as nat)
        }),
{
    let sizes = block_sizes(arm_lengths(children, r_prev, arm));
    let a = ceil_pow2(children[arm].slots@.len());
    let b = ceil_pow2(r_prev[arm].slots@.len());
    assert(sizes[0] == a && sizes[1] == b);
    reveal_with_fuel(packed_offset, 3);
    reveal_with_fuel(total, 3);
}

proof fn lemma_ladders_from(params: Seq<PcsParams>, log_packing: int, max_lanes: int, from: int)
    requires
        0 <= from,
    ensures
        ladders_error(params, log_packing, max_lanes, from) is None <==> (forall|i: int|
            from <= i < params.len() ==> (#[trigger] params[i]).ladder_error(
                log_packing,
                max_lanes,
            ) is None),
    decreases params.len() - from,
{
    if from < params.len() {
        lemma_ladders_from(params, log_packing, max_lanes, from + 1);
        if ladders_error(params, log_packing, max_lanes, from) is None {
            assert forall|i: int| from <= i < params.len() implies (
            #[trigger] params[i]).ladder_error(log_packing, max_lanes) is None by {}
        } else if params[from].ladder_error(log_packing, max_lanes) is None {
            let i = choose|i: int|
                from + 1 <= i < params.len() && (#[trigger] params[i]).ladder_error(
                    log_packing,
                    max_lanes,
                ) is Some;
            assert(params[i].ladder_error(log_packing, max_lanes) is Some);
        }
    }
}

/// The geometry of a parent is accepted exactly when its lists agree and no schedule is
/// empty, all tiers make the same known number of queries, every ladder is accepted and has
/// two trees at least, the tiers can share leaves and paths, there are at most two, and both
/// pack their recordings alike.
pub proof fn lemma_parent_accepted(
    params: Seq<PcsParams>,
    children: Seq<DuplexLayout>,
    r_prev: Seq<DuplexLayout>,
    log_packing: int,
    max_lanes: int,
    carrier: HistoryStepPcsCarrierGeometry,
)
    ensures
        HistoryStepParentGeometry::refused(
            params,
            children,
            r_prev,
            log_packing,
            max_lanes,
            carrier,
        ) is None <==> {
            &&& 0 < params.len() <= 2
            &&& children.len() == params.len()
            &&& r_prev.len() == params.len()
            &&& params[0].query_count is Some
            &&& forall|i: int|
                0 <= i < params.len() ==> {
                    &&& (#[trigger] params[i]).query_count == params[0].query_count
                    &&& params[i].ladder_error(log_packing, max_lanes) is None
                    &&& params[i].tree_count() >= 2
                }
            &&& forall|i: int| 0 <= i < children.len() ==> (#[trigger] children[i]).slots@.len() > 0
            &&& forall|i: int| 0 <= i < r_prev.len() ==> (#[trigger] r_prev[i]).slots@.len() > 0
            &&& carrier.leaves_fit(max_lanes)
            &&& carrier.paths_fit()
            &&& arms_agree(children, r_prev)
        },
{
    lemma_ladders_from(params, log_packing, max_lanes, 0);
}

/// A query of a tier with a tree streams the leaf that it opens there.
pub proof fn lemma_opened_leaf(
    proof: LinkProof,
    query: int,
    tree: int,
    lanes: Seq<usize>,
    stream: Seq<crate::field::F128>,
)
    requires
        tile_stream(proof, query, tree, lanes, stream),
        0 <= tree < proof.trees@.len(),
    ensures
        stream == proof.queries@[query].leaves@[tree]@,
{
}

/// The open claims of a terminal are those of its pending lanes, each in its own place; a
/// dead lane and a checked one have none.
pub proof fn lemma_open_claims(
    lanes: Seq<PendingBankLane>,
    claims: Seq<Option<MatrixAccClaim>>,
    i: int,
)
    requires
        open_claims(lanes, claims),
        0 <= i < lanes.len(),
    ensures
        claims.len() == lanes.len(),
        claims[i] is Some <==> lanes[i] is Pending,
        lanes[i] matches PendingBankLane::Pending(claim) ==> claims[i] == Some(claim),
{
    let lane = lanes[i];
}

/// An incoming lane is live or not, and zero in every limb where it is not.
pub proof fn lemma_dead_lane(
    live: LinExpr,
    limbs: Seq<LinExpr>,
    n: int,
    z: spec_fn(int) -> u128,
)
    ensures
        lane_shape(live, limbs, n, z) <==> (live.at(z) == 1 || (live.at(z) == 0 && forall|i: int|
            0 <= i < n ==> (#[trigger] limbs[i]).at(z) == 0)),
{
}

/// Two tiers pack their recordings alike when the child's recording and the previous one
/// start at the same slots in both and both fit the same walk; with one tier there is
/// nothing to agree on.
pub proof fn lemma_arms_agree(children: Seq<DuplexLayout>, r_prev: Seq<DuplexLayout>)
    requires
        children.len() == r_prev.len(),
        forall|i: int|
            0 <= i < children.len() ==> 0 < (#[trigger] children[i]).slots@.len() <= usize::MAX,
        forall|i: int|
            0 <= i < r_prev.len() ==> 0 < (#[trigger] r_prev[i]).slots@.len() <= usize::MAX,
    ensures
        arms_agree(children, r_prev) <==> (children.len() == 2 ==> {
            let child = |arm: int| ceil_pow2(children[arm].slots@.len());
            let prev = |arm: int| ceil_pow2(r_prev[arm].slots@.len());
            let child_at = |arm: int|
                if child(arm) >= prev(arm) {
                    0
                } else {
                    prev(arm)
                };
            let prev_at = |arm: int|
                if child(arm) >= prev(arm) {
                    child(arm)
                } else {
                    0
                };
            &&& child_at(0) == child_at(1)
            &&& prev_at(0) == prev_at(1)
            &&& ceil_log(child(0) + prev(0)) == ceil_log(child(1) + prev(1))
        }),
{
    if children.len() == 2 {
        assert forall|arm: int| 0 <= arm < 2 implies {
            let sizes = #[trigger] block_sizes(arm_lengths(children, r_prev, arm));
            let a = ceil_pow2(children[arm].slots@.len());
            let b = ceil_pow2(r_prev[arm].slots@.len());
            &&& packed_offset(sizes, 0, 2) == if a >= b {
                0
            } else {
                b
            }
            &&& packed_offset(sizes, 1, 2) == if a >= b {
                a
            } else {
                0
            }
            &&& total(sizes, 2) == a + b
        } by {
            let sizes = block_sizes(arm_lengths(children, r_prev, arm));
            let c = children[arm];
            let p = r_prev[arm];
            assert(sizes[0] == ceil_pow2(c.slots@.len()));
            assert(sizes[1] == ceil_pow2(p.slots@.len()));
            reveal_with_fuel(packed_offset, 3);
            reveal_with_fuel(total, 3);
        }
        let first = block_sizes(arm_lengths(children, r_prev, 0));
        let second = block_sizes(arm_lengths(children, r_prev, 1));
    }
}

} // verus!
