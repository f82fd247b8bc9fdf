//! The walks on which a history step verifies its predecessor: the universal
//! geometry of all parent tiers, the streams and witnesses of the leaf and the
//! path walk, and the columns of the path walk.
use crate::columns::WitnessSlice;
use crate::basis::FlatBasis;
use crate::duplex::{
    block_sizes, data_offset, duplex_data_positions, pack_recording_only_blocks, packed_offset,
    position_of, total, DuplexLayout, DuplexSlot, LanePosition, SubChannel,
};
use crate::duplex_union::{
    build_combined_duplex_union, channels_tile, combined_geometry, combined_slots, combined_union,
    longest, ChannelColumns, DuplexUnion, RecordingSpec,
};
use crate::dyadic::{ceil_log, ceil_pow2, power_of_two};
use crate::field::{fmul, F128};
use crate::meta_draft::MerkleRegionFamily;
use crate::meta_pins::DigestPair;
use crate::parent_geometry::{
    checked_tree_structure, deepest, first_with, longest_group, DensePathGeometry, HistoryStepPcsCarrierGeometry, PcsParams,
    RegionSidecarError, TreeInfo,
};
use crate::region_layout::{align_up, checked_next_multiple_of, lemma_align};
use crate::tx_root::{index_bit, index_bits, MerklePathWitness};
use crate::walk_planes::{rectangular, WalkColumns};
use vstd::arithmetic::power2::{lemma_pow2_pos, pow2};
use vstd::prelude::*;

verus! {

/// The walk columns of a history step: leaves, paths, recordings and the
/// selector of the parent tier.
pub struct LinkWalkSlices {
    pub leaf: Vec<WitnessSlice>,
    pub path: Vec<WitnessSlice>,
    pub rec: Vec<WitnessSlice>,
    pub selector: WitnessSlice,
}

/// `n` columns of `2^w_log` cells, one after the other from the next multiple
/// of their length at or above `cursor`.
pub open spec fn columns_from(slices: Seq<WitnessSlice>, n: int, cursor: nat, w_log: usize) -> bool {
    &&& slices.len() == n
    &&& forall|c: int|
        0 <= c < n ==> (#[trigger] slices[c]).log2_len == w_log && slices[c].first() == align_up(
            cursor,
            pow2(w_log as nat),
        ) + c * pow2(w_log as nat)
}

/// Where `n` such columns end.
pub open spec fn columns_end(n: nat, cursor: nat, w_log: usize) -> nat {
    align_up(cursor, pow2(w_log as nat)) + n * pow2(w_log as nat)
}

fn family_slices(n: usize, cursor: usize, w_log: usize) -> (r: (Vec<WitnessSlice>, usize))
    requires
        n > 0,
        columns_end(n as nat, cursor as nat, w_log) <= usize::MAX,
    ensures
        columns_from(r.0@, n as int, cursor as nat, w_log),
        r.1 == columns_end(n as nat, cursor as nat, w_log),
{
    let ghost size = pow2(w_log as nat);
    proof {
        lemma_pow2_pos(w_log as nat);
        assert(size <= n * size) by (nonlinear_arith)
            requires
                n > 0,
                size >= 0,
        ;
    }
    let len = power_of_two(w_log);
    let start = match checked_next_multiple_of(cursor, len) {
        Some(start) => start,
        None => 0,
    };
    let base: usize = start / len;
    proof {
        lemma_align(cursor as nat, size);
        vstd::arithmetic::div_mod::lemma_fundamental_div_mod(start as int, size as int);
        assert(start == base * size) by (nonlinear_arith)
            requires
                start == size * base + 0,
        ;
    }
    let mut slices: Vec<WitnessSlice> = Vec::new();
    let mut c: usize = 0;
    while c < n
        invariant
            c <= n,
            size == pow2(w_log as nat),
            size > 0,
            start == base * size,
            start + n * size <= usize::MAX,
            start == align_up(cursor as nat, size),
            slices@.len() == c,
            forall|k: int|
                0 <= k < c ==> (#[trigger] slices@[k]).log2_len == w_log && slices@[k].first()
                    == start + k * size,
        decreases n - c,
    {
        proof {
            assert((base + c) * size == base * size + c * size) by (nonlinear_arith);
            assert(base + c <= base * size + c * size) by (nonlinear_arith)
                requires
                    size > 0,
                    base >= 0,
                    c >= 0,
            ;
            assert(c * size <= n * size) by (nonlinear_arith)
                requires
                    c <= n,
                    size >= 0,
            ;
        }
        slices.push(WitnessSlice { log2_len: w_log, index: base + c });
        c = c + 1;
    }
    (slices, start + n * len)
}

/// The canonical columns of a history step: directly after the block of public
/// values, leaves, paths, recordings and the selector, each family aligned to
/// its own width.
pub fn canonical_link_walk_slices(
    io_slice: WitnessSlice,
    leaf_w_log: usize,
    path_w_log: usize,
    rec_w_log: usize,
) -> (r: LinkWalkSlices)
    requires
        ({
            let io_end = io_slice.first() + io_slice.size();
            let leaf_end = columns_end(6, io_end, leaf_w_log);
            let path_end = columns_end(9, leaf_end, path_w_log);
            let rec_end = columns_end(6, path_end, rec_w_log);
            &&& io_end <= usize::MAX
            &&& leaf_end <= usize::MAX
            &&& path_end <= usize::MAX
            &&& rec_end < usize::MAX
        }),
    ensures
        ({
            let io_end = io_slice.first() + io_slice.size();
            let leaf_end = columns_end(6, io_end, leaf_w_log);
            let path_end = columns_end(9, leaf_end, path_w_log);
            let rec_end = columns_end(6, path_end, rec_w_log);
            &&& columns_from(r.leaf@, 6, io_end, leaf_w_log)
            &&& columns_from(r.path@, 9, leaf_end, path_w_log)
            &&& columns_from(r.rec@, 6, path_end, rec_w_log)
            &&& r.selector.log2_len == 0
            &&& r.selector.first() == rec_end
        }),
{
    let cursor: usize = io_slice.start() + io_slice.len();
    let (leaf, cursor) = family_slices(6, cursor, leaf_w_log);
    let (path, cursor) = family_slices(9, cursor, path_w_log);
    let (rec, cursor) = family_slices(6, cursor, rec_w_log);
    let selector = WitnessSlice { log2_len: 0, index: cursor };
    proof {
        vstd::arithmetic::power2::lemma2_to64();
        assert(cursor as nat * 1 == cursor as nat);
    }
    LinkWalkSlices { leaf, path, rec, selector }
}

fn same_slots(x: &Vec<DuplexSlot>, y: &Vec<DuplexSlot>) -> (r: bool)
    ensures
        r == (x@ == y@),
{
    if x.len() != y.len() {
        return false;
    }
    let mut i: usize = 0;
    while i < x.len()
        invariant
            i <= x@.len(),
            x@.len() == y@.len(),
            forall|k: int| 0 <= k < i ==> x@[k] == #[trigger] y@[k],
        decreases x@.len() - i,
    {
        if x[i] != y[i] {
            assert(x@[i as int] != y@[i as int]);
            return false;
        }
        i = i + 1;
    }
    assert(x@ =~= y@);
    true
}

fn same_positions(x: &Vec<LanePosition>, y: &Vec<LanePosition>) -> (r: bool)
    ensures
        r == (x@ == y@),
{
    if x.len() != y.len() {
        return false;
    }
    let mut i: usize = 0;
    while i < x.len()
        invariant
            i <= x@.len(),
            x@.len() == y@.len(),
            forall|k: int| 0 <= k < i ==> x@[k] == #[trigger] y@[k],
        decreases x@.len() - i,
    {
        if x[i] != y[i] {
            assert(x@[i as int] != y@[i as int]);
            return false;
        }
        i = i + 1;
    }
    assert(x@ =~= y@);
    true
}

/// Whether two schedules are the same.
pub fn same_layout(x: &DuplexLayout, y: &DuplexLayout) -> (r: bool)
    ensures
        r == x.same(y),
{
    same_slots(&x.slots, &y.slots) && same_positions(&x.challenges, &y.challenges) && x.n_data
        == y.n_data
}

/// The universal geometry of all parent tiers: the carrier of leaves and
/// paths, the recorded schedules of every tier, and where the two recordings
/// of a tier are packed.
pub struct HistoryStepParentGeometry {
    pub carrier: HistoryStepPcsCarrierGeometry,
    pub child_layouts: Vec<DuplexLayout>,
    pub r_prev_layouts: Vec<DuplexLayout>,
    pub child_offset: usize,
    pub r_prev_offset: usize,
    pub rec_w_log: usize,
}

/// Slots of the two recordings of a tier.
pub open spec fn arm_lengths(
    children: Seq<DuplexLayout>,
    r_prev: Seq<DuplexLayout>,
    arm: int,
) -> Seq<usize> {
    seq![children[arm].slots@.len() as usize, r_prev[arm].slots@.len() as usize]
}

/// The recordings of a tier are packed as given.
pub open spec fn arm_packed(
    children: Seq<DuplexLayout>,
    r_prev: Seq<DuplexLayout>,
    arm: int,
    child_offset: int,
    r_prev_offset: int,
    w_log: int,
) -> bool {
    let sizes = block_sizes(arm_lengths(children, r_prev, arm));
    &&& packed_offset(sizes, 0, 2) == child_offset
    &&& packed_offset(sizes, 1, 2) == r_prev_offset
    &&& ceil_log(total(sizes, 2)) == w_log
}

/// The first tier from `from` on whose ladder is refused, and why.
pub open spec fn ladders_error(
    params: Seq<PcsParams>,
    log_packing: int,
    max_lanes: int,
    from: int,
) -> Option<RegionSidecarError>
    decreases params.len() - from,
{
    if from >= params.len() {
        None
    } else {
        match params[from].ladder_error(log_packing, max_lanes) {
            Some(error) => Some(error),
            None => ladders_error(params, log_packing, max_lanes, from + 1),
        }
    }
}

/// The lists of a geometry agree in length and no schedule is empty.
pub open spec fn lists_fit(
    params: Seq<PcsParams>,
    children: Seq<DuplexLayout>,
    r_prev: Seq<DuplexLayout>,
) -> bool {
    &&& params.len() > 0
    &&& children.len() == params.len()
    &&& r_prev.len() == params.len()
    &&& forall|i: int| 0 <= i < children.len() ==> (#[trigger] children[i]).slots@.len() > 0
    &&& forall|i: int| 0 <= i < r_prev.len() ==> (#[trigger] r_prev[i]).slots@.len() > 0
}

/// All tiers make the same number of queries.
pub open spec fn queries_agree(params: Seq<PcsParams>) -> bool {
    &&& params[0].query_count is Some
    &&& forall|i: int|
        0 <= i < params.len() ==> (#[trigger] params[i]).query_count == params[0].query_count
}

/// The carrier of these tiers.
pub open spec fn carrier_of(
    carrier: HistoryStepPcsCarrierGeometry,
    params: Seq<PcsParams>,
    log_packing: int,
) -> bool {
    &&& carrier.groups@.len() == params.len()
    &&& forall|g: int|
        0 <= g < params.len() ==> (#[trigger] carrier.groups@[g])@ =~= Seq::new(
            params[g].tree_count(),
            |t: int| params[g].tree(log_packing, t),
        )
    &&& Some(carrier.n_queries) == params[0].query_count
    &&& carrier.proof_roles == 1
}

/// Every tier commits at least two trees.
pub open spec fn two_trees(params: Seq<PcsParams>) -> bool {
    forall|g: int| 0 <= g < params.len() ==> (#[trigger] params[g]).tree_count() >= 2
}

/// The recordings of both tiers of a bank are packed alike.
pub open spec fn arms_agree(children: Seq<DuplexLayout>, r_prev: Seq<DuplexLayout>) -> bool {
    children.len() == 2 ==> {
        let first = block_sizes(arm_lengths(children, r_prev, 0));
        let second = block_sizes(arm_lengths(children, r_prev, 1));
        &&& packed_offset(first, 0, 2) == packed_offset(second, 0, 2)
        &&& packed_offset(first, 1, 2) == packed_offset(second, 1, 2)
        &&& ceil_log(total(first, 2)) == ceil_log(total(second, 2))
    }
}

fn any_empty(s: &Vec<DuplexLayout>) -> (r: bool)
    ensures
        !r <==> forall|i: int| 0 <= i < s@.len() ==> (#[trigger] s@[i]).slots@.len() > 0,
{
    let mut i: usize = 0;
    while i < s.len()
        invariant
            i <= s@.len(),
            forall|k: int| 0 <= k < i ==> (#[trigger] s@[k]).slots@.len() > 0,
        decreases s@.len() - i,
    {
        if s[i].slots.len() == 0 {
            assert(s@[i as int].slots@.len() == 0);
            return true;
        }
        i = i + 1;
    }
    false
}

fn tier_trees(params: &Vec<PcsParams>, log_packing: usize, max_lanes: usize) -> (r: Result<
    Vec<Vec<TreeInfo>>,
    RegionSidecarError,
>)
    requires
        forall|g: int, i: int|
            0 <= g < params@.len() && 0 <= i < params@[g].arities@.len() ==> pow2(
                (#[trigger] params@[g].arities@[i] + 1) as nat,
            ) <= usize::MAX,
    ensures
        match ladders_error(params@, log_packing as int, max_lanes as int, 0) {
            Some(error) => r == Err::<Vec<Vec<TreeInfo>>, _>(error),
            None => {
                &&& r is Ok
                &&& r->Ok_0@.len() == params@.len()
                &&& forall|g: int|
                    0 <= g < params@.len() ==> (#[trigger] r->Ok_0@[g])@ =~= Seq::new(
                        params@[g].tree_count(),
                        |t: int| params@[g].tree(log_packing as int, t),
                    )
            },
        },
{
    let mut groups: Vec<Vec<TreeInfo>> = Vec::new();
    let mut g: usize = 0;
    while g < params.len()
        invariant
            g <= params@.len(),
            forall|h: int, i: int|
                0 <= h < params@.len() && 0 <= i < params@[h].arities@.len() ==> pow2(
                    (#[trigger] params@[h].arities@[i] + 1) as nat,
                ) <= usize::MAX,
            groups@.len() == g,
            ladders_error(params@, log_packing as int, max_lanes as int, 0) == ladders_error(
                params@,
                log_packing as int,
                max_lanes as int,
                g as int,
            ),
            forall|h: int|
                0 <= h < g ==> (#[trigger] groups@[h])@ =~= Seq::new(
                    params@[h].tree_count(),
                    |t: int| params@[h].tree(log_packing as int, t),
                ),
        decreases params@.len() - g,
    {
        match checked_tree_structure(&params[g], log_packing, max_lanes) {
            Ok(trees) => {
                groups.push(trees);
            },
            Err(error) => {
                return Err(error);
            },
        }
        g = g + 1;
    }
    Ok(groups)
}

impl HistoryStepParentGeometry {
    /// Why a geometry is refused, if it is; `carrier` is the carrier of its
    /// tiers.
    pub open spec fn refused(
        params: Seq<PcsParams>,
        children: Seq<DuplexLayout>,
        r_prev: Seq<DuplexLayout>,
        log_packing: int,
        max_lanes: int,
        carrier: HistoryStepPcsCarrierGeometry,
    ) -> Option<RegionSidecarError> {
        if !lists_fit(params, children, r_prev) {
            Some(RegionSidecarError::BadVk)
        } else if !queries_agree(params) {
            Some(RegionSidecarError::UnsupportedVkShape)
        } else if ladders_error(params, log_packing, max_lanes, 0) is Some {
            ladders_error(params, log_packing, max_lanes, 0)
        } else if !two_trees(params) || !carrier.leaves_fit(max_lanes) || !carrier.paths_fit()
            || children.len() > 2 || !arms_agree(children, r_prev) {
            Some(RegionSidecarError::UnsupportedVkShape)
        } else {
            None
        }
    }

    /// The geometry of a list of parent tiers.
    pub fn from_parts(
        params: &Vec<PcsParams>,
        child_layouts: Vec<DuplexLayout>,
        r_prev_layouts: Vec<DuplexLayout>,
        log_packing: usize,
        max_lanes: usize,
    ) -> (r: Result<HistoryStepParentGeometry, RegionSidecarError>)
        requires
            forall|g: int, i: int|
                0 <= g < params@.len() && 0 <= i < params@[g].arities@.len() ==> pow2(
                    (#[trigger] params@[g].arities@[i] + 1) as nat,
                ) <= usize::MAX,
            forall|arm: int|
                0 <= arm < child_layouts@.len() && arm < r_prev_layouts@.len() ==> ceil_pow2(
                    total(
                        block_sizes(
                            #[trigger] arm_lengths(child_layouts@, r_prev_layouts@, arm),
                        ),
                        2,
                    ),
                ) <= usize::MAX,
        ensures
            forall|carrier: HistoryStepPcsCarrierGeometry| #[trigger]
                carrier_of(carrier, params@, log_packing as int) ==> (
                HistoryStepParentGeometry::refused(
                    params@,
                    child_layouts@,
                    r_prev_layouts@,
                    log_packing as int,
                    max_lanes as int,
                    carrier,
                ) matches Some(error) ==> r == Err::<HistoryStepParentGeometry, _>(error)),
            r matches Ok(geometry) ==> {
                &&& carrier_of(geometry.carrier, params@, log_packing as int)
                &&& HistoryStepParentGeometry::refused(
                    params@,
                    child_layouts@,
                    r_prev_layouts@,
                    log_packing as int,
                    max_lanes as int,
                    geometry.carrier,
                ) is None
                &&& geometry.child_layouts@ == child_layouts@
                &&& geometry.r_prev_layouts@ == r_prev_layouts@
                &&& forall|arm: int|
                    0 <= arm < child_layouts@.len() ==> #[trigger] arm_packed(
                        child_layouts@,
                        r_prev_layouts@,
                        arm,
                        geometry.child_offset as int,
                        geometry.r_prev_offset as int,
                        geometry.rec_w_log as int,
                    )
            },
            r matches Err(error) ==> {
                ||| !lists_fit(params@, child_layouts@, r_prev_layouts@) && error
                    == RegionSidecarError::BadVk
                ||| lists_fit(params@, child_layouts@, r_prev_layouts@) && !queries_agree(params@)
                    && error == RegionSidecarError::UnsupportedVkShape
                ||| lists_fit(params@, child_layouts@, r_prev_layouts@) && queries_agree(params@)
                    && ladders_error(params@, log_packing as int, max_lanes as int, 0) == Some(
                    error,
                )
                ||| exists|carrier: HistoryStepPcsCarrierGeometry| #[trigger]
                    carrier_of(carrier, params@, log_packing as int)
                        && HistoryStepParentGeometry::refused(
                        params@,
                        child_layouts@,
                        r_prev_layouts@,
                        log_packing as int,
                        max_lanes as int,
                        carrier,
                    ) == Some(error)
            },
    {
        if params.len() == 0 || child_layouts.len() != params.len() || r_prev_layouts.len()
            != params.len() || any_empty(&child_layouts) || any_empty(&r_prev_layouts) {
            return Err(RegionSidecarError::BadVk);
        }
        assert(lists_fit(params@, child_layouts@, r_prev_layouts@));
        let n_queries = match params[0].query_count {
            Some(n) => n,
            None => {
                return Err(RegionSidecarError::UnsupportedVkShape);
            },
        };
        let mut i: usize = 0;
        while i < params.len()
            invariant
                i <= params@.len(),
                lists_fit(params@, child_layouts@, r_prev_layouts@),
                params@[0].query_count == Some(n_queries),
                forall|k: int|
                    0 <= k < i ==> (#[trigger] params@[k]).query_count == params@[0].query_count,
            decreases params@.len() - i,
        {
            let same = match params[i].query_count {
                Some(n) => n == n_queries,
                None => false,
            };
            if !same {
                assert(params@[i as int].query_count != params@[0].query_count);
                return Err(RegionSidecarError::UnsupportedVkShape);
            }
            i = i + 1;
        }
        let groups = match tier_trees(params, log_packing, max_lanes) {
            Ok(groups) => groups,
            Err(error) => {
                return Err(error);
            },
        };
        let carrier = HistoryStepPcsCarrierGeometry { groups, n_queries, proof_roles: 1 };
        proof {
            assert(carrier_of(carrier, params@, log_packing as int));
            assert forall|other: HistoryStepPcsCarrierGeometry| #[trigger]
                carrier_of(other, params@, log_packing as int) implies (other.leaves_fit(
                max_lanes as int,
            ) <==> carrier.leaves_fit(max_lanes as int)) && (other.paths_fit()
                <==> carrier.paths_fit()) by {
                lemma_same_carrier(other, carrier, params@, log_packing as int, max_lanes as int);
            }
        }
        let mut g: usize = 0;
        while g < carrier.groups.len()
            invariant
                g <= carrier.groups@.len(),
                carrier_of(carrier, params@, log_packing as int),
                lists_fit(params@, child_layouts@, r_prev_layouts@),
                queries_agree(params@),
                ladders_error(params@, log_packing as int, max_lanes as int, 0) is None,
                forall|k: int| 0 <= k < g ==> (#[trigger] params@[k]).tree_count() >= 2,
            decreases carrier.groups@.len() - g,
        {
            assert(carrier.groups@[g as int]@.len() == params@[g as int].tree_count());
            if carrier.groups[g].len() < 2 {
                assert(!two_trees(params@));
                return Err(RegionSidecarError::UnsupportedVkShape);
            }
            g = g + 1;
        }
        assert(two_trees(params@));
        match carrier.leaf_lanes(max_lanes) {
            Ok(_) => {},
            Err(error) => {
                return Err(error);
            },
        }
        match carrier.path_carrier_depths() {
            Ok(_) => {},
            Err(error) => {
                return Err(error);
            },
        }
        if child_layouts.len() > 2 {
            return Err(RegionSidecarError::UnsupportedVkShape);
        }
        let (child_offset, r_prev_offset, rec_w_log) = pack_arm(
            &child_layouts[0],
            &r_prev_layouts[0],
            Ghost(child_layouts@),
            Ghost(r_prev_layouts@),
            Ghost(0),
        );
        if child_layouts.len() == 2 {
            let (other_child, other_r_prev, other_w_log) = pack_arm(
                &child_layouts[1],
                &r_prev_layouts[1],
                Ghost(child_layouts@),
                Ghost(r_prev_layouts@),
                Ghost(1),
            );
            if other_child != child_offset || other_r_prev != r_prev_offset || other_w_log
                != rec_w_log {
                return Err(RegionSidecarError::UnsupportedVkShape);
            }
        }
        Ok(
            HistoryStepParentGeometry {
                carrier,
                child_layouts,
                r_prev_layouts,
                child_offset,
                r_prev_offset,
                rec_w_log,
            },
        )
    }

    pub fn tier_count(&self) -> (r: usize)
        ensures
            r == self.child_layouts@.len(),
    {
        self.child_layouts.len()
    }

    /// The schedule of the child transcript of a tier.
    pub fn child_layout(&self, slot: usize) -> (r: Option<&DuplexLayout>)
        ensures
            r is Some <==> slot < self.child_layouts@.len(),
            r matches Some(layout) ==> *layout == self.child_layouts@[slot as int],
    {
        if slot < self.child_layouts.len() {
            Some(&self.child_layouts[slot])
        } else {
            None
        }
    }

    /// The schedule of the enclosing transcript of a tier.
    pub fn r_prev_layout(&self, slot: usize) -> (r: Option<&DuplexLayout>)
        ensures
            r is Some <==> slot < self.r_prev_layouts@.len(),
            r matches Some(layout) ==> *layout == self.r_prev_layouts@[slot as int],
    {
        if slot < self.r_prev_layouts.len() {
            Some(&self.r_prev_layouts[slot])
        } else {
            None
        }
    }
}

fn pack_arm(
    child: &DuplexLayout,
    r_prev: &DuplexLayout,
    Ghost(children): Ghost<Seq<DuplexLayout>>,
    Ghost(r_prevs): Ghost<Seq<DuplexLayout>>,
    Ghost(arm): Ghost<int>,
) -> (r: (usize, usize, usize))
    requires
        0 <= arm < children.len(),
        arm < r_prevs.len(),
        *child == children[arm],
        *r_prev == r_prevs[arm],
        ceil_pow2(total(block_sizes(arm_lengths(children, r_prevs, arm)), 2)) <= usize::MAX,
    ensures
        arm_packed(children, r_prevs, arm, r.0 as int, r.1 as int, r.2 as int),
{
    let mut lengths: Vec<usize> = Vec::new();
    lengths.push(child.slots.len());
    lengths.push(r_prev.slots.len());
    assert(lengths@ =~= arm_lengths(children, r_prevs, arm));
    let packing = pack_recording_only_blocks(&lengths);
    let ghost sizes = block_sizes(lengths@);
    assert(packing.sizes@[0] == sizes[0] && packing.sizes@[1] == sizes[1]);
    (packing.offsets[0], packing.offsets[1], packing.w_log)
}

/// Two carriers of the same tiers have the same shapes.
proof fn lemma_same_carrier(
    x: HistoryStepPcsCarrierGeometry,
    y: HistoryStepPcsCarrierGeometry,
    params: Seq<PcsParams>,
    log_packing: int,
    max_lanes: int,
)
    requires
        carrier_of(x, params, log_packing),
        carrier_of(y, params, log_packing),
    ensures
        x.positions() == y.positions(),
        x.leaves_fit(max_lanes) <==> y.leaves_fit(max_lanes),
        x.paths_fit() <==> y.paths_fit(),
{
    assert forall|g: int| 0 <= g < params.len() implies (#[trigger] x.groups@[g])@
        == y.groups@[g]@ by {
        assert(x.groups@[g]@ =~= y.groups@[g]@);
    }
    lemma_same_longest(x.groups@, y.groups@, params.len());
    assert forall|p: int| 0 <= p implies first_with(x.groups@, p, 0) == first_with(
        y.groups@,
        p,
        0,
    ) && #[trigger] x.depth_at(p) == y.depth_at(p) by {
        lemma_same_first(x.groups@, y.groups@, p, 0);
        lemma_same_deepest(x.groups@, y.groups@, p, params.len());
    }
    assert forall|p: int| 0 <= p < x.positions() implies (#[trigger] x.lanes_agree(p, max_lanes)
        <==> y.lanes_agree(p, max_lanes)) by {
        lemma_same_first(x.groups@, y.groups@, p, 0);
        crate::parent_geometry::lemma_position_present(x, p);
        assert(x.lanes_at(p) == y.lanes_at(p));
        if x.lanes_agree(p, max_lanes) {
            assert forall|g: int|
                0 <= g < y.groups@.len() && p < (#[trigger] y.groups@[g])@.len() implies y.groups@[g]@[p].lanes
                == y.lanes_at(p) by {
                assert(x.groups@[g]@ == y.groups@[g]@);
            }
        }
        if y.lanes_agree(p, max_lanes) {
            assert forall|g: int|
                0 <= g < x.groups@.len() && p < (#[trigger] x.groups@[g])@.len() implies x.groups@[g]@[p].lanes
                == x.lanes_at(p) by {
                assert(x.groups@[g]@ == y.groups@[g]@);
            }
        }
    }
    if x.leaves_fit(max_lanes) {
        assert forall|p: int| 0 <= p < y.positions() implies #[trigger] y.lanes_agree(
            p,
            max_lanes,
        ) by {
            assert(x.lanes_agree(p, max_lanes));
        }
    }
    if x.paths_fit() {
        assert forall|p: int| 0 <= p < y.positions() implies #[trigger] y.depth_at(p) > 0 by {
            assert(x.depth_at(p) > 0);
        }
    }
    if y.paths_fit() {
        assert forall|p: int| 0 <= p < x.positions() implies #[trigger] x.depth_at(p) > 0 by {
            assert(y.depth_at(p) > 0);
        }
    }
}

proof fn lemma_same_longest(x: Seq<Vec<TreeInfo>>, y: Seq<Vec<TreeInfo>>, n: nat)
    requires
        x.len() == y.len(),
        n <= x.len(),
        forall|g: int| 0 <= g < x.len() ==> (#[trigger] x[g])@ == y[g]@,
    ensures
        longest_group(x, n) == longest_group(y, n),
    decreases n,
{
    if n > 0 {
        lemma_same_longest(x, y, (n - 1) as nat);
        assert(x[n - 1]@ == y[n - 1]@);
    }
}

proof fn lemma_same_first(x: Seq<Vec<TreeInfo>>, y: Seq<Vec<TreeInfo>>, p: int, from: int)
    requires
        x.len() == y.len(),
        0 <= from,
        forall|g: int| 0 <= g < x.len() ==> (#[trigger] x[g])@ == y[g]@,
    ensures
        first_with(x, p, from) == first_with(y, p, from),
    decreases x.len() - from,
{
    if from < x.len() {
        assert(x[from]@ == y[from]@);
        lemma_same_first(x, y, p, from + 1);
    }
}

proof fn lemma_same_deepest(x: Seq<Vec<TreeInfo>>, y: Seq<Vec<TreeInfo>>, p: int, n: nat)
    requires
        x.len() == y.len(),
        n <= x.len(),
        forall|g: int| 0 <= g < x.len() ==> (#[trigger] x[g])@ == y[g]@,
    ensures
        deepest(x, p, n) == deepest(y, p, n),
    decreases n,
{
    if n > 0 {
        lemma_same_deepest(x, y, p, (n - 1) as nat);
        assert(x[n - 1]@ == y[n - 1]@);
    }
}

/// A recorded transcript: its schedule, the data it absorbed, the challenges
/// it squeezed where they are known, its last state and its permutations.
pub struct LayoutRecordedChannel {
    pub layout: DuplexLayout,
    pub data: Vec<F128>,
    pub challenges: Vec<Option<F128>>,
    pub post_state: Vec<F128>,
    pub perms: usize,
}

/// Every recording has the schedule of its tier and as many data lanes.
pub open spec fn recordings_fit(
    recordings: Seq<LayoutRecordedChannel>,
    layouts: Seq<DuplexLayout>,
) -> bool {
    forall|i: int|
        0 <= i < recordings.len() ==> (#[trigger] recordings[i]).layout.same(&layouts[i])
            && recordings[i].data@.len() == layouts[i].n_data
}

fn check_recordings(recordings: &Vec<LayoutRecordedChannel>, layouts: &Vec<DuplexLayout>) -> (r:
    bool)
    requires
        recordings@.len() == layouts@.len(),
    ensures
        r == recordings_fit(recordings@, layouts@),
{
    let mut i: usize = 0;
    while i < recordings.len()
        invariant
            i <= recordings@.len(),
            recordings@.len() == layouts@.len(),
            forall|k: int|
                0 <= k < i ==> (#[trigger] recordings@[k]).layout.same(&layouts@[k])
                    && recordings@[k].data@.len() == layouts@[k].n_data,
        decreases recordings@.len() - i,
    {
        if !same_layout(&recordings[i].layout, &layouts[i]) || recordings[i].data.len()
            != layouts[i].n_data {
            assert(!(recordings@[i as int].layout.same(&layouts@[i as int])
                && recordings@[i as int].data@.len() == layouts@[i as int].n_data));
            return false;
        }
        i = i + 1;
    }
    true
}

impl HistoryStepParentGeometry {
    /// The recordings of all tiers can feed this geometry.
    pub open spec fn accepts_recordings(
        &self,
        children: Seq<LayoutRecordedChannel>,
        r_prev: Seq<LayoutRecordedChannel>,
        active: int,
    ) -> bool {
        &&& children.len() == self.child_layouts@.len()
        &&& r_prev.len() == self.r_prev_layouts@.len()
        &&& active < self.child_layouts@.len()
        &&& recordings_fit(children, self.child_layouts@)
        &&& recordings_fit(r_prev, self.r_prev_layouts@)
    }

    /// The two recordings of the active tier that the recordings walk carries:
    /// the child transcript, then the enclosing one.
    pub fn selected_recordings(
        &self,
        children: &Vec<LayoutRecordedChannel>,
        r_prev: &Vec<LayoutRecordedChannel>,
        active_slot: usize,
        iv: DigestPair,
    ) -> (r: Result<Vec<RecordingSpec>, RegionSidecarError>)
        requires
            self.child_layouts@.len() == self.r_prev_layouts@.len(),
        ensures
            !self.accepts_recordings(children@, r_prev@, active_slot as int) ==> r == Err::<
                Vec<RecordingSpec>,
                _,
            >(RegionSidecarError::UnsupportedVkShape),
            self.accepts_recordings(children@, r_prev@, active_slot as int) ==> {
                &&& r is Ok
                &&& r->Ok_0@.len() == 2
                &&& r->Ok_0@[0].layout.same(&children@[active_slot as int].layout)
                &&& r->Ok_0@[1].layout.same(&r_prev@[active_slot as int].layout)
                &&& r->Ok_0@[0].iv == iv
                &&& r->Ok_0@[1].iv == iv
            },
    {
        if children.len() != self.child_layouts.len() || r_prev.len() != self.child_layouts.len()
            || active_slot >= self.child_layouts.len() {
            return Err(RegionSidecarError::UnsupportedVkShape);
        }
        if !check_recordings(children, &self.child_layouts) || !check_recordings(
            r_prev,
            &self.r_prev_layouts,
        ) {
            return Err(RegionSidecarError::UnsupportedVkShape);
        }
        let mut r: Vec<RecordingSpec> = Vec::new();
        r.push(RecordingSpec { layout: children[active_slot].layout.copy(), iv });
        r.push(RecordingSpec { layout: r_prev[active_slot].layout.copy(), iv });
        Ok(r)
    }

    /// The data streams of the two recordings of the active tier, in the order
    /// of `selected_recordings`.
    pub fn selected_streams(
        &self,
        children: &Vec<LayoutRecordedChannel>,
        r_prev: &Vec<LayoutRecordedChannel>,
        active_slot: usize,
    ) -> (r: Result<Vec<Vec<F128>>, RegionSidecarError>)
        requires
            self.child_layouts@.len() == self.r_prev_layouts@.len(),
        ensures
            !self.accepts_recordings(children@, r_prev@, active_slot as int) ==> r == Err::<
                Vec<Vec<F128>>,
                _,
            >(RegionSidecarError::UnsupportedVkShape),
            self.accepts_recordings(children@, r_prev@, active_slot as int) ==> {
                &&& r is Ok
                &&& r->Ok_0@.len() == 2
                &&& r->Ok_0@[0]@ == children@[active_slot as int].data@
                &&& r->Ok_0@[1]@ == r_prev@[active_slot as int].data@
            },
    {
        if children.len() != self.child_layouts.len() || r_prev.len() != self.child_layouts.len()
            || active_slot >= self.child_layouts.len() {
            return Err(RegionSidecarError::UnsupportedVkShape);
        }
        if !check_recordings(children, &self.child_layouts) || !check_recordings(
            r_prev,
            &self.r_prev_layouts,
        ) {
            return Err(RegionSidecarError::UnsupportedVkShape);
        }
        let mut r: Vec<Vec<F128>> = Vec::new();
        r.push(copy_stream(&children[active_slot].data));
        r.push(copy_stream(&r_prev[active_slot].data));
        Ok(r)
    }

    /// The geometry of a single parent tier.
    pub fn single(
        params: PcsParams,
        child_layout: DuplexLayout,
        r_prev_layout: DuplexLayout,
        log_packing: usize,
        max_lanes: usize,
    ) -> (r: Result<HistoryStepParentGeometry, RegionSidecarError>)
        requires
            forall|i: int|
                0 <= i < params.arities@.len() ==> pow2((#[trigger] params.arities@[i] + 1) as nat)
                    <= usize::MAX,
            ceil_pow2(
                total(
                    block_sizes(arm_lengths(seq![child_layout], seq![r_prev_layout], 0)),
                    2,
                ),
            ) <= usize::MAX,
        ensures
            forall|carrier: HistoryStepPcsCarrierGeometry| #[trigger]
                carrier_of(carrier, seq![params], log_packing as int) ==> (
                HistoryStepParentGeometry::refused(
                    seq![params],
                    seq![child_layout],
                    seq![r_prev_layout],
                    log_packing as int,
                    max_lanes as int,
                    carrier,
                ) matches Some(error) ==> r == Err::<HistoryStepParentGeometry, _>(error)),
            r matches Ok(geometry) ==> {
                &&& carrier_of(geometry.carrier, seq![params], log_packing as int)
                &&& HistoryStepParentGeometry::refused(
                    seq![params],
                    seq![child_layout],
                    seq![r_prev_layout],
                    log_packing as int,
                    max_lanes as int,
                    geometry.carrier,
                ) is None
                &&& geometry.child_layouts@ == seq![child_layout]
                &&& geometry.r_prev_layouts@ == seq![r_prev_layout]
                &&& arm_packed(
                    seq![child_layout],
                    seq![r_prev_layout],
                    0,
                    geometry.child_offset as int,
                    geometry.r_prev_offset as int,
                    geometry.rec_w_log as int,
                )
            },
            r matches Err(error) ==> {
                ||| !lists_fit(seq![params], seq![child_layout], seq![r_prev_layout]) && error
                    == RegionSidecarError::BadVk
                ||| lists_fit(seq![params], seq![child_layout], seq![r_prev_layout])
                    && !queries_agree(seq![params]) && error
                    == RegionSidecarError::UnsupportedVkShape
                ||| lists_fit(seq![params], seq![child_layout], seq![r_prev_layout])
                    && queries_agree(seq![params]) && ladders_error(
                    seq![params],
                    log_packing as int,
                    max_lanes as int,
                    0,
                ) == Some(error)
                ||| exists|carrier: HistoryStepPcsCarrierGeometry| #[trigger]
                    carrier_of(carrier, seq![params], log_packing as int)
                        && HistoryStepParentGeometry::refused(
                        seq![params],
                        seq![child_layout],
                        seq![r_prev_layout],
                        log_packing as int,
                        max_lanes as int,
                        carrier,
                    ) == Some(error)
            },
    {
        let mut list: Vec<PcsParams> = Vec::new();
        list.push(params);
        let mut children: Vec<DuplexLayout> = Vec::new();
        children.push(child_layout);
        let mut r_prev: Vec<DuplexLayout> = Vec::new();
        r_prev.push(r_prev_layout);
        assert(list@ =~= seq![params]);
        assert(children@ =~= seq![child_layout]);
        assert(r_prev@ =~= seq![r_prev_layout]);
        HistoryStepParentGeometry::from_parts(&list, children, r_prev, log_packing, max_lanes)
    }

    /// The geometry of a bank with one tier per class.
    pub fn new(
        params: &Vec<PcsParams>,
        child_layouts: Vec<DuplexLayout>,
        r_prev_layouts: Vec<DuplexLayout>,
        tier_count: usize,
        log_packing: usize,
        max_lanes: usize,
    ) -> (r: Result<HistoryStepParentGeometry, RegionSidecarError>)
        requires
            forall|g: int, i: int|
                0 <= g < params@.len() && 0 <= i < params@[g].arities@.len() ==> pow2(
                    (#[trigger] params@[g].arities@[i] + 1) as nat,
                ) <= usize::MAX,
            forall|arm: int|
                0 <= arm < child_layouts@.len() && arm < r_prev_layouts@.len() ==> ceil_pow2(
                    total(
                        block_sizes(
                            #[trigger] arm_lengths(child_layouts@, r_prev_layouts@, arm),
                        ),
                        2,
                    ),
                ) <= usize::MAX,
        ensures
            params@.len() != tier_count || child_layouts@.len() != tier_count
                || r_prev_layouts@.len() != tier_count ==> r == Err::<HistoryStepParentGeometry, _>(
                RegionSidecarError::BadVk,
            ),
            forall|carrier: HistoryStepPcsCarrierGeometry| #[trigger]
                carrier_of(carrier, params@, log_packing as int) && params@.len() == tier_count
                    && child_layouts@.len() == tier_count && r_prev_layouts@.len() == tier_count
                    ==> (HistoryStepParentGeometry::refused(
                    params@,
                    child_layouts@,
                    r_prev_layouts@,
                    log_packing as int,
                    max_lanes as int,
                    carrier,
                ) matches Some(error) ==> r == Err::<HistoryStepParentGeometry, _>(error)),
            r matches Ok(geometry) ==> {
                &&& carrier_of(geometry.carrier, params@, log_packing as int)
                &&& HistoryStepParentGeometry::refused(
                    params@,
                    child_layouts@,
                    r_prev_layouts@,
                    log_packing as int,
                    max_lanes as int,
                    geometry.carrier,
                ) is None
                &&& geometry.child_layouts@ == child_layouts@
                &&& geometry.r_prev_layouts@ == r_prev_layouts@
                &&& child_layouts@.len() == tier_count
                &&& forall|arm: int|
                    0 <= arm < child_layouts@.len() ==> #[trigger] arm_packed(
                        child_layouts@,
                        r_prev_layouts@,
                        arm,
                        geometry.child_offset as int,
                        geometry.r_prev_offset as int,
                        geometry.rec_w_log as int,
                    )
            },
            params@.len() == tier_count && child_layouts@.len() == tier_count
                && r_prev_layouts@.len() == tier_count ==> (r matches Err(error) ==> {
                ||| !lists_fit(params@, child_layouts@, r_prev_layouts@) && error
                    == RegionSidecarError::BadVk
                ||| lists_fit(params@, child_layouts@, r_prev_layouts@) && !queries_agree(params@)
                    && error == RegionSidecarError::UnsupportedVkShape
                ||| lists_fit(params@, child_layouts@, r_prev_layouts@) && queries_agree(params@)
                    && ladders_error(params@, log_packing as int, max_lanes as int, 0) == Some(
                    error,
                )
                ||| exists|carrier: HistoryStepPcsCarrierGeometry| #[trigger]
                    carrier_of(carrier, params@, log_packing as int)
                        && HistoryStepParentGeometry::refused(
                        params@,
                        child_layouts@,
                        r_prev_layouts@,
                        log_packing as int,
                        max_lanes as int,
                        carrier,
                    ) == Some(error)
            }),
    {
        if params.len() != tier_count || child_layouts.len() != tier_count
            || r_prev_layouts.len() != tier_count {
            return Err(RegionSidecarError::BadVk);
        }
        HistoryStepParentGeometry::from_parts(
            params,
            child_layouts,
            r_prev_layouts,
            log_packing,
            max_lanes,
        )
    }
}

fn copy_stream(data: &Vec<F128>) -> (r: Vec<F128>)
    ensures
        r@ == data@,
{
    let mut r: Vec<F128> = Vec::with_capacity(data.len());
    let mut i: usize = 0;
    while i < data.len()
        invariant
            i <= data@.len(),
            r@ == data@.take(i as int),
        decreases data@.len() - i,
    {
        r.push(data[i]);
        i = i + 1;
        assert(r@ =~= data@.take(i as int));
    }
    assert(r@ =~= data@);
    r
}

/// One opened query of a proof: the lanes of its leaf and the siblings of its
/// path in every tree, and its position.
pub struct LinkQuery {
    pub leaves: Vec<Vec<F128>>,
    pub paths: Vec<Vec<DigestPair>>,
    pub position: usize,
}

/// The commitment side of one verified proof: its trees, the encoding of its
/// parameters, its queries, the digests of all leaves of every query, and the
/// committed root of every tree.
pub struct LinkProof {
    pub trees: Vec<TreeInfo>,
    pub statement: Vec<u8>,
    pub queries: Vec<LinkQuery>,
    pub digests: Vec<Vec<DigestPair>>,
    pub roots: Vec<DigestPair>,
}

/// The proofs and the tiers they claim can share the carrier.
pub open spec fn roles_fit(
    proofs: Seq<LinkProof>,
    carrier: HistoryStepPcsCarrierGeometry,
    active: Seq<usize>,
) -> bool {
    &&& 0 < proofs.len() <= 2
    &&& proofs.len() == active.len()
    &&& proofs.len() == carrier.proof_roles
    &&& forall|i: int| 0 <= i < active.len() ==> #[trigger] active[i] < carrier.groups@.len()
    &&& (proofs.len() == 2 ==> active[0] == 0 && active[1] != 0)
}

/// A proof has the queries, the trees and the parameters of its tier.
pub open spec fn proof_fits(
    proof: LinkProof,
    carrier: HistoryStepPcsCarrierGeometry,
    statements: Seq<Vec<u8>>,
    group: int,
) -> bool {
    &&& proof.queries@.len() == carrier.n_queries
    &&& proof.trees@ == carrier.groups@[group]@
    &&& proof.statement@ == statements[group]@
}

fn same_trees(x: &Vec<TreeInfo>, y: &Vec<TreeInfo>) -> (r: bool)
    ensures
        r == (x@ == y@),
{
    if x.len() != y.len() {
        return false;
    }
    let mut i: usize = 0;
    while i < x.len()
        invariant
            i <= x@.len(),
            x@.len() == y@.len(),
            forall|k: int| 0 <= k < i ==> x@[k] == #[trigger] y@[k],
        decreases x@.len() - i,
    {
        if x[i] != y[i] {
            assert(x@[i as int] != y@[i as int]);
            return false;
        }
        i = i + 1;
    }
    assert(x@ =~= y@);
    true
}

fn same_bytes(x: &Vec<u8>, y: &Vec<u8>) -> (r: bool)
    ensures
        r == (x@ == y@),
{
    if x.len() != y.len() {
        return false;
    }
    let mut i: usize = 0;
    while i < x.len()
        invariant
            i <= x@.len(),
            x@.len() == y@.len(),
            forall|k: int| 0 <= k < i ==> x@[k] == #[trigger] y@[k],
        decreases x@.len() - i,
    {
        if x[i] != y[i] {
            assert(x@[i as int] != y@[i as int]);
            return false;
        }
        i = i + 1;
    }
    assert(x@ =~= y@);
    true
}

/// Checks that proofs and their claimed tiers can ride the carrier.
pub fn check_link_proofs(
    proofs: &Vec<LinkProof>,
    carrier: &HistoryStepPcsCarrierGeometry,
    statements: &Vec<Vec<u8>>,
    active: &Vec<usize>,
) -> (r: Result<(), RegionSidecarError>)
    requires
        statements@.len() == carrier.groups@.len(),
    ensures
        r == if roles_fit(proofs@, *carrier, active@) && forall|i: int|
            0 <= i < proofs@.len() ==> proof_fits(
                #[trigger] proofs@[i],
                *carrier,
                statements@,
                active@[i] as int,
            ) {
            Ok::<(), RegionSidecarError>(())
        } else {
            Err::<(), _>(RegionSidecarError::UnsupportedVkShape)
        },
{
    if proofs.len() == 0 || proofs.len() != active.len() || proofs.len() != carrier.proof_roles
        || proofs.len() > 2 {
        return Err(RegionSidecarError::UnsupportedVkShape);
    }
    let mut i: usize = 0;
    while i < active.len()
        invariant
            i <= active@.len(),
            forall|k: int| 0 <= k < i ==> #[trigger] active@[k] < carrier.groups@.len(),
        decreases active@.len() - i,
    {
        if active[i] >= carrier.groups.len() {
            assert(!(active@[i as int] < carrier.groups@.len()));
            return Err(RegionSidecarError::UnsupportedVkShape);
        }
        i = i + 1;
    }
    if proofs.len() == 2 && (active[0] != 0 || active[1] == 0) {
        return Err(RegionSidecarError::UnsupportedVkShape);
    }
    let mut i: usize = 0;
    while i < proofs.len()
        invariant
            i <= proofs@.len(),
            roles_fit(proofs@, *carrier, active@),
            statements@.len() == carrier.groups@.len(),
            forall|k: int|
                0 <= k < i ==> proof_fits(
                    #[trigger] proofs@[k],
                    *carrier,
                    statements@,
                    active@[k] as int,
                ),
        decreases proofs@.len() - i,
    {
        let group = active[i];
        assert(active@[i as int] < carrier.groups@.len());
        if proofs[i].queries.len() != carrier.n_queries || !same_trees(
            &proofs[i].trees,
            &carrier.groups[group],
        ) || !same_bytes(&proofs[i].statement, &statements[group]) {
            assert(!proof_fits(proofs@[i as int], *carrier, statements@, group as int));
            return Err(RegionSidecarError::UnsupportedVkShape);
        }
        i = i + 1;
    }
    Ok(())
}

/// The data stream of tree `tree` of a query: the lanes of its leaf, or zeros
/// where the proof's tier has no such tree.
pub open spec fn tile_stream(
    proof: LinkProof,
    query: int,
    tree: int,
    lanes: Seq<usize>,
    stream: Seq<F128>,
) -> bool {
    if tree < proof.trees@.len() {
        stream == proof.queries@[query].leaves@[tree]@
    } else {
        stream.len() == lanes[tree] && forall|i: int|
            0 <= i < stream.len() ==> (#[trigger] stream[i])@ == 0
    }
}

/// A query opens a leaf of the right width in every tree of its tier.
pub open spec fn leaves_open(proof: LinkProof, query: int) -> bool {
    forall|tree: int|
        0 <= tree < proof.trees@.len() ==> (
        #[trigger] proof.queries@[query].leaves@[tree])@.len() == proof.trees@[tree].lanes
}

/// The opened leaves of a query, one stream per tree position.
fn query_tile(proof: &LinkProof, query: usize, lanes: &Vec<usize>) -> (r: Result<
    Vec<Vec<F128>>,
    RegionSidecarError,
>)
    requires
        query < proof.queries@.len(),
        proof.trees@.len() <= lanes@.len(),
        proof.queries@[query as int].leaves@.len() >= proof.trees@.len(),
    ensures
        !leaves_open(*proof, query as int) ==> r == Err::<Vec<Vec<F128>>, _>(
            RegionSidecarError::UnsupportedVkShape,
        ),
        leaves_open(*proof, query as int) ==> r is Ok && r->Ok_0@.len() == lanes@.len() && forall|
            tree: int,
        |
            0 <= tree < lanes@.len() ==> tile_stream(
                *proof,
                query as int,
                tree,
                lanes@,
                (#[trigger] r->Ok_0@[tree])@,
            ),
{
    let mut tile: Vec<Vec<F128>> = Vec::new();
    let mut tree: usize = 0;
    while tree < lanes.len()
        invariant
            tree <= lanes@.len(),
            query < proof.queries@.len(),
            proof.trees@.len() <= lanes@.len(),
            proof.queries@[query as int].leaves@.len() >= proof.trees@.len(),
            tile@.len() == tree,
            forall|k: int|
                0 <= k < tree && k < proof.trees@.len() ==> (
                #[trigger] proof.queries@[query as int].leaves@[k])@.len()
                    == proof.trees@[k].lanes,
            forall|k: int|
                0 <= k < tree ==> tile_stream(
                    *proof,
                    query as int,
                    k,
                    lanes@,
                    (#[trigger] tile@[k])@,
                ),
        decreases lanes@.len() - tree,
    {
        let mut stream: Vec<F128> = Vec::new();
        if tree < proof.trees.len() {
            let leaf = &proof.queries[query].leaves[tree];
            if leaf.len() != proof.trees[tree].lanes {
                assert(proof.queries@[query as int].leaves@[tree as int]@.len()
                    != proof.trees@[tree as int].lanes);
                return Err(RegionSidecarError::UnsupportedVkShape);
            }
            let mut i: usize = 0;
            while i < leaf.len()
                invariant
                    i <= leaf@.len(),
                    stream@ == leaf@.take(i as int),
                decreases leaf@.len() - i,
            {
                stream.push(leaf[i]);
                i = i + 1;
                assert(stream@ =~= leaf@.take(i as int));
            }
            assert(stream@ =~= leaf@);
        } else {
            let n = lanes[tree];
            let mut i: usize = 0;
            while i < n
                invariant
                    i <= n,
                    stream@.len() == i,
                    forall|k: int| 0 <= k < i ==> (#[trigger] stream@[k])@ == 0,
                decreases n - i,
            {
                stream.push(F128::zero());
                i = i + 1;
            }
        }
        tile.push(stream);
        tree = tree + 1;
    }
    Ok(tile)
}

/// Every query of every proof opens its leaves.
pub open spec fn all_leaves_open(proofs: Seq<LinkProof>) -> bool {
    forall|p: int, q: int|
        0 <= p < proofs.len() && 0 <= q < proofs[p].queries@.len() ==> #[trigger] leaves_open(
            proofs[p],
            q,
        )
}

/// The data streams of all queries of all proofs, proof by proof: one row per
/// query, one stream per tree position.
pub fn link_tiles(proofs: &Vec<LinkProof>, n_queries: usize, lanes: &Vec<usize>) -> (r: Result<
    Vec<Vec<Vec<F128>>>,
    RegionSidecarError,
>)
    requires
        proofs@.len() * n_queries <= usize::MAX,
        forall|p: int|
            0 <= p < proofs@.len() ==> (#[trigger] proofs@[p]).queries@.len() == n_queries
                && proofs@[p].trees@.len() <= lanes@.len(),
        forall|p: int, q: int|
            0 <= p < proofs@.len() && 0 <= q < n_queries ==> (
            #[trigger] proofs@[p].queries@[q]).leaves@.len() >= proofs@[p].trees@.len(),
    ensures
        !all_leaves_open(proofs@) ==> r == Err::<Vec<Vec<Vec<F128>>>, _>(
            RegionSidecarError::UnsupportedVkShape,
        ),
        all_leaves_open(proofs@) ==> {
            &&& r is Ok
            &&& r->Ok_0@.len() == proofs@.len() * n_queries
            &&& forall|p: int, q: int|
                #![trigger r->Ok_0@[p * n_queries + q]]
                0 <= p < proofs@.len() && 0 <= q < n_queries ==> r->Ok_0@[p * n_queries
                    + q]@.len() == lanes@.len()
            &&& forall|p: int, q: int, tree: int|
                0 <= p < proofs@.len() && 0 <= q < n_queries && 0 <= tree < lanes@.len()
                    ==> tile_stream(
                    proofs@[p],
                    q,
                    tree,
                    lanes@,
                    (#[trigger] r->Ok_0@[p * n_queries + q]@[tree])@,
                )
        },
{
    let mut tiles: Vec<Vec<Vec<F128>>> = Vec::new();
    let mut p: usize = 0;
    assert(0 * n_queries == 0);
    while p < proofs.len()
        invariant
            p <= proofs@.len(),
            proofs@.len() * n_queries <= usize::MAX,
            forall|k: int|
                0 <= k < proofs@.len() ==> (#[trigger] proofs@[k]).queries@.len() == n_queries
                    && proofs@[k].trees@.len() <= lanes@.len(),
            forall|k: int, q: int|
                0 <= k < proofs@.len() && 0 <= q < n_queries ==> (
                #[trigger] proofs@[k].queries@[q]).leaves@.len() >= proofs@[k].trees@.len(),
            tiles@.len() == p * n_queries,
            forall|k: int, q: int|
                0 <= k < p && 0 <= q < n_queries ==> #[trigger] leaves_open(proofs@[k], q),
            forall|k: int, q: int|
                #![trigger tiles@[k * n_queries + q]]
                0 <= k < p && 0 <= q < n_queries ==> tiles@[k * n_queries + q]@.len()
                    == lanes@.len(),
            forall|k: int, q: int, tree: int|
                0 <= k < p && 0 <= q < n_queries && 0 <= tree < lanes@.len() ==> tile_stream(
                    proofs@[k],
                    q,
                    tree,
                    lanes@,
                    (#[trigger] tiles@[k * n_queries + q]@[tree])@,
                ),
        decreases proofs@.len() - p,
    {
        let mut q: usize = 0;
        let ghost start = tiles@;
        assert(proofs@[p as int].queries@.len() == n_queries);
        while q < n_queries
            invariant
                p < proofs@.len(),
                q <= n_queries,
                start.len() == p * n_queries,
                proofs@[p as int].queries@.len() == n_queries,
                proofs@[p as int].trees@.len() <= lanes@.len(),
                forall|k: int, l: int|
                    0 <= k < proofs@.len() && 0 <= l < n_queries ==> (
                    #[trigger] proofs@[k].queries@[l]).leaves@.len() >= proofs@[k].trees@.len(),
                tiles@.len() == p * n_queries + q,
                forall|i: int| 0 <= i < start.len() ==> #[trigger] tiles@[i] == start[i],
                forall|l: int| 0 <= l < q ==> #[trigger] leaves_open(proofs@[p as int], l),
                forall|l: int|
                    #![trigger tiles@[p * n_queries + l]]
                    0 <= l < q ==> tiles@[p * n_queries + l]@.len() == lanes@.len(),
                forall|l: int, tree: int|
                    0 <= l < q && 0 <= tree < lanes@.len() ==> tile_stream(
                        proofs@[p as int],
                        l,
                        tree,
                        lanes@,
                        (#[trigger] tiles@[p * n_queries + l]@[tree])@,
                    ),
            decreases n_queries - q,
        {
            assert(proofs@[p as int].queries@[q as int].leaves@.len()
                >= proofs@[p as int].trees@.len());
            match query_tile(&proofs[p], q, lanes) {
                Ok(tile) => {
                    tiles.push(tile);
                },
                Err(error) => {
                    assert(!leaves_open(proofs@[p as int], q as int));
                    return Err(error);
                },
            }
            q = q + 1;
        }
        proof {
            assert((p + 1) * n_queries == p * n_queries + n_queries) by (nonlinear_arith);
            assert forall|k: int, l: int|
                #![trigger tiles@[k * n_queries + l]]
                0 <= k < p + 1 && 0 <= l < n_queries implies tiles@[k * n_queries + l]@.len()
                == lanes@.len() by {
                if k < p {
                    assert(k * n_queries + l < p * n_queries) by (nonlinear_arith)
                        requires
                            k + 1 <= p,
                            l < n_queries,
                    ;
                    assert(k * n_queries >= 0) by (nonlinear_arith)
                        requires
                            k >= 0,
                    ;
                    assert(tiles@[k * n_queries + l] == start[k * n_queries + l]);
                }
            }
            assert forall|k: int, l: int, tree: int|
                0 <= k < p + 1 && 0 <= l < n_queries && 0 <= tree < lanes@.len() implies tile_stream(
                proofs@[k],
                l,
                tree,
                lanes@,
                (#[trigger] tiles@[k * n_queries + l]@[tree])@,
            ) by {
                if k < p {
                    assert(k * n_queries + l < p * n_queries) by (nonlinear_arith)
                        requires
                            k + 1 <= p,
                            l < n_queries,
                    ;
                    assert(k * n_queries >= 0) by (nonlinear_arith)
                        requires
                            k >= 0,
                    ;
                    assert(tiles@[k * n_queries + l] == start[k * n_queries + l]);
                }
            }
        }
        p = p + 1;
    }
    Ok(tiles)
}

/// A path without opened siblings: all levels left, all siblings zero.
pub open spec fn blank_levels(w: MerklePathWitness, depth: int) -> bool {
    &&& w.siblings@.len() == depth
    &&& w.directions@.len() == depth
    &&& forall|l: int|
        0 <= l < depth ==> (#[trigger] w.siblings@[l]).a@ == 0 && w.siblings@[l].b@ == 0
    &&& forall|l: int| 0 <= l < depth ==> !#[trigger] w.directions@[l]
}

/// The path of a query in tree `tree`, on a carrier of `depth` levels: its own
/// siblings and the bits of its position on the levels of its tree, and blank
/// levels above; a blank path if its tier has no such tree.
pub open spec fn query_path(
    proof: LinkProof,
    query: int,
    tree: int,
    depth: int,
    w: MerklePathWitness,
) -> bool {
    &&& w.entry == proof.digests@[query]@[tree]
    &&& if tree < proof.trees@.len() {
        let own = proof.queries@[query].paths@[tree]@;
        let levels = proof.trees@[tree].depth as int;
        let offset = proof.trees@[0].depth - levels;
        &&& w.siblings@.len() == depth
        &&& w.directions@.len() == depth
        &&& forall|l: int|
            0 <= l < depth ==> if l < own.len() {
                #[trigger] w.siblings@[l] == own[l]
            } else {
                w.siblings@[l].a@ == 0 && w.siblings@[l].b@ == 0
            }
        &&& forall|l: int|
            0 <= l < depth ==> #[trigger] w.directions@[l] == (l < levels && index_bit(
                proof.queries@[query].position as int,
                offset + l,
            ))
    } else {
        blank_levels(w, depth)
    }
}

/// A carried path: the query's own for the first `live` paths, a blank path
/// from zero after them.
pub open spec fn carried_path(
    proofs: Seq<LinkProof>,
    n_queries: int,
    live: int,
    tree: int,
    depth: int,
    block: int,
    w: MerklePathWitness,
) -> bool {
    if block < live {
        query_path(proofs[block / n_queries], block % n_queries, tree, depth, w)
    } else {
        &&& w.entry.a@ == 0
        &&& w.entry.b@ == 0
        &&& blank_levels(w, depth)
    }
}

fn blank_path(entry: DigestPair, depth: usize) -> (w: MerklePathWitness)
    ensures
        w.entry == entry,
        blank_levels(w, depth as int),
{
    let mut siblings: Vec<DigestPair> = Vec::new();
    let mut directions: Vec<bool> = Vec::new();
    let mut l: usize = 0;
    while l < depth
        invariant
            l <= depth,
            siblings@.len() == l,
            directions@.len() == l,
            forall|k: int|
                0 <= k < l ==> (#[trigger] siblings@[k]).a@ == 0 && siblings@[k].b@ == 0,
            forall|k: int| 0 <= k < l ==> !#[trigger] directions@[k],
        decreases depth - l,
    {
        siblings.push(DigestPair { a: F128::zero(), b: F128::zero() });
        directions.push(false);
        l = l + 1;
    }
    MerklePathWitness { entry, siblings, directions }
}

/// The proof's trees nest: none is deeper than the first, and every one has a
/// path in every query.
pub open spec fn paths_open(proof: LinkProof, positions: int) -> bool {
    &&& proof.digests@.len() == proof.queries@.len()
    &&& forall|t: int|
        0 <= t < proof.trees@.len() ==> (#[trigger] proof.trees@[t]).depth <= proof.trees@[0].depth
    &&& forall|q: int|
        0 <= q < proof.queries@.len() ==> (#[trigger] proof.queries@[q]).paths@.len()
            >= proof.trees@.len()
    &&& forall|q: int|
        0 <= q < proof.queries@.len() ==> (#[trigger] proof.digests@[q])@.len() == positions
}

fn opened_path(
    proof: &LinkProof,
    query: usize,
    tree: usize,
    depth: usize,
    Ghost(positions): Ghost<int>,
) -> (w: MerklePathWitness)
    requires
        paths_open(*proof, positions),
        query < proof.queries@.len(),
        tree < positions,
    ensures
        query_path(*proof, query as int, tree as int, depth as int, w),
{
    assert(proof.digests@[query as int]@.len() == positions);
    let entry = proof.digests[query][tree];
    if tree >= proof.trees.len() {
        return blank_path(entry, depth);
    }
    assert(proof.queries@[query as int].paths@.len() >= proof.trees@.len());
    assert(proof.trees@[tree as int].depth <= proof.trees@[0].depth);
    let own = &proof.queries[query].paths[tree];
    let levels = proof.trees[tree].depth;
    let offset: usize = proof.trees[0].depth - levels;
    let bits = index_bits(proof.queries[query].position, proof.trees[0].depth);
    let mut siblings: Vec<DigestPair> = Vec::new();
    let mut directions: Vec<bool> = Vec::new();
    let mut l: usize = 0;
    while l < depth
        invariant
            l <= depth,
            query < proof.queries@.len(),
            tree < proof.trees@.len(),
            own@ == proof.queries@[query as int].paths@[tree as int]@,
            levels == proof.trees@[tree as int].depth,
            levels <= proof.trees@[0].depth,
            offset == proof.trees@[0].depth - levels,
            bits@.len() == proof.trees@[0].depth,
            forall|k: int|
                0 <= k < bits@.len() ==> #[trigger] bits@[k] == index_bit(
                    proof.queries@[query as int].position as int,
                    k,
                ),
            siblings@.len() == l,
            directions@.len() == l,
            forall|k: int|
                0 <= k < l ==> if k < own@.len() {
                    #[trigger] siblings@[k] == own@[k]
                } else {
                    siblings@[k].a@ == 0 && siblings@[k].b@ == 0
                },
            forall|k: int|
                0 <= k < l ==> #[trigger] directions@[k] == (k < levels && index_bit(
                    proof.queries@[query as int].position as int,
                    offset + k,
                )),
        decreases depth - l,
    {
        if l < own.len() {
            siblings.push(own[l]);
        } else {
            siblings.push(DigestPair { a: F128::zero(), b: F128::zero() });
        }
        if l < levels {
            directions.push(bits[offset + l]);
        } else {
            directions.push(false);
        }
        l = l + 1;
    }
    MerklePathWitness { entry, siblings, directions }
}

/// The witnesses of all `count` paths of one tree position.
pub fn link_path_witnesses(
    proofs: &Vec<LinkProof>,
    n_queries: usize,
    tree: usize,
    depth: usize,
    count: usize,
    positions: usize,
) -> (r: Vec<MerklePathWitness>)
    requires
        n_queries > 0,
        proofs@.len() * n_queries <= count,
        tree < positions,
        forall|p: int|
            0 <= p < proofs@.len() ==> paths_open(#[trigger] proofs@[p], positions as int)
                && proofs@[p].queries@.len() == n_queries,
    ensures
        r@.len() == count,
        forall|block: int|
            0 <= block < count ==> carried_path(
                proofs@,
                n_queries as int,
                proofs@.len() * n_queries,
                tree as int,
                depth as int,
                block,
                #[trigger] r@[block],
            ),
{
    let mut r: Vec<MerklePathWitness> = Vec::new();
    let live: usize = proofs.len() * n_queries;
    let mut block: usize = 0;
    while block < count
        invariant
            block <= count,
            n_queries > 0,
            live == proofs@.len() * n_queries,
            tree < positions,
            forall|p: int|
                0 <= p < proofs@.len() ==> paths_open(#[trigger] proofs@[p], positions as int)
                    && proofs@[p].queries@.len() == n_queries,
            r@.len() == block,
            forall|k: int|
                0 <= k < block ==> carried_path(
                    proofs@,
                    n_queries as int,
                    live as int,
                    tree as int,
                    depth as int,
                    k,
                    #[trigger] r@[k],
                ),
        decreases count - block,
    {
        if block < live {
            proof {
                vstd::arithmetic::div_mod::lemma_multiply_divide_lt(
                    block as int,
                    n_queries as int,
                    proofs@.len() as int,
                );
                assert(proofs@.len() * n_queries == n_queries * proofs@.len()) by (nonlinear_arith);
                assert(paths_open(proofs@[block as int / n_queries as int], positions as int));
            }
            r.push(
                opened_path(
                    &proofs[block / n_queries],
                    block % n_queries,
                    tree,
                    depth,
                    Ghost(positions as int),
                ),
            );
        } else {
            r.push(blank_path(DigestPair { a: F128::zero(), b: F128::zero() }, depth));
        }
        block = block + 1;
    }
    r
}

/// Cell `level` of the run `path` of a column whose runs start `stride` cells
/// apart, the first at `base`.
pub open spec fn run_slot(base: int, stride: int, path: int, level: int) -> int {
    base + path * stride + level
}

/// The columns of one family of the path walk hold all its paths.
pub open spec fn family_source(
    dense: &DensePathGeometry,
    sources: Seq<WalkColumns>,
    strides: Seq<usize>,
    f: int,
) -> bool {
    &&& strides[f] >= dense.carrier_depths@[f]
    &&& sources[f].tracks@.len() == 17
    &&& rectangular(sources[f], 17, sources[f].tracks@[0]@.len())
    &&& dense.family_path_counts@[f] * strides[f] <= sources[f].tracks@[0]@.len()
}

/// A column of the path walk holds the first `n` families.
pub open spec fn dense_column(
    dense: &DensePathGeometry,
    sources: Seq<WalkColumns>,
    strides: Seq<usize>,
    t: int,
    n: int,
    column: Seq<F128>,
) -> bool {
    forall|f: int, path: int, level: int|
        0 <= f < n && 0 <= path < dense.family_path_counts@[f] && 0 <= level
            < dense.carrier_depths@[f] ==> {
            let to = #[trigger] run_slot(
                dense.family_offsets@[f] as int,
                dense.carrier_depths@[f] as int,
                path,
                level,
            );
            let from = run_slot(0, strides[f] as int, path, level);
            0 <= to < column.len() && column[to] == sources[f].tracks@[t]@[from]
        }
}

/// Copies the dense columns of the path walk off the columns of its families:
/// family `f` holds its paths `strides[f]` slots apart, the walk without gaps.
pub fn dense_path_columns(
    dense: &DensePathGeometry,
    sources: &Vec<WalkColumns>,
    strides: &Vec<usize>,
) -> (r: WalkColumns)
    requires
        dense.complete(),
        sources@.len() == dense.carrier_depths@.len(),
        strides@.len() == dense.carrier_depths@.len(),
        forall|f: int|
            0 <= f < sources@.len() ==> #[trigger] family_source(dense, sources@, strides@, f),
        dense.carrier_depths@.len() > 0,
    ensures
        rectangular(r, 17, dense.active_slots as nat),
        forall|t: int|
            0 <= t < 17 ==> dense_column(
                dense,
                sources@,
                strides@,
                t,
                sources@.len() as int,
                (#[trigger] r.tracks@[t])@,
            ),
{
    let n = sources.len();
    let mut tracks: Vec<Vec<F128>> = Vec::new();
    let mut t: usize = 0;
    while t < 17
        invariant
            t <= 17,
            n == sources@.len(),
            dense.complete(),
            sources@.len() == dense.carrier_depths@.len(),
            strides@.len() == dense.carrier_depths@.len(),
            dense.carrier_depths@.len() > 0,
            forall|f: int|
                0 <= f < sources@.len() ==> #[trigger] family_source(dense, sources@, strides@, f),
            tracks@.len() == t,
            forall|u: int| 0 <= u < t ==> (#[trigger] tracks@[u])@.len() == dense.active_slots,
            forall|u: int|
                0 <= u < t ==> dense_column(
                    dense,
                    sources@,
                    strides@,
                    u,
                    n as int,
                    (#[trigger] tracks@[u])@,
                ),
        decreases 17 - t,
    {
        let column = dense_track(dense, sources, strides, t);
        tracks.push(column);
        t = t + 1;
    }
    WalkColumns { tracks }
}

/// One column of the path walk.
fn dense_track(
    dense: &DensePathGeometry,
    sources: &Vec<WalkColumns>,
    strides: &Vec<usize>,
    t: usize,
) -> (column: Vec<F128>)
    requires
        t < 17,
        dense.complete(),
        sources@.len() == dense.carrier_depths@.len(),
        strides@.len() == dense.carrier_depths@.len(),
        forall|f: int|
            0 <= f < sources@.len() ==> #[trigger] family_source(dense, sources@, strides@, f),
        dense.carrier_depths@.len() > 0,
    ensures
        column@.len() == dense.active_slots,
        dense_column(dense, sources@, strides@, t as int, sources@.len() as int, column@),
{
    let n = sources.len();
    let mut column: Vec<F128> = Vec::new();
    let mut f: usize = 0;
    proof {
        crate::parent_geometry::lemma_paths_tile(
            *dense,
            dense.carrier_depths@,
            dense.n_paths as nat,
            0,
        );
    }
    while f < n
        invariant
            t < 17,
            f <= n,
            n == sources@.len(),
            dense.complete(),
            sources@.len() == dense.carrier_depths@.len(),
            strides@.len() == dense.carrier_depths@.len(),
            forall|g: int|
                0 <= g < sources@.len() ==> #[trigger] family_source(dense, sources@, strides@, g),
            column@.len() == if f < n {
                dense.family_offsets@[f as int]
            } else {
                dense.active_slots
            },
            dense_column(dense, sources@, strides@, t as int, f as int, column@),
        decreases n - f,
    {
        proof {
            crate::parent_geometry::lemma_paths_tile(
                *dense,
                dense.carrier_depths@,
                dense.n_paths as nat,
                f as int,
            );
            assert(family_source(dense, sources@, strides@, f as int));
        }
        let ghost before = column@;
        copy_paths(
            &mut column,
            &sources[f].tracks[t],
            dense.family_path_counts[f],
            dense.carrier_depths[f],
            strides[f],
        );
        proof {
            assert forall|g: int, path: int, level: int|
                0 <= g < f + 1 && 0 <= path < dense.family_path_counts@[g] && 0 <= level
                    < dense.carrier_depths@[g] implies {
                let to = #[trigger] run_slot(
                    dense.family_offsets@[g] as int,
                    dense.carrier_depths@[g] as int,
                    path,
                    level,
                );
                let from = run_slot(0, strides@[g] as int, path, level);
                0 <= to < column@.len() && column@[to] == sources@[g].tracks@[t as int]@[from]
            } by {
                let to = run_slot(
                    dense.family_offsets@[g] as int,
                    dense.carrier_depths@[g] as int,
                    path,
                    level,
                );
                if g < f {
                    assert(0 <= to < before.len());
                    assert(column@[to] == before[to]);
                } else {
                    assert(to == run_slot(
                        before.len() as int,
                        dense.carrier_depths@[f as int] as int,
                        path,
                        level,
                    ));
                }
            }
        }
        f = f + 1;
    }
    column
}

/// Appends `count` runs of `depth` cells that lie `stride` cells apart.
fn copy_paths(column: &mut Vec<F128>, source: &Vec<F128>, count: usize, depth: usize, stride: usize)
    requires
        depth <= stride,
        count * stride <= source@.len(),
    ensures
        final(column)@.len() == old(column)@.len() + count * depth,
        forall|i: int| 0 <= i < old(column)@.len() ==> #[trigger] final(column)@[i] == old(column)@[i],
        forall|path: int, level: int|
            0 <= path < count && 0 <= level < depth ==> {
                let to = #[trigger] run_slot(
                    old(column)@.len() as int,
                    depth as int,
                    path,
                    level,
                );
                0 <= to < final(column)@.len() && final(column)@[to] == source@[run_slot(
                    0,
                    stride as int,
                    path,
                    level,
                )]
            },
{
    let ghost before = column@;
    let ghost base = before.len() as int;
    let source_len = source.len();
    let mut path: usize = 0;
    assert(0 * depth == 0);
    while path < count
        invariant
            path <= count,
            depth <= stride,
            count * stride <= source@.len(),
            source_len == source@.len(),
            base == before.len(),
            column@.len() == before.len() + path * depth,
            forall|i: int| 0 <= i < before.len() ==> #[trigger] column@[i] == before[i],
            forall|p: int, l: int|
                0 <= p < path && 0 <= l < depth ==> {
                    let to = #[trigger] run_slot(base, depth as int, p, l);
                    0 <= to < column@.len() && column@[to] == source@[run_slot(
                        0,
                        stride as int,
                        p,
                        l,
                    )]
                },
        decreases count - path,
    {
        let ghost start = column@;
        proof {
            assert((path + 1) * stride <= count * stride) by (nonlinear_arith)
                requires
                    path + 1 <= count,
            ;
            assert((path + 1) * stride == path * stride + stride) by (nonlinear_arith);
            assert((path + 1) * depth == path * depth + depth) by (nonlinear_arith);
        }
        let mut l: usize = 0;
        while l < depth
            invariant
                l <= depth,
                depth <= stride,
                path * stride + stride <= source@.len(),
                source_len == source@.len(),
                column@.len() == start.len() + l,
                forall|i: int| 0 <= i < start.len() ==> #[trigger] column@[i] == start[i],
                forall|i: int|
                    start.len() <= i < start.len() + l ==> #[trigger] column@[i] == source@[path
                        * stride + (i - start.len())],
            decreases depth - l,
        {
            column.push(source[path * stride + l]);
            l = l + 1;
        }
        proof {
            assert forall|p: int, k: int| 0 <= p < path + 1 && 0 <= k < depth implies {
                let to = #[trigger] run_slot(base, depth as int, p, k);
                0 <= to < column@.len() && column@[to] == source@[run_slot(
                    0,
                    stride as int,
                    p,
                    k,
                )]
            } by {
                let to = run_slot(base, depth as int, p, k);
                if p < path {
                    assert(0 <= to < start.len());
                    assert(column@[to] == start[to]);
                } else {
                    assert(p == path);
                    assert(to == start.len() + k);
                }
            }
        }
        path = path + 1;
    }
}

/// The descriptors of the families of the path walk.
pub fn link_path_families(dense: &DensePathGeometry, iv: DigestPair) -> (r: Vec<MerkleRegionFamily>)
    requires
        dense.family_offsets@.len() == dense.carrier_depths@.len(),
        dense.family_path_counts@.len() == dense.carrier_depths@.len(),
    ensures
        r@.len() == dense.carrier_depths@.len(),
        forall|f: int|
            0 <= f < r@.len() ==> #[trigger] r@[f] == (MerkleRegionFamily::FeedForwardStrided {
                offset: dense.family_offsets@[f],
                depth: dense.carrier_depths@[f],
                n_paths: dense.family_path_counts@[f],
                stride: dense.carrier_depths@[f],
                iv,
            }),
{
    let mut r: Vec<MerkleRegionFamily> = Vec::new();
    let mut f: usize = 0;
    while f < dense.carrier_depths.len()
        invariant
            f <= dense.carrier_depths@.len(),
            dense.family_offsets@.len() == dense.carrier_depths@.len(),
            dense.family_path_counts@.len() == dense.carrier_depths@.len(),
            r@.len() == f,
            forall|k: int|
                0 <= k < f ==> #[trigger] r@[k] == (MerkleRegionFamily::FeedForwardStrided {
                    offset: dense.family_offsets@[k],
                    depth: dense.carrier_depths@[k],
                    n_paths: dense.family_path_counts@[k],
                    stride: dense.carrier_depths@[k],
                    iv,
                }),
        decreases dense.carrier_depths@.len() - f,
    {
        r.push(
            MerkleRegionFamily::FeedForwardStrided {
                offset: dense.family_offsets[f],
                depth: dense.carrier_depths[f],
                n_paths: dense.family_path_counts[f],
                stride: dense.carrier_depths[f],
                iv,
            },
        );
        f = f + 1;
    }
    r
}

/// What the leaf and the path walk of a carrier are built from: the leaf lanes
/// of every position, the data streams of all queries, the packing of the
/// paths, and the paths of every position.
pub struct LinkStreams {
    pub lanes: Vec<usize>,
    pub tiles: Vec<Vec<Vec<F128>>>,
    pub dense: DensePathGeometry,
    pub witnesses: Vec<Vec<MerklePathWitness>>,
}

/// Every proof that is carried opens the paths and leaves it claims.
pub open spec fn openings_shaped(proofs: Seq<LinkProof>, positions: int) -> bool {
    &&& forall|p: int| 0 <= p < proofs.len() ==> paths_open(#[trigger] proofs[p], positions)
    &&& forall|p: int, q: int|
        0 <= p < proofs.len() && 0 <= q < proofs[p].queries@.len() ==> (
        #[trigger] proofs[p].queries@[q]).leaves@.len() >= proofs[p].trees@.len()
}

/// All proofs fit their tiers.
pub open spec fn proofs_fit(
    proofs: Seq<LinkProof>,
    carrier: HistoryStepPcsCarrierGeometry,
    statements: Seq<Vec<u8>>,
    active: Seq<usize>,
) -> bool {
    &&& roles_fit(proofs, carrier, active)
    &&& forall|i: int|
        0 <= i < proofs.len() ==> proof_fits(
            #[trigger] proofs[i],
            carrier,
            statements,
            active[i] as int,
        )
}

/// Why the link is refused, if it is.
pub open spec fn link_error(
    proofs: Seq<LinkProof>,
    carrier: HistoryStepPcsCarrierGeometry,
    statements: Seq<Vec<u8>>,
    active: Seq<usize>,
    max_lanes: int,
) -> Option<RegionSidecarError> {
    if !proofs_fit(proofs, carrier, statements, active) || !carrier.leaves_fit(max_lanes)
        || !all_leaves_open(proofs) {
        Some(RegionSidecarError::UnsupportedVkShape)
    } else {
        carrier.dense_error()
    }
}

/// Checks the proofs against the carrier and lists what its two walks carry.
pub fn link_streams(
    proofs: &Vec<LinkProof>,
    carrier: &HistoryStepPcsCarrierGeometry,
    statements: &Vec<Vec<u8>>,
    active: &Vec<usize>,
    max_lanes: usize,
) -> (r: Result<LinkStreams, RegionSidecarError>)
    requires
        statements@.len() == carrier.groups@.len(),
        carrier.path_count() <= usize::MAX,
        proofs_fit(proofs@, *carrier, statements@, active@) ==> openings_shaped(
            proofs@,
            carrier.positions() as int,
        ),
    ensures
        match link_error(proofs@, *carrier, statements@, active@, max_lanes as int) {
            Some(error) => r == Err::<LinkStreams, _>(error),
            None => {
                &&& r is Ok
                &&& r->Ok_0.lanes@.len() == carrier.positions()
                &&& forall|p: int|
                    0 <= p < carrier.positions() ==> #[trigger] r->Ok_0.lanes@[p]
                        == carrier.lanes_at(p)
                &&& r->Ok_0.tiles@.len() == carrier.path_count()
                &&& forall|p: int, q: int, tree: int|
                    0 <= p < proofs@.len() && 0 <= q < carrier.n_queries && 0 <= tree
                        < carrier.positions() ==> tile_stream(
                        proofs@[p],
                        q,
                        tree,
                        r->Ok_0.lanes@,
                        (#[trigger] r->Ok_0.tiles@[p * carrier.n_queries + q]@[tree])@,
                    )
                &&& r->Ok_0.dense.packs(carrier.depths(), carrier.path_count())
                &&& r->Ok_0.dense.complete()
                &&& r->Ok_0.witnesses@.len() == carrier.positions()
                &&& forall|tree: int, block: int|
                    0 <= tree < carrier.positions() && 0 <= block
                        < r->Ok_0.dense.family_path_counts@[tree] ==> carried_path(
                        proofs@,
                        carrier.n_queries as int,
                        carrier.path_count() as int,
                        tree,
                        carrier.depths()[tree] as int,
                        block,
                        #[trigger] r->Ok_0.witnesses@[tree]@[block],
                    )
                &&& forall|tree: int|
                    0 <= tree < carrier.positions() ==> (
                    #[trigger] r->Ok_0.witnesses@[tree])@.len()
                        == r->Ok_0.dense.family_path_counts@[tree]
            },
        },
{
    match check_link_proofs(proofs, carrier, statements, active) {
        Ok(()) => {},
        Err(error) => {
            return Err(error);
        },
    }
    assert(proofs_fit(proofs@, *carrier, statements@, active@));
    let lanes = match carrier.leaf_lanes(max_lanes) {
        Ok(lanes) => lanes,
        Err(error) => {
            return Err(error);
        },
    };
    let n_queries = carrier.n_queries;
    proof {
        assert forall|p: int| 0 <= p < proofs@.len() implies (#[trigger] proofs@[p]).queries@.len()
            == n_queries && proofs@[p].trees@.len() <= lanes@.len() by {
            assert(proof_fits(proofs@[p], *carrier, statements@, active@[p] as int));
            crate::parent_geometry::lemma_longest_group(carrier.groups@, carrier.groups@.len());
            assert(active@[p] < carrier.groups@.len());
            assert(carrier.groups@[active@[p] as int]@.len() <= carrier.positions());
        }
        assert(proofs@.len() * n_queries == carrier.path_count());
    }
    let tiles = match link_tiles(proofs, n_queries, &lanes) {
        Ok(tiles) => tiles,
        Err(error) => {
            return Err(error);
        },
    };
    let dense = match crate::parent_geometry::dense_path_geometry(carrier) {
        Ok(dense) => dense,
        Err(error) => {
            return Err(error);
        },
    };
    let positions = lanes.len();
    let mut witnesses: Vec<Vec<MerklePathWitness>> = Vec::new();
    let mut tree: usize = 0;
    proof {
        assert(n_queries > 0) by {
            if n_queries == 0 {
                assert(carrier.proof_roles as nat * 0 == 0);
            }
        }
    }
    while tree < positions
        invariant
            tree <= positions,
            positions == carrier.positions(),
            n_queries == carrier.n_queries,
            n_queries > 0,
            proofs@.len() * n_queries == carrier.path_count(),
            dense.packs(carrier.depths(), carrier.path_count()),
            forall|p: int|
                0 <= p < proofs@.len() ==> paths_open(#[trigger] proofs@[p], positions as int)
                    && proofs@[p].queries@.len() == n_queries,
            witnesses@.len() == tree,
            forall|k: int|
                0 <= k < tree ==> (#[trigger] witnesses@[k])@.len()
                    == dense.family_path_counts@[k],
            forall|k: int, block: int|
                0 <= k < tree && 0 <= block < dense.family_path_counts@[k] ==> carried_path(
                    proofs@,
                    n_queries as int,
                    carrier.path_count() as int,
                    k,
                    carrier.depths()[k] as int,
                    block,
                    #[trigger] witnesses@[k]@[block],
                ),
        decreases positions - tree,
    {
        assert(dense.family_path_counts@[tree as int] >= carrier.path_count());
        let list = link_path_witnesses(
            proofs,
            n_queries,
            tree,
            dense.carrier_depths[tree],
            dense.family_path_counts[tree],
            positions,
        );
        witnesses.push(list);
        tree = tree + 1;
    }
    Ok(LinkStreams { lanes, tiles, dense, witnesses })
}

/// The leaf and the path walk of the carrier: the union of all leaf channels,
/// the cells of the leaf lanes at every tree position, the columns of the path
/// walk and the descriptors of its families.
pub struct RecordingFreeLinkAssembly {
    pub u_a: DuplexUnion,
    pub channels: Vec<SubChannel>,
    pub leaf_data_positions: Vec<Vec<LanePosition>>,
    pub s_log: usize,
    pub path: WalkColumns,
    pub path_families: Vec<MerkleRegionFamily>,
}

/// Where channel `i` absorbs its data lanes, in a block whose channels are `s`
/// slots apart.
pub open spec fn positions_of_channel(
    sub: SubChannel,
    i: int,
    s: int,
    positions: Seq<LanePosition>,
) -> bool {
    &&& positions.len() == sub.layout.n_data
    &&& forall|k: int|
        0 <= k < positions.len() ==> {
            let p = position_of(sub.layout.slots@, k, 2 * sub.layout.slots@.len());
            (#[trigger] positions[k]).slot == i * s + p.0 && positions[k].lane == p.1
        }
}

fn channel_positions(sub: &SubChannel, i: usize, s: usize) -> (r: Vec<LanePosition>)
    requires
        sub.layout.wf(),
        sub.layout.slots@.len() <= s,
        (i + 1) * s <= usize::MAX,
        s > 0,
    ensures
        positions_of_channel(*sub, i as int, s as int, r@),
{
    let own = duplex_data_positions(&sub.layout);
    let n = own.len();
    let mut r: Vec<LanePosition> = Vec::new();
    let mut k: usize = 0;
    proof {
        assert((i + 1) * s == i * s + s) by (nonlinear_arith);
    }
    while k < n
        invariant
            k <= n,
            n == own@.len(),
            n == sub.layout.n_data,
            sub.layout.slots@.len() <= s,
            s > 0,
            i * s + s <= usize::MAX,
            forall|j: int|
                0 <= j < n ==> ((#[trigger] own@[j]).slot as int, own@[j].lane as int)
                    == position_of(sub.layout.slots@, j, 2 * sub.layout.slots@.len()),
            r@.len() == k,
            forall|j: int|
                0 <= j < k ==> {
                    let p = position_of(sub.layout.slots@, j, 2 * sub.layout.slots@.len());
                    (#[trigger] r@[j]).slot == i * s + p.0 && r@[j].lane == p.1
                },
        decreases n - k,
    {
        proof {
            lemma_position_bound(sub.layout.slots@, k as int, 2 * sub.layout.slots@.len());
            assert((own@[k as int].slot as int, own@[k as int].lane as int) == position_of(
                sub.layout.slots@,
                k as int,
                2 * sub.layout.slots@.len(),
            ));
        }
        r.push(LanePosition { slot: i * s + own[k].slot, lane: own[k].lane });
        k = k + 1;
    }
    r
}

proof fn lemma_position_bound(slots: Seq<DuplexSlot>, k: int, m: nat)
    requires
        m <= 2 * slots.len(),
    ensures
        0 <= position_of(slots, k, m).0,
        position_of(slots, k, m).0 == 0 || position_of(slots, k, m).0 < slots.len(),
    decreases m,
{
    if m > 0 {
        lemma_position_bound(slots, k, (m - 1) as nat);
    }
}

/// One lane of the digest of a leaf: the state after its last lanes.
pub open spec fn leaf_digest(
    channels: Seq<ChannelColumns>,
    subs: Seq<SubChannel>,
    q: int,
    t: int,
    lane: int,
) -> F128 {
    channels[q * ceil_pow2(subs.len()) + t].columns.tracks@[2 + lane]@[subs[t].layout.n_data as int
        / 2 - 1]
}

/// One lane of the entry of a path.
pub open spec fn path_entry(
    sources: Seq<WalkColumns>,
    strides: Seq<usize>,
    q: int,
    t: int,
    lane: int,
) -> F128 {
    sources[t].tracks@[4 + lane]@[run_slot(0, strides[t] as int, q, 0)]
}

/// The digest of every leaf is the entry of its path.
pub open spec fn leaves_enter(
    subs: Seq<SubChannel>,
    k: nat,
    channels: Seq<ChannelColumns>,
    sources: Seq<WalkColumns>,
    strides: Seq<usize>,
) -> bool {
    forall|q: int, t: int, lane: int|
        0 <= q < k && 0 <= t < subs.len() && t < sources.len() && 0 <= lane < 2
            ==> #[trigger] leaf_digest(channels, subs, q, t, lane) == path_entry(
            sources,
            strides,
            q,
            t,
            lane,
        )
}

/// In the assembled walks the digest cell of every opened leaf equals the entry
/// cell of its path, so the joins of the parent region hold.
pub proof fn lemma_link_joined(
    r: RecordingFreeLinkAssembly,
    subs: Seq<SubChannel>,
    k: nat,
    channels: Seq<ChannelColumns>,
    dense: DensePathGeometry,
    sources: Seq<WalkColumns>,
    strides: Seq<usize>,
    basis: FlatBasis,
    q: int,
    t: int,
    lane: int,
)
    requires
        combined_union(r.u_a, r.channels@, subs, k, channels, basis),
        forall|c: int|
            0 <= c < 17 ==> dense_column(
                &dense,
                sources,
                strides,
                c,
                sources.len() as int,
                (#[trigger] r.path.tracks@[c])@,
            ),
        leaves_enter(subs, k, channels, sources, strides),
        0 <= q < k,
        0 <= t < subs.len(),
        t < sources.len(),
        0 <= lane < 2,
        q < dense.family_path_counts@[t],
        0 < dense.carrier_depths@[t],
        2 <= subs[t].layout.n_data <= 2 * ceil_pow2(longest(subs, subs.len())),
    ensures
        ({
            let s = ceil_pow2(longest(subs, subs.len())) as int;
            let channel = q * ceil_pow2(subs.len()) + t;
            let digest = channel * s + subs[t].layout.n_data as int / 2 - 1;
            let entry = run_slot(
                dense.family_offsets@[t] as int,
                dense.carrier_depths@[t] as int,
                q,
                0,
            );
            digest < combined_slots(subs, k) ==> r.u_a.columns.tracks@[2 + lane]@[digest]
                == r.path.tracks@[4 + lane]@[entry]
        }),
{
    let n = ceil_pow2(subs.len()) as int;
    let s = ceil_pow2(longest(subs, subs.len())) as int;
    let channel = q * n + t;
    let at = subs[t].layout.n_data as int / 2 - 1;
    let digest = channel * s + at;
    crate::dyadic::lemma_ceil(subs.len());
    crate::dyadic::lemma_ceil(longest(subs, subs.len()));
    assert(0 <= at < s);
    assert(0 <= q * n) by (nonlinear_arith)
        requires
            0 <= q,
            0 < n,
    ;
    assert(0 <= channel * s) by (nonlinear_arith)
        requires
            0 <= channel,
            0 < s,
    ;
    vstd::arithmetic::div_mod::lemma_fundamental_div_mod_converse(digest, s, channel, at);
    if digest < combined_slots(subs, k) {
        assert(r.u_a.columns.tracks@[2 + lane]@[digest] == leaf_digest(channels, subs, q, t, lane));
        assert(dense_column(
            &dense,
            sources,
            strides,
            4 + lane,
            sources.len() as int,
            r.path.tracks@[4 + lane]@,
        ));
        let to = run_slot(
            dense.family_offsets@[t] as int,
            dense.carrier_depths@[t] as int,
            q,
            0,
        );
        assert(r.path.tracks@[4 + lane]@[to] == path_entry(sources, strides, q, t, lane));
    }
}

/// One lane of the root that a path of `depth` levels reaches from slot `at` on,
/// in a walk that gives every path `stride` slots. With a slot to spare the slot
/// behind the last level carries it; otherwise it is the last state, fed forward
/// with the child that the direction selects.
pub open spec fn walk_root(
    tracks: Seq<Vec<F128>>,
    at: int,
    depth: int,
    stride: int,
    lane: int,
) -> u128 {
    if depth < stride {
        tracks[4 + lane]@[at + depth]@
    } else {
        let last = at + depth - 1;
        let carried = tracks[4 + lane]@[last]@;
        (tracks[lane]@[last]@ ^ carried) ^ fmul(
            tracks[8]@[last]@,
            carried ^ tracks[6 + lane]@[last]@,
        )
    }
}

/// Lane `lane` of a digest.
pub open spec fn digest_lane(d: DigestPair, lane: int) -> u128 {
    if lane == 0 {
        d.a@
    } else {
        d.b@
    }
}

/// The carried path of a query reaches the root that its proof committed.
pub open spec fn reaches_root(
    proof: LinkProof,
    dense: DensePathGeometry,
    sources: Seq<WalkColumns>,
    strides: Seq<usize>,
    q: int,
    t: int,
) -> bool {
    forall|lane: int|
        0 <= lane < 2 ==> #[trigger] walk_root(
            sources[t].tracks@,
            run_slot(0, strides[t] as int, q, 0),
            proof.trees@[t].depth as int,
            dense.carrier_depths@[t] as int,
            lane,
        ) == digest_lane(proof.roots@[t], lane)
}

/// Every carried path reaches the committed root of its tree.
pub open spec fn roots_committed(
    proofs: Seq<LinkProof>,
    n_queries: int,
    dense: DensePathGeometry,
    sources: Seq<WalkColumns>,
    strides: Seq<usize>,
) -> bool {
    forall|p: int, q: int, t: int|
        0 <= p < proofs.len() && 0 <= q < n_queries && 0 <= t < proofs[p].trees@.len()
            ==> #[trigger] reaches_root(
            proofs[p],
            dense,
            sources,
            strides,
            block_of(p, q, n_queries),
            t,
        )
}

/// The block of query `q` of proof `p`.
pub open spec fn block_of(p: int, q: int, n_queries: int) -> int {
    p * n_queries + q
}

/// The proofs have a root for every tree, and their trees and queries fit the
/// path walk.
pub open spec fn roots_fit(
    proofs: Seq<LinkProof>,
    n_queries: int,
    dense: DensePathGeometry,
) -> bool {
    forall|p: int|
        0 <= p < proofs.len() ==> {
            let proof = #[trigger] proofs[p];
            &&& proof.roots@.len() == proof.trees@.len()
            &&& proof.trees@.len() <= dense.carrier_depths@.len()
            &&& forall|t: int|
                0 <= t < proof.trees@.len() ==> 0 < (#[trigger] proof.trees@[t]).depth
                    <= dense.carrier_depths@[t] && proofs.len() * n_queries
                    <= dense.family_path_counts@[t]
        }
}

fn root_lane(
    columns: &WalkColumns,
    at: usize,
    depth: usize,
    stride: usize,
    lane: usize,
) -> (r: F128)
    requires
        lane < 2,
        0 < depth <= stride,
        columns.tracks@.len() == 17,
        rectangular(*columns, 17, columns.tracks@[0]@.len()),
        at + stride <= columns.tracks@[0]@.len(),
    ensures
        r@ == walk_root(columns.tracks@, at as int, depth as int, stride as int, lane as int),
{
    let len = columns.tracks[0].len();
    assert(at + stride <= len);
    assert(columns.tracks@[4 + lane]@.len() == columns.tracks@[0]@.len());
    assert(columns.tracks@[6 + lane]@.len() == columns.tracks@[0]@.len());
    assert(columns.tracks@[8]@.len() == columns.tracks@[0]@.len());
    assert(columns.tracks@[lane as int]@.len() == columns.tracks@[0]@.len());
    if depth < stride {
        columns.tracks[4 + lane][at + depth]
    } else {
        let last: usize = at + depth - 1;
        let carried = columns.tracks[4 + lane][last];
        let other = carried.plus(columns.tracks[6 + lane][last]);
        let selected = columns.tracks[8][last].times(other);
        columns.tracks[lane][last].plus(carried).plus(selected)
    }
}

/// Checks that every carried path reaches the root that its proof committed.
pub fn check_carried_roots(
    proofs: &Vec<LinkProof>,
    n_queries: usize,
    dense: &DensePathGeometry,
    sources: &Vec<WalkColumns>,
    strides: &Vec<usize>,
) -> (r: bool)
    requires
        roots_fit(proofs@, n_queries as int, *dense),
        sources@.len() == dense.carrier_depths@.len(),
        strides@.len() == dense.carrier_depths@.len(),
        dense.family_path_counts@.len() == dense.carrier_depths@.len(),
        forall|f: int|
            0 <= f < sources@.len() ==> #[trigger] family_source(dense, sources@, strides@, f),
    ensures
        r == roots_committed(proofs@, n_queries as int, *dense, sources@, strides@),
{
    let mut p: usize = 0;
    while p < proofs.len()
        invariant
            p <= proofs@.len(),
            roots_fit(proofs@, n_queries as int, *dense),
            sources@.len() == dense.carrier_depths@.len(),
            strides@.len() == dense.carrier_depths@.len(),
            dense.family_path_counts@.len() == dense.carrier_depths@.len(),
            forall|f: int|
                0 <= f < sources@.len() ==> #[trigger] family_source(dense, sources@, strides@, f),
            forall|i: int, q: int, t: int|
                0 <= i < p && 0 <= q < n_queries && 0 <= t < proofs@[i].trees@.len()
                    ==> #[trigger] reaches_root(
                    proofs@[i],
                    *dense,
                    sources@,
                    strides@,
                    block_of(i, q, n_queries as int),
                    t,
                ),
        decreases proofs@.len() - p,
    {
        let proof_p = &proofs[p];
        let mut t: usize = 0;
        while t < proof_p.trees.len()
            invariant
                p < proofs@.len(),
                *proof_p == proofs@[p as int],
                t <= proof_p.trees@.len(),
                roots_fit(proofs@, n_queries as int, *dense),
                sources@.len() == dense.carrier_depths@.len(),
                strides@.len() == dense.carrier_depths@.len(),
                dense.family_path_counts@.len() == dense.carrier_depths@.len(),
                forall|f: int|
                    0 <= f < sources@.len() ==> #[trigger] family_source(
                        dense,
                        sources@,
                        strides@,
                        f,
                    ),
                forall|q: int, s: int|
                    0 <= q < n_queries && 0 <= s < t ==> #[trigger] reaches_root(
                        *proof_p,
                        *dense,
                        sources@,
                        strides@,
                        block_of(p as int, q, n_queries as int),
                        s,
                    ),
            decreases proof_p.trees@.len() - t,
        {
            assert(family_source(dense, sources@, strides@, t as int));
            assert(proof_p.trees@[t as int].depth > 0);
            let stride = strides[t];
            let depth = proof_p.trees[t].depth;
            let carrier = dense.carrier_depths[t];
            let ghost count = dense.family_path_counts@[t as int] as int;
            let len = sources[t].tracks[0].len();
            let mut q: usize = 0;
            while q < n_queries
                invariant
                    p < proofs@.len(),
                    *proof_p == proofs@[p as int],
                    t < proof_p.trees@.len(),
                    proof_p.roots@.len() == proof_p.trees@.len(),
                    proof_p.trees@.len() <= dense.carrier_depths@.len(),
                    q <= n_queries,
                    stride == strides@[t as int],
                    depth == proof_p.trees@[t as int].depth,
                    carrier == dense.carrier_depths@[t as int],
                    0 < depth <= carrier <= stride,
                    sources@.len() == dense.carrier_depths@.len(),
                    strides@.len() == dense.carrier_depths@.len(),
                    t < dense.family_path_counts@.len(),
                    count == dense.family_path_counts@[t as int],
                    proofs@.len() * n_queries <= count,
                    len == sources@[t as int].tracks@[0]@.len(),
                    count * stride <= len,
                    family_source(dense, sources@, strides@, t as int),
                    forall|i: int|
                        0 <= i < q ==> #[trigger] reaches_root(
                            *proof_p,
                            *dense,
                            sources@,
                            strides@,
                            block_of(p as int, i, n_queries as int),
                            t as int,
                        ),
                decreases n_queries - q,
            {
                let ghost block = block_of(p as int, q as int, n_queries as int);
                proof {
                    assert(block + 1 <= count && 0 <= p * n_queries) by (nonlinear_arith)
                        requires
                            block == p * n_queries + q,
                            0 <= p < proofs@.len(),
                            0 <= q < n_queries,
                            proofs@.len() * n_queries <= count,
                    ;
                    assert(block * stride + stride <= len && 0 <= block * stride)
                        by (nonlinear_arith)
                        requires
                            0 <= block,
                            block + 1 <= count,
                            count * stride <= len,
                            0 <= stride,
                    ;
                }
                let at: usize = (p * n_queries + q) * stride;
                let first = root_lane(&sources[t], at, depth, carrier, 0);
                let second = root_lane(&sources[t], at, depth, carrier, 1);
                let root = proof_p.roots[t];
                if first != root.a || second != root.b {
                    proof {
                        assert(run_slot(0, stride as int, block, 0) == at);
                        assert(!reaches_root(
                            *proof_p,
                            *dense,
                            sources@,
                            strides@,
                            block,
                            t as int,
                        )) by {
                            let a = walk_root(
                                sources@[t as int].tracks@,
                                at as int,
                                depth as int,
                                carrier as int,
                                0,
                            );
                            let b = walk_root(
                                sources@[t as int].tracks@,
                                at as int,
                                depth as int,
                                carrier as int,
                                1,
                            );
                            assert(a != digest_lane(root, 0) || b != digest_lane(root, 1));
                        }
                    }
                    return false;
                }
                proof {
                    assert(reaches_root(
                        *proof_p,
                        *dense,
                        sources@,
                        strides@,
                        block,
                        t as int,
                    )) by {
                        assert(run_slot(0, stride as int, block, 0) == at);
                        assert forall|lane: int| 0 <= lane < 2 implies #[trigger] walk_root(
                            sources@[t as int].tracks@,
                            at as int,
                            depth as int,
                            carrier as int,
                            lane,
                        ) == digest_lane(root, lane) by {
                            assert(lane == 0 || lane == 1);
                        }
                    }
                }
                q = q + 1;
            }
            t = t + 1;
        }
        p = p + 1;
    }
    true
}

/// In the assembled path walk every opened path reaches the committed root, where
/// the closing rows of the parent region read it.
pub proof fn lemma_link_rooted(
    r: RecordingFreeLinkAssembly,
    proofs: Seq<LinkProof>,
    n_queries: int,
    dense: DensePathGeometry,
    sources: Seq<WalkColumns>,
    strides: Seq<usize>,
    p: int,
    q: int,
    t: int,
    lane: int,
)
    requires
        forall|c: int|
            0 <= c < 17 ==> dense_column(
                &dense,
                sources,
                strides,
                c,
                sources.len() as int,
                (#[trigger] r.path.tracks@[c])@,
            ),
        roots_fit(proofs, n_queries, dense),
        roots_committed(proofs, n_queries, dense, sources, strides),
        sources.len() == dense.carrier_depths@.len(),
        0 <= p < proofs.len(),
        0 <= q < n_queries,
        0 <= t < proofs[p].trees@.len(),
        0 <= lane < 2,
    ensures
        walk_root(
            r.path.tracks@,
            run_slot(
                dense.family_offsets@[t] as int,
                dense.carrier_depths@[t] as int,
                block_of(p, q, n_queries),
                0,
            ),
            proofs[p].trees@[t].depth as int,
            dense.carrier_depths@[t] as int,
            lane,
        ) == digest_lane(proofs[p].roots@[t], lane),
{
    let block = block_of(p, q, n_queries);
    let depth = proofs[p].trees@[t].depth as int;
    let carrier = dense.carrier_depths@[t] as int;
    let offset = dense.family_offsets@[t] as int;
    let stride = strides[t] as int;
    assert(reaches_root(proofs[p], dense, sources, strides, block, t));
    assert(0 <= block < dense.family_path_counts@[t]) by (nonlinear_arith)
        requires
            block == p * n_queries + q,
            0 <= p < proofs.len(),
            0 <= q < n_queries,
            proofs.len() * n_queries <= dense.family_path_counts@[t],
    ;
    let level = if depth < carrier {
        depth
    } else {
        depth - 1
    };
    assert forall|c: int| 0 <= c < 17 implies (#[trigger] r.path.tracks@[c])@[run_slot(
        offset,
        carrier,
        block,
        level,
    )] == sources[t].tracks@[c]@[run_slot(0, stride, block, level)] by {
        assert(dense_column(
            &dense,
            sources,
            strides,
            c,
            sources.len() as int,
            r.path.tracks@[c]@,
        ));
    }
    assert(run_slot(offset, carrier, block, 0) + level == run_slot(offset, carrier, block, level));
    assert(run_slot(0, stride, block, 0) + level == run_slot(0, stride, block, level));
    let own = walk_root(
        sources[t].tracks@,
        run_slot(0, stride, block, 0),
        depth,
        carrier,
        lane,
    );
    assert(own == digest_lane(proofs[p].roots@[t], lane));
    assert(r.path.tracks@[4 + lane]@.len() >= 0 && r.path.tracks@[6 + lane]@.len() >= 0
        && r.path.tracks@[8]@.len() >= 0 && r.path.tracks@[lane]@.len() >= 0);
}

/// Assembles the leaf walk and the path walk from the columns of their
/// channels and families. `k` is the number of live tiles.
pub fn build_recording_free_link_assembly(
    proofs: &Vec<LinkProof>,
    n_queries: usize,
    subs: &Vec<SubChannel>,
    channels: &Vec<ChannelColumns>,
    dense: &DensePathGeometry,
    sources: &Vec<WalkColumns>,
    strides: &Vec<usize>,
    iv: DigestPair,
    basis: &FlatBasis,
) -> (r: RecordingFreeLinkAssembly)
    requires
        proofs@.len() * n_queries <= usize::MAX,
        roots_fit(proofs@, n_queries as int, *dense),
        leaves_enter(subs@, (proofs@.len() * n_queries) as nat, channels@, sources@, strides@),
        roots_committed(proofs@, n_queries as int, *dense, sources@, strides@),
        basis.wf(),
        subs@.len() > 0,
        forall|i: int| 0 <= i < subs@.len() ==> (#[trigger] subs@[i]).layout.wf(),
        data_offset(subs@, subs@.len()) <= usize::MAX,
        combined_slots(subs@, (proofs@.len() * n_queries) as nat) <= usize::MAX,
        channels_tile(channels@, subs@, (proofs@.len() * n_queries) as nat),
        dense.complete(),
        dense.carrier_depths@.len() > 0,
        sources@.len() == dense.carrier_depths@.len(),
        strides@.len() == dense.carrier_depths@.len(),
        forall|f: int|
            0 <= f < sources@.len() ==> #[trigger] family_source(dense, sources@, strides@, f),
    ensures
        combined_union(r.u_a, r.channels@, subs@, (proofs@.len() * n_queries) as nat, channels@, *basis),
        pow2(r.s_log as nat) == ceil_pow2(longest(subs@, subs@.len())),
        r.leaf_data_positions@.len() == subs@.len(),
        forall|i: int|
            0 <= i < subs@.len() ==> positions_of_channel(
                subs@[i],
                i,
                pow2(r.s_log as nat) as int,
                (#[trigger] r.leaf_data_positions@[i])@,
            ),
        rectangular(r.path, 17, dense.active_slots as nat),
        forall|t: int|
            0 <= t < 17 ==> dense_column(
                dense,
                sources@,
                strides@,
                t,
                sources@.len() as int,
                (#[trigger] r.path.tracks@[t])@,
            ),
        r.path_families@.len() == dense.carrier_depths@.len(),
        forall|f: int|
            0 <= f < r.path_families@.len() ==> #[trigger] r.path_families@[f] == (
            MerkleRegionFamily::FeedForwardStrided {
                offset: dense.family_offsets@[f],
                depth: dense.carrier_depths@[f],
                n_paths: dense.family_path_counts@[f],
                stride: dense.carrier_depths@[f],
                iv,
            }),
{
    let n_proofs = proofs.len();
    let k: usize = n_proofs * n_queries;
    let geometry = combined_geometry(subs, k);
    let (u_a, all) = build_combined_duplex_union(subs, k, channels, basis);
    let ghost n = ceil_pow2(subs@.len());
    let ghost s_spec = ceil_pow2(longest(subs@, subs@.len()));
    let ghost rows = if k == 0 {
        1nat
    } else {
        k as nat
    };
    let ghost blocks = ceil_pow2(rows);
    proof {
        crate::dyadic::lemma_ceil(subs@.len());
        crate::dyadic::lemma_ceil(longest(subs@, subs@.len()));
        crate::dyadic::lemma_ceil(rows);
        assert(n * s_spec > 0 && s_spec <= n * s_spec) by (nonlinear_arith)
            requires
                n > 0,
                s_spec > 0,
        ;
        assert(n * s_spec <= blocks * (n * s_spec)) by (nonlinear_arith)
            requires
                blocks > 0,
                n * s_spec > 0,
        ;
    }
    let s = power_of_two(geometry.s_log);
    let mut leaf_data_positions: Vec<Vec<LanePosition>> = Vec::new();
    let mut i: usize = 0;
    while i < subs.len()
        invariant
            i <= subs@.len(),
            s == s_spec,
            s > 0,
            s_spec == ceil_pow2(longest(subs@, subs@.len())),
            n == ceil_pow2(subs@.len()),
            subs@.len() <= n,
            n * s_spec <= usize::MAX,
            forall|j: int| 0 <= j < subs@.len() ==> (#[trigger] subs@[j]).layout.wf(),
            leaf_data_positions@.len() == i,
            forall|j: int|
                0 <= j < i ==> positions_of_channel(
                    subs@[j],
                    j,
                    s as int,
                    (#[trigger] leaf_data_positions@[j])@,
                ),
        decreases subs@.len() - i,
    {
        proof {
            crate::duplex_union::lemma_longest(subs@, subs@.len(), i as int);
            crate::dyadic::lemma_ceil(longest(subs@, subs@.len()));
            assert((i + 1) * s <= n * s) by (nonlinear_arith)
                requires
                    i + 1 <= n,
            ;
            assert(subs@[i as int].layout.wf());
        }
        leaf_data_positions.push(channel_positions(&subs[i], i, s));
        i = i + 1;
    }
    let path = dense_path_columns(dense, sources, strides);
    let path_families = link_path_families(dense, iv);
    RecordingFreeLinkAssembly {
        u_a,
        channels: all,
        leaf_data_positions,
        s_log: geometry.s_log,
        path,
        path_families,
    }
}

} // verus!
