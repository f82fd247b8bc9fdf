//! The shape of the carrier that a history step verifies its predecessor on:
//! the tree ladder of a commitment scheme, the universal leaf and path shapes
//! over all parent tiers, and the dense packing of the path walk.
use crate::dyadic::{
    ceil_log, ceil_pow2, checked_next_power_of_two, covers, lemma_ceil, power_of_two,
};
use vstd::arithmetic::power2::pow2;
use vstd::prelude::*;

verus! {

/// Why a shape is refused.
#[derive(Clone, Copy, Debug, PartialEq, Eq, Structural)]
pub enum RegionSidecarError {
    BadVk,
    UnsupportedVkShape,
    InvalidProof,
}

/// One authenticated tree of a proof: the lanes of a leaf and the depth of a
/// path.
#[derive(Clone, Copy, Debug, PartialEq, Eq, Structural)]
pub struct TreeInfo {
    pub lanes: usize,
    pub depth: usize,
}

/// The parameters of a commitment, with the host's folding plan for them: the
/// fold arities, how many of the folded codewords are committed, and how many
/// queries are made.
pub struct PcsParams {
    pub m: usize,
    pub log_inv_rate: usize,
    pub log_batch_size: usize,
    pub arities: Vec<usize>,
    pub fri_commits: usize,
    pub query_count: Option<usize>,
}

/// The sum of the first `n` arities.
pub open spec fn folded(arities: Seq<usize>, n: nat) -> nat
    decreases n,
{
    if n == 0 {
        0
    } else {
        folded(arities, (n - 1) as nat) + arities[n - 1] as nat
    }
}

impl PcsParams {
    /// Log of the codeword length.
    pub open spec fn k_code(&self, log_packing: int) -> int {
        self.m - log_packing - self.log_batch_size + self.log_inv_rate
    }

    /// Number of trees: the codeword, the row-batched codeword, and one per
    /// committed fold.
    pub open spec fn tree_count(&self) -> nat {
        if self.arities@.len() == 0 {
            1
        } else {
            (2 + self.fri_commits) as nat
        }
    }

    /// Tree `t` of the ladder.
    pub open spec fn tree(&self, log_packing: int, t: int) -> TreeInfo {
        if t == 0 {
            TreeInfo {
                lanes: pow2(self.log_batch_size as nat) as usize,
                depth: self.k_code(log_packing) as usize,
            }
        } else {
            TreeInfo {
                lanes: pow2((self.arities@[t - 1] + 1) as nat) as usize,
                depth: (self.k_code(log_packing) - folded(self.arities@, t as nat)) as usize,
            }
        }
    }

    /// The parameters lie in the supported range.
    pub open spec fn in_range(&self, log_packing: int, max_lanes: int) -> bool {
        &&& 1 <= self.log_inv_rate <= 5
        &&& log_packing + self.log_batch_size <= self.m
        &&& self.log_batch_size < usize::BITS
        &&& 0 < self.k_code(log_packing) <= 64
        &&& self.k_code(log_packing) < usize::BITS
        &&& pow2(self.log_batch_size as nat) <= max_lanes
    }

    /// Every fold of the ladder exists and stays within the codeword.
    pub open spec fn folds_fit(&self, log_packing: int) -> bool {
        self.arities@.len() > 0 ==> {
            &&& self.fri_commits < self.arities@.len()
            &&& folded(self.arities@, (self.fri_commits + 1) as nat) <= self.k_code(log_packing)
        }
    }

    /// No tree of the ladder is a bare root.
    pub open spec fn trees_deep(&self, log_packing: int) -> bool {
        forall|t: int|
            0 <= t < self.tree_count() ==> (#[trigger] self.tree(log_packing, t)).depth > 0
    }

    /// Why the ladder is refused, if it is.
    pub open spec fn ladder_error(&self, log_packing: int, max_lanes: int) -> Option<
        RegionSidecarError,
    > {
        if 1 <= self.log_inv_rate <= 5 && log_packing + self.log_batch_size <= self.m
            && self.k_code(log_packing) > usize::MAX {
            Some(RegionSidecarError::BadVk)
        } else if !self.in_range(log_packing, max_lanes) {
            Some(RegionSidecarError::UnsupportedVkShape)
        } else if !self.folds_fit(log_packing) {
            Some(RegionSidecarError::BadVk)
        } else if !self.trees_deep(log_packing) {
            Some(RegionSidecarError::UnsupportedVkShape)
        } else {
            None
        }
    }
}

proof fn lemma_folded_mono(arities: Seq<usize>, m: nat, n: nat)
    requires
        m <= n <= arities.len(),
    ensures
        folded(arities, m) <= folded(arities, n),
    decreases n,
{
    if m < n {
        lemma_folded_mono(arities, m, (n - 1) as nat);
    }
}

/// The trees of a proof: the codeword, the row-batched codeword, and one per
/// committed fold.
pub fn checked_tree_structure(params: &PcsParams, log_packing: usize, max_lanes: usize) -> (r: Result<
    Vec<TreeInfo>,
    RegionSidecarError,
>)
    requires
        forall|i: int|
            0 <= i < params.arities@.len() ==> pow2((#[trigger] params.arities@[i] + 1) as nat)
                <= usize::MAX,
    ensures
        match params.ladder_error(log_packing as int, max_lanes as int) {
            Some(error) => r == Err::<Vec<TreeInfo>, _>(error),
            None => {
                &&& r is Ok
                &&& r->Ok_0@.len() == params.tree_count()
                &&& forall|t: int|
                    0 <= t < r->Ok_0@.len() ==> #[trigger] r->Ok_0@[t] == params.tree(
                        log_packing as int,
                        t,
                    )
            },
        },
{
    if params.log_inv_rate < 1 || params.log_inv_rate > 5 {
        return Err(RegionSidecarError::UnsupportedVkShape);
    }
    if params.m < log_packing || params.m - log_packing < params.log_batch_size {
        return Err(RegionSidecarError::UnsupportedVkShape);
    }
    let log_dim: usize = params.m - log_packing - params.log_batch_size;
    let k_code = match log_dim.checked_add(params.log_inv_rate) {
        Some(k) => k,
        None => {
            return Err(RegionSidecarError::BadVk);
        },
    };
    if params.log_batch_size >= usize::BITS as usize || k_code == 0 || k_code > 64 || k_code
        >= usize::BITS as usize {
        return Err(RegionSidecarError::UnsupportedVkShape);
    }
    let initial_lanes = match crate::dyadic::checked_power_of_two(params.log_batch_size) {
        Some(lanes) => lanes,
        None => {
            return Err(RegionSidecarError::UnsupportedVkShape);
        },
    };
    if initial_lanes > max_lanes {
        return Err(RegionSidecarError::UnsupportedVkShape);
    }
    let ghost packing = log_packing as int;
    assert(params.in_range(packing, max_lanes as int));
    let mut trees: Vec<TreeInfo> = Vec::new();
    trees.push(TreeInfo { lanes: initial_lanes, depth: k_code });
    assert(trees@[0] == params.tree(packing, 0));
    if params.arities.len() > 0 {
        let mut cum: usize = 0;
        let mut t: usize = 0;
        let n_arities = params.arities.len();
        assert(folded(params.arities@, 0) == 0);
        if params.fri_commits >= n_arities {
            return Err(RegionSidecarError::BadVk);
        }
        while t < params.fri_commits + 1
            invariant
                t <= params.fri_commits + 1,
                n_arities == params.arities@.len(),
                params.fri_commits < n_arities,
                params.in_range(packing, max_lanes as int),
                k_code == params.k_code(packing),
                packing == log_packing,
                cum == folded(params.arities@, t as nat),
                cum <= k_code,
                trees@.len() == t + 1,
                forall|i: int|
                    0 <= i < params.arities@.len() ==> pow2(
                        (#[trigger] params.arities@[i] + 1) as nat,
                    ) <= usize::MAX,
                forall|i: int|
                    0 <= i < trees@.len() ==> #[trigger] trees@[i] == params.tree(packing, i),
            decreases params.fri_commits + 1 - t,
        {
            let next = params.arities[t];
            assert(folded(params.arities@, (t + 1) as nat) == cum + next);
            if k_code - cum < next {
                proof {
                    lemma_folded_mono(
                        params.arities@,
                        (t + 1) as nat,
                        (params.fri_commits + 1) as nat,
                    );
                }
                return Err(RegionSidecarError::BadVk);
            }
            cum = cum + next;
            let lanes = power_of_two(next + 1);
            trees.push(TreeInfo { lanes, depth: k_code - cum });
            t = t + 1;
        }
    }
    let mut i: usize = 0;
    while i < trees.len()
        invariant
            i <= trees@.len(),
            trees@.len() == params.tree_count(),
            params.in_range(packing, max_lanes as int),
            params.folds_fit(packing),
            packing == log_packing,
            forall|k: int| 0 <= k < trees@.len() ==> #[trigger] trees@[k] == params.tree(packing, k),
            forall|k: int| 0 <= k < i ==> (#[trigger] params.tree(packing, k)).depth > 0,
        decreases trees@.len() - i,
    {
        assert(trees@[i as int] == params.tree(packing, i as int));
        if trees[i].depth == 0 {
            return Err(RegionSidecarError::UnsupportedVkShape);
        }
        i = i + 1;
    }
    Ok(trees)
}

/// First direction bit of tree `t`'s path among the bits of a query position:
/// a path of depth `d` reads the last `d` bits.
pub fn dir_bit_offset(trees: &Vec<TreeInfo>, t: usize, k_code: usize) -> (r: usize)
    requires
        t < trees@.len(),
        trees@[t as int].depth <= k_code,
    ensures
        r == k_code - trees@[t as int].depth,
{
    k_code - trees[t].depth
}

/// The universal carrier of all parent tiers: the trees of every tier, the
/// number of queries and the number of proofs that share it.
pub struct HistoryStepPcsCarrierGeometry {
    pub groups: Vec<Vec<TreeInfo>>,
    pub n_queries: usize,
    pub proof_roles: usize,
}

/// The longest of the first `n` groups.
pub open spec fn longest_group(groups: Seq<Vec<TreeInfo>>, n: nat) -> nat
    decreases n,
{
    if n == 0 {
        0
    } else {
        let rest = longest_group(groups, (n - 1) as nat);
        if groups[n - 1]@.len() > rest {
            groups[n - 1]@.len()
        } else {
            rest
        }
    }
}

/// The first of the groups from `from` on that has a tree at `position`.
pub open spec fn first_with(groups: Seq<Vec<TreeInfo>>, position: int, from: int) -> int
    decreases groups.len() - from,
{
    if from >= groups.len() || position < groups[from]@.len() {
        from
    } else {
        first_with(groups, position, from + 1)
    }
}

/// The deepest tree at `position` of the first `n` groups, zero if none.
pub open spec fn deepest(groups: Seq<Vec<TreeInfo>>, position: int, n: nat) -> nat
    decreases n,
{
    if n == 0 {
        0
    } else {
        let rest = deepest(groups, position, (n - 1) as nat);
        if position < groups[n - 1]@.len() && groups[n - 1]@[position].depth > rest {
            groups[n - 1]@[position].depth as nat
        } else {
            rest
        }
    }
}

pub proof fn lemma_longest_group(groups: Seq<Vec<TreeInfo>>, n: nat)
    requires
        n <= groups.len(),
    ensures
        forall|g: int| 0 <= g < n ==> (#[trigger] groups[g])@.len() <= longest_group(groups, n),
        longest_group(groups, n) > 0 ==> exists|g: int|
            0 <= g < n && (#[trigger] groups[g])@.len() == longest_group(groups, n),
    decreases n,
{
    if n > 0 {
        lemma_longest_group(groups, (n - 1) as nat);
        let rest = longest_group(groups, (n - 1) as nat);
        if groups[n - 1]@.len() <= rest && rest > 0 {
            let g = choose|g: int| 0 <= g < n - 1 && (#[trigger] groups[g])@.len() == rest;
            assert(groups[g]@.len() == longest_group(groups, n));
        } else if groups[n - 1]@.len() > rest {
            assert(groups[n - 1]@.len() == longest_group(groups, n));
        }
    }
}

proof fn lemma_first_with(groups: Seq<Vec<TreeInfo>>, position: int, from: int)
    requires
        0 <= from <= groups.len(),
    ensures
        from <= first_with(groups, position, from) <= groups.len(),
        forall|g: int|
            from <= g < first_with(groups, position, from) ==> position >= (
            #[trigger] groups[g])@.len(),
        first_with(groups, position, from) < groups.len() ==> position < groups[first_with(
            groups,
            position,
            from,
        )]@.len(),
    decreases groups.len() - from,
{
    if !(from >= groups.len() || position < groups[from]@.len()) {
        lemma_first_with(groups, position, from + 1);
    }
}

/// Every position of a carrier is present in some tier.
pub proof fn lemma_position_present(carrier: HistoryStepPcsCarrierGeometry, p: int)
    requires
        0 <= p < carrier.positions(),
    ensures
        0 <= first_with(carrier.groups@, p, 0) < carrier.groups@.len(),
        p < carrier.groups@[first_with(carrier.groups@, p, 0)]@.len(),
{
    lemma_longest_group(carrier.groups@, carrier.groups@.len());
    lemma_first_with(carrier.groups@, p, 0);
    let g = choose|g: int|
        0 <= g < carrier.groups@.len() && (#[trigger] carrier.groups@[g])@.len()
            == carrier.positions();
    assert(first_with(carrier.groups@, p, 0) <= g);
}

impl HistoryStepPcsCarrierGeometry {
    /// Tree positions of the carrier.
    pub open spec fn positions(&self) -> nat {
        longest_group(self.groups@, self.groups@.len())
    }

    /// The leaf lanes at a position: those of the first tier that has it.
    pub open spec fn lanes_at(&self, position: int) -> usize {
        self.groups@[first_with(self.groups@, position, 0)]@[position].lanes
    }

    /// All tiers that have a tree at `position` agree on a supported even lane
    /// count.
    pub open spec fn lanes_agree(&self, position: int, max_lanes: int) -> bool {
        let lanes = self.lanes_at(position);
        &&& 2 <= lanes <= max_lanes
        &&& lanes % 2 == 0
        &&& forall|g: int|
            0 <= g < self.groups@.len() && position < (#[trigger] self.groups@[g])@.len()
                ==> self.groups@[g]@[position].lanes == lanes
    }

    /// The leaf shapes of all tiers can share one walk.
    pub open spec fn leaves_fit(&self, max_lanes: int) -> bool {
        &&& self.positions() >= 2
        &&& forall|p: int| 0 <= p < self.positions() ==> #[trigger] self.lanes_agree(p, max_lanes)
    }

    /// The depth of the path carrier at a position: that of the deepest tree.
    pub open spec fn depth_at(&self, position: int) -> nat {
        deepest(self.groups@, position, self.groups@.len())
    }

    /// Every position has a path.
    pub open spec fn paths_fit(&self) -> bool {
        forall|p: int| 0 <= p < self.positions() ==> #[trigger] self.depth_at(p) > 0
    }

    fn subchannel_count(&self) -> (r: usize)
        ensures
            r == self.positions(),
    {
        let mut most: usize = 0;
        let mut g: usize = 0;
        while g < self.groups.len()
            invariant
                g <= self.groups@.len(),
                most == longest_group(self.groups@, g as nat),
            decreases self.groups@.len() - g,
        {
            if self.groups[g].len() > most {
                most = self.groups[g].len();
            }
            g = g + 1;
        }
        most
    }

    /// The leaf lanes at every tree position. A smaller tier may lack trailing
    /// trees, but an existing tree never changes the lane count.
    pub fn leaf_lanes(&self, max_lanes: usize) -> (r: Result<Vec<usize>, RegionSidecarError>)
        ensures
            !self.leaves_fit(max_lanes as int) ==> r == Err::<Vec<usize>, _>(
                RegionSidecarError::UnsupportedVkShape,
            ),
            self.leaves_fit(max_lanes as int) ==> {
                &&& r is Ok
                &&& r->Ok_0@.len() == self.positions()
                &&& forall|p: int|
                    0 <= p < self.positions() ==> #[trigger] r->Ok_0@[p] == self.lanes_at(p)
            },
    {
        let positions = self.subchannel_count();
        if positions < 2 {
            return Err(RegionSidecarError::UnsupportedVkShape);
        }
        let mut lanes: Vec<usize> = Vec::new();
        let mut p: usize = 0;
        while p < positions
            invariant
                p <= positions,
                positions == self.positions(),
                positions >= 2,
                lanes@.len() == p,
                forall|k: int| 0 <= k < p ==> #[trigger] lanes@[k] == self.lanes_at(k),
                forall|k: int| 0 <= k < p ==> #[trigger] self.lanes_agree(k, max_lanes as int),
            decreases positions - p,
        {
            let ghost first_group = first_with(self.groups@, p as int, 0);
            proof {
                lemma_longest_group(self.groups@, self.groups@.len());
                lemma_first_with(self.groups@, p as int, 0);
                let g = choose|g: int|
                    0 <= g < self.groups@.len() && (#[trigger] self.groups@[g])@.len()
                        == self.positions();
                assert(first_group <= g);
            }
            let mut first: Option<usize> = None;
            let mut agree = true;
            let mut g: usize = 0;
            while g < self.groups.len()
                invariant
                    g <= self.groups@.len(),
                    p < self.positions(),
                    first_group == first_with(self.groups@, p as int, 0),
                    0 <= first_group < self.groups@.len(),
                    p < self.groups@[first_group]@.len(),
                    forall|k: int| 0 <= k < first_group ==> p >= (#[trigger] self.groups@[k])@.len(),
                    first is Some <==> first_group < g,
                    first matches Some(l) ==> l == self.lanes_at(p as int),
                    agree <==> forall|k: int|
                        0 <= k < g && p < (#[trigger] self.groups@[k])@.len()
                            ==> self.groups@[k]@[p as int].lanes == self.lanes_at(p as int),
                decreases self.groups@.len() - g,
            {
                if p < self.groups[g].len() {
                    let here = self.groups[g][p].lanes;
                    match first {
                        None => {
                            assert(g == first_group);
                            first = Some(here);
                        },
                        Some(l) => {
                            if here != l {
                                assert(self.groups@[g as int]@[p as int].lanes != self.lanes_at(
                                    p as int,
                                ));
                                agree = false;
                            }
                        },
                    }
                }
                g = g + 1;
            }
            match first {
                None => {
                    return Err(RegionSidecarError::UnsupportedVkShape);
                },
                Some(l) => {
                    if l < 2 || l % 2 != 0 || l > max_lanes || !agree {
                        assert(!self.lanes_agree(p as int, max_lanes as int));
                        return Err(RegionSidecarError::UnsupportedVkShape);
                    }
                    assert(self.lanes_agree(p as int, max_lanes as int));
                    lanes.push(l);
                },
            }
            p = p + 1;
        }
        Ok(lanes)
    }

    /// The path depth at every tree position: the deepest tree of any tier.
    pub fn path_carrier_depths(&self) -> (r: Result<Vec<usize>, RegionSidecarError>)
        ensures
            !self.paths_fit() ==> r == Err::<Vec<usize>, _>(
                RegionSidecarError::UnsupportedVkShape,
            ),
            self.paths_fit() ==> {
                &&& r is Ok
                &&& r->Ok_0@.len() == self.positions()
                &&& forall|p: int|
                    0 <= p < self.positions() ==> #[trigger] r->Ok_0@[p] == self.depth_at(p)
            },
    {
        let positions = self.subchannel_count();
        let mut depths: Vec<usize> = Vec::new();
        let mut p: usize = 0;
        while p < positions
            invariant
                p <= positions,
                positions == self.positions(),
                depths@.len() == p,
                forall|k: int| 0 <= k < p ==> #[trigger] depths@[k] == self.depth_at(k),
                forall|k: int| 0 <= k < p ==> #[trigger] self.depth_at(k) > 0,
            decreases positions - p,
        {
            let mut most: usize = 0;
            let mut g: usize = 0;
            while g < self.groups.len()
                invariant
                    g <= self.groups@.len(),
                    most == deepest(self.groups@, p as int, g as nat),
                decreases self.groups@.len() - g,
            {
                if p < self.groups[g].len() && self.groups[g][p].depth > most {
                    most = self.groups[g][p].depth;
                }
                g = g + 1;
            }
            if most == 0 {
                assert(self.depth_at(p as int) == 0);
                return Err(RegionSidecarError::UnsupportedVkShape);
            }
            depths.push(most);
            p = p + 1;
        }
        Ok(depths)
    }
}

/// The fewest extra paths that fill `total` slots exactly, and the family of
/// the last of them, over the first `f` families: the first family wins a tie.
pub open spec fn fewest_upto(depths: Seq<usize>, total: int, f: nat) -> Option<(nat, int)>
    decreases total, f,
    when total >= 0
{
    if f == 0 {
        None
    } else {
        let rest = fewest_upto(depths, total, (f - 1) as nat);
        let d = depths[f - 1] as int;
        if 0 < d <= total {
            match fewest(depths, total - d) {
                None => rest,
                Some(n) => match rest {
                    None => Some((n + 1, f - 1)),
                    Some((m, g)) => if n + 1 < m {
                        Some((n + 1, f - 1))
                    } else {
                        rest
                    },
                },
            }
        } else {
            rest
        }
    }
}

/// The fewest extra paths that fill `total` slots exactly.
pub open spec fn fewest(depths: Seq<usize>, total: int) -> Option<nat>
    decreases total, depths.len() + 1,
    when total >= 0
{
    if total == 0 {
        Some(0)
    } else {
        match fewest_upto(depths, total, depths.len()) {
            Some((n, g)) => Some(n),
            None => None,
        }
    }
}

/// How many of the extra paths that fill `total` slots belong to family `f`.
pub open spec fn extras_of(depths: Seq<usize>, total: int, f: int) -> nat
    decreases total,
    when total >= 0
{
    if total == 0 {
        0
    } else {
        match fewest_upto(depths, total, depths.len()) {
            Some((n, g)) => if 0 <= g < depths.len() && 0 < depths[g] <= total {
                extras_of(depths, total - depths[g], f) + if g == f {
                    1nat
                } else {
                    0nat
                }
            } else {
                0
            },
            None => 0,
        }
    }
}

/// The sum of `counts[i] * depths[i]` over the first `n` families.
pub open spec fn filled(counts: Seq<nat>, depths: Seq<usize>, n: nat) -> nat
    decreases n,
{
    if n == 0 {
        0
    } else {
        filled(counts, depths, (n - 1) as nat) + counts[n - 1] * depths[n - 1] as nat
    }
}

/// The sum of the first `n` counts.
pub open spec fn count_sum(counts: Seq<nat>, n: nat) -> nat
    decreases n,
{
    if n == 0 {
        0
    } else {
        count_sum(counts, (n - 1) as nat) + counts[n - 1]
    }
}

/// What `fewest_upto` picks: one more than the fewest of what is left, and no
/// worse than any other family.
proof fn lemma_fewest_upto(depths: Seq<usize>, total: int, f: nat)
    requires
        total > 0,
        f <= depths.len(),
    ensures
        fewest_upto(depths, total, f) matches Some((n, g)) ==> {
            &&& 0 <= g < f
            &&& 0 < depths[g] <= total
            &&& fewest(depths, total - depths[g]) == Some((n - 1) as nat)
            &&& n > 0
        },
        forall|h: int|
            0 <= h < f && 0 < #[trigger] depths[h] <= total && fewest(
                depths,
                total - depths[h],
            ) is Some ==> (fewest_upto(depths, total, f) matches Some((n, g)) && n <= fewest(
                depths,
                total - depths[h],
            )->0 + 1),
    decreases f,
{
    if f > 0 {
        lemma_fewest_upto(depths, total, (f - 1) as nat);
    }
}

/// No way to fill `total` slots with whole paths uses fewer paths than
/// `fewest`, and where there is a way, `fewest` finds one.
pub proof fn lemma_fewest_minimal(depths: Seq<usize>, total: int, counts: Seq<nat>)
    requires
        total >= 0,
        counts.len() == depths.len(),
        filled(counts, depths, depths.len()) == total,
        forall|i: int| 0 <= i < depths.len() ==> #[trigger] depths[i] > 0,
    ensures
        fewest(depths, total) is Some,
        fewest(depths, total)->0 <= count_sum(counts, depths.len()),
    decreases total,
{
    if total > 0 {
        let h = lemma_some_count(counts, depths, depths.len());
        let fewer = counts.update(h, (counts[h] - 1) as nat);
        lemma_one_fewer(counts, depths, h, depths.len());
        assert(depths[h] > 0);
        lemma_fewest_minimal(depths, total - depths[h], fewer);
        lemma_fewest_upto(depths, total, depths.len());
        assert(0 < depths[h] <= total);
    }
}

/// A positive sum has a positive count.
proof fn lemma_some_count(counts: Seq<nat>, depths: Seq<usize>, n: nat) -> (h: int)
    requires
        counts.len() == depths.len(),
        n <= depths.len(),
        filled(counts, depths, n) > 0,
    ensures
        0 <= h < n,
        counts[h] > 0,
        counts[h] * depths[h] <= filled(counts, depths, n),
        depths[h] <= filled(counts, depths, n),
    decreases n,
{
    if n == 0 {
        0
    } else if counts[n - 1] > 0 && depths[n - 1] > 0 {
        assert(counts[n - 1] * depths[n - 1] as nat >= depths[n - 1]) by (nonlinear_arith)
            requires
                counts[n - 1] > 0,
        ;
        n - 1
    } else {
        assert(counts[n - 1] * depths[n - 1] as nat == 0) by (nonlinear_arith)
            requires
                counts[n - 1] == 0 || depths[n - 1] == 0,
        ;
        lemma_some_count(counts, depths, (n - 1) as nat)
    }
}

proof fn lemma_one_fewer(counts: Seq<nat>, depths: Seq<usize>, h: int, n: nat)
    requires
        counts.len() == depths.len(),
        0 <= h < depths.len(),
        counts[h] > 0,
        n <= depths.len(),
    ensures
        ({
            let fewer = counts.update(h, (counts[h] - 1) as nat);
            &&& filled(fewer, depths, n) + (if h < n {
                depths[h] as nat
            } else {
                0
            }) == filled(counts, depths, n)
            &&& count_sum(fewer, n) + (if h < n {
                1nat
            } else {
                0
            }) == count_sum(counts, n)
        }),
    decreases n,
{
    if n > 0 {
        lemma_one_fewer(counts, depths, h, (n - 1) as nat);
        if n - 1 == h {
            assert((counts[h] - 1) * depths[h] + depths[h] == counts[h] * depths[h])
                by (nonlinear_arith);
        }
    }
}

/// The extra paths per family, as a sequence.
pub open spec fn extras(depths: Seq<usize>, total: int) -> Seq<nat> {
    Seq::new(depths.len(), |f: int| extras_of(depths, total, f))
}

/// Raising every count by `k` adds `k` paths of every depth.
proof fn lemma_filled_shift(counts: Seq<nat>, depths: Seq<usize>, k: nat, n: nat)
    requires
        counts.len() == depths.len(),
        n <= depths.len(),
    ensures
        filled(Seq::new(depths.len(), |f: int| counts[f] + k), depths, n) == filled(
            counts,
            depths,
            n,
        ) + k * folded(depths, n),
    decreases n,
{
    if n > 0 {
        lemma_filled_shift(counts, depths, k, (n - 1) as nat);
        let c = counts[n - 1];
        let d = depths[n - 1] as nat;
        let s = folded(depths, (n - 1) as nat);
        assert((c + k) * d == c * d + k * d) by (nonlinear_arith);
        assert(k * (s + d) == k * s + k * d) by (nonlinear_arith);
    } else {
        assert(k * 0 == 0) by (nonlinear_arith);
    }
}

/// The chosen extra paths fill the padding exactly, with the fewest paths.
pub proof fn lemma_extras_fill(depths: Seq<usize>, total: int)
    requires
        total >= 0,
        fewest(depths, total) is Some,
    ensures
        filled(extras(depths, total), depths, depths.len()) == total,
        count_sum(extras(depths, total), depths.len()) == fewest(depths, total)->0,
    decreases total,
{
    if total == 0 {
        lemma_no_extras(extras(depths, 0), depths, depths.len());
    } else {
        lemma_fewest_upto(depths, total, depths.len());
        let (n, g) = fewest_upto(depths, total, depths.len())->0;
        let rest = total - depths[g];
        lemma_extras_fill(depths, rest);
        let more = extras(depths, total);
        assert(more.update(g, (more[g] - 1) as nat) =~= extras(depths, rest));
        lemma_one_fewer(more, depths, g, depths.len());
    }
}

proof fn lemma_no_extras(counts: Seq<nat>, depths: Seq<usize>, n: nat)
    requires
        counts.len() == depths.len(),
        n <= depths.len(),
        forall|f: int| 0 <= f < counts.len() ==> #[trigger] counts[f] == 0,
    ensures
        filled(counts, depths, n) == 0,
        count_sum(counts, n) == 0,
    decreases n,
{
    if n > 0 {
        lemma_no_extras(counts, depths, (n - 1) as nat);
        assert(0 * depths[n - 1] as nat == 0) by (nonlinear_arith);
        assert(counts[n - 1] == 0);
    }
}

/// The family-major packing of the path walk.
pub struct DensePathGeometry {
    pub carrier_depths: Vec<usize>,
    pub family_offsets: Vec<usize>,
    pub family_path_counts: Vec<usize>,
    pub n_paths: usize,
    pub active_slots: usize,
    pub w_log: usize,
}

impl DensePathGeometry {
    /// The packing of `n_paths` paths of every depth into `2^w_log` slots,
    /// filled up with the fewest extra paths.
    pub open spec fn packs(&self, depths: Seq<usize>, n_paths: nat) -> bool {
        let cells = ceil_pow2(n_paths * folded(depths, depths.len()));
        let padding = cells - n_paths * folded(depths, depths.len());
        &&& self.carrier_depths@ == depths
        &&& self.n_paths == n_paths
        &&& self.active_slots == cells
        &&& self.w_log == ceil_log(n_paths * folded(depths, depths.len()))
        &&& self.family_path_counts@.len() == depths.len()
        &&& forall|f: int|
            0 <= f < depths.len() ==> #[trigger] self.family_path_counts@[f] == n_paths
                + extras_of(depths, padding, f)
        &&& self.family_offsets@.len() == depths.len()
        &&& forall|f: int|
            0 <= f < depths.len() ==> #[trigger] self.family_offsets@[f] == filled(
                Seq::new(depths.len(), |g: int| n_paths + extras_of(depths, padding, g)),
                depths,
                f as nat,
            )
    }
}

impl DensePathGeometry {
    /// The packing is that of its own depths and paths, and it fills the walk.
    pub open spec fn complete(&self) -> bool {
        let depths = self.carrier_depths@;
        let live = self.n_paths as nat * folded(depths, depths.len());
        &&& self.packs(depths, self.n_paths as nat)
        &&& fewest(depths, ceil_pow2(live) - live) is Some
    }
}

/// One table of the fewest extra paths for every number of slots, and the
/// family each choice takes last.
struct FillTable {
    best: Vec<Option<usize>>,
    previous: Vec<usize>,
}

proof fn lemma_fewest_bound(depths: Seq<usize>, total: int)
    requires
        total >= 0,
    ensures
        fewest(depths, total) matches Some(n) ==> n <= total,
    decreases total,
{
    if total > 0 {
        lemma_fewest_upto(depths, total, depths.len());
        if fewest_upto(depths, total, depths.len()) is Some {
            let (n, g) = fewest_upto(depths, total, depths.len())->0;
            lemma_fewest_bound(depths, total - depths[g]);
        }
    }
}

fn fill_table(depths: &Vec<usize>, padding: usize) -> (r: FillTable)
    requires
        padding < usize::MAX,
    ensures
        r.best@.len() == padding + 1,
        r.previous@.len() == padding + 1,
        forall|t: int|
            0 <= t <= padding ==> match #[trigger] r.best@[t] {
                Some(n) => fewest(depths@, t) == Some(n as nat),
                None => fewest(depths@, t) is None,
            },
        forall|t: int|
            0 < t <= padding ==> (fewest_upto(depths@, t, depths@.len()) matches Some((n, g))
                ==> #[trigger] r.previous@[t] == g),
{
    let mut best: Vec<Option<usize>> = Vec::new();
    let mut previous: Vec<usize> = Vec::new();
    best.push(Some(0));
    previous.push(0);
    let mut total: usize = 1;
    while total <= padding
        invariant
            1 <= total <= padding + 1,
            padding < usize::MAX,
            best@.len() == total,
            previous@.len() == total,
            forall|t: int|
                0 <= t < total ==> match #[trigger] best@[t] {
                    Some(n) => fewest(depths@, t) == Some(n as nat),
                    None => fewest(depths@, t) is None,
                },
            forall|t: int|
                0 < t < total ==> (fewest_upto(depths@, t, depths@.len()) matches Some((n, g))
                    ==> #[trigger] previous@[t] == g),
        decreases padding + 1 - total,
    {
        let mut here: Option<usize> = None;
        let mut from: usize = 0;
        let mut f: usize = 0;
        while f < depths.len()
            invariant
                f <= depths@.len(),
                1 <= total <= padding,
                padding < usize::MAX,
                best@.len() == total,
                forall|t: int|
                    0 <= t < total ==> match #[trigger] best@[t] {
                        Some(n) => fewest(depths@, t) == Some(n as nat),
                        None => fewest(depths@, t) is None,
                    },
                match here {
                    Some(n) => fewest_upto(depths@, total as int, f as nat) == Some(
                        (n as nat, from as int),
                    ),
                    None => fewest_upto(depths@, total as int, f as nat) is None,
                },
            decreases depths@.len() - f,
        {
            let d = depths[f];
            if d > 0 && total >= d {
                let rest = best[total - d];
                proof {
                    lemma_fewest_bound(depths@, total - d);
                }
                match rest {
                    Some(n) => {
                        let better = match here {
                            Some(m) => n + 1 < m,
                            None => true,
                        };
                        if better {
                            here = Some(n + 1);
                            from = f;
                        }
                    },
                    None => {},
                }
            }
            f = f + 1;
        }
        best.push(here);
        previous.push(from);
        total = total + 1;
    }
    FillTable { best, previous }
}

/// The extra paths of every family that fill `padding` slots, if they can be
/// filled.
pub fn fewest_extra_paths(depths: &Vec<usize>, padding: usize) -> (r: Option<Vec<usize>>)
    requires
        padding < usize::MAX,
    ensures
        r is Some <==> fewest(depths@, padding as int) is Some,
        r matches Some(counts) ==> counts@.len() == depths@.len() && forall|f: int|
            0 <= f < depths@.len() ==> #[trigger] counts@[f] == extras_of(
                depths@,
                padding as int,
                f,
            ),
{
    let table = fill_table(depths, padding);
    match table.best[padding] {
        None => {
            return None;
        },
        Some(_) => {},
    }
    let mut counts: Vec<usize> = Vec::new();
    let mut f: usize = 0;
    while f < depths.len()
        invariant
            f <= depths@.len(),
            counts@.len() == f,
            forall|k: int| 0 <= k < f ==> #[trigger] counts@[k] == 0,
        decreases depths@.len() - f,
    {
        counts.push(0);
        f = f + 1;
    }
    let mut remaining: usize = padding;
    while remaining != 0
        invariant
            remaining <= padding,
            padding < usize::MAX,
            table.best@.len() == padding + 1,
            table.previous@.len() == padding + 1,
            fewest(depths@, remaining as int) is Some,
            counts@.len() == depths@.len(),
            forall|t: int|
                0 < t <= padding ==> (fewest_upto(depths@, t, depths@.len()) matches Some((n, g))
                    ==> #[trigger] table.previous@[t] == g),
            forall|k: int|
                0 <= k < depths@.len() ==> #[trigger] counts@[k] + extras_of(
                    depths@,
                    remaining as int,
                    k,
                ) == extras_of(depths@, padding as int, k),
            forall|k: int|
                0 <= k < depths@.len() ==> #[trigger] counts@[k] + remaining <= padding,
        decreases remaining,
    {
        proof {
            lemma_fewest_upto(depths@, remaining as int, depths@.len());
        }
        let g = table.previous[remaining];
        assert(fewest_upto(depths@, remaining as int, depths@.len()) matches Some((n, h)) && h == g);
        let ghost counts0 = counts@;
        assert(counts@[g as int] + remaining <= padding);
        let more: usize = counts[g] + 1;
        counts.set(g, more);
        remaining = remaining - depths[g];
        proof {
            assert forall|k: int| 0 <= k < depths@.len() implies #[trigger] counts@[k] + extras_of(
                depths@,
                remaining as int,
                k,
            ) == extras_of(depths@, padding as int, k) by {
                assert(counts0[k] + extras_of(depths@, remaining + depths@[g as int], k)
                    == extras_of(depths@, padding as int, k));
            }
            assert forall|k: int| 0 <= k < depths@.len() implies #[trigger] counts@[k] + remaining
                <= padding by {
                assert(counts0[k] + remaining + depths@[g as int] <= padding);
            }
        }
    }
    proof {
        assert forall|k: int| 0 <= k < depths@.len() implies #[trigger] counts@[k] == extras_of(
            depths@,
            padding as int,
            k,
        ) by {
            assert(extras_of(depths@, 0, k) == 0);
            assert(counts@[k] + extras_of(depths@, remaining as int, k) == extras_of(
                depths@,
                padding as int,
                k,
            ));
        }
    }
    Some(counts)
}

impl HistoryStepPcsCarrierGeometry {
    /// The carrier depths of all positions.
    pub open spec fn depths(&self) -> Seq<usize> {
        Seq::new(self.positions(), |p: int| self.depth_at(p) as usize)
    }

    pub open spec fn path_count(&self) -> nat {
        self.proof_roles as nat * self.n_queries as nat
    }

    /// Slots of the paths of all queries.
    pub open spec fn live_slots(&self) -> nat {
        self.path_count() * folded(self.depths(), self.positions())
    }

    /// Why the path walk is refused, if it is.
    pub open spec fn dense_error(&self) -> Option<RegionSidecarError> {
        if !self.paths_fit() {
            Some(RegionSidecarError::UnsupportedVkShape)
        } else if self.path_count() > usize::MAX {
            Some(RegionSidecarError::BadVk)
        } else if self.path_count() == 0 {
            Some(RegionSidecarError::UnsupportedVkShape)
        } else if self.live_slots() > usize::MAX || ceil_pow2(self.live_slots()) > usize::MAX {
            Some(RegionSidecarError::BadVk)
        } else if fewest(self.depths(), ceil_pow2(self.live_slots()) - self.live_slots()) is None {
            Some(RegionSidecarError::UnsupportedVkShape)
        } else {
            None
        }
    }
}

proof fn lemma_folded_positive(depths: Seq<usize>, n: nat)
    requires
        n <= depths.len(),
        forall|i: int| 0 <= i < depths.len() ==> #[trigger] depths[i] > 0,
    ensures
        folded(depths, n) >= n,
    decreases n,
{
    if n > 0 {
        lemma_folded_positive(depths, (n - 1) as nat);
        assert(depths[n - 1] > 0);
    }
}

/// The slots of `n_paths` paths of every depth, or nothing if they do not fit.
fn live_slots(depths: &Vec<usize>, n_paths: usize) -> (r: Option<usize>)
    ensures
        r matches Some(v) ==> v == n_paths as nat * folded(depths@, depths@.len()),
        r is None <==> n_paths as nat * folded(depths@, depths@.len()) > usize::MAX,
{
    let mut live: usize = 0;
    let mut f: usize = 0;
    assert(n_paths as nat * 0 == 0);
    while f < depths.len()
        invariant
            f <= depths@.len(),
            live == n_paths as nat * folded(depths@, f as nat),
        decreases depths@.len() - f,
    {
        let d = depths[f];
        proof {
            lemma_folded_mono(depths@, (f + 1) as nat, depths@.len());
            let here = folded(depths@, f as nat);
            let next = folded(depths@, (f + 1) as nat);
            let all = folded(depths@, depths@.len());
            assert(n_paths as nat * next == n_paths as nat * here + n_paths * d) by (nonlinear_arith)
                requires
                    next == here + d,
            ;
            assert(n_paths as nat * next <= n_paths as nat * all) by (nonlinear_arith)
                requires
                    next <= all,
            ;
            assert(n_paths * d <= n_paths as nat * next) by (nonlinear_arith)
                requires
                    next == here + d,
                    here >= 0,
            ;
        }
        match n_paths.checked_mul(d) {
            None => {
                return None;
            },
            Some(more) => match live.checked_add(more) {
                None => {
                    return None;
                },
                Some(sum) => {
                    live = sum;
                },
            },
        }
        f = f + 1;
    }
    Some(live)
}

/// Packs the paths of all queries family by family into one walk. Every slot
/// of the walk belongs to a path: the dyadic rest is filled with the fewest
/// extra paths of the same depths.
pub fn dense_path_geometry(carrier: &HistoryStepPcsCarrierGeometry) -> (r: Result<
    DensePathGeometry,
    RegionSidecarError,
>)
    ensures
        match carrier.dense_error() {
            Some(error) => r == Err::<DensePathGeometry, _>(error),
            None => r is Ok && r->Ok_0.packs(carrier.depths(), carrier.path_count())
                && r->Ok_0.complete(),
        },
{
    let carrier_depths = match carrier.path_carrier_depths() {
        Ok(depths) => depths,
        Err(error) => {
            return Err(error);
        },
    };
    let ghost depths = carrier.depths();
    proof {
        assert forall|p: int| 0 <= p < depths.len() implies #[trigger] carrier_depths@[p]
            == depths[p] && depths[p] > 0 by {
            assert(carrier.depth_at(p) > 0);
            assert(carrier_depths@[p] == carrier.depth_at(p));
        }
        assert(carrier_depths@ =~= depths);
    }
    let n_paths = match carrier.proof_roles.checked_mul(carrier.n_queries) {
        Some(n) => n,
        None => {
            return Err(RegionSidecarError::BadVk);
        },
    };
    if n_paths == 0 {
        return Err(RegionSidecarError::UnsupportedVkShape);
    }
    let live = match live_slots(&carrier_depths, n_paths) {
        Some(live) => live,
        None => {
            return Err(RegionSidecarError::BadVk);
        },
    };
    proof {
        lemma_ceil(live as nat);
    }
    let cells = match checked_next_power_of_two(live) {
        Some(cells) => cells,
        None => {
            assert(pow2(ceil_log(live as nat)) >= live);
            return Err(RegionSidecarError::BadVk);
        },
    };
    let padding: usize = cells.size - live;
    proof {
        if depths.len() > 0 {
            lemma_folded_positive(depths, depths.len());
            assert(live > 0) by (nonlinear_arith)
                requires
                    live == n_paths as nat * folded(depths, depths.len()),
                    n_paths > 0,
                    folded(depths, depths.len()) > 0,
            ;
        } else {
            assert(n_paths as nat * 0 == 0);
            assert(live == 0);
            vstd::arithmetic::power2::lemma2_to64();
            assert(covers(0, 0));
        }
    }
    let extra = match fewest_extra_paths(&carrier_depths, padding) {
        Some(extra) => extra,
        None => {
            return Err(RegionSidecarError::UnsupportedVkShape);
        },
    };
    let ghost counts = Seq::new(depths.len(), |g: int| n_paths as nat + extras_of(
        depths,
        padding as int,
        g,
    ));
    proof {
        lemma_extras_fill(depths, padding as int);
        lemma_filled_shift(extras(depths, padding as int), depths, n_paths as nat, depths.len());
        assert(Seq::new(
            depths.len(),
            |f: int| extras(depths, padding as int)[f] + n_paths as nat,
        ) =~= counts);
        assert(filled(counts, depths, depths.len()) == cells.size);
    }
    let mut family_path_counts: Vec<usize> = Vec::new();
    let mut family_offsets: Vec<usize> = Vec::new();
    let mut active: usize = 0;
    let mut f: usize = 0;
    while f < carrier_depths.len()
        invariant
            f <= carrier_depths@.len(),
            carrier_depths@ == depths,
            extra@.len() == depths.len(),
            forall|k: int|
                0 <= k < depths.len() ==> #[trigger] extra@[k] == extras_of(
                    depths,
                    padding as int,
                    k,
                ),
            forall|i: int| 0 <= i < depths.len() ==> #[trigger] depths[i] > 0,
            counts == Seq::new(depths.len(), |g: int| n_paths as nat + extras_of(
                depths,
                padding as int,
                g,
            )),
            filled(counts, depths, depths.len()) == cells.size,
            family_path_counts@.len() == f,
            family_offsets@.len() == f,
            active == filled(counts, depths, f as nat),
            forall|k: int| 0 <= k < f ==> #[trigger] family_path_counts@[k] == counts[k],
            forall|k: int|
                0 <= k < f ==> #[trigger] family_offsets@[k] == filled(counts, depths, k as nat),
        decreases carrier_depths@.len() - f,
    {
        let d = carrier_depths[f];
        proof {
            lemma_filled_mono(counts, depths, (f + 1) as nat, depths.len());
            let c = counts[f as int];
            assert(c <= c * d as nat) by (nonlinear_arith)
                requires
                    d > 0,
                    c >= 0,
            ;
        }
        let count: usize = n_paths + extra[f];
        family_path_counts.push(count);
        family_offsets.push(active);
        active = active + count * d;
        f = f + 1;
    }
    Ok(
        DensePathGeometry {
            carrier_depths,
            family_offsets,
            family_path_counts,
            n_paths,
            active_slots: active,
            w_log: cells.log,
        },
    )
}

proof fn lemma_filled_mono(counts: Seq<nat>, depths: Seq<usize>, m: nat, n: nat)
    requires
        m <= n <= depths.len(),
    ensures
        filled(counts, depths, m) <= filled(counts, depths, n),
    decreases n,
{
    if m < n {
        lemma_filled_mono(counts, depths, m, (n - 1) as nat);
        assert(counts[n - 1] * depths[n - 1] as nat >= 0) by (nonlinear_arith);
    }
}

/// The leaf walk of a carrier: the lanes that each channel absorbs, and the
/// exponent of the number of tiles.
pub struct CombinedLeafDescriptor {
    pub tx_tile_log: usize,
    pub lanes: Vec<usize>,
}

impl HistoryStepPcsCarrierGeometry {
    /// The queries of a walk, of which it always has one.
    pub open spec fn live_tiles(&self) -> nat {
        if self.path_count() == 0 {
            1
        } else {
            self.path_count()
        }
    }

    /// Why the leaf walk is refused, if it is.
    pub open spec fn leaf_error(&self, max_lanes: int) -> Option<RegionSidecarError> {
        if !self.leaves_fit(max_lanes) {
            Some(RegionSidecarError::UnsupportedVkShape)
        } else if self.path_count() > usize::MAX || ceil_pow2(self.live_tiles()) > usize::MAX {
            Some(RegionSidecarError::BadVk)
        } else {
            None
        }
    }
}

/// The shape of the leaf walk: one channel per tree position, and the least
/// power of two of tiles that holds every query.
pub fn combined_leaf_descriptor(
    carrier: &HistoryStepPcsCarrierGeometry,
    max_lanes: usize,
) -> (r: Result<CombinedLeafDescriptor, RegionSidecarError>)
    ensures
        match carrier.leaf_error(max_lanes as int) {
            Some(error) => r == Err::<CombinedLeafDescriptor, _>(error),
            None => {
                &&& r is Ok
                &&& r->Ok_0.tx_tile_log == ceil_log(carrier.live_tiles())
                &&& r->Ok_0.lanes@.len() == carrier.positions()
                &&& forall|p: int|
                    0 <= p < carrier.positions() ==> #[trigger] r->Ok_0.lanes@[p]
                        == carrier.lanes_at(p)
            },
        },
{
    let lanes = match carrier.leaf_lanes(max_lanes) {
        Ok(lanes) => lanes,
        Err(error) => {
            return Err(error);
        },
    };
    let queries = match carrier.proof_roles.checked_mul(carrier.n_queries) {
        Some(n) => n,
        None => {
            return Err(RegionSidecarError::BadVk);
        },
    };
    let live: usize = if queries == 0 {
        1
    } else {
        queries
    };
    proof {
        lemma_ceil(live as nat);
    }
    match checked_next_power_of_two(live) {
        Some(tiles) => Ok(CombinedLeafDescriptor { tx_tile_log: tiles.log, lanes }),
        None => {
            assert(pow2(ceil_log(live as nat)) >= live);
            Err(RegionSidecarError::BadVk)
        },
    }
}

/// The families of the path walk tile it without a gap: each starts where the
/// one before ends, and the last ends with the walk.
pub proof fn lemma_paths_tile(d: DensePathGeometry, depths: Seq<usize>, n_paths: nat, f: int)
    requires
        d.packs(depths, n_paths),
        fewest(
            depths,
            ceil_pow2(n_paths * folded(depths, depths.len())) - n_paths * folded(
                depths,
                depths.len(),
            ),
        ) is Some,
        0 <= f < depths.len(),
    ensures
        d.family_offsets@[0] == 0,
        f + 1 < depths.len() ==> d.family_offsets@[f + 1] == d.family_offsets@[f]
            + d.family_path_counts@[f] * depths[f],
        f + 1 == depths.len() ==> d.active_slots == d.family_offsets@[f]
            + d.family_path_counts@[f] * depths[f],
        d.family_path_counts@[f] >= n_paths,
{
    let padding = ceil_pow2(n_paths * folded(depths, depths.len())) - n_paths * folded(
        depths,
        depths.len(),
    );
    lemma_ceil(n_paths * folded(depths, depths.len()));
    let counts = Seq::new(depths.len(), |g: int| n_paths + extras_of(depths, padding, g));
    lemma_extras_fill(depths, padding);
    lemma_filled_shift(extras(depths, padding), depths, n_paths, depths.len());
    assert(Seq::new(depths.len(), |g: int| extras(depths, padding)[g] + n_paths) =~= counts);
    assert(d.family_offsets@[0] == filled(counts, depths, 0));
    assert(d.family_path_counts@[f] == counts[f]);
    assert(d.family_offsets@[f] == filled(counts, depths, f as nat));
    assert(filled(counts, depths, (f + 1) as nat) == filled(counts, depths, f as nat) + counts[f]
        * depths[f] as nat);
    if f + 1 < depths.len() {
        assert(d.family_offsets@[f + 1] == filled(counts, depths, (f + 1) as nat));
    }
}

} // verus!
