//! The complete draft of the block-metadata region, its handoff of the paired
//! exact-state cells, and its laws.
use crate::circuit::{group_agree, FieldR1csBuilder};
use crate::columns::{pin_views, CellPin};
use crate::meta_pins::{
    instance_fits, leaves_pins, push_leaves_pins, push_spines_pins, spines_pins, DigestPair,
    ExactStateLeaf, LeafShape, SpineInstanceRegion, SpineShape,
};
use crate::meta_region::{
    family_slot, lemma_family_slots, lemma_meta_a_parts, lemma_spine_slots, meta_a_cell,
    family_tracks, leaf_list, meta_a_plane, meta_b_cell, meta_b_plane, overflow_a_list,
    overflow_b_list, paired_list, spine_list, tree_slot, tx_list, wrap_slot_of, GhostState,
    MetaGeometry, MetaSources, MID_PATH_DEPTH, SOURCE_PATH_DEPTH,
};
use crate::tx_root::{
    leg_path, paths_pins, push_tx_root_pins, tx_path_slot, tx_root_leg, LegStatement,
    TxRootRegionData,
};
use crate::walk_planes::{lemma_disjoint_pieces, placed_cell, rectangular, writes, WalkColumns};
use crate::columns::free_step;
use vstd::prelude::*;

verus! {

broadcast use group_agree;

/// One family of a path walk, as its verifier is told of it.
#[derive(Clone, Copy, Debug, PartialEq, Eq, Structural)]
pub enum MerkleRegionFamily {
    PairedUpdate { offset: usize, n_updates: usize, iv: DigestPair },
    TwoPermutation { offset: usize, depth: usize, n_paths: usize, iv: DigestPair },
    FeedForwardStrided {
        offset: usize,
        depth: usize,
        n_paths: usize,
        stride: usize,
        iv: DigestPair,
    },
}

/// The capacity lanes of the three path hashes.
#[derive(Clone, Copy, Debug, PartialEq, Eq, Structural)]
pub struct MetaIvs {
    pub update: DigestPair,
    pub compress: DigestPair,
    pub capsule: DigestPair,
}

/// The family descriptors of the second walk, in the order of its families.
pub open spec fn family_list(g: &MetaGeometry, ivs: MetaIvs) -> Seq<MerkleRegionFamily> {
    let paired = if g.shape.leaves > 0 {
        seq![
            MerkleRegionFamily::PairedUpdate {
                offset: g.meta_b->0.bases@[0],
                n_updates: g.local_cap,
                iv: ivs.update,
            },
            MerkleRegionFamily::PairedUpdate {
                offset: g.meta_b->0.bases@[1],
                n_updates: g.upper_cap,
                iv: ivs.update,
            },
        ]
    } else {
        seq![]
    };
    let tx = if g.shape.tx_paths > 0 {
        seq![
            MerkleRegionFamily::TwoPermutation {
                offset: g.meta_b->0.bases@[g.shape.paired_families() as int],
                depth: g.shape.tx_depth,
                n_paths: g.tx_cap,
                iv: ivs.compress,
            },
        ]
    } else {
        seq![]
    };
    let first = (g.shape.paired_families() + g.shape.tx_families()) as int;
    let overflow = if g.shape.overflow {
        seq![
            MerkleRegionFamily::FeedForwardStrided {
                offset: g.meta_b->0.bases@[first],
                depth: 10,
                n_paths: 1,
                stride: 16,
                iv: ivs.capsule,
            },
            MerkleRegionFamily::FeedForwardStrided {
                offset: g.meta_b->0.bases@[first + 1],
                depth: 6,
                n_paths: 1,
                stride: 16,
                iv: ivs.capsule,
            },
        ]
    } else {
        seq![]
    };
    paired + tx + overflow
}

fn list_families(g: &MetaGeometry, ivs: MetaIvs) -> (r: Vec<MerkleRegionFamily>)
    requires
        g.wf(),
    ensures
        r@ == family_list(g, ivs),
{
    let mut r: Vec<MerkleRegionFamily> = Vec::new();
    let ghost sizes = g.shape.family_slots();
    match &g.meta_b {
        Some(layout) => {
            let mut f: usize = 0;
            assert(layout.bases@.len() == sizes.len());
            if g.shape.leaves > 0 {
                r.push(
                    MerkleRegionFamily::PairedUpdate {
                        offset: layout.bases[0],
                        n_updates: g.local_cap,
                        iv: ivs.update,
                    },
                );
                r.push(
                    MerkleRegionFamily::PairedUpdate {
                        offset: layout.bases[1],
                        n_updates: g.upper_cap,
                        iv: ivs.update,
                    },
                );
                f = 2;
            }
            if g.shape.tx_paths > 0 {
                r.push(
                    MerkleRegionFamily::TwoPermutation {
                        offset: layout.bases[f],
                        depth: g.shape.tx_depth,
                        n_paths: g.tx_cap,
                        iv: ivs.compress,
                    },
                );
                f = f + 1;
            }
            if g.shape.overflow {
                r.push(
                    MerkleRegionFamily::FeedForwardStrided {
                        offset: layout.bases[f],
                        depth: SOURCE_PATH_DEPTH,
                        n_paths: 1,
                        stride: SOURCE_PATH_DEPTH + MID_PATH_DEPTH,
                        iv: ivs.capsule,
                    },
                );
                r.push(
                    MerkleRegionFamily::FeedForwardStrided {
                        offset: layout.bases[f + 1],
                        depth: MID_PATH_DEPTH,
                        n_paths: 1,
                        stride: SOURCE_PATH_DEPTH + MID_PATH_DEPTH,
                        iv: ivs.capsule,
                    },
                );
            }
        },
        None => {},
    }
    assert(r@ =~= family_list(g, ivs));
    r
}

/// All transaction-body spines of a block; `objects` says whether they may
/// open contract objects.
pub struct SpineRegionData {
    pub instances: Vec<SpineInstanceRegion>,
    pub objects: bool,
}

/// The statement of a block's metadata, with the digests that the host's
/// columns carry.
pub struct MetaInputs {
    pub leaves: Vec<ExactStateLeaf>,
    pub leaf_digests: Vec<DigestPair>,
    pub leaf_shape: LeafShape,
    pub tx_root: Option<TxRootRegionData>,
    pub tx_roots: Vec<DigestPair>,
    pub spine: SpineRegionData,
    pub spine_hashes: Vec<DigestPair>,
    pub spine_shape: SpineShape,
}

impl MetaInputs {
    /// The statement is that of a geometry, and the columns carry the digests
    /// it expects.
    pub open spec fn fits(&self, g: &MetaGeometry) -> bool {
        &&& self.leaves@.len() == g.shape.leaves
        &&& 2 * self.leaves@.len() < usize::MAX
        &&& self.leaf_shape.digest_slot < 2
        &&& self.leaf_digests@.len() == self.leaves@.len()
        &&& forall|i: int|
            0 <= i < self.leaves@.len() ==> (#[trigger] self.leaves@[i]).expected_leaf
                == self.leaf_digests@[i]
        &&& self.spine.instances@.len() == g.shape.instances
        &&& self.spine_shape.wf()
        &&& self.spine_shape.wrap_slots == g.shape.wrap_slots
        &&& self.spine_hashes@.len() == self.spine.instances@.len()
        &&& forall|i: int|
            0 <= i < self.spine.instances@.len() ==> {
                &&& instance_fits(#[trigger] self.spine.instances@[i], self.spine_shape)
                &&& self.spine.instances@[i].tx_hash == self.spine_hashes@[i]
                &&& !self.spine.objects ==> self.spine.instances@[i].contract is None
            }
        &&& match self.tx_root {
            Some(t) => {
                &&& t.wf()
                &&& g.shape.tx_paths == t.paths@.len()
                &&& g.shape.tx_depth == t.depth
                &&& self.tx_roots@.len() == g.shape.tiles * g.shape.tx_cap()
                &&& forall|q: int|
                    0 <= q < t.paths@.len() && q < self.tx_roots@.len()
                        ==> #[trigger] self.tx_roots@[q] == t.root
            },
            None => g.shape.tx_paths == 0,
        }
    }
}

/// The block-metadata half of the authorization region, before its columns
/// have wires: both walks, the cell pins, the statement of the
/// path families and their descriptors.
pub struct AuthPcsMetaRegionDraft {
    pub has_meta: bool,
    pub has_both_a_families: bool,
    pub meta: WalkColumns,
    pub meta_b: WalkColumns,
    pub leg_depths: Vec<usize>,
    pub leg_caps: Vec<usize>,
    pub legs: Vec<LegStatement>,
    pub meta_b_families: Vec<MerkleRegionFamily>,
    pub cell_pins_meta: Vec<CellPin>,
    pub cell_pins_meta_b: Vec<CellPin>,
}

impl AuthPcsMetaRegionDraft {
    /// The columns of both walks.
    pub open spec fn columns_of(
        &self,
        g: &MetaGeometry,
        ghosts: &GhostState,
        sources: &MetaSources,
    ) -> bool {
        &&& rectangular(self.meta, 16, g.meta_slots as nat)
        &&& forall|t: int, slot: int|
            0 <= t < 16 && 0 <= slot < g.meta_slots ==> #[trigger] self.meta.tracks@[t]@[slot]
                == meta_a_cell(g, ghosts, sources, t, slot)
        &&& rectangular(self.meta_b, 17, g.meta_b_slots())
        &&& forall|t: int, slot: int|
            0 <= t < 17 && 0 <= slot < g.meta_b_slots()
                ==> #[trigger] self.meta_b.tracks@[t]@[slot] == meta_b_cell(
                g,
                ghosts,
                sources,
                t,
                slot,
            )
    }

    /// The statement of the path families: the transaction-root paths, if any.
    pub open spec fn legs_of(&self, g: &MetaGeometry, inputs: &MetaInputs) -> bool {
        match inputs.tx_root {
            Some(t) => {
                &&& self.leg_depths@ == seq![t.depth]
                &&& self.leg_caps@ == seq![g.tx_cap]
                &&& self.legs@.len() == 1
                &&& self.legs@[0].of(inputs.tx_roots@.len())
                &&& forall|q: int|
                    0 <= q < inputs.tx_roots@.len() ==> leg_path(
                        g,
                        &t,
                        inputs.tx_roots@,
                        self.legs@[0],
                        q,
                    ) && #[trigger] self.legs@[0].path_slots@[q] == tx_path_slot(g, q)
                &&& pin_views(self.cell_pins_meta_b@) == paths_pins(g, &t, t.paths@.len())
            },
            None => {
                &&& self.leg_depths@.len() == 0
                &&& self.leg_caps@.len() == 0
                &&& self.legs@.len() == 0
                &&& self.cell_pins_meta_b@.len() == 0
            },
        }
    }
}

/// Assembles the metadata draft. The only wires it allocates are the two root
/// lanes of every spine, in spine order.
pub fn build_auth_pcs_meta_region_draft(
    b: &mut FieldR1csBuilder,
    g: &MetaGeometry,
    inputs: &MetaInputs,
    ghosts: &GhostState,
    sources: &MetaSources,
    ivs: MetaIvs,
) -> (draft: AuthPcsMetaRegionDraft)
    requires
        old(b).wf(),
        old(b).wires() + 2 * inputs.spine.instances@.len() < usize::MAX,
        g.wf(),
        inputs.fits(g),
        ghosts.wf(),
        sources.fits_a(g.shape),
        sources.fits_b(g.shape),
    ensures
        final(b).extends(old(b)),
        final(b).wires() == old(b).wires() + 2 * inputs.spine.instances@.len(),
        forall|i: int|
            0 <= i < inputs.spine.instances@.len() ==> final(b).witness()(old(b).wires() + 2 * i)
                == (#[trigger] inputs.spine.instances@[i]).root.a@ && final(b).witness()(
                old(b).wires() + 2 * i + 1,
            ) == inputs.spine.instances@[i].root.b@,
        forall|z: spec_fn(int) -> u128| #[trigger] final(b).holds(z) <==> old(b).holds(z),
        final(b).honest() <==> old(b).honest(),
        draft.has_meta == (g.shape.leaves > 0 || g.shape.instances > 0),
        draft.has_both_a_families == g.shape.has_both(),
        draft.columns_of(g, ghosts, sources),
        draft.legs_of(g, inputs),
        draft.meta_b_families@ == family_list(g, ivs),
        pin_views(draft.cell_pins_meta@) == leaves_pins(
            inputs.leaves@,
            inputs.leaf_shape,
            inputs.leaves@.len(),
        ) + spines_pins(
            inputs.spine.instances@,
            inputs.spine_shape,
            g.shape,
            old(b).wires(),
            inputs.spine.instances@.len(),
        ),
        final(b).shape() == free_step(
            old(b).shape(),
            (2 * inputs.spine.instances@.len()) as nat,
        ),
{
    let meta = meta_a_plane(g, ghosts, sources);
    let meta_b = meta_b_plane(g, ghosts, sources);
    let meta_b_families = list_families(g, ivs);
    let mut cell_pins_meta: Vec<CellPin> = Vec::new();
    let mut cell_pins_meta_b: Vec<CellPin> = Vec::new();
    let mut leg_depths: Vec<usize> = Vec::new();
    let mut leg_caps: Vec<usize> = Vec::new();
    let mut legs: Vec<LegStatement> = Vec::new();
    assert(pin_views(cell_pins_meta@) =~= seq![]);
    push_leaves_pins(&mut cell_pins_meta, &inputs.leaves, inputs.leaf_shape);
    match &inputs.tx_root {
        Some(t) => {
            match &g.meta_b {
                Some(layout) => {
                    let leg = tx_root_leg(g, layout, t, &inputs.tx_roots);
                    proof {
                        lemma_meta_a_parts(g.shape);
                        crate::meta_region::lemma_div_ceil_pos(
                            g.shape.tx_paths as nat,
                            g.shape.tiles as nat,
                        );
                        assert(g.shape.tx_cap() * g.shape.tiles == g.shape.tiles
                            * g.shape.tx_cap()) by (nonlinear_arith);
                        assert(pin_views(cell_pins_meta_b@) =~= seq![]);
                    }
                    push_tx_root_pins(&mut cell_pins_meta_b, g, t, &leg);
                    assert(pin_views(cell_pins_meta_b@) =~= paths_pins(g, t, t.paths@.len()));
                    leg_depths.push(t.depth);
                    leg_caps.push(g.tx_cap);
                    legs.push(leg);
                },
                None => {
                    assert(g.shape.family_slots()[g.shape.paired_families() as int]
                        == g.shape.tx_cap() * g.shape.tx_stride());
                },
            }
        },
        None => {},
    }
    push_spines_pins(b, &mut cell_pins_meta, &inputs.spine.instances, inputs.spine_shape, g);
    let has_meta = g.shape.leaves > 0 || g.shape.instances > 0;
    let has_both_a_families = g.shape.leaves > 0 && g.shape.instances > 0;
    assert(pin_views(cell_pins_meta@) =~= leaves_pins(
        inputs.leaves@,
        inputs.leaf_shape,
        inputs.leaves@.len(),
    ) + spines_pins(
        inputs.spine.instances@,
        inputs.spine_shape,
        g.shape,
        old(b).wires(),
        inputs.spine.instances@.len(),
    ));
    AuthPcsMetaRegionDraft {
        has_meta,
        has_both_a_families,
        meta,
        meta_b,
        leg_depths,
        leg_caps,
        legs,
        meta_b_families,
        cell_pins_meta,
        cell_pins_meta_b,
    }
}

/// A slot of the second walk lies in at most one family of one block.
pub proof fn lemma_meta_b_families_disjoint(
    g: &MetaGeometry,
    blk: int,
    f: int,
    other_blk: int,
    other_f: int,
    slot: int,
)
    requires
        g.wf(),
        0 <= blk < g.shape.tiles,
        0 <= other_blk < g.shape.tiles,
        0 <= f < g.shape.family_slots().len(),
        0 <= other_f < g.shape.family_slots().len(),
        family_slot(g, blk, f) <= slot < family_slot(g, blk, f) + g.shape.family_slots()[f],
        family_slot(g, other_blk, other_f) <= slot < family_slot(g, other_blk, other_f)
            + g.shape.family_slots()[other_f],
    ensures
        blk == other_blk,
        f == other_f,
{
    lemma_family_slots(g, blk, f);
    lemma_family_slots(g, other_blk, other_f);
    let block = g.meta_b->0.block_slots as int;
    if blk < other_blk {
        assert((blk + 1) * block <= other_blk * block) by (nonlinear_arith)
            requires
                blk + 1 <= other_blk,
                block >= 0,
        ;
    }
    if other_blk < blk {
        assert((other_blk + 1) * block <= blk * block) by (nonlinear_arith)
            requires
                other_blk + 1 <= blk,
                block >= 0,
        ;
    }
    if f < other_f {
        assert(family_slot(g, blk, f) + g.shape.family_slots()[f] <= family_slot(g, blk, other_f));
    }
    if other_f < f {
        assert(family_slot(g, blk, other_f) + g.shape.family_slots()[other_f] <= family_slot(
            g,
            blk,
            f,
        ));
    }
}

/// Where the pieces of the second walk lie: the block and the family of each.
proof fn lemma_meta_b_pieces(g: &MetaGeometry)
    requires
        g.wf(),
        g.shape.leaves > 0 ==> 2 * g.shape.tiles <= usize::MAX,
    ensures
        forall|j: int|
            0 <= j < overflow_b_list(g).len() ==> {
                let first = g.shape.paired_families() + g.shape.tx_families();
                &&& first + j % 2 < g.shape.family_slots().len()
                &&& (#[trigger] overflow_b_list(g)[j]).base == family_slot(
                    g,
                    j / 2,
                    (first + j % 2) as int,
                )
                &&& overflow_b_list(g)[j].slots == g.shape.family_slots()[(first + j % 2) as int]
            },
        forall|j: int|
            0 <= j < paired_list(g).len() ==> {
                &&& g.shape.family_slots().len() >= 2
                &&& (#[trigger] paired_list(g)[j]).base == family_slot(g, j / 2, j % 2)
                &&& paired_list(g)[j].slots == g.shape.family_slots()[j % 2]
                &&& paired_list(g)[j].source == j
                &&& paired_list(g)[j].from == 0
            },
        forall|j: int|
            0 <= j < tx_list(g).len() ==> {
                let f = g.shape.paired_families() as int;
                &&& f < g.shape.family_slots().len()
                &&& (#[trigger] tx_list(g)[j]).base == family_slot(g, j, f)
                &&& tx_list(g)[j].slots == g.shape.family_slots()[f]
                &&& tx_list(g)[j].source == j
                &&& tx_list(g)[j].from == 0
            },
{
    let sizes = g.shape.family_slots();
    let first = (g.shape.paired_families() + g.shape.tx_families()) as int;
    assert forall|j: int| 0 <= j < overflow_b_list(g).len() implies {
        &&& first + j % 2 < sizes.len()
        &&& (#[trigger] overflow_b_list(g)[j]).base == family_slot(g, j / 2, (first + j % 2) as int)
        &&& overflow_b_list(g)[j].slots == sizes[(first + j % 2) as int]
    } by {
        assert(sizes.len() == first + 2 && sizes[first] == 10 && sizes[first + 1] == 6);
        lemma_family_slots(g, j / 2, first + j % 2);
        assert((j / 2) * g.meta_b->0.block_slots >= 0) by (nonlinear_arith)
            requires
                j >= 0,
        ;
    }
    assert forall|j: int| 0 <= j < paired_list(g).len() implies {
        &&& sizes.len() >= 2
        &&& (#[trigger] paired_list(g)[j]).base == family_slot(g, j / 2, j % 2)
        &&& paired_list(g)[j].slots == sizes[j % 2]
        &&& paired_list(g)[j].source == j
        &&& paired_list(g)[j].from == 0
    } by {
        assert(sizes[0] == g.shape.local_cap() * 64);
        assert(sizes[1] == g.shape.upper_cap() * 64);
        lemma_family_slots(g, j / 2, j % 2);
        assert((j / 2) * g.meta_b->0.block_slots >= 0) by (nonlinear_arith)
            requires
                j >= 0,
        ;
    }
    assert forall|j: int| 0 <= j < tx_list(g).len() implies {
        let f = g.shape.paired_families() as int;
        &&& f < sizes.len()
        &&& (#[trigger] tx_list(g)[j]).base == family_slot(g, j, f)
        &&& tx_list(g)[j].slots == sizes[f]
        &&& tx_list(g)[j].source == j
        &&& tx_list(g)[j].from == 0
    } by {
        let f = g.shape.paired_families() as int;
        assert(sizes[f] == g.shape.tx_cap() * g.shape.tx_stride());
        lemma_family_slots(g, j, f);
        assert(j * g.meta_b->0.block_slots >= 0) by (nonlinear_arith)
            requires
                j >= 0,
        ;
    }
}

/// Every family of the second walk keeps the columns it was given: no family
/// overwrites another. A slot outside all of them is canonical.
pub proof fn lemma_meta_b_content(
    g: &MetaGeometry,
    ghosts: &GhostState,
    sources: &MetaSources,
    t: int,
    slot: int,
)
    requires
        g.wf(),
        sources.fits_b(g.shape),
        0 <= t < 17,
        g.shape.leaves > 0 ==> 2 * g.shape.tiles <= usize::MAX,
    ensures
        forall|j: int|
            0 <= j < paired_list(g).len() && (#[trigger] paired_list(g)[j]).covers_slot(slot)
                ==> meta_b_cell(g, ghosts, sources, t, slot)
                == sources.paired@[j].tracks@[t]@[slot - family_slot(g, j / 2, j % 2)],
        forall|j: int|
            0 <= j < tx_list(g).len() && (#[trigger] tx_list(g)[j]).covers_slot(slot)
                ==> meta_b_cell(g, ghosts, sources, t, slot)
                == sources.tx_root@[j].tracks@[t]@[slot - family_slot(
                g,
                j,
                g.shape.paired_families() as int,
            )],
        forall|j: int|
            0 <= j < overflow_b_list(g).len() && (#[trigger] overflow_b_list(g)[j]).covers_slot(
                slot,
            ) ==> meta_b_cell(g, ghosts, sources, t, slot)
                == sources.overflow_b@[0].tracks@[t]@[overflow_b_list(g)[j].from + (slot
                - overflow_b_list(g)[j].base)],
        ((forall|j: int|
            0 <= j < paired_list(g).len() ==> !(#[trigger] paired_list(g)[j]).covers_slot(slot))
            && (forall|j: int|
            0 <= j < tx_list(g).len() ==> !(#[trigger] tx_list(g)[j]).covers_slot(slot)) && (
        forall|j: int|
            0 <= j < overflow_b_list(g).len() ==> !(#[trigger] overflow_b_list(
                g,
            )[j]).covers_slot(slot))) ==> meta_b_cell(g, ghosts, sources, t, slot)
            == ghosts.cell_b(t),
{
    lemma_meta_b_pieces(g);
    let over = overflow_b_list(g);
    let paired = paired_list(g);
    let tx = tx_list(g);
    let sizes = g.shape.family_slots();
    let first = (g.shape.paired_families() + g.shape.tx_families()) as int;
    let f = g.shape.paired_families() as int;
    assert forall|p: int, q: int| 0 <= p < q < over.len() implies !((
    #[trigger] over[p]).covers_slot(slot) && (#[trigger] over[q]).covers_slot(slot)) by {
        if over[p].covers_slot(slot) && over[q].covers_slot(slot) {
            lemma_meta_b_families_disjoint(g, p / 2, first + p % 2, q / 2, first + q % 2, slot);
        }
    }
    assert forall|p: int, q: int| 0 <= p < q < paired.len() implies !((
    #[trigger] paired[p]).covers_slot(slot) && (#[trigger] paired[q]).covers_slot(slot)) by {
        if paired[p].covers_slot(slot) && paired[q].covers_slot(slot) {
            lemma_meta_b_families_disjoint(g, p / 2, p % 2, q / 2, q % 2, slot);
        }
    }
    assert forall|p: int, q: int| 0 <= p < q < tx.len() implies !((
    #[trigger] tx[p]).covers_slot(slot) && (#[trigger] tx[q]).covers_slot(slot)) by {
        if tx[p].covers_slot(slot) && tx[q].covers_slot(slot) {
            lemma_meta_b_families_disjoint(g, p, f, q, f, slot);
        }
    }
    assert forall|p: int, q: int|
        0 <= p < over.len() && 0 <= q < paired.len() implies !((#[trigger] over[p]).covers_slot(
        slot,
    ) && (#[trigger] paired[q]).covers_slot(slot)) by {
        if over[p].covers_slot(slot) && paired[q].covers_slot(slot) {
            lemma_meta_b_families_disjoint(g, p / 2, first + p % 2, q / 2, q % 2, slot);
        }
    }
    assert forall|p: int, q: int|
        0 <= p < over.len() && 0 <= q < tx.len() implies !((#[trigger] over[p]).covers_slot(slot)
        && (#[trigger] tx[q]).covers_slot(slot)) by {
        if over[p].covers_slot(slot) && tx[q].covers_slot(slot) {
            lemma_meta_b_families_disjoint(g, p / 2, first + p % 2, q, f, slot);
        }
    }
    assert forall|p: int, q: int|
        0 <= p < paired.len() && 0 <= q < tx.len() implies !((#[trigger] paired[p]).covers_slot(
        slot,
    ) && (#[trigger] tx[q]).covers_slot(slot)) by {
        if paired[p].covers_slot(slot) && tx[q].covers_slot(slot) {
            lemma_meta_b_families_disjoint(g, p / 2, p % 2, q, f, slot);
        }
    }
    let c0 = ghosts.cell_b(t);
    lemma_disjoint_pieces(over, over.len(), sources.overflow_b@, t, slot, c0);
    let c1 = placed_cell(over, over.len(), sources.overflow_b@, t, slot, c0);
    lemma_disjoint_pieces(paired, paired.len(), sources.paired@, t, slot, c1);
    let c2 = placed_cell(paired, paired.len(), sources.paired@, t, slot, c1);
    lemma_disjoint_pieces(tx, tx.len(), sources.tx_root@, t, slot, c2);
    assert forall|j: int| 0 <= j < paired.len() && (#[trigger] paired[j]).covers_slot(slot) implies meta_b_cell(
        g,
        ghosts,
        sources,
        t,
        slot,
    ) == sources.paired@[j].tracks@[t]@[slot - family_slot(g, j / 2, j % 2)] by {
        assert(family_tracks(sources.paired@[j], 17, 0, 0, paired[j].slots as nat));
        assert(sources.paired@[j].tracks@[t]@.len() > 0);
        assert(writes(paired[j], sources.paired@, t, slot));
    }
    assert forall|j: int| 0 <= j < tx.len() && (#[trigger] tx[j]).covers_slot(slot) implies meta_b_cell(
        g,
        ghosts,
        sources,
        t,
        slot,
    ) == sources.tx_root@[j].tracks@[t]@[slot - family_slot(g, j, f)] by {
        assert(family_tracks(sources.tx_root@[j], 17, 0, 0, tx[j].slots as nat));
        assert(sources.tx_root@[j].tracks@[t]@.len() > 0);
        assert(writes(tx[j], sources.tx_root@, t, slot));
    }
    assert forall|j: int| 0 <= j < over.len() && (#[trigger] over[j]).covers_slot(slot) implies meta_b_cell(
        g,
        ghosts,
        sources,
        t,
        slot,
    ) == sources.overflow_b@[0].tracks@[t]@[over[j].from + (slot - over[j].base)] by {
        assert(sources.overflow_b@[0].tracks@[t]@.len() > 0);
        assert(writes(over[j], sources.overflow_b@, t, slot));
    }
}

/// Two spine runs that share a slot are the same run.
proof fn lemma_spine_runs_disjoint(g: &MetaGeometry, p: int, q: int, slot: int)
    requires
        g.wf(),
        2 * (g.shape.tiles * g.shape.spine_cap()) <= usize::MAX,
        0 <= p < spine_list(g).len(),
        0 <= q < spine_list(g).len(),
        spine_list(g)[p].covers_slot(slot),
        spine_list(g)[q].covers_slot(slot),
    ensures
        p == q,
        spine_list(g)[p].source == p,
        spine_list(g)[p].from == 0,
        g.shape.spine_base() <= slot,
{
    lemma_spine_piece(g, p);
    lemma_spine_piece(g, q);
    let cap = g.shape.spine_cap() as int;
    let per = g.shape.spine_per_tx() as int;
    let base = g.shape.spine_base() as int;
    let (pb, pi) = ((p / 2) / cap, (p / 2) % cap);
    let (qb, qi) = ((q / 2) / cap, (q / 2) % cap);
    if pb < qb {
        assert((pb + 1) * per <= qb * per) by (nonlinear_arith)
            requires
                pb + 1 <= qb,
                per >= 0,
        ;
    }
    if qb < pb {
        assert((qb + 1) * per <= pb * per) by (nonlinear_arith)
            requires
                qb + 1 <= pb,
                per >= 0,
        ;
    }
    assert(pb == qb);
    assert(p % 2 == q % 2);
    let w = g.shape.wrap_slots as int;
    if pi < qi {
        assert((pi + 1) * w <= qi * w) by (nonlinear_arith)
            requires
                pi + 1 <= qi,
                w >= 0,
        ;
        assert((pi + 1) * w == pi * w + w) by (nonlinear_arith);
    }
    if qi < pi {
        assert((qi + 1) * w <= pi * w) by (nonlinear_arith)
            requires
                qi + 1 <= pi,
                w >= 0,
        ;
        assert((qi + 1) * w == qi * w + w) by (nonlinear_arith);
    }
    assert(pi == qi);
    vstd::arithmetic::div_mod::lemma_fundamental_div_mod(p / 2, cap);
    vstd::arithmetic::div_mod::lemma_fundamental_div_mod(q / 2, cap);
    assert(pb * per >= 0) by (nonlinear_arith)
        requires
            pb >= 0,
            per >= 0,
    ;
}

/// Where one spine run lies.
proof fn lemma_spine_piece(g: &MetaGeometry, p: int)
    requires
        g.wf(),
        2 * (g.shape.tiles * g.shape.spine_cap()) <= usize::MAX,
        0 <= p < spine_list(g).len(),
    ensures
        g.shape.spine_cap() > 0,
        0 <= (p / 2) / (g.shape.spine_cap() as int) < g.shape.tiles,
        0 <= (p / 2) % (g.shape.spine_cap() as int) < g.shape.spine_cap(),
        spine_list(g)[p].source == p,
        spine_list(g)[p].from == 0,
        ({
            let cap = g.shape.spine_cap() as int;
            let blk = (p / 2) / cap;
            let i = (p / 2) % cap;
            let lo = g.shape.spine_base() + blk * g.shape.spine_per_tx();
            let mid = lo + cap * 32;
            let hi = g.shape.spine_base() + (blk + 1) * g.shape.spine_per_tx();
            &&& spine_list(g)[p].base == if p % 2 == 0 {
                lo + i * 32
            } else {
                mid + i * g.shape.wrap_slots
            }
            &&& p % 2 == 0 ==> spine_list(g)[p].slots == 32 && lo <= spine_list(g)[p].base
                && spine_list(g)[p].base + 32 <= mid
            &&& p % 2 == 1 ==> spine_list(g)[p].slots == g.shape.wrap_slots && mid
                <= spine_list(g)[p].base && spine_list(g)[p].base + g.shape.wrap_slots <= hi
            &&& mid <= hi
        }),
{
    let cap = g.shape.spine_cap() as int;
    lemma_meta_a_parts(g.shape);
    assert(g.shape.tiles * cap > p / 2);
    vstd::arithmetic::div_mod::lemma_fundamental_div_mod(p / 2, cap);
    vstd::arithmetic::div_mod::lemma_mod_bound(p / 2, cap);
    vstd::arithmetic::div_mod::lemma_div_pos_is_pos(p / 2, cap);
    let blk = (p / 2) / cap;
    let i = (p / 2) % cap;
    assert(blk < g.shape.tiles) by (nonlinear_arith)
        requires
            p / 2 == cap * blk + i,
            p / 2 < g.shape.tiles * cap,
            i >= 0,
            cap > 0,
    ;
    lemma_spine_slots(g.shape, blk, i);
    assert(blk * g.shape.spine_per_tx() >= 0) by (nonlinear_arith)
        requires
            blk >= 0,
    ;
    assert(i * g.shape.wrap_slots >= 0) by (nonlinear_arith)
        requires
            i >= 0,
    ;
    assert(spine_list(g)[p].base == if p % 2 == 0 {
        tree_slot(g.shape, blk, i)
    } else {
        wrap_slot_of(g.shape, blk, i)
    });
}

/// Where one overflow leaf lies: after the exact-state region, before the end
/// of the first region.
proof fn lemma_overflow_piece(g: &MetaGeometry, j: int)
    requires
        g.wf(),
        0 <= j < overflow_a_list(g).len(),
    ensures
        g.shape.overflow,
        overflow_a_list(g)[j].base == g.shape.es_slots() + (j % 2) * (g.shape.tiles * 16) + (j / 2)
            * 16,
        overflow_a_list(g)[j].slots == 16,
        overflow_a_list(g)[j].source == 0,
        g.shape.es_slots() <= overflow_a_list(g)[j].base,
        overflow_a_list(g)[j].base + 16 <= g.shape.first_slots(),
        j % 2 == 0 ==> overflow_a_list(g)[j].base + 16 <= g.shape.es_slots() + g.shape.tiles * 16,
        j % 2 == 1 ==> g.shape.es_slots() + g.shape.tiles * 16 <= overflow_a_list(g)[j].base,
{
    lemma_meta_a_parts(g.shape);
    assert(1 * (g.shape.tiles * 16) == g.shape.tiles * 16);
    assert(0 * (g.shape.tiles * 16) == 0);
    if j % 2 == 0 {
        assert((j % 2) * (g.shape.tiles * 16) == 0);
    } else {
        assert((j % 2) * (g.shape.tiles * 16) == g.shape.tiles * 16);
    }
}

/// Every family of the first walk keeps the columns it was given: no family
/// overwrites another. A cell outside all of them is canonical. The overflow
/// leaves beside spines need the exact-state leaves, which open a region of
/// their own for them.
pub proof fn lemma_meta_a_content(
    g: &MetaGeometry,
    ghosts: &GhostState,
    sources: &MetaSources,
    t: int,
    slot: int,
)
    requires
        g.wf(),
        sources.fits_a(g.shape),
        0 <= t < 16,
        2 * (g.shape.tiles * g.shape.spine_cap()) <= usize::MAX,
        g.shape.overflow && g.shape.instances > 0 ==> g.shape.leaves > 0,
    ensures
        g.shape.leaves > 0 && 2 <= t && 0 <= slot < g.shape.es_slots() ==> meta_a_cell(
            g,
            ghosts,
            sources,
            t,
            slot,
        ) == sources.leaves@[0].tracks@[t]@[slot],
        forall|j: int|
            0 <= j < overflow_a_list(g).len() && 2 <= t && (#[trigger] overflow_a_list(
                g,
            )[j]).covers_slot(slot) ==> meta_a_cell(g, ghosts, sources, t, slot)
                == sources.overflow_a@[0].tracks@[t]@[overflow_a_list(g)[j].from + (slot
                - overflow_a_list(g)[j].base)],
        forall|q: int|
            0 <= q < spine_list(g).len() && (#[trigger] spine_list(g)[q]).covers_slot(slot) && !(if q
                % 2 == 0 {
                2 <= t < 4
            } else {
                t < 2
            }) ==> meta_a_cell(g, ghosts, sources, t, slot)
                == sources.spines@[q].tracks@[t]@[slot - spine_list(g)[q].base],
        ((g.shape.leaves > 0 ==> !(0 <= slot < g.shape.es_slots())) && (forall|j: int|
            0 <= j < overflow_a_list(g).len() ==> !(#[trigger] overflow_a_list(
                g,
            )[j]).covers_slot(slot)) && (forall|q: int|
            0 <= q < spine_list(g).len() ==> !(#[trigger] spine_list(g)[q]).covers_slot(slot)))
            ==> meta_a_cell(g, ghosts, sources, t, slot) == ghosts.cell_a(t),
{
    lemma_meta_a_parts(g.shape);
    let over = overflow_a_list(g);
    let leaf = leaf_list(g);
    let spine = spine_list(g);
    assert forall|p: int, q: int| 0 <= p < q < over.len() implies !((
    #[trigger] over[p]).covers_slot(slot) && (#[trigger] over[q]).covers_slot(slot)) by {
        lemma_overflow_piece(g, p);
        lemma_overflow_piece(g, q);
    }
    assert forall|p: int, q: int| 0 <= p < q < spine.len() implies !((
    #[trigger] spine[p]).covers_slot(slot) && (#[trigger] spine[q]).covers_slot(slot)) by {
        if spine[p].covers_slot(slot) && spine[q].covers_slot(slot) {
            lemma_spine_runs_disjoint(g, p, q, slot);
        }
    }
    assert forall|p: int| 0 <= p < over.len() && (#[trigger] over[p]).covers_slot(slot) implies
        g.shape.es_slots() <= slot < g.shape.first_slots() by {
        lemma_overflow_piece(g, p);
    }
    assert forall|q: int| 0 <= q < spine.len() && (#[trigger] spine[q]).covers_slot(slot) implies
        g.shape.spine_base() <= slot by {
        lemma_spine_runs_disjoint(g, q, q, slot);
    }
    let c0 = ghosts.cell_a(t);
    lemma_disjoint_pieces(over, over.len(), sources.overflow_a@, t, slot, c0);
    let c1 = placed_cell(over, over.len(), sources.overflow_a@, t, slot, c0);
    lemma_disjoint_pieces(leaf, leaf.len(), sources.leaves@, t, slot, c1);
    let c2 = placed_cell(leaf, leaf.len(), sources.leaves@, t, slot, c1);
    lemma_disjoint_pieces(spine, spine.len(), sources.spines@, t, slot, c2);
    if g.shape.leaves > 0 {
        assert(leaf[0].covers_slot(slot) <==> 0 <= slot < g.shape.es_slots());
        if 2 <= t && leaf[0].covers_slot(slot) {
            assert(sources.leaves@[0].tracks@[t]@.len() >= g.shape.es_slots());
            assert(writes(leaf[0], sources.leaves@, t, slot));
        }
    }
    assert forall|j: int|
        0 <= j < over.len() && 2 <= t && (#[trigger] over[j]).covers_slot(slot) implies meta_a_cell(
        g,
        ghosts,
        sources,
        t,
        slot,
    ) == sources.overflow_a@[0].tracks@[t]@[over[j].from + (slot - over[j].base)] by {
        lemma_overflow_piece(g, j);
        assert(sources.overflow_a@[0].tracks@[t]@.len() >= g.shape.tiles * 32);
        assert(writes(over[j], sources.overflow_a@, t, slot));
        assert(forall|p: int|
            0 <= p < leaf.len() ==> !writes(#[trigger] leaf[p], sources.leaves@, t, slot));
        assert(forall|q: int|
            0 <= q < spine.len() ==> !(#[trigger] spine[q]).covers_slot(slot));
    }
    assert forall|q: int|
        0 <= q < spine.len() && (#[trigger] spine[q]).covers_slot(slot) && !(if q % 2 == 0 {
            2 <= t < 4
        } else {
            t < 2
        }) implies meta_a_cell(g, ghosts, sources, t, slot)
        == sources.spines@[q].tracks@[t]@[slot - spine[q].base] by {
        lemma_spine_runs_disjoint(g, q, q, slot);
        lemma_spine_piece(g, q);
        if q % 2 == 0 {
            assert(family_tracks(sources.spines@[q], 16, 2, 4, 32));
        } else {
            assert(family_tracks(sources.spines@[q], 16, 0, 2, g.shape.wrap_slots as nat));
        }
        assert(writes(spine[q], sources.spines@, t, slot));
    }
}

} // verus!
