//! Where the metadata walks hold what they are given, cell by cell.
use crate::circuit::{const_form, wire_form};
use crate::columns::WitnessSlice;
use crate::meta_draft::{
    family_list, lemma_meta_a_content, lemma_meta_b_content, MerkleRegionFamily, MetaIvs,
};
use crate::meta_pins::DigestPair;
use crate::region_layout::TiledWalkLayout;
use crate::selected_region::{
    local_cells_at, update_base, upper_cells_at, PairedLocalExactStateCells,
    PairedUpperExactStateCells, RootSlots,
};
use crate::tx_root::{leg_path, tx_path_slot, LegStatement, TxRootRegionData};
use crate::meta_region::{
    family_slot, lemma_family_slots, lemma_meta_a_parts, lemma_spine_slots, meta_a_cell,
    meta_b_cell, overflow_a_list, overflow_b_list, paired_list, spine_list, tree_slot, tx_list,
    wrap_slot_of, GhostState, MetaGeometry, MetaShape, MetaSources,
};
use crate::region_layout::SelectedZkBlockGeometry;
use crate::selected_allocation::{refusal, wallet_b_list, RegionInputs};
use crate::selected_region::{
    authorization_fits, exact_state_fits, tx_root_fits, ExactStatePairedShape,
    SelectedZkAuthPcsRegionAllocationError, SelectedZkAuthorizationRegionDraft,
};
use vstd::prelude::*;

verus! {

/// The capacities of a block are the smallest with which all blocks hold everything.
pub proof fn lemma_capacities(shape: MetaShape)
    requires
        shape.tiles > 0,
    ensures
        shape.instances <= shape.spine_cap() * shape.tiles < shape.instances + shape.tiles,
        shape.touched <= shape.local_cap() * shape.tiles < shape.touched + shape.tiles,
        shape.segments <= shape.upper_cap() * shape.tiles < shape.segments + shape.tiles,
        shape.tx_paths <= shape.tx_cap() * shape.tiles < shape.tx_paths + shape.tiles,
{
    lemma_capacity(shape.instances as int, shape.tiles as int);
    lemma_capacity(shape.touched as int, shape.tiles as int);
    lemma_capacity(shape.segments as int, shape.tiles as int);
    lemma_capacity(shape.tx_paths as int, shape.tiles as int);
}

proof fn lemma_capacity(n: int, k: int)
    requires
        n >= 0,
        k > 0,
    ensures
        n <= ((n + k - 1) / k) * k < n + k,
{
    vstd::arithmetic::div_mod::lemma_fundamental_div_mod(n + k - 1, k);
    vstd::arithmetic::div_mod::lemma_mod_bound(n + k - 1, k);
    assert(k * ((n + k - 1) / k) == ((n + k - 1) / k) * k) by (nonlinear_arith);
}

/// The overflow leaves stand behind the exact-state leaves, sixteen slots to a leaf: first
/// the source leaves of all transactions, then their mid leaves. They are staged
/// transaction by transaction, the source leaf before the mid leaf.
pub proof fn lemma_overflow_leaf(
    g: &MetaGeometry,
    ghosts: &GhostState,
    sources: &MetaSources,
    tx: int,
    mid: int,
    o: int,
    t: int,
)
    requires
        g.wf(),
        sources.fits_a(g.shape),
        g.shape.overflow,
        2 * (g.shape.tiles * g.shape.spine_cap()) <= usize::MAX,
        g.shape.instances > 0 ==> g.shape.leaves > 0,
        0 <= tx < g.shape.tiles,
        0 <= mid < 2,
        0 <= o < 16,
        2 <= t < 16,
    ensures
        meta_a_cell(
            g,
            ghosts,
            sources,
            t,
            g.shape.es_slots() + 16 * g.shape.tiles * mid + 16 * tx + o,
        ) == sources.overflow_a@[0].tracks@[t]@[32 * tx + 16 * mid + o],
{
    let tiles = g.shape.tiles as int;
    let slot = g.shape.es_slots() + 16 * tiles * mid + 16 * tx + o;
    lemma_meta_a_content(g, ghosts, sources, t, slot);
    lemma_meta_a_parts(g.shape);
    let j = 2 * tx + mid;
    assert(16 * tiles * mid == mid * (tiles * 16)) by (nonlinear_arith);
    assert(mid * (tiles * 16) <= tiles * 16) by (nonlinear_arith)
        requires
            0 <= mid <= 1,
            tiles >= 0,
    ;
    let piece = overflow_a_list(g)[j];
    assert(j % 2 == mid && j / 2 == tx);
    assert(piece.base == g.shape.es_slots() + mid * (tiles * 16) + tx * 16);
    assert(piece.covers_slot(slot));
}

/// The overflow paths stand in the last two families of their transaction's block, ten
/// source levels and then six mid levels, which are staged sixteen to a transaction.
pub proof fn lemma_overflow_path(
    g: &MetaGeometry,
    ghosts: &GhostState,
    sources: &MetaSources,
    tx: int,
    level: int,
    t: int,
)
    requires
        g.wf(),
        sources.fits_b(g.shape),
        g.shape.overflow,
        g.shape.leaves > 0 ==> 2 * g.shape.tiles <= usize::MAX,
        0 <= tx < g.shape.tiles,
        0 <= level < 16,
        0 <= t < 17,
        g.shape.tiles * 16 <= usize::MAX,
    ensures
        ({
            let last = g.shape.family_slots().len() - 1;
            let block = tx * g.meta_b->0.block_slots;
            let slot = if level < 10 {
                block + g.meta_b->0.bases@[last - 1] + level
            } else {
                block + g.meta_b->0.bases@[last] + (level - 10)
            };
            meta_b_cell(g, ghosts, sources, t, slot) == sources.overflow_b@[0].tracks@[t]@[16 * tx
                + level]
        }),
{
    let shape = g.shape;
    let first = (shape.paired_families() + shape.tx_families()) as int;
    let last = shape.family_slots().len() - 1;
    assert(last == first + 1);
    let fam: int = if level < 10 {
        0
    } else {
        1
    };
    let j = 2 * tx + fam;
    assert(j / 2 == tx && j % 2 == fam);
    assert(shape.family_slots()[first] == 10);
    assert(shape.family_slots()[first + 1] == 6);
    lemma_family_slots(g, tx, first + fam);
    let slot = family_slot(g, tx, first + fam) + (level - 10 * fam);
    lemma_meta_b_content(g, ghosts, sources, t, slot);
    let piece = overflow_b_list(g)[j];
    assert(tx * g.meta_b->0.block_slots >= 0) by (nonlinear_arith)
        requires
            tx >= 0,
    ;
    assert(piece.base == family_slot(g, tx, first + fam));
    assert(piece.from == 16 * tx + 10 * fam);
    assert(piece.covers_slot(slot));
}

/// The updates of a block stand in its first two families, the local ones before the upper
/// ones, each from a source of its own.
pub proof fn lemma_update_at(
    g: &MetaGeometry,
    ghosts: &GhostState,
    sources: &MetaSources,
    block: int,
    upper: int,
    o: int,
    t: int,
)
    requires
        g.wf(),
        sources.fits_b(g.shape),
        g.shape.leaves > 0,
        2 * g.shape.tiles <= usize::MAX,
        0 <= block < g.shape.tiles,
        0 <= upper < 2,
        0 <= o < 64 * (if upper == 0 {
            g.shape.local_cap()
        } else {
            g.shape.upper_cap()
        }),
        0 <= t < 17,
    ensures
        meta_b_cell(
            g,
            ghosts,
            sources,
            t,
            block * g.meta_b->0.block_slots + g.meta_b->0.bases@[upper] + o,
        ) == sources.paired@[2 * block + upper].tracks@[t]@[o],
{
    let j = 2 * block + upper;
    assert(j / 2 == block && j % 2 == upper);
    lemma_family_slots(g, block, upper);
    let slot = family_slot(g, block, upper) + o;
    lemma_meta_b_content(g, ghosts, sources, t, slot);
    let piece = paired_list(g)[j];
    assert(block * g.meta_b->0.block_slots >= 0) by (nonlinear_arith)
        requires
            block >= 0,
    ;
    assert(piece.base == family_slot(g, block, upper));
    assert(piece.slots == g.shape.family_slots()[upper]);
    assert(piece.covers_slot(slot));
}

/// The transaction-root paths of a block stand in its next family, from a source of their
/// own.
pub proof fn lemma_root_path_at(
    g: &MetaGeometry,
    ghosts: &GhostState,
    sources: &MetaSources,
    block: int,
    o: int,
    t: int,
)
    requires
        g.wf(),
        sources.fits_b(g.shape),
        g.shape.tx_paths > 0,
        g.shape.leaves > 0 ==> 2 * g.shape.tiles <= usize::MAX,
        0 <= block < g.shape.tiles,
        0 <= o < g.shape.tx_cap() * g.shape.tx_stride(),
        0 <= t < 17,
    ensures
        meta_b_cell(
            g,
            ghosts,
            sources,
            t,
            block * g.meta_b->0.block_slots + g.meta_b->0.bases@[if g.shape.leaves > 0 {
                2
            } else {
                0
            }] + o,
        ) == sources.tx_root@[block].tracks@[t]@[o],
{
    let f = g.shape.paired_families() as int;
    assert(g.shape.family_slots()[f] == g.shape.tx_cap() * g.shape.tx_stride());
    lemma_family_slots(g, block, f);
    let slot = family_slot(g, block, f) + o;
    lemma_meta_b_content(g, ghosts, sources, t, slot);
    let piece = tx_list(g)[block];
    assert(block * g.meta_b->0.block_slots >= 0) by (nonlinear_arith)
        requires
            block >= 0,
    ;
    assert(piece.base == family_slot(g, block, f));
    assert(piece.covers_slot(slot));
}

/// The spines of a block stand in its run of the spine region, all trees before all wraps;
/// the sources are in order, the tree of a spine before its wrap.
pub proof fn lemma_spine_at(
    g: &MetaGeometry,
    ghosts: &GhostState,
    sources: &MetaSources,
    block: int,
    i: int,
    o: int,
    t: int,
)
    requires
        g.wf(),
        sources.fits_a(g.shape),
        g.shape.instances > 0,
        2 * (g.shape.tiles * g.shape.spine_cap()) <= usize::MAX,
        g.shape.overflow ==> g.shape.leaves > 0,
        0 <= block < g.shape.tiles,
        0 <= i < g.shape.spine_cap(),
        0 <= o,
        0 <= t < 16,
    ensures
        ({
            let start = g.shape.spine_base() + block * g.shape.spine_per_tx();
            let q = block * g.shape.spine_cap() + i;
            &&& o < 32 && !(2 <= t < 4) ==> meta_a_cell(g, ghosts, sources, t, start + 32 * i + o)
                == sources.spines@[2 * q].tracks@[t]@[o]
            &&& o < g.shape.wrap_slots && t >= 2 ==> meta_a_cell(
                g,
                ghosts,
                sources,
                t,
                start + 32 * g.shape.spine_cap() + i * g.shape.wrap_slots + o,
            ) == sources.spines@[2 * q + 1].tracks@[t]@[o]
        }),
{
    let cap = g.shape.spine_cap() as int;
    let q = block * cap + i;
    vstd::arithmetic::div_mod::lemma_fundamental_div_mod_converse(q, cap, block, i);
    assert(0 <= q < g.shape.tiles * cap) by (nonlinear_arith)
        requires
            q == block * cap + i,
            0 <= i < cap,
            0 <= block < g.shape.tiles,
    ;
    lemma_spine_slots(g.shape, block, i);
    assert(block * g.shape.spine_per_tx() >= 0) by (nonlinear_arith)
        requires
            block >= 0,
    ;
    if o < 32 && !(2 <= t < 4) {
        let slot = tree_slot(g.shape, block, i) + o;
        let piece = spine_list(g)[2 * q];
        assert((2 * q) % 2 == 0 && (2 * q) / 2 == q);
        assert(piece.base == tree_slot(g.shape, block, i));
        assert(piece.covers_slot(slot));
        lemma_meta_a_content(g, ghosts, sources, t, slot);
    }
    if o < g.shape.wrap_slots && t >= 2 {
        let slot = wrap_slot_of(g.shape, block, i) + o;
        let piece = spine_list(g)[2 * q + 1];
        assert((2 * q + 1) % 2 == 1 && (2 * q + 1) / 2 == q);
        assert(piece.base == wrap_slot_of(g.shape, block, i));
        assert(piece.covers_slot(slot));
        lemma_meta_a_content(g, ghosts, sources, t, slot);
    }
}

/// The families of the second walk stand where the layout puts them, in its order, and take
/// the slots it keeps for them: the local and the upper updates of sixty-four slots, the
/// transaction-root paths, then the source and the mid path of the overflow.
pub proof fn lemma_families(g: &MetaGeometry, ivs: MetaIvs, i: int)
    requires
        g.wf(),
        0 <= i < g.shape.family_slots().len(),
    ensures
        family_list(g, ivs).len() == g.shape.family_slots().len(),
        ({
            let base = g.meta_b->0.bases@[i];
            let slots = g.shape.family_slots()[i];
            let before = if g.shape.leaves > 0 {
                2int
            } else {
                0
            };
            match family_list(g, ivs)[i] {
                MerkleRegionFamily::PairedUpdate { offset, n_updates, iv } => {
                    &&& i < before
                    &&& offset == base
                    &&& 64 * n_updates == slots
                    &&& iv == ivs.update
                    &&& n_updates == if i == 0 {
                        g.shape.local_cap()
                    } else {
                        g.shape.upper_cap()
                    }
                },
                MerkleRegionFamily::TwoPermutation { offset, depth, n_paths, iv } => {
                    &&& i == before
                    &&& g.shape.tx_paths > 0
                    &&& offset == base
                    &&& depth == g.shape.tx_depth
                    &&& n_paths == g.shape.tx_cap()
                    &&& iv == ivs.compress
                },
                MerkleRegionFamily::FeedForwardStrided { offset, depth, n_paths, stride, iv } => {
                    &&& g.shape.overflow
                    &&& i + 2 >= g.shape.family_slots().len()
                    &&& offset == base
                    &&& depth == slots
                    &&& n_paths == 1
                    &&& stride == 16
                    &&& iv == ivs.capsule
                    &&& depth == if i + 2 == g.shape.family_slots().len() {
                        10nat
                    } else {
                        6
                    }
                },
            }
        }),
{
}

/// The updates of a family are counted block by block, sixty-four slots apart.
pub proof fn lemma_update_base(
    layout: &TiledWalkLayout,
    family_base: int,
    cap: int,
    block: int,
    i: int,
)
    requires
        0 <= i < cap,
    ensures
        update_base(layout, family_base, cap, block * cap + i) == block * layout.block_slots
            + family_base + 64 * i,
{
    vstd::arithmetic::div_mod::lemma_fundamental_div_mod_converse(
        block * cap + i,
        cap,
        block,
        i,
    );
}

/// The cells of a local update: the old leaf enters on the first slot and the new leaf on
/// the third, the roots leave where the last level leaves them, and the direction of each
/// level stands on the first of its four slots.
pub proof fn lemma_local_cells(
    cells: PairedLocalExactStateCells,
    slices: Seq<WitnessSlice>,
    roots: Seq<RootSlots>,
    base: int,
    l: int,
)
    requires
        local_cells_at(cells, slices, roots, base),
        0 <= l < 16,
    ensures
        cells.old_entry.a@ == wire_form((slices[4].first() + base) as nat),
        cells.old_entry.b@ == wire_form((slices[5].first() + base) as nat),
        cells.new_entry.a@ == wire_form((slices[4].first() + (base + 2)) as nat),
        cells.new_entry.b@ == wire_form((slices[5].first() + (base + 2)) as nat),
        cells.old_root.a@ == wire_form((slices[0].first() + (base + roots[15].before)) as nat),
        cells.old_root.b@ == wire_form((slices[1].first() + (base + roots[15].before)) as nat),
        cells.new_root.a@ == wire_form((slices[0].first() + (base + roots[15].after)) as nat),
        cells.new_root.b@ == wire_form((slices[1].first() + (base + roots[15].after)) as nat),
        cells.directions@.len() == 16,
        cells.directions@[l]@ == wire_form((slices[8].first() + (base + 4 * l)) as nat),
{
}

/// The cells of an upper update, with a root on every level.
pub proof fn lemma_upper_cells(
    cells: PairedUpperExactStateCells,
    slices: Seq<WitnessSlice>,
    roots: Seq<RootSlots>,
    base: int,
    l: int,
)
    requires
        upper_cells_at(cells, slices, roots, base),
        0 <= l < 16,
    ensures
        cells.old_entry.a@ == wire_form((slices[4].first() + base) as nat),
        cells.old_entry.b@ == wire_form((slices[5].first() + base) as nat),
        cells.new_entry.a@ == wire_form((slices[4].first() + (base + 2)) as nat),
        cells.new_entry.b@ == wire_form((slices[5].first() + (base + 2)) as nat),
        cells.old_roots@.len() == 16,
        cells.new_roots@.len() == 16,
        cells.old_roots@[l].a@ == wire_form((slices[0].first() + (base + roots[l].before)) as nat),
        cells.old_roots@[l].b@ == wire_form((slices[1].first() + (base + roots[l].before)) as nat),
        cells.new_roots@[l].a@ == wire_form((slices[0].first() + (base + roots[l].after)) as nat),
        cells.new_roots@[l].b@ == wire_form((slices[1].first() + (base + roots[l].after)) as nat),
        cells.directions@.len() == 16,
        cells.directions@[l]@ == wire_form((slices[8].first() + (base + 4 * l)) as nat),
{
    let old_root = cells.old_roots@[l];
    let new_root = cells.new_roots@[l];
}

/// The statement of a transaction's path: from the entry of the transaction to the root of
/// the tree; behind the last transaction, from zero to the root that the walk carries. The
/// path starts in the run of its block, a full stride behind the one before.
pub proof fn lemma_leg_says(
    g: &MetaGeometry,
    t: &TxRootRegionData,
    roots: Seq<DigestPair>,
    leg: LegStatement,
    block: int,
    i: int,
)
    requires
        leg_path(g, t, roots, leg, block * g.shape.tx_cap() + i),
        0 <= i < g.shape.tx_cap(),
        0 <= block,
    ensures
        ({
            let q = block * g.shape.tx_cap() + i;
            &&& leg.path_slots@[q] == block * g.meta_b->0.block_slots
                + g.meta_b->0.bases@[if g.shape.leaves > 0 {
                2
            } else {
                0
            }] + i * g.shape.tx_stride()
            &&& leg.recomputed_roots@[q] == roots[q]
            &&& q < t.paths@.len() ==> {
                &&& leg.entry_wires@[q].a@ == t.paths@[q].entry_w.a@
                &&& leg.entry_wires@[q].b@ == t.paths@[q].entry_w.b@
                &&& leg.root_wires@[q].a@ == t.root_w.a@
                &&& leg.root_wires@[q].b@ == t.root_w.b@
                &&& leg.committed_roots@[q] == t.root
            }
            &&& q >= t.paths@.len() ==> {
                &&& leg.entry_wires@[q].a@ == const_form(0)
                &&& leg.entry_wires@[q].b@ == const_form(0)
                &&& leg.root_wires@[q].a@ == const_form(roots[q].a@)
                &&& leg.root_wires@[q].b@ == const_form(roots[q].b@)
                &&& leg.committed_roots@[q] == roots[q]
            }
        }),
{
    let cap = g.shape.tx_cap() as int;
    let q = block * cap + i;
    vstd::arithmetic::div_mod::lemma_fundamental_div_mod_converse(q, cap, block, i);
    assert(leg.path_slots@[q] == tx_path_slot(g, q));
}

/// The region is refused for the first thing that is wrong: the authorization's shape, the
/// number of spines, the number of tiles, the exact state, the transaction root; and is
/// accepted when nothing is.
pub proof fn lemma_region_accepted(
    authorization: SelectedZkAuthorizationRegionDraft,
    class: Option<SelectedZkBlockGeometry>,
    x: RegionInputs,
)
    ensures
        ({
            let r = refusal(authorization, class, x);
            let auth = class matches Some(g) && authorization_fits(authorization, g);
            let spines = x.inputs.spine.instances@.len() == x.geometry.tier + 1;
            let tiles = x.geometry.auth_tiles == class->0.auth_tiles;
            let state = exact_state_fits(x.inputs.leaves@.len(), x.paired, x.geometry);
            let root = tx_root_fits(&x.inputs.tx_root->0);
            &&& r is None <==> auth && spines && tiles && state && root
            &&& r == Some(SelectedZkAuthPcsRegionAllocationError::SpineShape) <==> auth && !spines
            &&& r == Some(SelectedZkAuthPcsRegionAllocationError::AuthorizationShape) <==> !auth
                || (spines && !tiles)
            &&& r == Some(SelectedZkAuthPcsRegionAllocationError::ExactStateShape) <==> auth
                && spines && tiles && !state
            &&& r == Some(SelectedZkAuthPcsRegionAllocationError::TxRootShape) <==> auth && spines
                && tiles && state && !root
        }),
{
}

/// The shapes that a class accepts: the exact state with a leaf before and after each
/// touched place, all updates counted and within the capacities, and an upper depth of half
/// to all of sixteen; and the transaction tree of 256 leaves, with a sibling per level on
/// every path and a rim on every level or none.
pub proof fn lemma_class_shapes(
    leaves: nat,
    paired: ExactStatePairedShape,
    g: SelectedZkBlockGeometry,
    t: &TxRootRegionData,
)
    ensures
        exact_state_fits(leaves, paired, g) <==> {
            &&& leaves == g.touched_capacity + g.touched_capacity
            &&& paired.touched_capacity == g.touched_capacity
            &&& paired.segment_capacity == g.segment_capacity
            &&& paired.local_updates == paired.local_update_count
            &&& paired.upper_updates == paired.upper_update_count
            &&& paired.local_update_count <= g.touched_capacity
            &&& paired.upper_update_count <= g.segment_capacity
            &&& paired.active_upper_depth >= 8
            &&& paired.active_upper_depth <= 16
        },
        tx_root_fits(t) <==> {
            &&& t.depth == 8
            &&& t.paths@.len() == 256
            &&& t.rim@.len() == 0 || t.rim@.len() == 8
            &&& forall|j: int| 0 <= j < 256 ==> (#[trigger] t.paths@[j]).siblings@.len() == 8
        },
{
}

/// The wallet paths fill their walk without a gap: of every sixteen slots the first ten are
/// the levels of a source path and the other six those of a mid path.
pub proof fn lemma_wallet_paths(iv: DigestPair, slot: int)
    requires
        0 <= slot < 1024,
    ensures
        wallet_b_list(iv).len() == 2,
        ({
            let f = if slot % 16 < 10 {
                wallet_b_list(iv)[0]
            } else {
                wallet_b_list(iv)[1]
            };
            &&& f is FeedForwardStrided
            &&& slot / 16 < f->FeedForwardStrided_n_paths
            &&& f->FeedForwardStrided_iv == iv
            &&& ({
                let level = slot - f->FeedForwardStrided_offset - (slot / 16)
                    * f->FeedForwardStrided_stride;
                0 <= level < f->FeedForwardStrided_depth
            })
        }),
        wallet_b_list(iv)[0]->FeedForwardStrided_depth
            + wallet_b_list(iv)[1]->FeedForwardStrided_depth == 16,
        wallet_b_list(iv)[0]->FeedForwardStrided_n_paths * 16 == 1024,
        wallet_b_list(iv)[1]->FeedForwardStrided_n_paths * 16 == 1024,
{
}

} // verus!
