//! What a placed region says of its cells, from the statement it was given.
use crate::circuit::{lemma_forms, wire_form};
use crate::columns::{pin_views, pins_hold, CellPin, WitnessSlice};
use crate::duplex::{position_of, LanePosition, LaneSource, SubChannel};
use crate::duplex_union::{concat_challenges, ChannelColumns};
use crate::circuit::LinForm;
use crate::columns::PinView;
use crate::meta_pins::{instance_pins, spines_pins, SpineInstanceRegion, SpineShape};
use crate::meta_region::{tree_slot, wrap_slot_of, MetaShape};
use crate::parent_close::{closing_fits, RecordingWalk};
use crate::parent_link::{
    columns_end, columns_from, positions_of_channel, HistoryStepParentGeometry,
    LayoutRecordedChannel,
};
use crate::pin_laws::{
    lemma_every_path_pinned, lemma_instance_cells, lemma_leaf_cells, lemma_path_directions, lemma_pin_says,
    lemma_statement_cells,
};
use crate::recording_laws::lemma_position;
use crate::region_layout::{align_up, lemma_align};
use crate::selected_allocation::{
    family_placed, region_cells, region_handoff, region_pinned, region_pins, RegionInputs,
    SelectedZkAuthPcsRegionAllocation,
};
use crate::selected_region::{
    authorization_fits, SelectedZkAuthorizationRegionDraft,
};
use crate::region_layout::SelectedZkBlockGeometry;
use crate::tx_root::{path_pins, path_witness, paths_pins, tx_path_slot, MerklePathWitness};
use crate::field::F128;
use crate::meta_region::{meta_a_cell, meta_b_cell};
use crate::parent_geometry::{HistoryStepPcsCarrierGeometry, PcsParams};
use crate::parent_link::carrier_of;
use crate::region_layout::SelectedZkRegionFamily;
use crate::selected_allocation::{boolean_column, family_bits, region_endpoints};
use vstd::arithmetic::power2::{lemma_pow2_pos, pow2};
use vstd::prelude::*;

verus! {

proof fn lemma_pinned(
    pins: Seq<CellPin>,
    slices: Seq<WitnessSlice>,
    z: spec_fn(int) -> u128,
    i: int,
)
    requires
        0 <= i < pins.len(),
        pins_hold(pins, slices, z, pins.len()),
    ensures
        ({
            let p = pin_views(pins)[i];
            z(slices[p.column].first() + p.slot) == p.form.at(z)
        }),
{
    lemma_pin_says(pins, slices, z, i);
}

/// In a pinned region the first metadata walk absorbs every exact-state leaf: its packed
/// value and the high half of its owner on the leaf's first slot, the low half and the
/// padding on its second; and the digest that leaves is the expected one.
pub proof fn lemma_region_leaf(
    r: SelectedZkAuthPcsRegionAllocation,
    x: RegionInputs,
    root_wire: nat,
    z: spec_fn(int) -> u128,
    i: int,
)
    requires
        region_pins(r, x, root_wire),
        region_pinned(r, z),
        0 <= i < x.inputs.leaves@.len(),
    ensures
        ({
            let leaf = x.inputs.leaves@[i];
            let shape = x.inputs.leaf_shape;
            let cell = |c: int, s: int| z(r.slices@[4]@[c].first() + s);
            &&& cell(2, 2 * i) == leaf.packed_value_w.at(z)
            &&& cell(3, 2 * i) == leaf.owner_hi_w.at(z)
            &&& cell(2, 2 * i + 1) == leaf.owner_lo_w.at(z)
            &&& cell(3, 2 * i + 1) == shape.pad@
            &&& cell(4, 2 * i + shape.digest_slot) == leaf.expected_leaf_w.a.at(z)
            &&& cell(5, 2 * i + shape.digest_slot) == leaf.expected_leaf_w.b.at(z)
        }),
{
    let n = x.inputs.leaves@.len();
    lemma_leaf_cells(x.inputs.leaves@, x.inputs.leaf_shape, n, i);
    let leaves = crate::meta_pins::leaves_pins(x.inputs.leaves@, x.inputs.leaf_shape, n);
    let all = pin_views(r.pins_meta@);
    let slices = r.slices@[4]@;
    assert(all.len() >= 6 * n);
    lemma_forms(x.inputs.leaf_shape.pad@, 0, z);
    assert(leaves[6 * i + 0] == all[6 * i]);
    assert(leaves[6 * i + 1] == all[6 * i + 1]);
    assert(leaves[6 * i + 2] == all[6 * i + 2]);
    assert(leaves[6 * i + 3] == all[6 * i + 3]);
    assert(leaves[6 * i + 4 + 0] == all[6 * i + 4]);
    assert(leaves[6 * i + 4 + 1] == all[6 * i + 5]);
    lemma_pinned(r.pins_meta@, slices, z, 6 * i);
    lemma_pinned(r.pins_meta@, slices, z, 6 * i + 1);
    lemma_pinned(r.pins_meta@, slices, z, 6 * i + 2);
    lemma_pinned(r.pins_meta@, slices, z, 6 * i + 3);
    lemma_pinned(r.pins_meta@, slices, z, 6 * i + 4);
    lemma_pinned(r.pins_meta@, slices, z, 6 * i + 5);
}

proof fn lemma_spine_pinned(
    instances: Seq<SpineInstanceRegion>,
    shape: SpineShape,
    meta: MetaShape,
    root_wire: nat,
    n: nat,
    g: int,
    p: PinView,
)
    requires
        0 <= g < n,
        instance_pins(
            instances[g],
            shape,
            tree_slot(meta, g / meta.spine_cap() as int, g % meta.spine_cap() as int),
            wrap_slot_of(meta, g / meta.spine_cap() as int, g % meta.spine_cap() as int),
            (root_wire + 2 * g) as nat,
        ).contains(p),
    ensures
        spines_pins(instances, shape, meta, root_wire, n).contains(p),
    decreases n,
{
    let rest = spines_pins(instances, shape, meta, root_wire, (n - 1) as nat);
    let all = spines_pins(instances, shape, meta, root_wire, n);
    if g < n - 1 {
        lemma_spine_pinned(instances, shape, meta, root_wire, (n - 1) as nat, g, p);
        let i = choose|i: int| 0 <= i < rest.len() && rest[i] == p;
        assert(all[i] == p);
    } else {
        let own = instance_pins(
            instances[g],
            shape,
            tree_slot(meta, g / meta.spine_cap() as int, g % meta.spine_cap() as int),
            wrap_slot_of(meta, g / meta.spine_cap() as int, g % meta.spine_cap() as int),
            (root_wire + 2 * g) as nat,
        );
        let i = choose|i: int| 0 <= i < own.len() && own[i] == p;
        assert(all[rest.len() + i] == p);
    }
}

proof fn lemma_meta_pin(
    r: SelectedZkAuthPcsRegionAllocation,
    x: RegionInputs,
    root_wire: nat,
    z: spec_fn(int) -> u128,
    g: int,
    p: PinView,
)
    requires
        region_pins(r, x, root_wire),
        region_pinned(r, z),
        0 <= g < x.inputs.spine.instances@.len(),
        ({
            let cap = x.meta.shape.spine_cap() as int;
            instance_pins(
                x.inputs.spine.instances@[g],
                x.inputs.spine_shape,
                tree_slot(x.meta.shape, g / cap, g % cap),
                wrap_slot_of(x.meta.shape, g / cap, g % cap),
                (root_wire + 2 * g) as nat,
            ).contains(p)
        }),
    ensures
        z(r.slices@[4]@[p.column].first() + p.slot) == p.form.at(z),
{
    let n = x.inputs.spine.instances@.len();
    lemma_spine_pinned(
        x.inputs.spine.instances@,
        x.inputs.spine_shape,
        x.meta.shape,
        root_wire,
        n,
        g,
        p,
    );
    let leaves = crate::meta_pins::leaves_pins(
        x.inputs.leaves@,
        x.inputs.leaf_shape,
        x.inputs.leaves@.len(),
    );
    let spines = spines_pins(
        x.inputs.spine.instances@,
        x.inputs.spine_shape,
        x.meta.shape,
        root_wire,
        n,
    );
    let all = pin_views(r.pins_meta@);
    let i = choose|i: int| 0 <= i < spines.len() && spines[i] == p;
    assert(all.len() == r.pins_meta@.len() && all.len() == leaves.len() + spines.len());
    assert(all[leaves.len() + i] == p);
    lemma_pinned(r.pins_meta@, r.slices@[4]@, z, leaves.len() + i);
}

/// In a pinned region every spine hashes its body: the leaves stand in its tree, the root
/// that leaves the tree enters its wrap, and the hash that leaves the wrap is the
/// transaction's.
pub proof fn lemma_region_spine(
    r: SelectedZkAuthPcsRegionAllocation,
    x: RegionInputs,
    root_wire: nat,
    z: spec_fn(int) -> u128,
    g: int,
    k: int,
)
    requires
        region_pins(r, x, root_wire),
        region_pinned(r, z),
        0 <= g < x.inputs.spine.instances@.len(),
        0 <= k < x.inputs.spine.instances@[g].leaves_w@.len(),
    ensures
        ({
            let inst = x.inputs.spine.instances@[g];
            let shape = x.inputs.spine_shape;
            let cap = x.meta.shape.spine_cap() as int;
            let tree = tree_slot(x.meta.shape, g / cap, g % cap);
            let at = wrap_slot_of(x.meta.shape, g / cap, g % cap) + shape.wrap_slot;
            let cell = |c: int, s: int| z(r.slices@[4]@[c].first() + s);
            &&& cell(0, tree + shape.kid_leaf_base + k) == inst.leaves_w@[k].a.at(z)
            &&& cell(1, tree + shape.kid_leaf_base + k) == inst.leaves_w@[k].b.at(z)
            &&& cell(4, tree + 3) == cell(2, at)
            &&& cell(5, tree + 3) == cell(3, at)
            &&& cell(4, at) == inst.tx_hash_w.a.at(z)
            &&& cell(5, at) == inst.tx_hash_w.b.at(z)
        }),
{
    let inst = x.inputs.spine.instances@[g];
    let shape = x.inputs.spine_shape;
    let cap = x.meta.shape.spine_cap() as int;
    let tree = tree_slot(x.meta.shape, g / cap, g % cap);
    let wrap = wrap_slot_of(x.meta.shape, g / cap, g % cap);
    let at = wrap + shape.wrap_slot;
    let root = (root_wire + 2 * g) as nat;
    lemma_instance_cells(inst, shape, tree, wrap, root);
    let pin = |column: int, slot: int, form: LinForm| PinView { column, slot, form };
    let leaf = inst.leaves_w@[k];
    lemma_meta_pin(r, x, root_wire, z, g, pin(0, tree + shape.kid_leaf_base + k, leaf.a@));
    lemma_meta_pin(r, x, root_wire, z, g, pin(1, tree + shape.kid_leaf_base + k, leaf.b@));
    lemma_meta_pin(r, x, root_wire, z, g, pin(4, tree + 3, wire_form(root)));
    lemma_meta_pin(r, x, root_wire, z, g, pin(5, tree + 3, wire_form(root + 1)));
    lemma_meta_pin(r, x, root_wire, z, g, pin(2, at, wire_form(root)));
    lemma_meta_pin(r, x, root_wire, z, g, pin(3, at, wire_form(root + 1)));
    lemma_meta_pin(r, x, root_wire, z, g, pin(4, at, inst.tx_hash_w.a@));
    lemma_meta_pin(r, x, root_wire, z, g, pin(5, at, inst.tx_hash_w.b@));
}

/// In a pinned region the second metadata walk takes every transaction's path in the
/// direction of its own witness, which is the leaf's index, level by level.
pub proof fn lemma_region_directions(
    r: SelectedZkAuthPcsRegionAllocation,
    x: RegionInputs,
    root_wire: nat,
    z: spec_fn(int) -> u128,
    j: int,
    level: int,
    w: MerklePathWitness,
)
    requires
        region_pins(r, x, root_wire),
        region_pinned(r, z),
        x.inputs.tx_root is Some,
        x.inputs.tx_root->0.wf(),
        0 <= j < x.inputs.tx_root->0.paths@.len(),
        0 <= level < x.inputs.tx_root->0.depth,
        path_witness(&x.inputs.tx_root->0, j, w),
    ensures
        z(r.slices@[5]@[8].first() + (tx_path_slot(&x.meta, j) + 2 * level)) == if w.directions@[level] {
            1u128
        } else {
            0
        },
        w.directions@[level] <==> (j / pow2(level as nat) as int) % 2 == 1,
{
    let t = &x.inputs.tx_root->0;
    let n = t.paths@.len();
    let base = tx_path_slot(&x.meta, j);
    lemma_path_directions(t, j, base, w);
    lemma_every_path_pinned(&x.meta, t, n);
    let paths = paths_pins(&x.meta, t, n);
    let p = path_pins(t, j, base)[level];
    assert(paths.contains(p));
    let k = choose|k: int| 0 <= k < paths.len() && paths[k] == p;
    let all = pin_views(r.pins_meta_b@);
    assert(all.len() == r.pins_meta_b@.len() && all.len() >= paths.len());
    assert(all[k] == p);
    lemma_pinned(r.pins_meta_b@, r.slices@[5]@, z, k);
    lemma_forms(1, 0, z);
    lemma_forms(0, 0, z);
}

/// In a pinned region every path of the second metadata walk runs from its entry to its
/// root: the entry on the first slot of the path, the root on the last slot of its levels.
pub proof fn lemma_region_statement(
    r: SelectedZkAuthPcsRegionAllocation,
    x: RegionInputs,
    root_wire: nat,
    z: spec_fn(int) -> u128,
    q: int,
)
    requires
        region_pins(r, x, root_wire),
        region_pinned(r, z),
        0 <= q < x.inputs.tx_roots@.len(),
    ensures
        ({
            let cell = |c: int, s: int| z(r.slices@[5]@[c].first() + s);
            let first = tx_path_slot(&x.meta, q);
            let last = first + 2 * x.inputs.tx_root->0.depth - 1;
            &&& cell(4, first) == r.leg.entry_wires@[q].a.at(z)
            &&& cell(5, first) == r.leg.entry_wires@[q].b.at(z)
            &&& cell(0, last) == r.leg.root_wires@[q].a.at(z)
            &&& cell(1, last) == r.leg.root_wires@[q].b.at(z)
        }),
{
    let t = &x.inputs.tx_root->0;
    let n = x.inputs.tx_roots@.len();
    let depth = t.depth as int;
    lemma_statement_cells(r.leg, depth, n, q);
    let own = crate::tx_root::statement_leg_pins(r.leg, depth, n);
    let paths = paths_pins(&x.meta, t, t.paths@.len());
    let all = pin_views(r.pins_meta_b@);
    let k = paths.len() as int;
    assert(all.len() == r.pins_meta_b@.len() && all.len() == k + 4 * n);
    assert(r.leg.path_slots@[q] == tx_path_slot(&x.meta, q));
    assert(all[k + 4 * q] == own[4 * q]);
    assert(all[k + 4 * q + 1] == own[4 * q + 1]);
    assert(all[k + 4 * q + 2] == own[4 * q + 2]);
    assert(all[k + 4 * q + 3] == own[4 * q + 3]);
    lemma_pinned(r.pins_meta_b@, r.slices@[5]@, z, k + 4 * q);
    lemma_pinned(r.pins_meta_b@, r.slices@[5]@, z, k + 4 * q + 1);
    lemma_pinned(r.pins_meta_b@, r.slices@[5]@, z, k + 4 * q + 2);
    lemma_pinned(r.pins_meta_b@, r.slices@[5]@, z, k + 4 * q + 3);
}

/// The update cells that a region hands off are those of its second metadata walk, update
/// by update within the blocks.
pub proof fn lemma_region_updates(
    r: SelectedZkAuthPcsRegionAllocation,
    x: RegionInputs,
    block: int,
    i: int,
    l: int,
)
    requires
        region_handoff(r, x),
        0 <= block,
        0 <= l < 16,
        0 <= i,
    ensures
        ({
            let slots = x.meta.meta_b->0.block_slots as int;
            let b = r.slices@[5]@;
            let caps = x.geometry.local_updates_per_block as int;
            let o = block * caps + i;
            i < caps && o < x.geometry.touched_capacity ==> {
                let at = block * slots + x.geometry.local_base + 64 * i;
                let cells = r.paired.local@[o];
                &&& cells.old_entry.a@ == wire_form((b[4].first() + at) as nat)
                &&& cells.new_entry.a@ == wire_form((b[4].first() + (at + 2)) as nat)
                &&& cells.old_root.a@ == wire_form(
                    (b[0].first() + (at + x.root_slots@[15].before)) as nat,
                )
                &&& cells.new_root.a@ == wire_form(
                    (b[0].first() + (at + x.root_slots@[15].after)) as nat,
                )
                &&& cells.directions@[l]@ == wire_form((b[8].first() + (at + 4 * l)) as nat)
            }
        }),
        ({
            let slots = x.meta.meta_b->0.block_slots as int;
            let b = r.slices@[5]@;
            let caps = x.geometry.upper_updates_per_block as int;
            let o = block * caps + i;
            i < caps && o < x.geometry.segment_capacity ==> {
                let at = block * slots + x.geometry.upper_base + 64 * i;
                let cells = r.paired.upper@[o];
                &&& cells.old_entry.a@ == wire_form((b[4].first() + at) as nat)
                &&& cells.new_entry.a@ == wire_form((b[4].first() + (at + 2)) as nat)
                &&& cells.old_roots@[l].a@ == wire_form(
                    (b[0].first() + (at + x.root_slots@[l].before)) as nat,
                )
                &&& cells.new_roots@[l].a@ == wire_form(
                    (b[0].first() + (at + x.root_slots@[l].after)) as nat,
                )
                &&& cells.directions@[l]@ == wire_form((b[8].first() + (at + 4 * l)) as nat)
            }
        }),
{
    let layout = &x.meta.meta_b->0;
    let b = r.slices@[5]@;
    let local = x.geometry.local_updates_per_block as int;
    let upper = x.geometry.upper_updates_per_block as int;
    if i < local && block * local + i < x.geometry.touched_capacity {
        let o = block * local + i;
        assert(o >= 0) by (nonlinear_arith)
            requires
                o == block * local + i,
                block >= 0,
                local >= 0,
                i >= 0,
        ;
        let cells = r.paired.local@[o];
        crate::meta_laws::lemma_update_base(layout, x.geometry.local_base as int, local, block, i);
        crate::meta_laws::lemma_local_cells(
            cells,
            b,
            x.root_slots@,
            block * layout.block_slots + x.geometry.local_base + 64 * i,
            l,
        );
    }
    if i < upper && block * upper + i < x.geometry.segment_capacity {
        let o = block * upper + i;
        assert(o >= 0) by (nonlinear_arith)
            requires
                o == block * upper + i,
                block >= 0,
                upper >= 0,
                i >= 0,
        ;
        let cells = r.paired.upper@[o];
        crate::meta_laws::lemma_update_base(layout, x.geometry.upper_base as int, upper, block, i);
        crate::meta_laws::lemma_upper_cells(
            cells,
            b,
            x.root_slots@,
            block * layout.block_slots + x.geometry.upper_base + 64 * i,
            l,
        );
    }
}

/// The recorded witness of a placed region carries the committed columns of every family
/// from the family's start in the ledger on, column after column.
pub proof fn lemma_region_columns(
    b: crate::circuit::FieldR1csBuilder,
    r: SelectedZkAuthPcsRegionAllocation,
    authorization: SelectedZkAuthorizationRegionDraft,
    x: RegionInputs,
    c: int,
    i: int,
)
    requires
        region_cells(b, r, authorization, x),
        0 <= c,
        0 <= i,
        authorization.main.columns.tracks@.len() >= 6,
        authorization.owner.columns.tracks@.len() >= 6,
    ensures
        ({
            let w = b.witness();
            let at = |start: usize, log: usize| start + c * pow2(log as nat) + i;
            let g = x.geometry;
            &&& c < 6 && i < pow2(g.main_w_log as nat) ==> w(at(r.ledger.main, g.main_w_log))
                == authorization.main.columns.tracks@[c]@[i]@
            &&& c < 6 && i < pow2(g.owner_w_log as nat) ==> w(at(r.ledger.owner, g.owner_w_log))
                == authorization.owner.columns.tracks@[c]@[i]@
            &&& c < authorization.wallet_b.committed@.len() && i < pow2(g.wallet_b_w_log as nat)
                ==> w(at(r.ledger.wallet_b, g.wallet_b_w_log))
                == authorization.wallet_b.committed@[c]@[i]@
            &&& c < authorization.wallet_a.committed@.len() && i < pow2(g.wallet_a_w_log as nat)
                ==> w(at(r.ledger.wallet_a, g.wallet_a_w_log))
                == authorization.wallet_a.committed@[c]@[i]@
        }),
{
    reveal(family_placed);
    let w = b.witness();
    let main = authorization.main.columns.tracks@.subrange(0, 6);
    let owner = authorization.owner.columns.tracks@.subrange(0, 6);
    if c < 6 && i < pow2(x.geometry.main_w_log as nat) {
        assert(w(r.slices@[0]@[c].first() + i) == main[c]@[i]@);
    }
    if c < 6 && i < pow2(x.geometry.owner_w_log as nat) {
        assert(w(r.slices@[1]@[c].first() + i) == owner[c]@[i]@);
    }
    if c < authorization.wallet_b.committed@.len() && i < pow2(x.geometry.wallet_b_w_log as nat) {
        assert(w(r.slices@[2]@[c].first() + i) == authorization.wallet_b.committed@[c]@[i]@);
    }
    if c < authorization.wallet_a.committed@.len() && i < pow2(x.geometry.wallet_a_w_log as nat) {
        assert(w(r.slices@[3]@[c].first() + i) == authorization.wallet_a.committed@[c]@[i]@);
    }
}

/// An authorization draft that fits its class counts its own committed columns and cells:
/// those of the two wallet walks, and the data and state columns of the two transcripts.
pub proof fn lemma_authorization_counts(
    draft: SelectedZkAuthorizationRegionDraft,
    g: SelectedZkBlockGeometry,
)
    requires
        authorization_fits(draft, g),
    ensures
        draft.changed_committed_columns == draft.wallet_a.committed@.len()
            + draft.wallet_b.committed@.len() + 6 + 6,
        draft.committed_cells == draft.wallet_a.committed@.len()
            * draft.wallet_a.committed@[0]@.len() + draft.wallet_b.committed@.len()
            * draft.wallet_b.committed@[0]@.len() + 6 * draft.owner.columns.tracks@[0]@.len() + 6
            * draft.main.columns.tracks@[0]@.len(),
        draft.owner.columns.tracks@.len() == 14,
        draft.main.columns.tracks@.len() == 14,
        draft.owner.challenges@.len() == g.auth_tiles,
        draft.main.challenges@.len() == g.auth_tiles,
        draft.overflow_a.committed@.len() == draft.wallet_a.committed@.len(),
        draft.overflow_b.committed@.len() == draft.wallet_b.committed@.len(),
{
    let a = draft.wallet_a.committed@[0];
    let b = draft.wallet_b.committed@[0];
    let o = draft.owner.columns.tracks@[0];
    let m = draft.main.columns.tracks@[0];
}

/// Columns are placed one after the other from the first multiple of their length at or
/// above the cursor: none overlaps another or what is below the cursor, and less than one
/// length is left free.
pub proof fn lemma_columns_tile(
    slices: Seq<WitnessSlice>,
    n: int,
    cursor: nat,
    w_log: usize,
    c: int,
)
    requires
        columns_from(slices, n, cursor, w_log),
        0 <= c < n,
    ensures
        slices[c].size() == pow2(w_log as nat),
        cursor <= slices[0].first() < cursor + pow2(w_log as nat),
        slices[c].first() % pow2(w_log as nat) == 0,
        c + 1 < n ==> slices[c + 1].first() == slices[c].first() + slices[c].size(),
        columns_end(n as nat, cursor, w_log) == slices[n - 1].first() + slices[n - 1].size(),
{
    let len = pow2(w_log as nat);
    lemma_pow2_pos(w_log as nat);
    let start = align_up(cursor, len);
    lemma_align(cursor, len);
    assert(slices[0].first() == start + 0 * len);
    assert(slices[c].first() == start + c * len);
    assert(slices[n - 1].first() == start + (n - 1) * len);
    assert((n - 1) * len + len == n * len) by (nonlinear_arith);
    if c + 1 < n {
        assert(slices[c + 1].first() == start + (c + 1) * len);
        assert((c + 1) * len == c * len + len) by (nonlinear_arith);
    }
    assert((start + c * len) as int % len as int == 0) by {
        vstd::arithmetic::div_mod::lemma_mod_multiples_vanish(c, start as int, len as int);
        assert(len * c == c * len) by (nonlinear_arith);
        assert(start % len == 0);
    }
}

/// A channel absorbs each data lane in its own block, where its schedule absorbs it.
pub proof fn lemma_channel_position(
    sub: SubChannel,
    i: int,
    s: int,
    positions: Seq<LanePosition>,
    k: int,
    slot: int,
    lane: int,
)
    requires
        positions_of_channel(sub, i, s, positions),
        0 <= k < sub.layout.n_data,
        0 <= slot < sub.layout.slots@.len(),
        0 <= lane < 2,
        (if lane == 0 {
            sub.layout.slots@[slot].lane0
        } else {
            sub.layout.slots@[slot].lane1
        }) == Some(LaneSource::Data(k as usize)),
        forall|u: int|
            2 * slot + lane < u < 2 * sub.layout.slots@.len() ==> (if u % 2 == 0 {
                (#[trigger] sub.layout.slots@[u / 2]).lane0
            } else {
                sub.layout.slots@[u / 2].lane1
            }) != Some(LaneSource::Data(k as usize)),
    ensures
        positions[k].slot == i * s + slot,
        positions[k].lane == lane,
{
    lemma_position(sub.layout.slots@, k as usize, 2 * sub.layout.slots@.len(), slot, lane);
    let p = position_of(sub.layout.slots@, k, 2 * sub.layout.slots@.len());
    assert(positions[k].slot == i * s + p.0);
}

/// The challenges of a row are those of its channels, in order.
pub proof fn lemma_row_challenges(channels: Seq<ChannelColumns>, first: int, n: nat)
    ensures
        concat_challenges(channels, first, 0).len() == 0,
        concat_challenges(channels, first, n + 1) == concat_challenges(channels, first, n)
            + channels[first + n].challenges@,
{
}

/// Recordings feed a geometry exactly when there is one of each role for every tier, the
/// active tier exists, and each has the schedule of its tier and as many data lanes.
pub proof fn lemma_recordings_accepted(
    g: HistoryStepParentGeometry,
    children: Seq<LayoutRecordedChannel>,
    r_prev: Seq<LayoutRecordedChannel>,
    active: int,
)
    ensures
        g.accepts_recordings(children, r_prev, active) <==> {
            &&& children.len() == g.child_layouts@.len()
            &&& r_prev.len() == g.r_prev_layouts@.len()
            &&& active < g.child_layouts@.len()
            &&& forall|i: int|
                0 <= i < children.len() ==> (#[trigger] children[i]).layout.slots@
                    == g.child_layouts@[i].slots@ && children[i].layout.challenges@
                    == g.child_layouts@[i].challenges@ && children[i].layout.n_data
                    == g.child_layouts@[i].n_data && children[i].data@.len()
                    == g.child_layouts@[i].n_data
            &&& forall|i: int|
                0 <= i < r_prev.len() ==> (#[trigger] r_prev[i]).layout.slots@
                    == g.r_prev_layouts@[i].slots@ && r_prev[i].layout.challenges@
                    == g.r_prev_layouts@[i].challenges@ && r_prev[i].layout.n_data
                    == g.r_prev_layouts@[i].n_data && r_prev[i].data@.len()
                    == g.r_prev_layouts@[i].n_data
        },
{
}

/// A closing takes one or two tiers, with the obligations and both recordings of each, and
/// one of them active.
pub proof fn lemma_closing_accepted(
    arms: nat,
    selectors: nat,
    children: nat,
    r_prev: nat,
    rec: RecordingWalk,
    active: int,
)
    ensures
        closing_fits(arms, selectors, children, r_prev, rec, active) <==> {
            &&& selectors == 1 || selectors == 2
            &&& active < selectors
            &&& arms == selectors
            &&& children == selectors
            &&& r_prev == selectors
            &&& rec.child_blocks@.len() == selectors
            &&& rec.r_prev_blocks@.len() == selectors
        },
{
}

/// The endpoint columns of a family are the four lanes that enter its walk and then the four
/// that leave it: those of the two transcripts and of the two wallet walks as they were
/// drafted, those of the metadata walks behind their committed columns.
pub proof fn lemma_region_endpoints(
    endpoints: Seq<Vec<Vec<F128>>>,
    authorization: SelectedZkAuthorizationRegionDraft,
    x: RegionInputs,
    k: int,
    slot: int,
)
    requires
        region_endpoints(endpoints, authorization, x),
        0 <= k < 8,
        0 <= slot,
        authorization.main.columns.tracks@.len() == 14,
        authorization.owner.columns.tracks@.len() == 14,
        authorization.wallet_a.s0@.len() == 4,
        authorization.wallet_a.s_out@.len() == 4,
        authorization.wallet_b.s0@.len() == 4,
        authorization.wallet_b.s_out@.len() == 4,
    ensures
        endpoints.len() == 6,
        endpoints[0]@[k] == authorization.main.columns.tracks@[6 + k],
        endpoints[1]@[k] == authorization.owner.columns.tracks@[6 + k],
        endpoints[2]@[k] == if k < 4 {
            authorization.wallet_b.s0@[k]
        } else {
            authorization.wallet_b.s_out@[k - 4]
        },
        endpoints[3]@[k] == if k < 4 {
            authorization.wallet_a.s0@[k]
        } else {
            authorization.wallet_a.s_out@[k - 4]
        },
        slot < x.meta.meta_slots ==> endpoints[4]@[k]@[slot] == meta_a_cell(
            &x.meta,
            &x.ghosts,
            &x.sources,
            8 + k,
            slot,
        ),
        slot < x.meta.meta_b_slots() ==> endpoints[5]@[k]@[slot] == meta_b_cell(
            &x.meta,
            &x.ghosts,
            &x.sources,
            9 + k,
            slot,
        ),
{
}

/// The recorded witness of a placed region carries both metadata walks from their starts in
/// the ledger on, column after column.
pub proof fn lemma_region_meta(
    b: crate::circuit::FieldR1csBuilder,
    r: SelectedZkAuthPcsRegionAllocation,
    authorization: SelectedZkAuthorizationRegionDraft,
    x: RegionInputs,
    c: int,
    i: int,
)
    requires
        region_cells(b, r, authorization, x),
        0 <= c,
        0 <= i,
    ensures
        c < 8 && i < x.meta.meta_slots ==> b.witness()(
            r.ledger.meta_a + c * pow2(x.geometry.meta_a_w_log as nat) + i,
        ) == meta_a_cell(&x.meta, &x.ghosts, &x.sources, c, i)@,
        c < 9 && i < x.meta.meta_b_slots() ==> b.witness()(
            r.ledger.meta_b + c * pow2(x.geometry.meta_b_w_log as nat) + i,
        ) == meta_b_cell(&x.meta, &x.ghosts, &x.sources, c, i)@,
{
    if c < 8 && i < x.meta.meta_slots {
        assert(b.witness()(r.slices@[4]@[c].first() + i) == meta_a_cell(
            &x.meta,
            &x.ghosts,
            &x.sources,
            c,
            i,
        )@);
    }
    if c < 9 && i < x.meta.meta_b_slots() {
        assert(b.witness()(r.slices@[5]@[c].first() + i) == meta_b_cell(
            &x.meta,
            &x.ghosts,
            &x.sources,
            c,
            i,
        )@);
    }
}

/// The directions of the two path walks, in their ninth column, are bits.
pub proof fn lemma_direction_bits(
    slices: Seq<WitnessSlice>,
    family: SelectedZkRegionFamily,
    z: spec_fn(int) -> u128,
    i: int,
)
    requires
        family_bits(slices, family, z),
        family == SelectedZkRegionFamily::WalletB || family == SelectedZkRegionFamily::MetaB,
        0 <= i < slices[8].size(),
    ensures
        z(slices[8].first() + i) == 0 || z(slices[8].first() + i) == 1,
{
    reveal(family_bits);
    match boolean_column(family) {
        Some(c) => {
            assert(c == 8);
            assert(0 <= i < slices[c].size());
            assert(crate::field::is_bit(z(slices[c].first() + i)));
        },
        None => {},
    }
}

/// The carrier of a parent has the ladder of every tier, the queries of its tiers, and one
/// role.
pub proof fn lemma_carrier_of_tiers(
    carrier: HistoryStepPcsCarrierGeometry,
    params: Seq<PcsParams>,
    log_packing: int,
    g: int,
    t: int,
)
    requires
        carrier_of(carrier, params, log_packing),
        0 <= g < params.len(),
        0 <= t < params[g].tree_count(),
    ensures
        carrier.groups@.len() == params.len(),
        carrier.groups@[g]@.len() == params[g].tree_count(),
        carrier.groups@[g]@[t] == params[g].tree(log_packing, t),
        params[0].query_count == Some(carrier.n_queries),
        carrier.proof_roles == 1,
{
    let group = carrier.groups@[g];
}

} // verus!
