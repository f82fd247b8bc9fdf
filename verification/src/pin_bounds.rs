//! The statement pins of the metadata walks are on cells and wires that exist.
use crate::circuit::{const_form, lemma_forms, wire_form};
use crate::columns::{pin_view, pin_views, pins_bounded, CellPin, PinView, WitnessSlice};
use crate::meta_pins::{
    contract_pins, digest_pins, instance_fits, instance_pins, leaf_pins, leaves_pins, object_pins,
    pair_pins, policy_pins, run_pins, spines_pins, ExactStateLeaf, LeafShape, SpineContractRegion,
    SpineInstanceRegion, SpineShape, WirePair,
};
use crate::meta_region::{lemma_meta_a_parts, lemma_spine_slots, tree_slot, wrap_slot_of, MetaGeometry, MetaShape};
use crate::tx_root::{
    direction_pins, lemma_tx_path_slot, path_pins, paths_pins, rim_pins, statement_leg_pins,
    statement_path_pins, tx_path_slot, LegStatement, TxRootRegionData,
};
use vstd::prelude::*;

verus! {

/// Every pin is on one of `columns` columns of `slots` slots, and reads wires
/// below `n`.
pub open spec fn views_bounded(views: Seq<PinView>, columns: int, slots: int, n: nat) -> bool {
    forall|i: int|
        0 <= i < views.len() ==> {
            let v = #[trigger] views[i];
            &&& 0 <= v.column < columns
            &&& 0 <= v.slot < slots
            &&& v.form.bound() <= n
        }
}

proof fn lemma_bounded_concat(
    x: Seq<PinView>,
    y: Seq<PinView>,
    columns: int,
    slots: int,
    n: nat,
)
    requires
        views_bounded(x, columns, slots, n),
        views_bounded(y, columns, slots, n),
    ensures
        views_bounded(x + y, columns, slots, n),
{
}

proof fn lemma_const_bound()
    ensures
        forall|v: u128| (#[trigger] const_form(v)).bound() == 0,
{
    assert forall|v: u128| (#[trigger] const_form(v)).bound() == 0 by {
        lemma_forms(v, 0, |i: int| 0u128);
    }
}

proof fn lemma_wire_bound(w: nat)
    requires
        w < usize::MAX,
    ensures
        wire_form(w).bound() == w + 1,
{
    lemma_forms(0, w, |i: int| 0u128);
}

pub open spec fn leaf_below(leaf: ExactStateLeaf, n: nat) -> bool {
    &&& leaf.packed_value_w.bound() <= n
    &&& leaf.owner_hi_w.bound() <= n
    &&& leaf.owner_lo_w.bound() <= n
    &&& leaf.expected_leaf_w.below(n)
}

pub open spec fn contract_below(c: SpineContractRegion, n: nat) -> bool {
    &&& forall|i: int| 0 <= i < c.program_w@.len() ==> (#[trigger] c.program_w@[i]).below(n)
    &&& c.current_w.bound() <= n
    &&& c.next_w.bound() <= n
    &&& c.controller_w.below(n)
    &&& c.refund_authority_w.below(n)
    &&& c.code_digest_w.below(n)
    &&& c.policy_digest_w.below(n)
    &&& c.deadline_w.bound() <= n
    &&& c.claim_recipient_w.below(n)
    &&& c.refund_recipient_w.below(n)
    &&& c.rules_low_w.below(n)
    &&& c.rules_high_w.below(n)
    &&& c.old_object_root_w.below(n)
    &&& c.new_object_root_w.below(n)
}

pub open spec fn instance_below(inst: SpineInstanceRegion, n: nat) -> bool {
    &&& forall|i: int| 0 <= i < inst.leaves_w@.len() ==> (#[trigger] inst.leaves_w@[i]).below(n)
    &&& inst.tx_hash_w.below(n)
    &&& (inst.contract matches Some(c) ==> contract_below(c, n))
}

pub proof fn lemma_leaves_bounded(
    leaves: Seq<ExactStateLeaf>,
    shape: LeafShape,
    k: nat,
    slots: int,
    n: nat,
)
    requires
        k <= leaves.len(),
        2 * k <= slots,
        shape.digest_slot < 2,
        forall|i: int| 0 <= i < leaves.len() ==> leaf_below(#[trigger] leaves[i], n),
    ensures
        views_bounded(leaves_pins(leaves, shape, k), 8, slots, n),
    decreases k,
{
    if k > 0 {
        lemma_leaves_bounded(leaves, shape, (k - 1) as nat, slots, n);
        lemma_const_bound();
        assert(leaf_below(leaves[k - 1], n));
        assert(views_bounded(leaf_pins(leaves[k - 1], shape, 2 * (k - 1)), 8, slots, n));
        lemma_bounded_concat(
            leaves_pins(leaves, shape, (k - 1) as nat),
            leaf_pins(leaves[k - 1], shape, 2 * (k - 1)),
            8,
            slots,
            n,
        );
    }
}

proof fn lemma_run_bounded(
    column: int,
    slot: int,
    pairs: Seq<WirePair>,
    k: nat,
    slots: int,
    n: nat,
)
    requires
        0 <= column,
        column + 1 < 8,
        0 <= slot,
        slot + k <= slots,
        k <= pairs.len(),
        forall|i: int| 0 <= i < pairs.len() ==> (#[trigger] pairs[i]).below(n),
    ensures
        views_bounded(run_pins(column, slot, pairs, k), 8, slots, n),
    decreases k,
{
    if k > 0 {
        lemma_run_bounded(column, slot, pairs, (k - 1) as nat, slots, n);
        assert(pairs[k - 1].below(n));
    }
}

proof fn lemma_contract_bounded(
    c: SpineContractRegion,
    shape: SpineShape,
    wrap: int,
    slots: int,
    n: nat,
)
    requires
        0 <= wrap,
        wrap + shape.wrap_slots <= slots,
        shape.holds_contract(c.program_w@.len()),
        contract_below(c, n),
    ensures
        views_bounded(contract_pins(c, shape, wrap), 8, slots, n),
{
    lemma_const_bound();
    lemma_run_bounded(2, wrap + shape.code_base, c.program_w@, c.program_w@.len(), slots, n);
    let r = run_pins(2, wrap + shape.code_base, c.program_w@, c.program_w@.len());
    let d0 = digest_pins(c, shape, wrap, 0);
    let d1 = digest_pins(c, shape, wrap, 1);
    let po = policy_pins(c, shape, wrap);
    let ob = object_pins(c, shape, wrap);
    assert(views_bounded(d0, 8, slots, n));
    assert(views_bounded(d1, 8, slots, n));
    assert(views_bounded(po, 8, slots, n)) by {
        let p = wrap + shape.policy_base;
        let q1 = pair_pins(2, p + 1, c.deadline_w@, c.controller_w.a@);
        let q2 = pair_pins(2, p + 2, c.controller_w.b@, c.refund_authority_w.a@);
        let q3 = pair_pins(2, p + 3, c.refund_authority_w.b@, c.claim_recipient_w.a@);
        let q4 = pair_pins(2, p + 4, c.claim_recipient_w.b@, c.refund_recipient_w.a@);
        let q5 = pair_pins(2, p + 5, c.refund_recipient_w.b@, const_form(shape.object_version@));
        let q6 = pair_pins(2, p + 6, c.rules_low_w.a@, c.rules_low_w.b@);
        let q7 = pair_pins(2, p + 7, c.rules_high_w.a@, c.rules_high_w.b@);
        lemma_bounded_concat(q1, q2, 8, slots, n);
        lemma_bounded_concat(q1 + q2, q3, 8, slots, n);
        lemma_bounded_concat(q1 + q2 + q3, q4, 8, slots, n);
        lemma_bounded_concat(q1 + q2 + q3 + q4, q5, 8, slots, n);
        lemma_bounded_concat(q1 + q2 + q3 + q4 + q5, q6, 8, slots, n);
        lemma_bounded_concat(q1 + q2 + q3 + q4 + q5 + q6, q7, 8, slots, n);
    }
    assert(views_bounded(ob, 8, slots, n));
    lemma_bounded_concat(r, d0, 8, slots, n);
    lemma_bounded_concat(r + d0, d1, 8, slots, n);
    lemma_bounded_concat(r + d0 + d1, po, 8, slots, n);
    lemma_bounded_concat(r + d0 + d1 + po, ob, 8, slots, n);
}

proof fn lemma_instance_bounded(
    inst: SpineInstanceRegion,
    shape: SpineShape,
    tree: int,
    wrap: int,
    root_wire: nat,
    slots: int,
    n: nat,
)
    requires
        shape.wf(),
        instance_fits(inst, shape),
        instance_below(inst, n),
        0 <= tree,
        tree + 32 <= slots,
        0 <= wrap,
        wrap + shape.wrap_slots <= slots,
        root_wire + 2 <= n,
        n < usize::MAX,
    ensures
        views_bounded(instance_pins(inst, shape, tree, wrap, root_wire), 8, slots, n),
{
    let c = match inst.contract {
        Some(c) => contract_pins(c, shape, wrap),
        None => seq![],
    };
    if inst.contract is Some {
        lemma_contract_bounded(inst.contract->0, shape, wrap, slots, n);
    }
    let l = run_pins(0, tree + shape.kid_leaf_base, inst.leaves_w@, inst.leaves_w@.len());
    lemma_run_bounded(0, tree + shape.kid_leaf_base, inst.leaves_w@, inst.leaves_w@.len(), slots, n);
    lemma_wire_bound(root_wire);
    lemma_wire_bound(root_wire + 1);
    lemma_bounded_concat(c, l, 8, slots, n);
    let tail = seq![
        pin_view(4, tree + 3, wire_form(root_wire)),
        pin_view(2, wrap + shape.wrap_slot, wire_form(root_wire)),
        pin_view(5, tree + 3, wire_form(root_wire + 1)),
        pin_view(3, wrap + shape.wrap_slot, wire_form(root_wire + 1)),
        pin_view(4, wrap + shape.wrap_slot, inst.tx_hash_w.a@),
        pin_view(5, wrap + shape.wrap_slot, inst.tx_hash_w.b@),
    ];
    assert(views_bounded(tail, 8, slots, n));
    lemma_bounded_concat(c + l, tail, 8, slots, n);
}

pub proof fn lemma_spines_bounded(
    instances: Seq<SpineInstanceRegion>,
    shape: SpineShape,
    meta: MetaShape,
    root_wire: nat,
    k: nat,
    n: nat,
)
    requires
        meta.wf(),
        meta.wrap_slots == shape.wrap_slots,
        meta.instances == instances.len(),
        shape.wf(),
        k <= instances.len(),
        root_wire + 2 * instances.len() <= n,
        n < usize::MAX,
        forall|i: int|
            0 <= i < instances.len() ==> instance_fits(#[trigger] instances[i], shape)
                && instance_below(instances[i], n),
    ensures
        views_bounded(
            spines_pins(instances, shape, meta, root_wire, k),
            8,
            meta.meta_a_slots() as int,
            n,
        ),
    decreases k,
{
    if k > 0 {
        lemma_spines_bounded(instances, shape, meta, root_wire, (k - 1) as nat, n);
        lemma_meta_a_parts(meta);
        let g = k - 1;
        let cap = meta.spine_cap() as int;
        let blk = g / cap;
        let i = g % cap;
        vstd::arithmetic::div_mod::lemma_fundamental_div_mod(g, cap);
        vstd::arithmetic::div_mod::lemma_mod_bound(g, cap);
        vstd::arithmetic::div_mod::lemma_div_pos_is_pos(g, cap);
        assert(blk < meta.tiles) by (nonlinear_arith)
            requires
                g == cap * blk + i,
                g < cap * meta.tiles,
                i >= 0,
                cap > 0,
        ;
        lemma_spine_slots(meta, blk, i);
        assert(blk * meta.spine_per_tx() >= 0) by (nonlinear_arith)
            requires
                blk >= 0,
        ;
        assert(i * meta.wrap_slots >= 0) by (nonlinear_arith)
            requires
                i >= 0,
        ;
        lemma_instance_bounded(
            instances[g],
            shape,
            tree_slot(meta, blk, i),
            wrap_slot_of(meta, blk, i),
            (root_wire + 2 * g) as nat,
            meta.meta_a_slots() as int,
            n,
        );
        lemma_bounded_concat(
            spines_pins(instances, shape, meta, root_wire, (k - 1) as nat),
            instance_pins(
                instances[g],
                shape,
                tree_slot(meta, blk, i),
                wrap_slot_of(meta, blk, i),
                (root_wire + 2 * g) as nat,
            ),
            8,
            meta.meta_a_slots() as int,
            n,
        );
    }
}

proof fn lemma_direction_bounded(j: int, base: int, k: nat, slots: int, n: nat)
    requires
        0 <= base,
        base + 2 * k <= slots,
    ensures
        views_bounded(direction_pins(j, base, k), 9, slots, n),
    decreases k,
{
    if k > 0 {
        lemma_direction_bounded(j, base, (k - 1) as nat, slots, n);
        lemma_const_bound();
    }
}

proof fn lemma_rim_bounded(
    rim: Seq<crate::meta_pins::DigestPair>,
    j: int,
    base: int,
    k: nat,
    slots: int,
    n: nat,
)
    requires
        0 <= base,
        base + 2 * k <= slots,
    ensures
        views_bounded(rim_pins(rim, j, base, k), 9, slots, n),
    decreases k,
{
    if k > 0 {
        lemma_rim_bounded(rim, j, base, (k - 1) as nat, slots, n);
        lemma_const_bound();
    }
}

/// A transaction-root path fits its stride and the walk.
pub proof fn lemma_path_inside(g: &MetaGeometry, q: int)
    requires
        g.wf(),
        g.shape.tx_paths > 0,
        0 <= q < g.shape.tiles * g.shape.tx_cap(),
    ensures
        0 <= tx_path_slot(g, q),
        tx_path_slot(g, q) + 2 * g.shape.tx_depth <= g.meta_b_slots(),
{
    let cap = g.shape.tx_cap() as int;
    crate::dyadic::lemma_ceil(2 * g.shape.tx_depth as nat);
    if cap == 0 {
        assert(g.shape.tiles * cap == 0) by (nonlinear_arith)
            requires
                cap == 0,
        ;
    }
    let blk = q / cap;
    let i = q % cap;
    vstd::arithmetic::div_mod::lemma_fundamental_div_mod(q, cap);
    vstd::arithmetic::div_mod::lemma_mod_bound(q, cap);
    vstd::arithmetic::div_mod::lemma_div_pos_is_pos(q, cap);
    assert(blk < g.shape.tiles) by (nonlinear_arith)
        requires
            q == cap * blk + i,
            q < g.shape.tiles * cap,
            i >= 0,
            cap > 0,
    ;
    assert(cap * blk == blk * cap) by (nonlinear_arith);
    lemma_tx_path_slot(g, blk, i);
}

pub proof fn lemma_paths_bounded(g: &MetaGeometry, t: &TxRootRegionData, k: nat, n: nat)
    requires
        g.wf(),
        t.wf(),
        g.shape.tx_paths == t.paths@.len(),
        g.shape.tx_depth == t.depth,
        k <= t.paths@.len(),
        t.paths@.len() <= g.shape.tiles * g.shape.tx_cap(),
    ensures
        views_bounded(paths_pins(g, t, k), 9, g.meta_b_slots() as int, n),
    decreases k,
{
    if k > 0 {
        lemma_paths_bounded(g, t, (k - 1) as nat, n);
        let base = tx_path_slot(g, k - 1);
        lemma_path_inside(g, k - 1);
        let slots = g.meta_b_slots() as int;
        lemma_direction_bounded(k - 1, base, t.depth as nat, slots, n);
        lemma_rim_bounded(t.rim@, k - 1, base, t.depth as nat, slots, n);
        let rim = if t.rim@.len() > 0 && k - 1 == t.paths@.len() - 1 {
            rim_pins(t.rim@, k - 1, base, t.depth as nat)
        } else {
            seq![]
        };
        lemma_bounded_concat(direction_pins(k - 1, base, t.depth as nat), rim, 9, slots, n);
        lemma_bounded_concat(
            paths_pins(g, t, (k - 1) as nat),
            path_pins(t, k - 1, base),
            9,
            slots,
            n,
        );
    }
}

pub proof fn lemma_statement_bounded(
    leg: LegStatement,
    depth: int,
    k: nat,
    slots: int,
    n: nat,
)
    requires
        depth > 0,
        k <= leg.path_slots@.len(),
        leg.of(leg.path_slots@.len()),
        forall|q: int|
            0 <= q < leg.path_slots@.len() ==> #[trigger] leg.path_slots@[q] + 2 * depth <= slots,
        forall|q: int|
            0 <= q < leg.path_slots@.len() ==> (#[trigger] leg.entry_wires@[q]).below(n),
        forall|q: int|
            0 <= q < leg.path_slots@.len() ==> (#[trigger] leg.root_wires@[q]).below(n),
    ensures
        views_bounded(statement_leg_pins(leg, depth, k), 9, slots, n),
    decreases k,
{
    if k > 0 {
        lemma_statement_bounded(leg, depth, (k - 1) as nat, slots, n);
        assert(leg.path_slots@[k - 1] + 2 * depth <= slots);
        assert(leg.entry_wires@[k - 1].below(n));
        assert(leg.root_wires@[k - 1].below(n));
        assert(views_bounded(statement_path_pins(leg, depth, k - 1), 9, slots, n));
        lemma_bounded_concat(
            statement_leg_pins(leg, depth, (k - 1) as nat),
            statement_path_pins(leg, depth, k - 1),
            9,
            slots,
            n,
        );
    }
}

/// Bounded pins are on cells that exist.
pub proof fn lemma_pins_exist(
    pins: Seq<CellPin>,
    slices: Seq<WitnessSlice>,
    slots: int,
    n: nat,
)
    requires
        views_bounded(pin_views(pins), slices.len() as int, slots, n),
        forall|c: int|
            0 <= c < slices.len() ==> (#[trigger] slices[c]).first() + slots <= n
                && slices[c].size() <= usize::MAX,
    ensures
        pins_bounded(pins, slices, n),
{
    assert forall|i: int| 0 <= i < pins.len() implies {
        let pin = #[trigger] pins[i];
        &&& pin.wire.bound() <= n
        &&& pin.column < slices.len()
        &&& slices[pin.column as int].first() + pin.slot < n
        &&& slices[pin.column as int].size() <= usize::MAX
    } by {
        assert(pin_views(pins)[i] == pins[i]@);
        assert(slices[pins[i].column as int].first() + slots <= n);
    }
}

} // verus!
