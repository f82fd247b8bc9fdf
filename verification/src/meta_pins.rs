//! The statement pins of the metadata walks: which committed cells equal which
//! wires of the block statement.
use crate::circuit::{const_form, group_agree, wire_form, FieldR1csBuilder, LinExpr, LinForm};
use crate::columns::{pin_view, pin_views, push_pin, CellPin, PinView};
use crate::field::F128;
use crate::meta_region::{
    tree_slot, wrap_slot_of, MetaGeometry, MetaShape, C0, IN0, KID0, SPINE_TREE_SLOTS,
    SPONGE_LEAF_SLOTS,
};
use crate::columns::free_step;
use vstd::prelude::*;

verus! {

broadcast use group_agree;

/// The two lanes of a digest, as wires.
pub struct WirePair {
    pub a: LinExpr,
    pub b: LinExpr,
}

impl WirePair {
    /// Lane `i` of the pair.
    pub open spec fn form(&self, i: int) -> LinForm {
        if i == 0 {
            self.a@
        } else {
            self.b@
        }
    }

    /// Both lanes read wires below `n`.
    pub open spec fn below(&self, n: nat) -> bool {
        self.a.bound() <= n && self.b.bound() <= n
    }

    pub fn lane(&self, i: usize) -> (r: LinExpr)
        ensures
            r@ == self.form(i as int),
    {
        if i == 0 {
            self.a.clone()
        } else {
            self.b.clone()
        }
    }

    pub fn copy(&self) -> (r: WirePair)
        ensures
            r.a@ == self.a@,
            r.b@ == self.b@,
    {
        WirePair { a: self.a.clone(), b: self.b.clone() }
    }
}

/// The two lanes of a digest.
#[derive(Clone, Copy, Debug, PartialEq, Eq, Structural)]
pub struct DigestPair {
    pub a: F128,
    pub b: F128,
}

/// The host's constants of an exact-state leaf: the padding lane and the slot
/// of the leaf that carries its digest.
#[derive(Clone, Copy, Debug, PartialEq, Eq, Structural)]
pub struct LeafShape {
    pub pad: F128,
    pub digest_slot: usize,
}

/// One exact-state leaf: its statement wires and the digest they expect.
pub struct ExactStateLeaf {
    pub packed_value_w: LinExpr,
    pub owner_hi_w: LinExpr,
    pub owner_lo_w: LinExpr,
    pub expected_leaf_w: WirePair,
    pub expected_leaf: DigestPair,
}

/// The six pins of one leaf at slot `off`.
pub open spec fn leaf_pins(leaf: ExactStateLeaf, shape: LeafShape, off: int) -> Seq<PinView> {
    seq![
        pin_view(2, off, leaf.packed_value_w@),
        pin_view(3, off, leaf.owner_hi_w@),
        pin_view(2, off + 1, leaf.owner_lo_w@),
        pin_view(3, off + 1, const_form(shape.pad@)),
        pin_view(4, off + shape.digest_slot, leaf.expected_leaf_w.a@),
        pin_view(5, off + shape.digest_slot, leaf.expected_leaf_w.b@),
    ]
}

/// The pins of the first `n` leaves.
pub open spec fn leaves_pins(leaves: Seq<ExactStateLeaf>, shape: LeafShape, n: nat) -> Seq<PinView>
    decreases n,
{
    if n == 0 {
        seq![]
    } else {
        leaves_pins(leaves, shape, (n - 1) as nat) + leaf_pins(leaves[n - 1], shape, 2 * (n - 1))
    }
}

fn push_leaf_pins(pins: &mut Vec<CellPin>, leaf: &ExactStateLeaf, shape: LeafShape, off: usize)
    requires
        off + 2 <= usize::MAX,
        shape.digest_slot < 2,
    ensures
        pin_views(final(pins)@) == pin_views(old(pins)@) + leaf_pins(*leaf, shape, off as int),
{
    let ghost before = pin_views(pins@);
    push_pin(pins, IN0, off, leaf.packed_value_w.clone());
    push_pin(pins, IN0 + 1, off, leaf.owner_hi_w.clone());
    push_pin(pins, IN0, off + 1, leaf.owner_lo_w.clone());
    push_pin(pins, IN0 + 1, off + 1, LinExpr::constant(shape.pad));
    let digest_slot: usize = off + shape.digest_slot;
    push_pin(pins, C0, digest_slot, leaf.expected_leaf_w.lane(0));
    push_pin(pins, C0 + 1, digest_slot, leaf.expected_leaf_w.lane(1));
    assert(pin_views(pins@) =~= before + leaf_pins(*leaf, shape, off as int));
}

/// Pins the statement wires of the exact-state leaves.
pub fn push_leaves_pins(pins: &mut Vec<CellPin>, leaves: &Vec<ExactStateLeaf>, shape: LeafShape)
    requires
        2 * leaves@.len() < usize::MAX,
        shape.digest_slot < 2,
    ensures
        pin_views(final(pins)@) == pin_views(old(pins)@) + leaves_pins(
            leaves@,
            shape,
            leaves@.len(),
        ),
{
    let ghost before = pin_views(pins@);
    let mut g: usize = 0;
    assert(pin_views(pins@) =~= before + leaves_pins(leaves@, shape, 0));
    while g < leaves.len()
        invariant
            g <= leaves@.len(),
            2 * leaves@.len() < usize::MAX,
            shape.digest_slot < 2,
            pin_views(pins@) == before + leaves_pins(leaves@, shape, g as nat),
        decreases leaves@.len() - g,
    {
        push_leaf_pins(pins, &leaves[g], shape, g * SPONGE_LEAF_SLOTS);
        g = g + 1;
        assert(pin_views(pins@) =~= before + leaves_pins(leaves@, shape, g as nat));
    }
}

/// The host's constants of a transaction-body spine: the slots of its wrap and
/// of the rows of its tree that the statement reads.
#[derive(Clone, Copy, Debug, PartialEq, Eq, Structural)]
pub struct SpineShape {
    pub wrap_slots: usize,
    pub wrap_slot: usize,
    pub kid_leaf_base: usize,
    pub code_base: usize,
    pub policy_base: usize,
    pub old_object_base: usize,
    pub new_object_base: usize,
    pub object_version: F128,
}

impl SpineShape {
    pub open spec fn wf(self) -> bool {
        self.wrap_slot < self.wrap_slots && self.kid_leaf_base <= 32
    }

    /// The rows of a contract of `steps` steps lie inside the wrap.
    pub open spec fn holds_contract(self, steps: nat) -> bool {
        &&& 0 < steps
        &&& self.code_base + steps <= self.wrap_slots
        &&& self.policy_base + 7 < self.wrap_slots
        &&& self.old_object_base + 1 < self.wrap_slots
        &&& self.new_object_base + 1 < self.wrap_slots
    }
}

/// The commitments of one contract and the wires they are pinned to.
pub struct SpineContractRegion {
    pub program_w: Vec<WirePair>,
    pub current_w: LinExpr,
    pub next_w: LinExpr,
    pub controller_w: WirePair,
    pub refund_authority_w: WirePair,
    pub code_digest_w: WirePair,
    pub policy_digest_w: WirePair,
    pub deadline_w: LinExpr,
    pub claim_recipient_w: WirePair,
    pub refund_recipient_w: WirePair,
    pub rules_low_w: WirePair,
    pub rules_high_w: WirePair,
    pub old_object_root_w: WirePair,
    pub new_object_root_w: WirePair,
}

/// One transaction's spine: the wires of its leaves and of its body hash, and
/// the root and the body hash that its columns carry.
pub struct SpineInstanceRegion {
    pub leaves_w: Vec<WirePair>,
    pub tx_hash_w: WirePair,
    pub tx_hash: DigestPair,
    pub root: DigestPair,
    pub contract: Option<SpineContractRegion>,
}

/// The two pins of a pair at one slot of the lanes that start at `column`.
pub open spec fn pair_pins(column: int, slot: int, a: LinForm, b: LinForm) -> Seq<PinView> {
    seq![pin_view(column, slot, a), pin_view(column + 1, slot, b)]
}

/// The pins of pairs on consecutive slots.
pub open spec fn run_pins(column: int, slot: int, pairs: Seq<WirePair>, n: nat) -> Seq<PinView>
    decreases n,
{
    if n == 0 {
        seq![]
    } else {
        run_pins(column, slot, pairs, (n - 1) as nat) + pair_pins(
            column,
            slot + n - 1,
            pairs[n - 1].a@,
            pairs[n - 1].b@,
        )
    }
}

fn push_pair(pins: &mut Vec<CellPin>, column: usize, slot: usize, a: LinExpr, b: LinExpr)
    requires
        column < usize::MAX,
    ensures
        pin_views(final(pins)@) == pin_views(old(pins)@) + pair_pins(
            column as int,
            slot as int,
            a@,
            b@,
        ),
{
    let ghost before = pin_views(pins@);
    push_pin(pins, column, slot, a);
    push_pin(pins, column + 1, slot, b);
    assert(pin_views(pins@) =~= before + pair_pins(column as int, slot as int, a@, b@));
}

fn push_run(pins: &mut Vec<CellPin>, column: usize, slot: usize, pairs: &Vec<WirePair>)
    requires
        column < usize::MAX,
        slot + pairs@.len() <= usize::MAX,
    ensures
        pin_views(final(pins)@) == pin_views(old(pins)@) + run_pins(
            column as int,
            slot as int,
            pairs@,
            pairs@.len(),
        ),
{
    let ghost before = pin_views(pins@);
    let mut i: usize = 0;
    assert(pin_views(pins@) =~= before + run_pins(column as int, slot as int, pairs@, 0));
    while i < pairs.len()
        invariant
            i <= pairs@.len(),
            column < usize::MAX,
            slot + pairs@.len() <= usize::MAX,
            pin_views(pins@) == before + run_pins(column as int, slot as int, pairs@, i as nat),
        decreases pairs@.len() - i,
    {
        push_pair(pins, column, slot + i, pairs[i].lane(0), pairs[i].lane(1));
        i = i + 1;
        assert(pin_views(pins@) =~= before + run_pins(
            column as int,
            slot as int,
            pairs@,
            i as nat,
        ));
    }
}

/// The pins of one lane of a contract's digests.
pub open spec fn digest_pins(c: SpineContractRegion, shape: SpineShape, wrap: int, lane: int) -> Seq<
    PinView,
> {
    seq![
        pin_view(
            4 + lane,
            wrap + shape.code_base + c.program_w@.len() - 1,
            c.code_digest_w.form(lane),
        ),
        pin_view(2 + lane, wrap + shape.policy_base, c.code_digest_w.form(lane)),
        pin_view(4 + lane, wrap + shape.policy_base + 7, c.policy_digest_w.form(lane)),
        pin_view(2 + lane, wrap + shape.old_object_base, c.policy_digest_w.form(lane)),
        pin_view(2 + lane, wrap + shape.new_object_base, c.policy_digest_w.form(lane)),
    ]
}

fn push_digest_pins(
    pins: &mut Vec<CellPin>,
    c: &SpineContractRegion,
    shape: SpineShape,
    wrap: usize,
    lane: usize,
)
    requires
        lane < 2,
        shape.holds_contract(c.program_w@.len()),
        wrap + shape.wrap_slots <= usize::MAX,
    ensures
        pin_views(final(pins)@) == pin_views(old(pins)@) + digest_pins(
            *c,
            shape,
            wrap as int,
            lane as int,
        ),
{
    let ghost before = pin_views(pins@);
    let last: usize = wrap + shape.code_base + (c.program_w.len() - 1);
    push_pin(pins, C0 + lane, last, c.code_digest_w.lane(lane));
    push_pin(pins, IN0 + lane, wrap + shape.policy_base, c.code_digest_w.lane(lane));
    push_pin(pins, C0 + lane, wrap + shape.policy_base + 7, c.policy_digest_w.lane(lane));
    push_pin(pins, IN0 + lane, wrap + shape.old_object_base, c.policy_digest_w.lane(lane));
    push_pin(pins, IN0 + lane, wrap + shape.new_object_base, c.policy_digest_w.lane(lane));
    assert(pin_views(pins@) =~= before + digest_pins(*c, shape, wrap as int, lane as int));
}

/// The pins of a contract's policy rows: the deadline, the two authorities,
/// the two recipients, the version and the rules.
pub open spec fn policy_pins(c: SpineContractRegion, shape: SpineShape, wrap: int) -> Seq<PinView> {
    let p = wrap + shape.policy_base;
    pair_pins(2, p + 1, c.deadline_w@, c.controller_w.a@) + pair_pins(
        2,
        p + 2,
        c.controller_w.b@,
        c.refund_authority_w.a@,
    ) + pair_pins(2, p + 3, c.refund_authority_w.b@, c.claim_recipient_w.a@) + pair_pins(
        2,
        p + 4,
        c.claim_recipient_w.b@,
        c.refund_recipient_w.a@,
    ) + pair_pins(2, p + 5, c.refund_recipient_w.b@, const_form(shape.object_version@))
        + pair_pins(2, p + 6, c.rules_low_w.a@, c.rules_low_w.b@) + pair_pins(
        2,
        p + 7,
        c.rules_high_w.a@,
        c.rules_high_w.b@,
    )
}

fn push_policy_pins(
    pins: &mut Vec<CellPin>,
    c: &SpineContractRegion,
    shape: SpineShape,
    wrap: usize,
)
    requires
        shape.holds_contract(c.program_w@.len()),
        wrap + shape.wrap_slots <= usize::MAX,
    ensures
        pin_views(final(pins)@) == pin_views(old(pins)@) + policy_pins(*c, shape, wrap as int),
{
    let ghost before = pin_views(pins@);
    let p: usize = wrap + shape.policy_base;
    push_pair(pins, IN0, p + 1, c.deadline_w.clone(), c.controller_w.lane(0));
    push_pair(pins, IN0, p + 2, c.controller_w.lane(1), c.refund_authority_w.lane(0));
    push_pair(pins, IN0, p + 3, c.refund_authority_w.lane(1), c.claim_recipient_w.lane(0));
    push_pair(pins, IN0, p + 4, c.claim_recipient_w.lane(1), c.refund_recipient_w.lane(0));
    push_pair(
        pins,
        IN0,
        p + 5,
        c.refund_recipient_w.lane(1),
        LinExpr::constant(shape.object_version),
    );
    push_pair(pins, IN0, p + 6, c.rules_low_w.lane(0), c.rules_low_w.lane(1));
    push_pair(pins, IN0, p + 7, c.rules_high_w.lane(0), c.rules_high_w.lane(1));
    assert(pin_views(pins@) =~= before + policy_pins(*c, shape, wrap as int));
}

/// The pins of a contract's objects before and after the step: the state
/// words, and the object roots of both lanes.
pub open spec fn object_pins(c: SpineContractRegion, shape: SpineShape, wrap: int) -> Seq<PinView> {
    let old_row = wrap + shape.old_object_base + 1;
    let new_row = wrap + shape.new_object_base + 1;
    pair_pins(2, old_row, c.current_w@, const_form(0)) + pair_pins(
        2,
        new_row,
        c.next_w@,
        const_form(0),
    ) + seq![
        pin_view(4, old_row, c.old_object_root_w.a@),
        pin_view(4, new_row, c.new_object_root_w.a@),
        pin_view(5, old_row, c.old_object_root_w.b@),
        pin_view(5, new_row, c.new_object_root_w.b@),
    ]
}

fn push_object_pins(
    pins: &mut Vec<CellPin>,
    c: &SpineContractRegion,
    shape: SpineShape,
    wrap: usize,
)
    requires
        shape.holds_contract(c.program_w@.len()),
        wrap + shape.wrap_slots <= usize::MAX,
    ensures
        pin_views(final(pins)@) == pin_views(old(pins)@) + object_pins(*c, shape, wrap as int),
{
    let ghost before = pin_views(pins@);
    let old_row: usize = wrap + shape.old_object_base + 1;
    let new_row: usize = wrap + shape.new_object_base + 1;
    push_pair(pins, IN0, old_row, c.current_w.clone(), LinExpr::zero());
    push_pair(pins, IN0, new_row, c.next_w.clone(), LinExpr::zero());
    push_pin(pins, C0, old_row, c.old_object_root_w.lane(0));
    push_pin(pins, C0, new_row, c.new_object_root_w.lane(0));
    push_pin(pins, C0 + 1, old_row, c.old_object_root_w.lane(1));
    push_pin(pins, C0 + 1, new_row, c.new_object_root_w.lane(1));
    assert(pin_views(pins@) =~= before + object_pins(*c, shape, wrap as int));
}

/// All pins of one contract whose wrap starts at `wrap`.
pub open spec fn contract_pins(c: SpineContractRegion, shape: SpineShape, wrap: int) -> Seq<
    PinView,
> {
    run_pins(2, wrap + shape.code_base, c.program_w@, c.program_w@.len()) + digest_pins(
        c,
        shape,
        wrap,
        0,
    ) + digest_pins(c, shape, wrap, 1) + policy_pins(c, shape, wrap) + object_pins(c, shape, wrap)
}

fn push_contract_pins(
    pins: &mut Vec<CellPin>,
    c: &SpineContractRegion,
    shape: SpineShape,
    wrap: usize,
)
    requires
        shape.holds_contract(c.program_w@.len()),
        wrap + shape.wrap_slots <= usize::MAX,
    ensures
        pin_views(final(pins)@) == pin_views(old(pins)@) + contract_pins(*c, shape, wrap as int),
{
    let ghost before = pin_views(pins@);
    push_run(pins, IN0, wrap + shape.code_base, &c.program_w);
    push_digest_pins(pins, c, shape, wrap, 0);
    push_digest_pins(pins, c, shape, wrap, 1);
    push_policy_pins(pins, c, shape, wrap);
    push_object_pins(pins, c, shape, wrap);
    assert(pin_views(pins@) =~= before + contract_pins(*c, shape, wrap as int));
}

/// All pins of one spine: its contract, its leaves, its root on the two wires
/// from `root_wire` on, and its body hash.
pub open spec fn instance_pins(
    inst: SpineInstanceRegion,
    shape: SpineShape,
    tree: int,
    wrap: int,
    root_wire: nat,
) -> Seq<PinView> {
    (match inst.contract {
        Some(c) => contract_pins(c, shape, wrap),
        None => seq![],
    }) + run_pins(0, tree + shape.kid_leaf_base, inst.leaves_w@, inst.leaves_w@.len()) + seq![
        pin_view(4, tree + 3, wire_form(root_wire)),
        pin_view(2, wrap + shape.wrap_slot, wire_form(root_wire)),
        pin_view(5, tree + 3, wire_form(root_wire + 1)),
        pin_view(3, wrap + shape.wrap_slot, wire_form(root_wire + 1)),
        pin_view(4, wrap + shape.wrap_slot, inst.tx_hash_w.a@),
        pin_view(5, wrap + shape.wrap_slot, inst.tx_hash_w.b@),
    ]
}

/// A spine fits the slots of its tree and its wrap.
pub open spec fn instance_fits(inst: SpineInstanceRegion, shape: SpineShape) -> bool {
    &&& shape.kid_leaf_base + inst.leaves_w@.len() <= 32
    &&& (inst.contract matches Some(c) ==> shape.holds_contract(c.program_w@.len()))
}

fn push_instance_pins(
    b: &mut FieldR1csBuilder,
    pins: &mut Vec<CellPin>,
    inst: &SpineInstanceRegion,
    shape: SpineShape,
    tree: usize,
    wrap: usize,
)
    requires
        old(b).wf(),
        old(b).wires() + 2 < usize::MAX,
        shape.wf(),
        instance_fits(*inst, shape),
        tree + 32 <= usize::MAX,
        wrap + shape.wrap_slots <= usize::MAX,
    ensures
        final(b).extends(old(b)),
        final(b).wires() == old(b).wires() + 2,
        final(b).witness()(old(b).wires() as int) == inst.root.a@,
        final(b).witness()(old(b).wires() as int + 1) == inst.root.b@,
        forall|z: spec_fn(int) -> u128| #[trigger] final(b).holds(z) <==> old(b).holds(z),
        pin_views(final(pins)@) == pin_views(old(pins)@) + instance_pins(
            *inst,
            shape,
            tree as int,
            wrap as int,
            old(b).wires(),
        ),
        final(b).shape() == old(b).shape().free().free(),
{
    let ghost before = pin_views(pins@);
    let ghost b0 = *b;
    match &inst.contract {
        Some(c) => {
            push_contract_pins(pins, c, shape, wrap);
        },
        None => {},
    }
    push_run(pins, KID0, tree + shape.kid_leaf_base, &inst.leaves_w);
    let w0 = b.alloc_f128(inst.root.a);
    let ghost b1 = *b;
    push_pin(pins, C0, tree + 3, LinExpr::from_wire(w0));
    push_pin(pins, IN0, wrap + shape.wrap_slot, LinExpr::from_wire(w0));
    let w1 = b.alloc_f128(inst.root.b);
    push_pin(pins, C0 + 1, tree + 3, LinExpr::from_wire(w1));
    push_pin(pins, IN0 + 1, wrap + shape.wrap_slot, LinExpr::from_wire(w1));
    push_pin(pins, C0, wrap + shape.wrap_slot, inst.tx_hash_w.lane(0));
    push_pin(pins, C0 + 1, wrap + shape.wrap_slot, inst.tx_hash_w.lane(1));
    proof {
        assert(b.witness()(b0.wires() as int) == b1.witness()(b0.wires() as int));
        assert(pin_views(pins@) =~= before + instance_pins(
            *inst,
            shape,
            tree as int,
            wrap as int,
            b0.wires(),
        ));
    }
}

/// The pins of the first `n` spines; the root of spine `g` is on the two wires
/// from `root_wire + 2 g` on.
pub open spec fn spines_pins(
    instances: Seq<SpineInstanceRegion>,
    shape: SpineShape,
    meta: MetaShape,
    root_wire: nat,
    n: nat,
) -> Seq<PinView>
    decreases n,
{
    if n == 0 {
        seq![]
    } else {
        let g = n - 1;
        let cap = meta.spine_cap() as int;
        spines_pins(instances, shape, meta, root_wire, (n - 1) as nat) + instance_pins(
            instances[g],
            shape,
            tree_slot(meta, g / cap, g % cap),
            wrap_slot_of(meta, g / cap, g % cap),
            (root_wire + 2 * g) as nat,
        )
    }
}

/// Pins every spine's leaves, root, body hash and contract; the roots are
/// carried on fresh wires, two per spine.
pub fn push_spines_pins(
    b: &mut FieldR1csBuilder,
    pins: &mut Vec<CellPin>,
    instances: &Vec<SpineInstanceRegion>,
    shape: SpineShape,
    g: &MetaGeometry,
)
    requires
        old(b).wf(),
        old(b).wires() + 2 * instances@.len() < usize::MAX,
        shape.wf(),
        g.wf(),
        g.shape.wrap_slots == shape.wrap_slots,
        g.shape.instances == instances@.len(),
        forall|i: int| 0 <= i < instances@.len() ==> instance_fits(#[trigger] instances@[i], shape),
    ensures
        final(b).extends(old(b)),
        final(b).wires() == old(b).wires() + 2 * instances@.len(),
        forall|i: int|
            0 <= i < instances@.len() ==> final(b).witness()(old(b).wires() + 2 * i) == (
            #[trigger] instances@[i]).root.a@ && final(b).witness()(old(b).wires() + 2 * i + 1)
                == instances@[i].root.b@,
        forall|z: spec_fn(int) -> u128| #[trigger] final(b).holds(z) <==> old(b).holds(z),
        final(b).honest() <==> old(b).honest(),
        pin_views(final(pins)@) == pin_views(old(pins)@) + spines_pins(
            instances@,
            shape,
            g.shape,
            old(b).wires(),
            instances@.len(),
        ),
        final(b).shape() == free_step(old(b).shape(), (2 * instances@.len()) as nat),
{
    reveal_with_fuel(free_step, 3);
    let ghost before = pin_views(pins@);
    let ghost b0 = *b;
    let cap = g.spine_cap;
    let n_inst = instances.len();
    let mut blk: usize = 0;
    let mut i: usize = 0;
    let mut at: usize = 0;
    proof {
        crate::meta_region::lemma_meta_a_parts(g.shape);
        assert(pin_views(pins@) =~= before + spines_pins(
            instances@,
            shape,
            g.shape,
            b0.wires(),
            0,
        ));
        assert(0 * cap == 0);
    }
    while at < n_inst
        invariant
            at <= n_inst,
            n_inst == instances@.len(),
            cap == g.spine_cap,
            at < n_inst ==> cap > 0,
            at == blk * cap + i,
            cap > 0 ==> i < cap,
            instances@.len() <= cap * g.shape.tiles,
            shape.wf(),
            g.wf(),
            g.shape.wrap_slots == shape.wrap_slots,
            forall|k: int|
                0 <= k < instances@.len() ==> instance_fits(#[trigger] instances@[k], shape),
            b0.wf(),
            b0.wires() + 2 * instances@.len() < usize::MAX,
            b.extends(&b0),
            b.wires() == b0.wires() + 2 * at,
            forall|k: int|
                0 <= k < at ==> b.witness()(b0.wires() + 2 * k) == (
                #[trigger] instances@[k]).root.a@ && b.witness()(b0.wires() + 2 * k + 1)
                    == instances@[k].root.b@,
            forall|z: spec_fn(int) -> u128| #[trigger] b.holds(z) <==> b0.holds(z),
            pin_views(pins@) == before + spines_pins(
                instances@,
                shape,
                g.shape,
                b0.wires(),
                at as nat,
            ),
            b.shape() == free_step(b0.shape(), (2 * at) as nat),
        decreases n_inst - at,
    {
        reveal_with_fuel(free_step, 3);
        let ghost start = *b;
        proof {
            if blk >= g.shape.tiles {
                assert(blk * cap >= g.shape.tiles * cap) by (nonlinear_arith)
                    requires
                        blk >= g.shape.tiles,
                ;
                assert(g.shape.tiles * cap == cap * g.shape.tiles) by (nonlinear_arith);
            }
            crate::meta_region::lemma_spine_slots(g.shape, blk as int, i as int);
            vstd::arithmetic::div_mod::lemma_fundamental_div_mod_converse(
                at as int,
                cap as int,
                blk as int,
                i as int,
            );
            assert(blk * cap == cap * blk) by (nonlinear_arith);
            assert(blk * g.spine_per_tx >= 0) by (nonlinear_arith);
            assert(i * g.shape.wrap_slots >= 0) by (nonlinear_arith);
            assert(tree_slot(g.shape, blk as int, i as int) + 32 <= g.meta_slots);
        }
        let block: usize = g.spine_meta_base + blk * g.spine_per_tx;
        let tree: usize = block + i * SPINE_TREE_SLOTS;
        let wrap: usize = block + cap * SPINE_TREE_SLOTS + i * shape.wrap_slots;
        assert(instance_fits(instances@[at as int], shape));
        push_instance_pins(b, pins, &instances[at], shape, tree, wrap);
        proof {
            assert forall|k: int| 0 <= k < at + 1 implies b.witness()(b0.wires() + 2 * k) == (
            #[trigger] instances@[k]).root.a@ && b.witness()(b0.wires() + 2 * k + 1)
                == instances@[k].root.b@ by {
                if k < at {
                    assert(b.witness()(b0.wires() + 2 * k) == start.witness()(b0.wires() + 2 * k));
                    assert(b.witness()(b0.wires() + 2 * k + 1) == start.witness()(
                        b0.wires() + 2 * k + 1,
                    ));
                }
            }
            assert((blk + 1) * cap == blk * cap + cap) by (nonlinear_arith);
        }
        at = at + 1;
        i = i + 1;
        if i == cap {
            i = 0;
            blk = blk + 1;
        }
        assert(pin_views(pins@) =~= before + spines_pins(
            instances@,
            shape,
            g.shape,
            b0.wires(),
            at as nat,
        ));
    }
}

} // verus!
