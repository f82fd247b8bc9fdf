//! What the pins of the metadata walks ask of the columns, cell by cell.
use crate::circuit::{const_form, wire_form, LinForm};
use crate::columns::{PinView, WitnessSlice};
use crate::meta_pins::{
    contract_pins, digest_pins, instance_pins, leaf_pins, leaves_pins, object_pins, policy_pins,
    run_pins, spines_pins, ExactStateLeaf, LeafShape, SpineContractRegion, SpineInstanceRegion,
    SpineShape, WirePair,
};
use crate::meta_region::{tree_slot, wrap_slot_of, MetaGeometry, MetaShape};
use crate::paired_pins::{
    blocks_copies, copies_hold, copy_holds, family_copies, level_copies, update_copies, CellCopy,
};
use crate::tx_root::{
    direction_pins, path_pins, path_witness, paths_pins, rim_pins, statement_leg_pins,
    statement_path_pins, statement_pins, tx_path_slot, LegStatement, MerklePathWitness,
    TxRootRegionData,
};
use crate::columns::{pin_holds, pin_views, pins_hold, CellPin};
use crate::field::F128;
use crate::paired_pins::{is_ghost, overhang_ghost};
use crate::region_layout::TiledWalkLayout;
use crate::selected_region::update_base;
use vstd::arithmetic::power2::{lemma_pow2_pos, lemma_pow2_unfold, pow2};
use vstd::prelude::*;

verus! {

/// The number that bits make, lowest first.
pub open spec fn number(d: Seq<bool>) -> nat
    decreases d.len(),
{
    if d.len() == 0 {
        0
    } else {
        (if d[0] {
            1nat
        } else {
            0
        }) + 2 * number(d.skip(1))
    }
}

proof fn lemma_halves(j: int, l: nat)
    requires
        j >= 0,
    ensures
        (j / 2) / pow2(l) as int == j / pow2((l + 1) as nat) as int,
{
    lemma_pow2_pos(l);
    lemma_pow2_unfold((l + 1) as nat);
    vstd::arithmetic::div_mod::lemma_div_denominator(j, 2, pow2(l) as int);
}

/// The bits of `j` make `j`.
pub proof fn lemma_number(j: int, d: Seq<bool>)
    requires
        j >= 0,
        forall|l: int|
            0 <= l < d.len() ==> #[trigger] d[l] == ((j / pow2(l as nat) as int) % 2 == 1),
    ensures
        number(d) == j % pow2(d.len()) as int,
    decreases d.len(),
{
    vstd::arithmetic::power2::lemma2_to64();
    lemma_pow2_pos(d.len());
    if d.len() > 0 {
        let rest = d.skip(1);
        assert forall|l: int| 0 <= l < rest.len() implies #[trigger] rest[l] == (((j / 2) / pow2(
            l as nat,
        ) as int) % 2 == 1) by {
            lemma_halves(j, l as nat);
            assert(rest[l] == d[l + 1]);
        }
        lemma_number(j / 2, rest);
        assert(d[0] == ((j / 1) % 2 == 1));
        let m = pow2(rest.len()) as int;
        lemma_pow2_pos(rest.len());
        lemma_pow2_unfold(d.len());
        vstd::arithmetic::div_mod::lemma_fundamental_div_mod(j / 2, m);
        vstd::arithmetic::div_mod::lemma_mod_bound(j / 2, m);
        let q = (j / 2) / m;
        let r = j % 2 + 2 * ((j / 2) % m);
        assert(j == q * (2 * m) + r) by (nonlinear_arith)
            requires
                j / 2 == m * q + (j / 2) % m,
                r == j % 2 + 2 * ((j / 2) % m),
        ;
        vstd::arithmetic::div_mod::lemma_fundamental_div_mod_converse(j, 2 * m, q, r);
    }
}

proof fn lemma_directions(j: int, base: int, n: nat)
    requires
        j >= 0,
    ensures
        direction_pins(j, base, n).len() == n,
        forall|l: int|
            0 <= l < n ==> #[trigger] direction_pins(j, base, n)[l] == (PinView {
                column: 8,
                slot: base + 2 * l,
                form: const_form(
                    if (j / pow2(l as nat) as int) % 2 == 1 {
                        1
                    } else {
                        0
                    },
                ),
            }),
    decreases n,
{
    if n > 0 {
        lemma_directions(j, base, (n - 1) as nat);
    }
}

/// The direction of a path on each level is pinned in column eight, at the even slot of
/// the level, to the direction that the path's own witness has there; and the
/// directions, lowest level first, are the leaf's index.
pub proof fn lemma_path_directions(
    t: &TxRootRegionData,
    j: int,
    base: int,
    w: MerklePathWitness,
)
    requires
        t.wf(),
        0 <= j < t.paths@.len(),
        path_witness(t, j, w),
    ensures
        path_pins(t, j, base).len() >= t.depth,
        w.directions@.len() == t.depth,
        forall|level: int|
            0 <= level < t.depth ==> #[trigger] path_pins(t, j, base)[level] == (PinView {
                column: 8,
                slot: base + 2 * level,
                form: const_form(
                    if w.directions@[level] {
                        1
                    } else {
                        0
                    },
                ),
            }),
        number(w.directions@) == j % pow2(t.depth as nat) as int,
        j < pow2(t.depth as nat) ==> number(w.directions@) == j,
        forall|level: int|
            0 <= level < t.depth ==> #[trigger] w.directions@[level] == ((j / pow2(
                level as nat,
            ) as int) % 2 == 1),
{
    lemma_directions(j, base, t.depth as nat);
    let d = direction_pins(j, base, t.depth as nat);
    assert forall|level: int| 0 <= level < t.depth implies #[trigger] path_pins(t, j, base)[level]
        == d[level] by {}
    assert forall|level: int| 0 <= level < t.depth implies #[trigger] w.directions@[level] == ((j
        / pow2(level as nat) as int) % 2 == 1) by {}
    lemma_number(j, w.directions@);
    if j < pow2(t.depth as nat) {
        vstd::arithmetic::div_mod::lemma_small_mod(j as nat, pow2(t.depth as nat));
    }
}

/// Two paths whose directions are pinned alike are the same path.
pub proof fn lemma_directions_tell_paths(t: &TxRootRegionData, j: int, k: int, base: int)
    requires
        t.wf(),
        0 <= j < t.paths@.len(),
        0 <= k < t.paths@.len(),
        t.paths@.len() <= pow2(t.depth as nat),
        forall|level: int|
            0 <= level < t.depth ==> #[trigger] path_pins(t, j, base)[level] == path_pins(
                t,
                k,
                base,
            )[level],
    ensures
        j == k,
{
    lemma_directions(j, base, t.depth as nat);
    lemma_directions(k, base, t.depth as nat);
    let d = Seq::new(t.depth as nat, |l: int| (j / pow2(l as nat) as int) % 2 == 1);
    assert forall|l: int| 0 <= l < t.depth implies #[trigger] d[l] == ((k / pow2(l as nat) as int)
        % 2 == 1) by {
        let x = direction_pins(j, base, t.depth as nat);
        let y = direction_pins(k, base, t.depth as nat);
        assert(path_pins(t, j, base)[l] == x[l]);
        assert(path_pins(t, k, base)[l] == y[l]);
        assert(const_form(1).constant == 1 && const_form(0).constant == 0);
    }
    lemma_number(j, d);
    lemma_number(k, d);
    vstd::arithmetic::div_mod::lemma_small_mod(j as nat, pow2(t.depth as nat));
    vstd::arithmetic::div_mod::lemma_small_mod(k as nat, pow2(t.depth as nat));
}

proof fn lemma_rims(t: &TxRootRegionData, j: int, base: int, n: nat)
    requires
        j >= 0,
        n <= t.rim@.len(),
    ensures
        forall|l: int|
            0 <= l < n && (j / pow2(l as nat) as int) % 2 == 0 ==> rim_pins(
                t.rim@,
                j,
                base,
                n,
            ).contains(
                PinView { column: 6, slot: base + 2 * l, form: const_form((#[trigger] t.rim@[l]).a@) },
            ) && rim_pins(t.rim@, j, base, n).contains(
                PinView { column: 7, slot: base + 2 * l, form: const_form(t.rim@[l].b@) },
            ),
        forall|p: PinView| #[trigger]
            rim_pins(t.rim@, j, base, n).contains(p) ==> exists|l: int|
                0 <= l < n && (j / pow2(l as nat) as int) % 2 == 0 && p.slot == base + 2
                    * l && (p.column == 6 && p.form == const_form((#[trigger] t.rim@[l]).a@) || p.column == 7
                    && p.form == const_form(t.rim@[l].b@)),
    decreases n,
{
    let all = rim_pins(t.rim@, j, base, n);
    if n > 0 {
        let rest = rim_pins(t.rim@, j, base, (n - 1) as nat);
        lemma_rims(t, j, base, (n - 1) as nat);
        let top = n - 1;
        let h = (j / pow2(top as nat) as int) % 2;
        assert(h == 0 || h == 1);
        if h == 0 {
            let x = PinView { column: 6, slot: base + 2 * top, form: const_form(t.rim@[top].a@) };
            let y = PinView { column: 7, slot: base + 2 * top, form: const_form(t.rim@[top].b@) };
            assert(all == rest.push(x).push(y));
            assert(all[rest.len() as int] == x);
            assert(all[rest.len() as int + 1] == y);
            assert forall|p: PinView| #[trigger] rest.contains(p) implies all.contains(p) by {
                let i = choose|i: int| 0 <= i < rest.len() && rest[i] == p;
                assert(all[i] == p);
            }
            assert forall|p: PinView| #[trigger] all.contains(p) implies rest.contains(p) || p == x
                || p == y by {
                let i = choose|i: int| 0 <= i < all.len() && all[i] == p;
                if i < rest.len() {
                    assert(rest[i] == p);
                }
            }
        } else {
            assert(all == rest);
        }
    }
}

/// The padding rim is pinned on the last path alone: on every level where the path is a
/// left child, and on no other, its sibling lanes are the zero subtree of that level.
pub proof fn lemma_path_rim(t: &TxRootRegionData, j: int, base: int)
    requires
        t.wf(),
        0 <= j < t.paths@.len(),
    ensures
        ({
            let rest = path_pins(t, j, base).skip(t.depth as int);
            if t.rim@.len() > 0 && j + 1 == t.paths@.len() {
                &&& forall|l: int|
                    0 <= l < t.depth && (j / pow2(l as nat) as int) % 2 == 0
                        ==> rest.contains(
                        PinView { column: 6, slot: base + 2 * l, form: const_form((#[trigger] t.rim@[l]).a@) },
                    ) && rest.contains(
                        PinView { column: 7, slot: base + 2 * l, form: const_form(t.rim@[l].b@) },
                    )
                &&& forall|p: PinView| #[trigger]
                    rest.contains(p) ==> exists|l: int|
                        0 <= l < t.depth && (j / pow2(l as nat) as int) % 2 == 0
                            && p.slot == base + 2 * l && (p.column == 6 && p.form == const_form(
                            (#[trigger] t.rim@[l]).a@,
                        ) || p.column == 7 && p.form == const_form(t.rim@[l].b@))
            } else {
                rest.len() == 0
            }
        }),
{
    lemma_directions(j, base, t.depth as nat);
    let rest = path_pins(t, j, base).skip(t.depth as int);
    if t.rim@.len() > 0 && j + 1 == t.paths@.len() {
        lemma_rims(t, j, base, t.depth as nat);
        assert(rest =~= rim_pins(t.rim@, j, base, t.depth as nat));
    }
}

/// The pins of the transaction paths are the pins of each path at its own first slot, and
/// no others.
pub proof fn lemma_every_path_pinned(g: &MetaGeometry, t: &TxRootRegionData, n: nat)
    ensures
        forall|j: int, i: int|
            0 <= j < n && 0 <= i < path_pins(t, j, tx_path_slot(g, j)).len() ==> paths_pins(
                g,
                t,
                n,
            ).contains(#[trigger] path_pins(t, j, tx_path_slot(g, j))[i]),
        forall|p: PinView| #[trigger]
            paths_pins(g, t, n).contains(p) ==> exists|j: int|
                0 <= j < n && path_pins(t, j, #[trigger] tx_path_slot(g, j)).contains(p),
    decreases n,
{
    if n > 0 {
        let rest = paths_pins(g, t, (n - 1) as nat);
        let own = path_pins(t, n - 1, tx_path_slot(g, n - 1));
        let all = paths_pins(g, t, n);
        lemma_every_path_pinned(g, t, (n - 1) as nat);
        assert(all == rest + own);
        assert forall|p: PinView| #[trigger] all.contains(p) <==> rest.contains(p) || own.contains(
            p,
        ) by {
            if all.contains(p) {
                let i = choose|i: int| 0 <= i < all.len() && all[i] == p;
                if i < rest.len() {
                    assert(rest[i] == p);
                } else {
                    assert(own[i - rest.len()] == p);
                }
            }
            if rest.contains(p) {
                let i = choose|i: int| 0 <= i < rest.len() && rest[i] == p;
                assert(all[i] == p);
            }
            if own.contains(p) {
                let i = choose|i: int| 0 <= i < own.len() && own[i] == p;
                assert(all[rest.len() as int + i] == p);
            }
        }
        assert forall|j: int, i: int|
            0 <= j < n && 0 <= i < path_pins(t, j, tx_path_slot(g, j)).len() implies all.contains(
            #[trigger] path_pins(t, j, tx_path_slot(g, j))[i],
        ) by {
            if j < n - 1 {
                assert(rest.contains(path_pins(t, j, tx_path_slot(g, j))[i]));
            }
        }
    }
}


/// The pins of the exact-state leaves, six to a leaf: its four lanes in order on the two
/// input columns of its two slots (packed value, owner high, owner low, padding), and its
/// digest on the two output columns of its digest slot.
pub proof fn lemma_leaf_cells(leaves: Seq<ExactStateLeaf>, shape: LeafShape, n: nat, i: int)
    requires
        n <= leaves.len(),
        0 <= i < n,
    ensures
        ({
            let p = leaves_pins(leaves, shape, n);
            let lanes = seq![
                leaves[i].packed_value_w@,
                leaves[i].owner_hi_w@,
                leaves[i].owner_lo_w@,
                const_form(shape.pad@),
            ];
            let digest = seq![leaves[i].expected_leaf_w.a@, leaves[i].expected_leaf_w.b@];
            &&& p.len() == 6 * n
            &&& forall|k: int|
                0 <= k < 4 ==> #[trigger] p[6 * i + k] == (PinView {
                    column: 2 + k % 2,
                    slot: 2 * i + k / 2,
                    form: lanes[k],
                })
            &&& forall|k: int|
                0 <= k < 2 ==> #[trigger] p[6 * i + 4 + k] == (PinView {
                    column: 4 + k,
                    slot: 2 * i + shape.digest_slot,
                    form: digest[k],
                })
        }),
    decreases n,
{
    lemma_leaves_len(leaves, shape, n);
    lemma_leaves_len(leaves, shape, (n - 1) as nat);
    let p = leaves_pins(leaves, shape, n);
    let rest = leaves_pins(leaves, shape, (n - 1) as nat);
    if i < n - 1 {
        lemma_leaf_cells(leaves, shape, (n - 1) as nat, i);
        assert forall|k: int| 0 <= k < 4 implies #[trigger] p[6 * i + k] == rest[6 * i + k] by {}
        assert forall|k: int| 0 <= k < 2 implies #[trigger] p[6 * i + 4 + k] == rest[6 * i + 4
            + k] by {}
    } else {
        let own = leaf_pins(leaves[i], shape, 2 * i);
        assert forall|k: int| 0 <= k < 4 implies #[trigger] p[6 * i + k] == own[k] by {}
        assert forall|k: int| 0 <= k < 2 implies #[trigger] p[6 * i + 4 + k] == own[4 + k] by {}
    }
}

proof fn lemma_leaves_len(leaves: Seq<ExactStateLeaf>, shape: LeafShape, n: nat)
    ensures
        leaves_pins(leaves, shape, n).len() == 6 * n,
    decreases n,
{
    if n > 0 {
        lemma_leaves_len(leaves, shape, (n - 1) as nat);
    }
}

/// The statement of a family of paths, four pins to a path: in both lanes the entry at the
/// first slot of the path, on the columns that carry the path, and the root at the last of
/// its two slots per level, on the columns of the state.
pub proof fn lemma_statement_cells(leg: LegStatement, depth: int, n: nat, q: int)
    requires
        0 <= q < n,
    ensures
        ({
            let p = statement_leg_pins(leg, depth, n);
            let first = leg.path_slots@[q] as int;
            &&& p.len() == 4 * n
            &&& p[4 * q] == (PinView { column: 4, slot: first, form: leg.entry_wires@[q].a@ })
            &&& p[4 * q + 1] == (PinView {
                column: 0,
                slot: first + 2 * depth - 1,
                form: leg.root_wires@[q].a@,
            })
            &&& p[4 * q + 2] == (PinView { column: 5, slot: first, form: leg.entry_wires@[q].b@ })
            &&& p[4 * q + 3] == (PinView {
                column: 1,
                slot: first + 2 * depth - 1,
                form: leg.root_wires@[q].b@,
            })
        }),
    decreases n,
{
    lemma_statement_len(leg, depth, n);
    lemma_statement_len(leg, depth, (n - 1) as nat);
    let p = statement_leg_pins(leg, depth, n);
    let rest = statement_leg_pins(leg, depth, (n - 1) as nat);
    if q < n - 1 {
        lemma_statement_cells(leg, depth, (n - 1) as nat, q);
        assert(p[4 * q] == rest[4 * q] && p[4 * q + 1] == rest[4 * q + 1] && p[4 * q + 2] == rest[4
            * q + 2] && p[4 * q + 3] == rest[4 * q + 3]);
    } else {
        let own = statement_path_pins(leg, depth, q);
        assert(p[4 * q] == own[0] && p[4 * q + 1] == own[1] && p[4 * q + 2] == own[2] && p[4 * q
            + 3] == own[3]);
    }
}

proof fn lemma_statement_len(leg: LegStatement, depth: int, n: nat)
    ensures
        statement_leg_pins(leg, depth, n).len() == 4 * n,
    decreases n,
{
    if n > 0 {
        lemma_statement_len(leg, depth, (n - 1) as nat);
    }
}

/// A family more appends the pins of its own statement.
pub proof fn lemma_statement_families(
    legs: Seq<LegStatement>,
    depths: Seq<usize>,
    leg: LegStatement,
    depth: usize,
)
    requires
        legs.len() == depths.len(),
    ensures
        statement_pins(legs, depths, 0) == Seq::<PinView>::empty(),
        statement_pins(legs.push(leg), depths.push(depth), legs.len() + 1) == statement_pins(
            legs,
            depths,
            legs.len(),
        ) + statement_leg_pins(leg, depth as int, leg.path_slots@.len()),
{
    lemma_statement_prefix(legs, legs.push(leg), depths, depths.push(depth), legs.len());
}

proof fn lemma_statement_prefix(
    x: Seq<LegStatement>,
    y: Seq<LegStatement>,
    u: Seq<usize>,
    v: Seq<usize>,
    n: nat,
)
    requires
        n <= x.len(),
        n <= y.len(),
        n <= u.len(),
        n <= v.len(),
        forall|i: int| 0 <= i < n ==> x[i] == y[i] && u[i] == v[i],
    ensures
        statement_pins(x, u, n) == statement_pins(y, v, n),
    decreases n,
{
    if n > 0 {
        lemma_statement_prefix(x, y, u, v, (n - 1) as nat);
    }
}

/// Pairs on consecutive slots: pair `k` stands on two neighbouring columns, `k` slots
/// behind the first.
pub proof fn lemma_run_cells(column: int, slot: int, pairs: Seq<WirePair>, n: nat, k: int)
    requires
        0 <= k < n,
    ensures
        run_pins(column, slot, pairs, n).len() == 2 * n,
        run_pins(column, slot, pairs, n)[2 * k] == (PinView {
            column: column,
            slot: slot + k,
            form: pairs[k].a@,
        }),
        run_pins(column, slot, pairs, n)[2 * k + 1] == (PinView {
            column: column + 1,
            slot: slot + k,
            form: pairs[k].b@,
        }),
    decreases n,
{
    lemma_run_len(column, slot, pairs, n);
    lemma_run_len(column, slot, pairs, (n - 1) as nat);
    if k < n - 1 {
        lemma_run_cells(column, slot, pairs, (n - 1) as nat, k);
    }
}

proof fn lemma_run_len(column: int, slot: int, pairs: Seq<WirePair>, n: nat)
    ensures
        run_pins(column, slot, pairs, n).len() == 2 * n,
    decreases n,
{
    if n > 0 {
        lemma_run_len(column, slot, pairs, (n - 1) as nat);
    }
}

/// The policy of a contract is absorbed lane by lane behind its first slot, which takes
/// the code digest: deadline, controller, refund authority, claim recipient, refund
/// recipient, version and rules, two lanes to a slot.
pub proof fn lemma_policy_lanes(c: SpineContractRegion, shape: SpineShape, wrap: int, k: int)
    requires
        0 <= k < 14,
    ensures
        policy_pins(c, shape, wrap).len() == 14,
        policy_pins(c, shape, wrap)[k] == (PinView {
            column: 2 + k % 2,
            slot: wrap + shape.policy_base + 1 + k / 2,
            form: seq![
                c.deadline_w@,
                c.controller_w.a@,
                c.controller_w.b@,
                c.refund_authority_w.a@,
                c.refund_authority_w.b@,
                c.claim_recipient_w.a@,
                c.claim_recipient_w.b@,
                c.refund_recipient_w.a@,
                c.refund_recipient_w.b@,
                const_form(shape.object_version@),
                c.rules_low_w.a@,
                c.rules_low_w.b@,
                c.rules_high_w.a@,
                c.rules_high_w.b@,
            ][k],
        }),
{
}

/// The digests of a contract chain its hashes: the code digest leaves the last row of the
/// program and enters the first row of the policy; the policy digest leaves the eighth row
/// of the policy and enters the first row of both objects; the objects end in the state
/// words, padded with zero, and leave their roots one row on.
#[verifier::rlimit(60)]
pub proof fn lemma_contract_chain(c: SpineContractRegion, shape: SpineShape, wrap: int)
    requires
        c.program_w@.len() > 0,
    ensures
        ({
            let p = contract_pins(c, shape, wrap);
            let pin = |column: int, slot: int, form: LinForm|
                PinView { column, slot: wrap + slot, form };
            let code = shape.code_base as int;
            let policy = shape.policy_base as int;
            let old_at = shape.old_object_base as int;
            let new_at = shape.new_object_base as int;
            &&& p.len() == 2 * c.program_w@.len() + 32
            &&& forall|k: int|
                0 <= k < c.program_w@.len() ==> p.contains(
                    pin(2, code + k, (#[trigger] c.program_w@[k]).a@),
                ) && p.contains(pin(3, code + k, c.program_w@[k].b@))
            &&& p.contains(pin(4, code + c.program_w@.len() - 1, c.code_digest_w.a@))
            &&& p.contains(pin(5, code + c.program_w@.len() - 1, c.code_digest_w.b@))
            &&& p.contains(pin(2, policy, c.code_digest_w.a@))
            &&& p.contains(pin(3, policy, c.code_digest_w.b@))
            &&& p.contains(pin(4, policy + 7, c.policy_digest_w.a@))
            &&& p.contains(pin(5, policy + 7, c.policy_digest_w.b@))
            &&& p.contains(pin(2, old_at, c.policy_digest_w.a@))
            &&& p.contains(pin(3, old_at, c.policy_digest_w.b@))
            &&& p.contains(pin(2, new_at, c.policy_digest_w.a@))
            &&& p.contains(pin(3, new_at, c.policy_digest_w.b@))
            &&& p.contains(pin(2, old_at + 1, c.current_w@))
            &&& p.contains(pin(3, old_at + 1, const_form(0)))
            &&& p.contains(pin(2, new_at + 1, c.next_w@))
            &&& p.contains(pin(3, new_at + 1, const_form(0)))
            &&& p.contains(pin(4, old_at + 1, c.old_object_root_w.a@))
            &&& p.contains(pin(5, old_at + 1, c.old_object_root_w.b@))
            &&& p.contains(pin(4, new_at + 1, c.new_object_root_w.a@))
            &&& p.contains(pin(5, new_at + 1, c.new_object_root_w.b@))
            &&& forall|k: int| 0 <= k < 14 ==> p.contains(#[trigger] policy_pins(c, shape, wrap)[k])
        }),
{
    let m = c.program_w@.len();
    let run = run_pins(2, wrap + shape.code_base, c.program_w@, m);
    let d0 = digest_pins(c, shape, wrap, 0);
    let d1 = digest_pins(c, shape, wrap, 1);
    let po = policy_pins(c, shape, wrap);
    let ob = object_pins(c, shape, wrap);
    let p = contract_pins(c, shape, wrap);
    lemma_run_len(2, wrap + shape.code_base, c.program_w@, m);
    lemma_policy_lanes(c, shape, wrap, 0);
    let n = run.len() as int;
    assert(p == run + d0 + d1 + po + ob);
    assert forall|k: int| 0 <= k < m implies p.contains(
        PinView {
            column: 2,
            slot: wrap + (shape.code_base + k),
            form: (#[trigger] c.program_w@[k]).a@,
        },
    ) && p.contains(
        PinView { column: 3, slot: wrap + (shape.code_base + k), form: c.program_w@[k].b@ },
    ) by {
        lemma_run_cells(2, wrap + shape.code_base, c.program_w@, m, k);
        assert(p[2 * k] == run[2 * k]);
        assert(p[2 * k + 1] == run[2 * k + 1]);
    }
    assert(p[n] == d0[0] && p[n + 1] == d0[1] && p[n + 2] == d0[2] && p[n + 3] == d0[3] && p[n + 4]
        == d0[4]);
    assert(p[n + 5] == d1[0] && p[n + 6] == d1[1] && p[n + 7] == d1[2] && p[n + 8] == d1[3] && p[n
        + 9] == d1[4]);
    assert(p[n + 24] == ob[0] && p[n + 25] == ob[1] && p[n + 26] == ob[2] && p[n + 27] == ob[3]
        && p[n + 28] == ob[4] && p[n + 29] == ob[5] && p[n + 30] == ob[6] && p[n + 31] == ob[7]);
    assert forall|k: int| 0 <= k < 14 implies p.contains(#[trigger] po[k]) by {
        assert(p[n + 10 + k] == po[k]);
    }
}

/// A spine's tree takes its leaves from the leaf row on; its root leaves the fourth row of
/// the tree and enters the wrap row, whose output is the body hash; a contract adds its own
/// pins and nothing else is pinned.
pub proof fn lemma_instance_cells(
    inst: SpineInstanceRegion,
    shape: SpineShape,
    tree: int,
    wrap: int,
    root_wire: nat,
)
    ensures
        ({
            let p = instance_pins(inst, shape, tree, wrap, root_wire);
            let own = match inst.contract {
                Some(c) => contract_pins(c, shape, wrap),
                None => Seq::empty(),
            };
            let at = wrap + shape.wrap_slot;
            &&& p.len() == own.len() + 2 * inst.leaves_w@.len() + 6
            &&& forall|k: int| 0 <= k < own.len() ==> #[trigger] p[k] == own[k]
            &&& forall|k: int|
                0 <= k < inst.leaves_w@.len() ==> p.contains(
                    PinView {
                        column: 0,
                        slot: tree + shape.kid_leaf_base + k,
                        form: (#[trigger] inst.leaves_w@[k]).a@,
                    },
                ) && p.contains(
                    PinView {
                        column: 1,
                        slot: tree + shape.kid_leaf_base + k,
                        form: inst.leaves_w@[k].b@,
                    },
                )
            &&& p.contains(PinView { column: 4, slot: tree + 3, form: wire_form(root_wire) })
            &&& p.contains(PinView { column: 5, slot: tree + 3, form: wire_form(root_wire + 1) })
            &&& p.contains(PinView { column: 2, slot: at, form: wire_form(root_wire) })
            &&& p.contains(PinView { column: 3, slot: at, form: wire_form(root_wire + 1) })
            &&& p.contains(PinView { column: 4, slot: at, form: inst.tx_hash_w.a@ })
            &&& p.contains(PinView { column: 5, slot: at, form: inst.tx_hash_w.b@ })
        }),
{
    let p = instance_pins(inst, shape, tree, wrap, root_wire);
    let own = match inst.contract {
        Some(c) => contract_pins(c, shape, wrap),
        None => Seq::empty(),
    };
    let m = inst.leaves_w@.len();
    let run = run_pins(0, tree + shape.kid_leaf_base, inst.leaves_w@, m);
    lemma_run_len(0, tree + shape.kid_leaf_base, inst.leaves_w@, m);
    let n = own.len() as int;
    let e = n + run.len();
    assert forall|k: int| 0 <= k < m implies p.contains(
        PinView {
            column: 0,
            slot: tree + shape.kid_leaf_base + k,
            form: (#[trigger] inst.leaves_w@[k]).a@,
        },
    ) && p.contains(
        PinView { column: 1, slot: tree + shape.kid_leaf_base + k, form: inst.leaves_w@[k].b@ },
    ) by {
        lemma_run_cells(0, tree + shape.kid_leaf_base, inst.leaves_w@, m, k);
        assert(p[n + 2 * k] == run[2 * k]);
        assert(p[n + 2 * k + 1] == run[2 * k + 1]);
    }
    let at = wrap + shape.wrap_slot;
    assert(p[e] == (PinView { column: 4, slot: tree + 3, form: wire_form(root_wire) }));
    assert(p[e + 1] == (PinView { column: 2, slot: at, form: wire_form(root_wire) }));
    assert(p[e + 2] == (PinView { column: 5, slot: tree + 3, form: wire_form(root_wire + 1) }));
    assert(p[e + 3] == (PinView { column: 3, slot: at, form: wire_form(root_wire + 1) }));
    assert(p[e + 4] == (PinView { column: 4, slot: at, form: inst.tx_hash_w.a@ }));
    assert(p[e + 5] == (PinView { column: 5, slot: at, form: inst.tx_hash_w.b@ }));
}

/// A spine more appends its own pins, at its place among the spines of its block: the
/// blocks hold `cap` spines each, all trees before all wraps, and its root is on the next
/// two wires.
pub proof fn lemma_spines_append(
    instances: Seq<SpineInstanceRegion>,
    shape: SpineShape,
    meta: MetaShape,
    root_wire: nat,
    block: nat,
    i: nat,
)
    requires
        i < meta.spine_cap(),
    ensures
        ({
            let g = block * meta.spine_cap() + i;
            let start = meta.spine_base() as int + block * meta.spine_per_tx();
            spines_pins(instances, shape, meta, root_wire, (g + 1) as nat) == spines_pins(
                instances,
                shape,
                meta,
                root_wire,
                g as nat,
            ) + instance_pins(
                instances[g as int],
                shape,
                start + 32 * i,
                start + 32 * meta.spine_cap() + i * meta.wrap_slots,
                (root_wire + 2 * g) as nat,
            )
        }),
{
    let cap = meta.spine_cap() as int;
    let g = block * cap + i;
    vstd::arithmetic::div_mod::lemma_fundamental_div_mod_converse(g, cap, block as int, i as int);
    assert(g >= 0) by (nonlinear_arith)
        requires
            g == block * cap + i,
            cap >= 0,
    ;
    assert(tree_slot(meta, block as int, i as int) == meta.spine_base() + block
        * meta.spine_per_tx() + 32 * i);
    assert(wrap_slot_of(meta, block as int, i as int) == meta.spine_base() + block
        * meta.spine_per_tx() + 32 * meta.spine_cap() + i * meta.wrap_slots);
}

proof fn lemma_copies_split(
    x: Seq<CellCopy>,
    y: Seq<CellCopy>,
    slices: Seq<WitnessSlice>,
    z: spec_fn(int) -> u128,
)
    ensures
        copies_hold(x + y, slices, z, (x + y).len()) <==> copies_hold(x, slices, z, x.len())
            && copies_hold(y, slices, z, y.len()),
{
    let all = x + y;
    if copies_hold(all, slices, z, all.len()) {
        assert forall|i: int| 0 <= i < x.len() implies copy_holds(#[trigger] x[i], slices, z) by {
            assert(copy_holds(all[i], slices, z));
        }
        assert forall|i: int| 0 <= i < y.len() implies copy_holds(#[trigger] y[i], slices, z) by {
            assert(copy_holds(all[x.len() + i], slices, z));
        }
    }
    if copies_hold(x, slices, z, x.len()) && copies_hold(y, slices, z, y.len()) {
        assert forall|i: int| 0 <= i < all.len() implies copy_holds(
            #[trigger] all[i],
            slices,
            z,
        ) by {
            if i < x.len() {
                assert(copy_holds(x[i], slices, z));
            } else {
                assert(copy_holds(y[i - x.len()], slices, z));
            }
        }
    }
}

/// The copies of one level say that its sibling and its direction stand alike on all four
/// slots, that the state which leaves the second slot is carried on the fourth, and, above
/// the first level, that the state which leaves the level below is carried on the second.
pub proof fn lemma_level_says(
    at: int,
    level: int,
    slices: Seq<WitnessSlice>,
    z: spec_fn(int) -> u128,
)
    requires
        0 <= at,
        level > 0 ==> at > 0,
        at + 4 <= usize::MAX,
    ensures
        ({
            let cell = |c: int, s: int| z(slices[c].first() + s);
            copies_hold(level_copies(at, level), slices, z, level_copies(at, level).len()) <==> {
                &&& cell(6, at) == cell(6, at + 1) == cell(6, at + 2) == cell(6, at + 3)
                &&& cell(7, at) == cell(7, at + 1) == cell(7, at + 2) == cell(7, at + 3)
                &&& cell(8, at) == cell(8, at + 1) == cell(8, at + 2) == cell(8, at + 3)
                &&& cell(4, at + 3) == cell(0, at + 1)
                &&& cell(5, at + 3) == cell(1, at + 1)
                &&& level > 0 ==> cell(4, at + 1) == cell(0, at - 1)
                &&& level > 0 ==> cell(5, at + 1) == cell(1, at - 1)
            }
        }),
{
    let c = level_copies(at, level);
    let n = c.len();
    assert(n == if level > 0 { 13nat } else { 11nat });
    let h = |i: int| copy_holds(c[i], slices, z);
    if copies_hold(c, slices, z, n) {
        assert(h(0) && h(1) && h(2) && h(3) && h(4) && h(5) && h(6) && h(7) && h(8) && h(9)
            && h(10));
        if level > 0 {
            assert(h(11) && h(12));
        }
    } else {
        let i = choose|i: int| 0 <= i < n && !copy_holds(#[trigger] c[i], slices, z);
        assert(!h(i));
        assert(i == 0 || i == 1 || i == 2 || i == 3 || i == 4 || i == 5 || i == 6 || i == 7 || i
            == 8 || i == 9 || i == 10 || i == 11 || i == 12);
    }
}

/// The copies of an update are those of its levels, four slots apart.
pub proof fn lemma_update_says(
    base: int,
    n: nat,
    slices: Seq<WitnessSlice>,
    z: spec_fn(int) -> u128,
)
    ensures
        copies_hold(update_copies(base, n), slices, z, update_copies(base, n).len()) <==> (forall|
            level: int,
        |
            0 <= level < n ==> copies_hold(
                #[trigger] level_copies(base + 4 * level, level),
                slices,
                z,
                level_copies(base + 4 * level, level).len(),
            )),
    decreases n,
{
    if n > 0 {
        lemma_update_says(base, (n - 1) as nat, slices, z);
        lemma_copies_split(
            update_copies(base, (n - 1) as nat),
            level_copies(base + 4 * (n - 1), n - 1),
            slices,
            z,
        );
    }
}

/// The copies of a family are those of its updates of sixteen levels, sixty-four slots
/// apart.
pub proof fn lemma_family_says(
    base: int,
    n: nat,
    slices: Seq<WitnessSlice>,
    z: spec_fn(int) -> u128,
)
    ensures
        copies_hold(family_copies(base, n), slices, z, family_copies(base, n).len()) <==> (forall|
            o: int,
        |
            0 <= o < n ==> copies_hold(
                #[trigger] update_copies(base + 64 * o, 16),
                slices,
                z,
                update_copies(base + 64 * o, 16).len(),
            )),
    decreases n,
{
    if n > 0 {
        lemma_family_says(base, (n - 1) as nat, slices, z);
        lemma_copies_split(
            family_copies(base, (n - 1) as nat),
            update_copies(base + 64 * (n - 1), 16),
            slices,
            z,
        );
    }
}

/// A block more adds the copies of its own two families, at their bases in the block.
pub proof fn lemma_block_copies(
    block_slots: int,
    local_base: int,
    upper_base: int,
    local_cap: nat,
    upper_cap: nat,
    block: nat,
    slices: Seq<WitnessSlice>,
    z: spec_fn(int) -> u128,
)
    ensures
        ({
            let all = blocks_copies(
                block_slots,
                local_base,
                upper_base,
                local_cap,
                upper_cap,
                block + 1,
            );
            let before = blocks_copies(
                block_slots,
                local_base,
                upper_base,
                local_cap,
                upper_cap,
                block,
            );
            let local = family_copies(block * block_slots + local_base, local_cap);
            let upper = family_copies(block * block_slots + upper_base, upper_cap);
            copies_hold(all, slices, z, all.len()) <==> copies_hold(
                before,
                slices,
                z,
                before.len(),
            ) && copies_hold(local, slices, z, local.len()) && copies_hold(
                upper,
                slices,
                z,
                upper.len(),
            )
        }),
{
    let before = blocks_copies(block_slots, local_base, upper_base, local_cap, upper_cap, block);
    let local = family_copies(block * block_slots + local_base, local_cap);
    let upper = family_copies(block * block_slots + upper_base, upper_cap);
    lemma_copies_split(before, local, slices, z);
    lemma_copies_split(before + local, upper, slices, z);
}

/// A pin that holds makes its cell, in its column at its slot, take the value of its wire;
/// and it holds as soon as the cell does.
pub proof fn lemma_pin_says(
    pins: Seq<CellPin>,
    slices: Seq<WitnessSlice>,
    z: spec_fn(int) -> u128,
    i: int,
)
    requires
        0 <= i < pins.len(),
    ensures
        ({
            let p = pin_views(pins)[i];
            &&& pins_hold(pins, slices, z, pins.len()) ==> z(slices[p.column].first() + p.slot)
                == p.form.at(z)
            &&& pin_holds(pins[i], slices, z) <==> z(slices[p.column].first() + p.slot)
                == p.form.at(z)
        }),
{
    if pins_hold(pins, slices, z, pins.len()) {
        assert(pin_holds(pins[i], slices, z));
    }
}

/// Behind the capacity every cell of every update is the canonical one, update by update.
pub proof fn lemma_overhang_says(
    slices: Seq<WitnessSlice>,
    ghost_cells: Seq<Vec<F128>>,
    layout: &TiledWalkLayout,
    family_base: int,
    cap: int,
    from: int,
    to: int,
    z: spec_fn(int) -> u128,
    block: int,
    i: int,
    c: int,
    o: int,
)
    requires
        overhang_ghost(slices, ghost_cells, layout, family_base, cap, from, to, z),
        0 <= i < cap,
        from <= block * cap + i < to,
        0 <= c < 9,
        0 <= o < 64,
    ensures
        z(
            slices[c].first() + (block * layout.block_slots + family_base + 64 * i + o),
        ) == ghost_cells[c]@[o]@,
{
    let p = block * cap + i;
    vstd::arithmetic::div_mod::lemma_fundamental_div_mod_converse(p, cap, block, i);
    let at = update_base(layout, family_base, cap, p);
    assert(at == block * layout.block_slots + family_base + 64 * i);
    assert(is_ghost(slices, ghost_cells, at, z));
    assert(ghost_cells[c]@[o]@ == z((slices[c].first() + at + o) as int));
}

/// The witness of a transaction's path starts at the transaction's own entry and takes its
/// own siblings; behind the last transaction the path is blank, from zero and all left.
pub proof fn lemma_witness_of_path(t: &TxRootRegionData, q: int, w: MerklePathWitness, l: int)
    requires
        t.wf(),
        path_witness(t, q, w),
        0 <= q,
        0 <= l < t.depth,
    ensures
        w.siblings@.len() == t.depth,
        q < t.paths@.len() ==> w.entry == t.paths@[q].entry && w.siblings@
            == t.paths@[q].siblings@,
        q >= t.paths@.len() ==> {
            &&& w.entry.a@ == 0
            &&& w.entry.b@ == 0
            &&& w.siblings@[l].a@ == 0
            &&& w.siblings@[l].b@ == 0
            &&& !w.directions@[l]
        },
{
    if q >= t.paths@.len() {
        let s = w.siblings@[l];
        let d = w.directions@[l];
    }
}

} // verus!
