//! What a closed parent region says of the cells of its walks, slot by slot, and that
//! assembled walks meet it.
use crate::basis::FlatBasis;
use crate::duplex_union::{combined_slots, combined_union, longest, ChannelColumns};
use crate::duplex::SubChannel;
use crate::dyadic::ceil_pow2;
use crate::field::fmul;
use crate::parent_close::{
    closed_upto, selector_pinned, ArmObligations, CarrierWalks, Obligation,
};
use crate::circuit::LinExpr;
use crate::parent_geometry::DensePathGeometry;
use crate::parent_link::{
    block_of, dense_column, lemma_link_joined, lemma_link_rooted, leaves_enter, roots_committed,
    roots_fit, LinkProof, RecordingFreeLinkAssembly,
};
use crate::walk_planes::WalkColumns;
use crate::columns::WitnessSlice;
use crate::parent_close::{parent_closed, roles_cover, RecordingWalk};
use crate::path_roots::WalletFfRootPin;
use crate::recording::{role_form, role_rules, RecordedWires, RecordingSlots, TierBlock};
use vstd::arithmetic::power2::pow2;
use vstd::prelude::*;

verus! {

/// The joins say, of every query and tree, that the two digest cells of the leaf walk, in
/// the tile of the query, the channel of the tree and the slot after the last pair of
/// lanes, are the two entry cells of the path walk, in the run of the query within the
/// leg of the tree.
pub proof fn lemma_joins_say(
    walks: CarrierWalks,
    z: spec_fn(int) -> u128,
    q: int,
    t: int,
)
    requires
        walks.joined_upto(walks.n_queries * walks.positions(), z),
        0 <= q < walks.n_queries,
        0 <= t < walks.carrier_depths@.len(),
    ensures
        z(
            walks.slices_a@[2].first() + (q * pow2(walks.leaf_block_log as nat) + t * pow2(
                walks.channel_log as nat,
            ) + walks.lanes@[t] as int / 2 - 1),
        ) == z(
            walks.slices_b@[4].first() + (walks.leg_offsets@[t] + q * walks.carrier_depths@[t]),
        ),
        z(
            walks.slices_a@[3].first() + (q * pow2(walks.leaf_block_log as nat) + t * pow2(
                walks.channel_log as nat,
            ) + walks.lanes@[t] as int / 2 - 1),
        ) == z(
            walks.slices_b@[5].first() + (walks.leg_offsets@[t] + q * walks.carrier_depths@[t]),
        ),
{
    let m = walks.positions();
    let k = q * m + t;
    assert(0 <= k < walks.n_queries * m) by (nonlinear_arith)
        requires
            k == q * m + t,
            0 <= t < m,
            0 <= q < walks.n_queries,
    ;
    vstd::arithmetic::div_mod::lemma_fundamental_div_mod_converse(k, m, q, t);
    assert(walks.joined(k / m, k % m, z));
}

/// The joins are met when that of every query and tree is.
pub proof fn lemma_every_join(walks: CarrierWalks, z: spec_fn(int) -> u128)
    requires
        forall|q: int, t: int|
            0 <= q < walks.n_queries && 0 <= t < walks.carrier_depths@.len()
                ==> #[trigger] walks.joined(q, t, z),
    ensures
        walks.joined_upto(walks.n_queries * walks.positions(), z),
{
    let m = walks.positions();
    assert forall|k: int| 0 <= k < walks.n_queries * m implies #[trigger] walks.joined(
        k / m,
        k % m,
        z,
    ) by {
        if m == 0 {
            assert(walks.n_queries * m == 0) by (nonlinear_arith)
                requires
                    m == 0,
            ;
        }
        vstd::arithmetic::div_mod::lemma_fundamental_div_mod(k, m);
        vstd::arithmetic::div_mod::lemma_mod_bound(k, m);
        vstd::arithmetic::div_mod::lemma_div_pos_is_pos(k, m);
        assert(k / m < walks.n_queries) by (nonlinear_arith)
            requires
                k == m * (k / m) + k % m,
                k % m >= 0,
                m > 0,
                k < walks.n_queries * m,
        ;
        let q = k / m;
        let t = k % m;
        assert(walks.joined(q, t, z) == walks.joined(k / m, k % m, z));
    }
}

/// A join is met when those cells agree, and only then.
pub proof fn lemma_join_cells(walks: CarrierWalks, z: spec_fn(int) -> u128, q: int, t: int)
    ensures
        walks.joined(q, t, z) <==> z(
            walks.slices_a@[2].first() + (q * pow2(walks.leaf_block_log as nat) + t * pow2(
                walks.channel_log as nat,
            ) + walks.lanes@[t] as int / 2 - 1),
        ) == z(
            walks.slices_b@[4].first() + (walks.leg_offsets@[t] + q * walks.carrier_depths@[t]),
        ) && z(
            walks.slices_a@[3].first() + (q * pow2(walks.leaf_block_log as nat) + t * pow2(
                walks.channel_log as nat,
            ) + walks.lanes@[t] as int / 2 - 1),
        ) == z(
            walks.slices_b@[5].first() + (walks.leg_offsets@[t] + q * walks.carrier_depths@[t]),
        ),
{
}

/// The assembled walks of any number of queries meet every join: an assignment whose leaf
/// and path columns are the assembly's, at the places that the walks name, is accepted.
pub proof fn lemma_assembly_joined(
    walks: CarrierWalks,
    r: RecordingFreeLinkAssembly,
    subs: Seq<SubChannel>,
    channels: Seq<ChannelColumns>,
    dense: DensePathGeometry,
    sources: Seq<WalkColumns>,
    strides: Seq<usize>,
    basis: FlatBasis,
    z: spec_fn(int) -> u128,
)
    requires
        combined_union(r.u_a, r.channels@, subs, walks.n_queries as nat, channels, basis),
        forall|c: int|
            0 <= c < 17 ==> dense_column(
                &dense,
                sources,
                strides,
                c,
                sources.len() as int,
                (#[trigger] r.path.tracks@[c])@,
            ),
        leaves_enter(subs, walks.n_queries as nat, channels, sources, strides),
        subs.len() == walks.carrier_depths@.len(),
        subs.len() <= sources.len(),
        pow2(walks.leaf_block_log as nat) == ceil_pow2(subs.len()) * ceil_pow2(
            longest(subs, subs.len()),
        ),
        pow2(walks.channel_log as nat) == ceil_pow2(longest(subs, subs.len())),
        forall|t: int|
            0 <= t < subs.len() ==> {
                &&& walks.lanes@[t] == (#[trigger] subs[t]).layout.n_data
                &&& 2 <= subs[t].layout.n_data <= 2 * ceil_pow2(longest(subs, subs.len()))
                &&& walks.leg_offsets@[t] == dense.family_offsets@[t]
                &&& walks.carrier_depths@[t] == dense.carrier_depths@[t]
                &&& 0 < dense.carrier_depths@[t]
                &&& walks.n_queries <= dense.family_path_counts@[t]
            },
        forall|c: int, slot: int|
            0 <= c < 6 && 0 <= slot < combined_slots(subs, walks.n_queries as nat) ==> z(
                walks.slices_a@[c].first() + slot,
            ) == (#[trigger] r.u_a.columns.tracks@[c]@[slot])@,
        forall|c: int, slot: int|
            0 <= c < 9 && 0 <= slot < r.path.tracks@[c]@.len() ==> z(
                walks.slices_b@[c].first() + slot,
            ) == (#[trigger] r.path.tracks@[c]@[slot])@,
    ensures
        walks.joined_upto(walks.n_queries * walks.positions(), z),
{
    let k = walks.n_queries as nat;
    let n = ceil_pow2(subs.len()) as int;
    let s = ceil_pow2(longest(subs, subs.len())) as int;
    assert forall|q: int, t: int|
        0 <= q < walks.n_queries && 0 <= t
            < walks.carrier_depths@.len() implies #[trigger] walks.joined(q, t, z) by {
        let sub = subs[t];
        let at = sub.layout.n_data as int / 2 - 1;
        let digest = (q * n + t) * s + at;
        crate::dyadic::lemma_ceil(subs.len());
        crate::dyadic::lemma_ceil(longest(subs, subs.len()));
        crate::dyadic::lemma_ceil(k);
        assert(0 <= at < s);
        assert(digest == q * (n * s) + t * s + at) by (nonlinear_arith)
            requires
                digest == (q * n + t) * s + at,
        ;
        assert(0 <= digest && digest < k * (n * s)) by (nonlinear_arith)
            requires
                digest == (q * n + t) * s + at,
                0 <= q < k,
                0 <= t < n,
                0 <= at < s,
        ;
        assert(k * (n * s) <= ceil_pow2(k) * (n * s)) by (nonlinear_arith)
            requires
                k <= ceil_pow2(k),
                n > 0,
                s > 0,
        ;
        let leg = dense.family_offsets@[t] + q * dense.carrier_depths@[t];
        lemma_link_joined(r, subs, k, channels, dense, sources, strides, basis, q, t, 0);
        lemma_link_joined(r, subs, k, channels, dense, sources, strides, basis, q, t, 1);
        let run = crate::parent_link::run_slot(
            dense.family_offsets@[t] as int,
            dense.carrier_depths@[t] as int,
            q,
            0,
        );
        assert(run == leg);
        assert(dense_column(
            &dense,
            sources,
            strides,
            4,
            sources.len() as int,
            r.path.tracks@[4]@,
        ));
        assert(dense_column(
            &dense,
            sources,
            strides,
            5,
            sources.len() as int,
            r.path.tracks@[5]@,
        ));
        assert(r.u_a.columns.tracks@[2]@[digest] == r.path.tracks@[4]@[leg]);
        assert(r.u_a.columns.tracks@[3]@[digest] == r.path.tracks@[5]@[leg]);
        assert(q * pow2(walks.leaf_block_log as nat) + t * pow2(walks.channel_log as nat)
            + walks.lanes@[t] as int / 2 - 1 == digest);
        assert(walks.leg_offsets@[t] + q * walks.carrier_depths@[t] == leg);
    }
    lemma_every_join(walks, z);
}

/// An opened query says, cell by cell, that the lanes of its leaf stand in the leaf walk at
/// their positions within the tile of the query, that its directions stand in the path
/// walk one level after the other from the first slot of its run on, and that the root of
/// the run is the claimed root: the entry cell behind the last level where the run has a
/// slot to spare, and otherwise the last state fed forward with the child on the path's
/// left.
pub proof fn lemma_opened_says(
    walks: CarrierWalks,
    q: int,
    t: int,
    depth: int,
    ob: Obligation,
    z: spec_fn(int) -> u128,
)
    ensures
        ({
            let tile = q * pow2(walks.leaf_block_log as nat);
            let run = walks.leg_offsets@[t] + q * walks.carrier_depths@[t];
            let last = run + depth - 1;
            let b = |c: int, slot: int| z(walks.slices_b@[c].first() + slot);
            let fed = |lane: int|
                (b(lane, last) ^ b(4 + lane, last)) ^ fmul(
                    b(8, last),
                    b(4 + lane, last) ^ b(6 + lane, last),
                );
            walks.opened(q, t, depth, ob, z) <==> {
                &&& forall|k: int|
                    0 <= k < ob.lanes@.len() ==> z(
                        walks.slices_a@[walks.leaf_positions@[t]@[k].lane as int].first() + (tile
                            + walks.leaf_positions@[t]@[k].slot),
                    ) == (#[trigger] ob.lanes@[k]).at(z)
                &&& forall|level: int|
                    0 <= level < ob.dir_bits@.len() ==> b(8, run + level) == (
                    #[trigger] ob.dir_bits@[level]).at(z)
                &&& ob.root.a.at(z) == if depth < walks.carrier_depths@[t] {
                    b(4, run + depth)
                } else {
                    fed(0)
                }
                &&& ob.root.b.at(z) == if depth < walks.carrier_depths@[t] {
                    b(5, run + depth)
                } else {
                    fed(1)
                }
            }
        }),
{
    let tile = q * pow2(walks.leaf_block_log as nat);
    let run = walks.leg_offsets@[t] + q * walks.carrier_depths@[t];
    assert(walks.leg_slot(q, t) == run);
    if walks.opened(q, t, depth, ob, z) {
        assert forall|k: int| 0 <= k < ob.lanes@.len() implies z(
            walks.slices_a@[walks.leaf_positions@[t]@[k].lane as int].first() + (tile
                + walks.leaf_positions@[t]@[k].slot),
        ) == (#[trigger] ob.lanes@[k]).at(z) by {
            assert(walks.leaf_slot(q, t, k) == tile + walks.leaf_positions@[t]@[k].slot);
        }
    } else {
        assert forall|k: int| 0 <= k < ob.lanes@.len() implies walks.leaf_slot(q, t, k) == tile
            + (#[trigger] walks.leaf_positions@[t]@[k]).slot by {}
    }
}

/// The obligations of a tier are met when, of every query and tree, the obligation at the
/// query's place among the trees is met down to the depth of that tree, and only then.
pub proof fn lemma_arm_says(walks: CarrierWalks, arm: ArmObligations, z: spec_fn(int) -> u128)
    requires
        arm.obligations@.len() == walks.n_queries * arm.trees@.len(),
    ensures
        walks.arm_opened(arm, z) <==> (forall|q: int, t: int|
            0 <= q < walks.n_queries && 0 <= t < arm.trees@.len() ==> #[trigger] walks.opened(
                q,
                t,
                arm.trees@[t].depth as int,
                arm.obligations@[q * arm.trees@.len() + t],
                z,
            )),
{
    let m = arm.trees@.len() as int;
    if walks.arm_opened(arm, z) {
        assert forall|q: int, t: int|
            0 <= q < walks.n_queries && 0 <= t < m implies #[trigger] walks.opened(
            q,
            t,
            arm.trees@[t].depth as int,
            arm.obligations@[q * arm.trees@.len() + t],
            z,
        ) by {
            let k = q * m + t;
            assert(0 <= k < walks.n_queries * m) by (nonlinear_arith)
                requires
                    k == q * m + t,
                    0 <= t < m,
                    0 <= q < walks.n_queries,
            ;
            vstd::arithmetic::div_mod::lemma_fundamental_div_mod_converse(k, m, q, t);
            assert(walks.arm_opened_at(arm, k, z));
        }
    } else {
        let k = choose|k: int|
            0 <= k < arm.obligations@.len() && !#[trigger] walks.arm_opened_at(arm, k, z);
        if m == 0 {
            assert(walks.n_queries * m == 0) by (nonlinear_arith)
                requires
                    m == 0,
            ;
        }
        vstd::arithmetic::div_mod::lemma_fundamental_div_mod(k, m);
        vstd::arithmetic::div_mod::lemma_mod_bound(k, m);
        vstd::arithmetic::div_mod::lemma_div_pos_is_pos(k, m);
        assert(k / m < walks.n_queries) by (nonlinear_arith)
            requires
                k == m * (k / m) + k % m,
                k % m >= 0,
                m > 0,
                k < walks.n_queries * m,
        ;
        let q = k / m;
        let t = k % m;
        assert(q * m == m * q) by (nonlinear_arith);
        assert(!walks.opened(
            q,
            t,
            arm.trees@[t].depth as int,
            arm.obligations@[q * arm.trees@.len() + t],
            z,
        ));
    }
}

/// In the assembled path walk the run of every query reaches the root that its proof
/// committed, where an opened query reads it.
pub proof fn lemma_assembly_rooted(
    walks: CarrierWalks,
    r: RecordingFreeLinkAssembly,
    proofs: Seq<LinkProof>,
    n_queries: int,
    dense: DensePathGeometry,
    sources: Seq<WalkColumns>,
    strides: Seq<usize>,
    z: spec_fn(int) -> u128,
    p: int,
    q: int,
    t: int,
)
    requires
        forall|c: int|
            0 <= c < 17 ==> dense_column(
                &dense,
                sources,
                strides,
                c,
                sources.len() as int,
                (#[trigger] r.path.tracks@[c])@,
            ),
        roots_fit(proofs, n_queries, dense),
        roots_committed(proofs, n_queries, dense, sources, strides),
        sources.len() == dense.carrier_depths@.len(),
        walks.leg_offsets@ == dense.family_offsets@,
        walks.carrier_depths@ == dense.carrier_depths@,
        0 <= p < proofs.len(),
        0 <= q < n_queries,
        0 <= t < proofs[p].trees@.len(),
        forall|c: int, slot: int|
            0 <= c < 9 && 0 <= slot < r.path.tracks@[c]@.len() ==> z(
                walks.slices_b@[c].first() + slot,
            ) == (#[trigger] r.path.tracks@[c]@[slot])@,
    ensures
        walks.root_value(p * n_queries + q, t, proofs[p].trees@[t].depth as int, 0, z)
            == proofs[p].roots@[t].a@,
        walks.root_value(p * n_queries + q, t, proofs[p].trees@[t].depth as int, 1, z)
            == proofs[p].roots@[t].b@,
{
    let block = block_of(p, q, n_queries);
    let depth = proofs[p].trees@[t].depth as int;
    let carrier = dense.carrier_depths@[t] as int;
    lemma_link_rooted(r, proofs, n_queries, dense, sources, strides, p, q, t, 0);
    lemma_link_rooted(r, proofs, n_queries, dense, sources, strides, p, q, t, 1);
    assert(0 < proofs[p].trees@[t].depth <= carrier);
    assert(0 <= block < dense.family_path_counts@[t]) by (nonlinear_arith)
        requires
            block == p * n_queries + q,
            0 <= p < proofs.len(),
            0 <= q < n_queries,
            proofs.len() * n_queries <= dense.family_path_counts@[t],
    ;
    let level = if depth < carrier {
        depth
    } else {
        depth - 1
    };
    let at = crate::parent_link::run_slot(dense.family_offsets@[t] as int, carrier, block, level);
    assert forall|c: int| 0 <= c < 9 implies 0 <= at < (#[trigger] r.path.tracks@[c])@.len() by {
        assert(dense_column(
            &dense,
            sources,
            strides,
            c,
            sources.len() as int,
            r.path.tracks@[c]@,
        ));
    }
    assert(walks.leg_slot(block, t) + level == at);
    let tr = r.path.tracks@;
    assert(tr[0]@[at]@ == tr[0]@[at]@ && tr[1]@[at]@ == tr[1]@[at]@);
    assert(tr[4]@[at]@ == z(walks.slices_b@[4].first() + at));
    assert(tr[5]@[at]@ == z(walks.slices_b@[5].first() + at));
    assert(tr[6]@[at]@ == z(walks.slices_b@[6].first() + at));
    assert(tr[7]@[at]@ == z(walks.slices_b@[7].first() + at));
    assert(tr[8]@[at]@ == z(walks.slices_b@[8].first() + at));
}

/// A closed carrier with two tiers whose selectors choose one says that the selector cell
/// is the number of the chosen tier and that the obligations of that tier are met; the
/// other tier's are not asked for.
pub proof fn lemma_closed_selects(
    walks: CarrierWalks,
    cell: int,
    arms: Seq<ArmObligations>,
    selectors: Seq<LinExpr>,
    z: spec_fn(int) -> u128,
    chosen: int,
)
    requires
        arms.len() == 2,
        selectors.len() == 2,
        0 <= chosen < 2,
        selectors[chosen].at(z) == 1,
        selectors[1 - chosen].at(z) == 0,
    ensures
        closed_upto(walks, cell, arms, selectors, 2, z) <==> z(cell) == chosen
            && walks.joined_upto(walks.n_queries * walks.positions(), z) && walks.arm_opened(
            arms[chosen],
            z,
        ),
{
    assert(selectors[0].at(z) == 0 || selectors[1].at(z) == 0);
    assert(selector_pinned(cell, selectors, z) <==> z(cell) == chosen);
}

/// With one tier the selector cell is zero, the selector is one, and the obligations of
/// the tier are met.
pub proof fn lemma_closed_single(
    walks: CarrierWalks,
    cell: int,
    arms: Seq<ArmObligations>,
    selectors: Seq<LinExpr>,
    z: spec_fn(int) -> u128,
)
    requires
        arms.len() == 1,
        selectors.len() == 1,
    ensures
        closed_upto(walks, cell, arms, selectors, 1, z) <==> z(cell) == 0 && selectors[0].at(z) == 1
            && walks.joined_upto(walks.n_queries * walks.positions(), z) && walks.arm_opened(
            arms[0],
            z,
        ),
{
}

/// The root of a wallet path, in a run of as many slots as the least power of two that
/// holds its levels: with a slot to spare the cell behind the last level, and otherwise the
/// last state fed forward with the child on the path's left.
pub proof fn lemma_wallet_root(
    pin: WalletFfRootPin,
    slices: Seq<WitnessSlice>,
    z: spec_fn(int) -> u128,
)
    requires
        pin.depth > 0,
    ensures
        ({
            let base = pin.base_slot as int;
            let depth = pin.depth as int;
            let last = base + depth - 1;
            let b = |c: int, slot: int| z(slices[c].first() + slot);
            let fed = |lane: int|
                (b(lane, last) ^ b(4 + lane, last)) ^ fmul(
                    b(8, last),
                    b(4 + lane, last) ^ b(6 + lane, last),
                );
            &&& depth <= ceil_pow2(depth as nat)
            &&& depth < ceil_pow2(depth as nat) ==> (pin.met(slices, z) <==> pin.root_wires.a.at(z)
                == b(4, base + depth) && pin.root_wires.b.at(z) == b(5, base + depth))
            &&& depth == ceil_pow2(depth as nat) ==> (pin.met(slices, z) <==> pin.root_wires.a.at(z)
                == fed(0) && pin.root_wires.b.at(z) == fed(1))
        }),
{
    crate::dyadic::lemma_ceil(pin.depth as nat);
}

/// A closed parent region closes its carrier and binds the recordings of both roles.
pub proof fn lemma_parent_says(
    walks: CarrierWalks,
    cell: int,
    arms: Seq<ArmObligations>,
    selectors: Seq<LinExpr>,
    rec: RecordingWalk,
    children: Seq<RecordedWires>,
    r_prev: Seq<RecordedWires>,
    z: spec_fn(int) -> u128,
)
    ensures
        parent_closed(walks, cell, arms, selectors, rec, children, r_prev, z) <==> {
            let len = pow2(rec.w_log as nat) as int;
            &&& closed_upto(walks, cell, arms, selectors, arms.len() as int, z)
            &&& role_rules(rec.child_blocks@, children, selectors, rec.slices@, len, z)
            &&& role_rules(rec.r_prev_blocks@, r_prev, selectors, rec.slices@, len, z)
        },
{
}

/// Every deferred cell of a covered walk is bound by exactly one role, and no other cell by
/// any.
pub proof fn lemma_roles_partition(
    rec: RecordingWalk,
    children: Seq<RecordedWires>,
    r_prev: Seq<RecordedWires>,
    slots: RecordingSlots,
    len: int,
    c: int,
    o: int,
)
    requires
        roles_cover(rec, children, r_prev, slots, len),
        0 <= c < 6,
        0 <= o < len,
    ensures
        ({
            let bound = |blocks: Seq<TierBlock>, wires: Seq<RecordedWires>|
                exists|arm: int| 0 <= arm < 2 && #[trigger] role_form(blocks, wires, arm, c, o)
                    is Some;
            let child = bound(rec.child_blocks@, children);
            let prev = bound(rec.r_prev_blocks@, r_prev);
            &&& slots.slots@[c]@[o] is Some <==> child != prev
            &&& slots.slots@[c]@[o] is None <==> !child && !prev
        }),
{
    let cell = slots.slots@[c]@[o];
    let c0 = role_form(rec.child_blocks@, children, 0, c, o);
    let c1 = role_form(rec.child_blocks@, children, 1, c, o);
    let p0 = role_form(rec.r_prev_blocks@, r_prev, 0, c, o);
    let p1 = role_form(rec.r_prev_blocks@, r_prev, 1, c, o);
    assert((exists|arm: int| 0 <= arm < 2 && #[trigger] role_form(
        rec.child_blocks@,
        children,
        arm,
        c,
        o,
    ) is Some) <==> c0 is Some || c1 is Some);
    assert((exists|arm: int| 0 <= arm < 2 && #[trigger] role_form(
        rec.r_prev_blocks@,
        r_prev,
        arm,
        c,
        o,
    ) is Some) <==> p0 is Some || p1 is Some);
}

} // verus!
