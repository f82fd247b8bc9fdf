//! The allocation of a whole selected authorization region: all shape checks,
//! the metadata draft, the six column families in their cheapest order, and
//! the statement pins.
use crate::circuit::{group_agree, FieldR1csBuilder};
use crate::columns::{
    alloc_selected_columns, pin_stage2_cells, pin_views, pins_bounded, pins_hold, CellPin,
    WitnessSlice,
};
use crate::field::{is_bit, F128};
use crate::meta_draft::{
    build_auth_pcs_meta_region_draft, family_list, AuthPcsMetaRegionDraft, MerkleRegionFamily,
    MetaInputs, MetaIvs,
};
use crate::meta_pins::{leaves_pins, spines_pins, DigestPair};
use crate::meta_region::{
    lemma_family_slots, lemma_meta_a_parts, meta_a_cell, meta_b_cell, GhostState, MetaGeometry,
    MetaSources, MID_PATH_DEPTH, SOURCE_PATH_DEPTH,
};
use crate::pin_bounds::{
    instance_below, leaf_below, lemma_leaves_bounded, lemma_path_inside, lemma_paths_bounded,
    lemma_pins_exist, lemma_spines_bounded, lemma_statement_bounded, views_bounded,
};
use crate::region_layout::{
    align_up, cursor_after, is_order, lemma_align, lemma_cursor_mono, lemma_order_onto,
    SelectedZkBlockGeometry, SelectedZkRegionAllocationLedger, SelectedZkRegionFamily,
    SELECTED_ZK_REGION_CORE_QUERY_COUNT,
};
use crate::selected_region::{
    all_cells_bits, authorization_fits, exact_state_fits, local_cells_at, nine_columns,
    paired_exact_state_cells, preflight_selected_zk_authorization_draft,
    preflight_selected_zk_meta_inputs, root_slots_fit, tx_root_fits, update_base, upper_cells_at,
    ExactStatePairedShape, PairedExactStateCells, RootSlots,
    SelectedZkAuthPcsRegionAllocationError, SelectedZkAuthorizationRegionDraft,
};
use crate::trace::refines;
use crate::tx_root::{
    append_meta_b_statement_pins, leg_closed, leg_path, paths_pins, statement_leg_pins,
    statement_pins, tx_path_slot, LegStatement,
};
use crate::walk_planes::WalkColumns;
use crate::circuit::Shape;
use crate::columns::{cells_step, columns_step, free_step};
use crate::region_layout::lex_less;
use vstd::arithmetic::power2::{lemma_pow2_pos, pow2};
use vstd::prelude::*;

verus! {

/// The column of a family that holds bits, if any.
pub open spec fn boolean_column(family: SelectedZkRegionFamily) -> Option<int> {
    match family {
        SelectedZkRegionFamily::WalletB => Some(8),
        SelectedZkRegionFamily::MetaB => Some(8),
        _ => None,
    }
}

/// The columns of a family have its shape.
#[verifier::opaque]
pub open spec fn family_columns(
    columns: Seq<Vec<F128>>,
    family: SelectedZkRegionFamily,
    geometry: SelectedZkBlockGeometry,
) -> bool {
    &&& columns.len() == family.shape(geometry).1
    &&& forall|c: int|
        0 <= c < columns.len() ==> (#[trigger] columns[c])@.len() == pow2(
            family.shape(geometry).0 as nat,
        )
    &&& (boolean_column(family) matches Some(c) ==> 0 <= c < columns.len() && all_cells_bits(
        columns[c]@,
    ))
}

/// The columns of a family are on slices from `start` on, one after the other.
#[verifier::opaque]
pub open spec fn family_placed(
    b: FieldR1csBuilder,
    slices: Seq<WitnessSlice>,
    columns: Seq<Vec<F128>>,
    start: nat,
    w_log: usize,
) -> bool {
    &&& slices.len() == columns.len()
    &&& forall|c: int|
        0 <= c < columns.len() ==> (#[trigger] slices[c]).log2_len == w_log && slices[c].first()
            == start + c * pow2(w_log as nat)
    &&& forall|c: int, i: int|
        0 <= c < columns.len() && 0 <= i < pow2(w_log as nat) ==> #[trigger] b.witness()(
            slices[c].first() + i,
        ) == columns[c]@[i]@
}

/// Every cell of the family's bit column is a bit.
#[verifier::opaque]
pub open spec fn family_bits(
    slices: Seq<WitnessSlice>,
    family: SelectedZkRegionFamily,
    z: spec_fn(int) -> u128,
) -> bool {
    boolean_column(family) matches Some(c) ==> forall|i: int|
        0 <= i < slices[c].size() ==> is_bit(#[trigger] z(slices[c].first() + i))
}

/// What a family's columns carry stays when the builder grows.
proof fn lemma_placed_kept(
    after: FieldR1csBuilder,
    before: FieldR1csBuilder,
    slices: Seq<WitnessSlice>,
    columns: Seq<Vec<F128>>,
    start: nat,
    w_log: usize,
)
    requires
        before.wf(),
        after.extends(&before),
        family_placed(before, slices, columns, start, w_log),
        start + columns.len() * pow2(w_log as nat) <= before.wires(),
    ensures
        family_placed(after, slices, columns, start, w_log),
{
    broadcast use group_agree;

    reveal(family_placed);
    assert forall|c: int, i: int|
        0 <= c < columns.len() && 0 <= i < pow2(w_log as nat) implies #[trigger] after.witness()(
        slices[c].first() + i,
    ) == columns[c]@[i]@ by {
        assert(slices[c].first() == start + c * pow2(w_log as nat));
        assert(c * pow2(w_log as nat) + i < columns.len() * pow2(w_log as nat)) by (nonlinear_arith)
            requires
                c < columns.len(),
                0 <= i < pow2(w_log as nat),
        ;
        assert(before.witness()(slices[c].first() + i) == columns[c]@[i]@);
        assert(after.witness()(slices[c].first() + i) == before.witness()(slices[c].first() + i));
    }
}

/// The wires of one family.
#[verifier::opaque]
pub open spec fn family_step(
    s: Shape,
    family: SelectedZkRegionFamily,
    geometry: SelectedZkBlockGeometry,
) -> Shape {
    let (w_log, count) = family.shape(geometry);
    let boolean = if family == SelectedZkRegionFamily::WalletB || family
        == SelectedZkRegionFamily::MetaB {
        Some(8usize)
    } else {
        None
    };
    columns_step(s, pow2(w_log as nat), boolean, count as nat)
}

/// The wires of the first `n` families of an order.
#[verifier::opaque]
pub open spec fn families_step(
    s: Shape,
    order: Seq<SelectedZkRegionFamily>,
    geometry: SelectedZkBlockGeometry,
    n: nat,
) -> Shape
    decreases n,
{
    if n == 0 {
        s
    } else {
        family_step(families_step(s, order, geometry, (n - 1) as nat), order[n - 1], geometry)
    }
}

/// The rows of a region: its statement wires, its columns and its pins.
#[verifier::opaque]
pub open spec fn region_step(
    s: Shape,
    instances: nat,
    geometry: SelectedZkBlockGeometry,
    r: SelectedZkAuthPcsRegionAllocation,
) -> Shape {
    let s1 = free_step(s, (2 * instances) as nat);
    let s2 = families_step(s1, r.ledger.order@, geometry, 6);
    let s3 = cells_step(s2, r.slices@[4]@, r.pins_meta@, r.pins_meta@.len());
    cells_step(s3, r.slices@[5]@, r.pins_meta_b@, r.pins_meta_b@.len())
}

/// Allocates one family at the next multiple of its column size.
fn allocate_family(
    b: &mut FieldR1csBuilder,
    columns: &Vec<Vec<F128>>,
    family: SelectedZkRegionFamily,
    geometry: SelectedZkBlockGeometry,
) -> (slices: Vec<WitnessSlice>)
    requires
        old(b).wf(),
        family_columns(columns@, family, geometry),
        pow2(family.shape(geometry).0 as nat) <= usize::MAX,
    ensures
        final(b).extends(old(b)),
        final(b).wires() == align_up(old(b).wires(), pow2(family.shape(geometry).0 as nat))
            + family.shape(geometry).1 as nat * pow2(family.shape(geometry).0 as nat),
        final(b).honest() <==> old(b).honest(),
        columns@.len() == family.shape(geometry).1,
        family_placed(
            *final(b),
            slices@,
            columns@,
            align_up(old(b).wires(), pow2(family.shape(geometry).0 as nat)),
            family.shape(geometry).0,
        ),
        forall|z: spec_fn(int) -> u128| #[trigger]
            final(b).holds(z) <==> old(b).holds(z) && family_bits(slices@, family, z),
        final(b).shape() == family_step(old(b).shape(), family, geometry),
{
    reveal(family_step);
    proof {
        reveal(family_columns);
        reveal(family_placed);
        reveal(family_bits);
    }
    let (w_log, count) = family.dimensions(geometry);
    let boolean: Option<usize> = match family {
        SelectedZkRegionFamily::WalletB => Some(8),
        SelectedZkRegionFamily::MetaB => Some(8),
        _ => None,
    };
    let ghost before = *b;
    let slices = alloc_selected_columns(b, columns, w_log, boolean);
    proof {
        assert forall|z: spec_fn(int) -> u128| #[trigger]
            b.holds(z) <==> before.holds(z) && family_bits(slices@, family, z) by {
            assert(boolean matches Some(c) ==> slices@[c as int].size() == pow2(w_log as nat));
        }
    }
    slices
}

/// The columns of the first `n` families of a ledger are placed.
#[verifier::opaque]
spec fn placed_upto(
    b: FieldR1csBuilder,
    slices: Seq<Vec<WitnessSlice>>,
    families: Seq<Vec<Vec<F128>>>,
    ledger: &SelectedZkRegionAllocationLedger,
    geometry: SelectedZkBlockGeometry,
    n: nat,
) -> bool {
    forall|m: int|
        0 <= m < n ==> one_placed(
            b,
            slices,
            families,
            ledger,
            geometry,
            #[trigger] ledger.order@[m],
        )
}

/// The columns of one family of a ledger are placed.
#[verifier::opaque]
spec fn one_placed(
    b: FieldR1csBuilder,
    slices: Seq<Vec<WitnessSlice>>,
    families: Seq<Vec<Vec<F128>>>,
    ledger: &SelectedZkRegionAllocationLedger,
    geometry: SelectedZkBlockGeometry,
    f: SelectedZkRegionFamily,
) -> bool {
    &&& family_placed(
        b,
        slices[f.rank()]@,
        families[f.rank()]@,
        ledger.start_of(f),
        f.shape(geometry).0,
    )
    &&& families[f.rank()]@.len() == f.shape(geometry).1
    &&& ledger.start_of(f) + f.shape(geometry).1 as nat * pow2(f.shape(geometry).0 as nat)
        <= b.wires()
}

/// The bit columns of the first `n` families hold bits.
#[verifier::opaque]
spec fn bits_upto(
    slices: Seq<Vec<WitnessSlice>>,
    order: Seq<SelectedZkRegionFamily>,
    n: nat,
    z: spec_fn(int) -> u128,
) -> bool {
    forall|m: int|
        0 <= m < n ==> family_bits(slices[(#[trigger] order[m]).rank()]@, order[m], z)
}

proof fn lemma_placed_step(
    b: FieldR1csBuilder,
    mid: FieldR1csBuilder,
    slices: Seq<Vec<WitnessSlice>>,
    slices0: Seq<Vec<WitnessSlice>>,
    families: Seq<Vec<Vec<F128>>>,
    ledger: &SelectedZkRegionAllocationLedger,
    geometry: SelectedZkBlockGeometry,
    n: nat,
)
    requires
        n < 6,
        mid.wf(),
        b.extends(&mid),
        placed_upto(mid, slices0, families, ledger, geometry, n),
        forall|m: int|
            0 <= m < n ==> slices[(#[trigger] ledger.order@[m]).rank()]
                == slices0[ledger.order@[m].rank()],
        one_placed(b, slices, families, ledger, geometry, ledger.order@[n as int]),
    ensures
        placed_upto(b, slices, families, ledger, geometry, n + 1),
{
    reveal(placed_upto);
    assert forall|m: int| 0 <= m < n + 1 implies one_placed(
        b,
        slices,
        families,
        ledger,
        geometry,
        #[trigger] ledger.order@[m],
    ) by {
        if m < n {
            reveal(one_placed);
            let f = ledger.order@[m];
            assert(one_placed(mid, slices0, families, ledger, geometry, f));
            lemma_placed_kept(
                b,
                mid,
                slices[f.rank()]@,
                families[f.rank()]@,
                ledger.start_of(f),
                f.shape(geometry).0,
            );
        }
    }
}

proof fn lemma_bits_step(
    slices: Seq<Vec<WitnessSlice>>,
    slices0: Seq<Vec<WitnessSlice>>,
    order: Seq<SelectedZkRegionFamily>,
    n: nat,
    z: spec_fn(int) -> u128,
)
    requires
        forall|m: int|
            0 <= m < n ==> slices[(#[trigger] order[m]).rank()] == slices0[order[m].rank()],
    ensures
        bits_upto(slices, order, n + 1, z) <==> bits_upto(slices0, order, n, z) && family_bits(
            slices[order[n as int].rank()]@,
            order[n as int],
            z,
        ),
{
    reveal(bits_upto);
    if bits_upto(slices, order, n + 1, z) {
        assert forall|m: int| 0 <= m < n implies family_bits(
            slices0[(#[trigger] order[m]).rank()]@,
            order[m],
            z,
        ) by {
            assert(slices[order[m].rank()] == slices0[order[m].rank()]);
        }
        assert(family_bits(slices[order[n as int].rank()]@, order[n as int], z));
    }
    if bits_upto(slices0, order, n, z) && family_bits(
        slices[order[n as int].rank()]@,
        order[n as int],
        z,
    ) {
        assert forall|m: int| 0 <= m < n + 1 implies family_bits(
            slices[(#[trigger] order[m]).rank()]@,
            order[m],
            z,
        ) by {
            if m < n {
                assert(slices[order[m].rank()] == slices0[order[m].rank()]);
            }
        }
    }
}

/// The slices of earlier families stay when a later family is filed.
proof fn lemma_filed(
    slices0: Seq<Vec<WitnessSlice>>,
    fresh: Vec<WitnessSlice>,
    order: Seq<SelectedZkRegionFamily>,
    n: int,
)
    requires
        is_order(order),
        slices0.len() == 6,
        0 <= n < 6,
    ensures
        forall|m: int|
            0 <= m < n ==> slices0.update(order[n].rank(), fresh)[(#[trigger] order[m]).rank()]
                == slices0[order[m].rank()],
        slices0.update(order[n].rank(), fresh)[order[n].rank()] == fresh,
{
    assert forall|m: int| 0 <= m < n implies slices0.update(order[n].rank(), fresh)[(
    #[trigger] order[m]).rank()] == slices0[order[m].rank()] by {
        assert(order[m].rank() != order[n].rank());
    }
}

/// Allocates the six families in the order of a ledger. Columns and slices are
/// listed by family rank.
pub fn allocate_families(
    b: &mut FieldR1csBuilder,
    families: &Vec<Vec<Vec<F128>>>,
    ledger: &SelectedZkRegionAllocationLedger,
    geometry: SelectedZkBlockGeometry,
) -> (slices: Vec<Vec<WitnessSlice>>)
    requires
        old(b).wf(),
        old(b).wires() == ledger.before,
        ledger.allocates(geometry),
        families@.len() == 6,
        forall|f: SelectedZkRegionFamily|
            family_columns(families@[#[trigger] f.rank()]@, f, geometry),
    ensures
        final(b).extends(old(b)),
        final(b).wires() == ledger.after,
        final(b).honest() <==> old(b).honest(),
        slices@.len() == 6,
        forall|f: SelectedZkRegionFamily|
            family_placed(
                *final(b),
                slices@[#[trigger] f.rank()]@,
                families@[f.rank()]@,
                ledger.start_of(f),
                f.shape(geometry).0,
            ),
        forall|z: spec_fn(int) -> u128| #[trigger]
            final(b).holds(z) <==> old(b).holds(z) && forall|f: SelectedZkRegionFamily|
                family_bits(slices@[#[trigger] f.rank()]@, f, z),
        final(b).shape() == families_step(old(b).shape(), ledger.order@, geometry, 6),
{
    reveal(families_step);
    let ghost before = *b;
    let mut slices: Vec<Vec<WitnessSlice>> = Vec::new();
    let mut k: usize = 0;
    while k < 6
        invariant
            k <= 6,
            slices@.len() == k,
            *b == before,
        decreases 6 - k,
    {
        slices.push(Vec::new());
        k = k + 1;
    }
    let mut n: usize = 0;
    proof {
        reveal(placed_upto);
        reveal(bits_upto);
    }
    while n < 6
        invariant
            n <= 6,
            before.wf(),
            b.extends(&before),
            ledger.allocates(geometry),
            families@.len() == 6,
            forall|f: SelectedZkRegionFamily|
                family_columns(families@[#[trigger] f.rank()]@, f, geometry),
            slices@.len() == 6,
            b.wires() == cursor_after(ledger.order@, geometry, ledger.before as nat, n as nat),
            b.honest() <==> before.honest(),
            placed_upto(*b, slices@, families@, ledger, geometry, n as nat),
            forall|z: spec_fn(int) -> u128| #[trigger]
                b.holds(z) <==> before.holds(z) && bits_upto(
                    slices@,
                    ledger.order@,
                    n as nat,
                    z,
                ),
            b.shape() == families_step(before.shape(), ledger.order@, geometry, n as nat),
        decreases 6 - n,
    {
        reveal(families_step);
        let ghost mid = *b;
        let ghost slices0 = slices@;
        let family = ledger.order[n];
        let rank = family.index();
        proof {
            lemma_family_fits(ledger, geometry, n as nat);
        }
        let fresh = allocate_family(b, &families[rank], family, geometry);
        slices.set(rank, fresh);
        proof {
            lemma_filed(slices0, fresh, ledger.order@, n as int);
            assert(slices@ == slices0.update(family.rank(), fresh));
            assert(one_placed(*b, slices@, families@, ledger, geometry, family)) by {
                reveal(one_placed);
            }
            lemma_placed_step(
                *b,
                mid,
                slices@,
                slices0,
                families@,
                ledger,
                geometry,
                n as nat,
            );
            assert forall|z: spec_fn(int) -> u128| #[trigger]
                b.holds(z) <==> before.holds(z) && bits_upto(
                    slices@,
                    ledger.order@,
                    (n + 1) as nat,
                    z,
                ) by {
                lemma_bits_step(slices@, slices0, ledger.order@, n as nat, z);
                assert(mid.holds(z) <==> before.holds(z) && bits_upto(
                    slices0,
                    ledger.order@,
                    n as nat,
                    z,
                ));
            }
        }
        n = n + 1;
    }
    proof {
        let order = ledger.order@;
        assert forall|f: SelectedZkRegionFamily| family_placed(
            *b,
            slices@[#[trigger] f.rank()]@,
            families@[f.rank()]@,
            ledger.start_of(f),
            f.shape(geometry).0,
        ) by {
            reveal(placed_upto);
            reveal(one_placed);
            let m = lemma_order_onto(order, f);
            assert(order[m] == f);
        }
        assert forall|z: spec_fn(int) -> u128| #[trigger]
            b.holds(z) <==> before.holds(z) && forall|f: SelectedZkRegionFamily|
                family_bits(slices@[#[trigger] f.rank()]@, f, z) by {
            reveal(bits_upto);
            if bits_upto(slices@, order, 6, z) {
                assert forall|f: SelectedZkRegionFamily| family_bits(
                    slices@[#[trigger] f.rank()]@,
                    f,
                    z,
                ) by {
                    let m = lemma_order_onto(order, f);
                    assert(order[m] == f);
                }
            }
        }
    }
    slices
}

/// A family of an allocated order fits the machine.
proof fn lemma_family_fits(
    ledger: &SelectedZkRegionAllocationLedger,
    geometry: SelectedZkBlockGeometry,
    n: nat,
)
    requires
        ledger.allocates(geometry),
        n < 6,
    ensures
        ({
            let family = ledger.order@[n as int];
            let size = pow2(family.shape(geometry).0 as nat);
            &&& size <= usize::MAX
            &&& cursor_after(ledger.order@, geometry, ledger.before as nat, n + 1) == align_up(
                cursor_after(ledger.order@, geometry, ledger.before as nat, n),
                size,
            ) + family.shape(geometry).1 as nat * size
            &&& ledger.start_of(family) == align_up(
                cursor_after(ledger.order@, geometry, ledger.before as nat, n),
                size,
            )
        }),
{
    let order = ledger.order@;
    let family = order[n as int];
    let size = pow2(family.shape(geometry).0 as nat);
    let count = family.shape(geometry).1;
    lemma_pow2_pos(family.shape(geometry).0 as nat);
    lemma_cursor_mono(order, geometry, ledger.before as nat, n + 1, 6);
    lemma_align(cursor_after(order, geometry, ledger.before as nat, n), size);
    assert(count >= 6) by {
        reveal(SelectedZkRegionFamily::shape);
    }
    assert(count as nat * size >= size) by (nonlinear_arith)
        requires
            count >= 6,
            size >= 0,
    ;
}

/// The committed columns of a region by family rank, and the endpoint columns
/// of the same walks.
pub struct RegionColumns {
    pub committed: Vec<Vec<Vec<F128>>>,
    pub endpoints: Vec<Vec<Vec<F128>>>,
}

/// The columns of the authorization and the metadata halves, by family rank.
pub open spec fn columns_by_rank(
    r: RegionColumns,
    authorization: SelectedZkAuthorizationRegionDraft,
    meta: WalkColumns,
    meta_b: WalkColumns,
) -> bool {
    &&& r.committed@.len() == 6
    &&& r.endpoints@.len() == 6
    &&& r.committed@[0]@ == authorization.main.columns.tracks@.subrange(0, 6)
    &&& r.endpoints@[0]@ == authorization.main.columns.tracks@.subrange(6, 14)
    &&& r.committed@[1]@ == authorization.owner.columns.tracks@.subrange(0, 6)
    &&& r.endpoints@[1]@ == authorization.owner.columns.tracks@.subrange(6, 14)
    &&& r.committed@[2]@ == authorization.wallet_b.committed@
    &&& r.endpoints@[2]@ == authorization.wallet_b.s0@ + authorization.wallet_b.s_out@
    &&& r.committed@[3]@ == authorization.wallet_a.committed@
    &&& r.endpoints@[3]@ == authorization.wallet_a.s0@ + authorization.wallet_a.s_out@
    &&& r.committed@[4]@ == meta.tracks@.subrange(0, 8)
    &&& r.endpoints@[4]@ == meta.tracks@.subrange(8, 16)
    &&& r.committed@[5]@ == meta_b.tracks@.subrange(0, 9)
    &&& r.endpoints@[5]@ == meta_b.tracks@.subrange(9, 17)
}

fn joined(first: Vec<Vec<F128>>, second: Vec<Vec<F128>>) -> (r: Vec<Vec<F128>>)
    ensures
        r@ == first@ + second@,
{
    let mut r = first;
    let mut more = second;
    r.append(&mut more);
    r
}

fn region_columns(
    authorization: SelectedZkAuthorizationRegionDraft,
    meta: WalkColumns,
    meta_b: WalkColumns,
) -> (r: RegionColumns)
    requires
        authorization.main.columns.tracks@.len() == 14,
        authorization.owner.columns.tracks@.len() == 14,
        meta.tracks@.len() == 16,
        meta_b.tracks@.len() == 17,
    ensures
        columns_by_rank(r, authorization, meta, meta_b),
{
    let mut main = authorization.main.columns.tracks;
    let main_ends = main.split_off(6);
    let mut owner = authorization.owner.columns.tracks;
    let owner_ends = owner.split_off(6);
    let mut first = meta.tracks;
    let first_ends = first.split_off(8);
    let mut second = meta_b.tracks;
    let second_ends = second.split_off(9);
    let mut committed: Vec<Vec<Vec<F128>>> = Vec::new();
    let mut endpoints: Vec<Vec<Vec<F128>>> = Vec::new();
    committed.push(main);
    endpoints.push(main_ends);
    committed.push(owner);
    endpoints.push(owner_ends);
    committed.push(authorization.wallet_b.committed);
    endpoints.push(joined(authorization.wallet_b.s0, authorization.wallet_b.s_out));
    committed.push(authorization.wallet_a.committed);
    endpoints.push(joined(authorization.wallet_a.s0, authorization.wallet_a.s_out));
    committed.push(first);
    endpoints.push(first_ends);
    committed.push(second);
    endpoints.push(second_ends);
    RegionColumns { committed, endpoints }
}

/// The two families of the wallet path walk: the source and the mid paths of
/// every query, interleaved in strides of sixteen slots.
pub open spec fn wallet_b_list(iv: DigestPair) -> Seq<MerkleRegionFamily> {
    seq![
        MerkleRegionFamily::FeedForwardStrided {
            offset: 0,
            depth: 10,
            n_paths: 64,
            stride: 16,
            iv,
        },
        MerkleRegionFamily::FeedForwardStrided {
            offset: 10,
            depth: 6,
            n_paths: 64,
            stride: 16,
            iv,
        },
    ]
}

/// The descriptors of the wallet path walk.
pub fn wallet_b_families(iv: DigestPair) -> (r: Vec<MerkleRegionFamily>)
    ensures
        r@ == wallet_b_list(iv),
{
    let mut r: Vec<MerkleRegionFamily> = Vec::new();
    r.push(
        MerkleRegionFamily::FeedForwardStrided {
            offset: 0,
            depth: SOURCE_PATH_DEPTH,
            n_paths: SELECTED_ZK_REGION_CORE_QUERY_COUNT,
            stride: SOURCE_PATH_DEPTH + MID_PATH_DEPTH,
            iv,
        },
    );
    r.push(
        MerkleRegionFamily::FeedForwardStrided {
            offset: SOURCE_PATH_DEPTH,
            depth: MID_PATH_DEPTH,
            n_paths: SELECTED_ZK_REGION_CORE_QUERY_COUNT,
            stride: SOURCE_PATH_DEPTH + MID_PATH_DEPTH,
            iv,
        },
    );
    assert(r@ =~= wallet_b_list(iv));
    r
}

/// Everything a region is built from, beside the authorization draft.
pub struct RegionInputs {
    pub geometry: SelectedZkBlockGeometry,
    pub meta: MetaGeometry,
    pub inputs: MetaInputs,
    pub paired: ExactStatePairedShape,
    pub ghosts: GhostState,
    pub sources: MetaSources,
    pub ivs: MetaIvs,
    pub root_slots: Vec<RootSlots>,
}

/// Why the region is refused, if it is: the authorization draft is checked
/// first, then the number of spines, the number of tiles, the exact state and
/// the transaction root.
pub open spec fn refusal(
    authorization: SelectedZkAuthorizationRegionDraft,
    class: Option<SelectedZkBlockGeometry>,
    x: RegionInputs,
) -> Option<SelectedZkAuthPcsRegionAllocationError> {
    if !(class matches Some(g) && authorization_fits(authorization, g)) {
        Some(SelectedZkAuthPcsRegionAllocationError::AuthorizationShape)
    } else if x.inputs.spine.instances@.len() != x.geometry.tier + 1 {
        Some(SelectedZkAuthPcsRegionAllocationError::SpineShape)
    } else if x.geometry.auth_tiles != class->0.auth_tiles {
        Some(SelectedZkAuthPcsRegionAllocationError::AuthorizationShape)
    } else if !exact_state_fits(x.inputs.leaves@.len(), x.paired, x.geometry) {
        Some(SelectedZkAuthPcsRegionAllocationError::ExactStateShape)
    } else if !tx_root_fits(&x.inputs.tx_root->0) {
        Some(SelectedZkAuthPcsRegionAllocationError::TxRootShape)
    } else {
        None
    }
}

/// The metadata geometry is the one that the class certifies.
pub open spec fn class_geometry(g: &MetaGeometry, c: SelectedZkBlockGeometry) -> bool {
    &&& g.wf()
    &&& g.shape.overflow
    &&& g.shape.tiles == c.auth_tiles
    &&& g.shape.touched == c.touched_capacity
    &&& g.shape.segments == c.segment_capacity
    &&& g.shape.has_both()
    &&& g.shape.tx_paths > 0
    &&& g.shape.es_slots() == pow2(c.exact_state_region_log as nat)
    &&& g.shape.spine_cap() == pow2(c.spine_cap_log as nat)
    &&& g.meta_w_log == c.meta_a_w_log
    &&& g.meta_b->0.w_log == c.meta_b_w_log
    &&& g.meta_b->0.block_log == c.meta_b_block_log
    &&& g.local_cap == c.local_updates_per_block
    &&& g.upper_cap == c.upper_updates_per_block
    &&& g.meta_b->0.bases@[0] == c.local_base
    &&& g.meta_b->0.bases@[1] == c.upper_base
    &&& g.tx_cap == c.tx_root_paths_per_block
}

/// The columns and statements that the host prepared for a region that is not
/// refused.
pub open spec fn prepared(
    wires: nat,
    class: SelectedZkBlockGeometry,
    x: RegionInputs,
) -> bool {
    &&& class_geometry(&x.meta, x.geometry)
    &&& x.geometry.owner_w_log == class.owner_w_log
    &&& x.geometry.main_w_log == class.main_w_log
    &&& x.geometry.wallet_a_w_log == class.wallet_a_w_log
    &&& x.geometry.wallet_b_w_log == class.wallet_b_w_log
    &&& x.inputs.fits(&x.meta)
    &&& x.ghosts.wf()
    &&& x.sources.fits_a(x.meta.shape)
    &&& x.sources.fits_b(x.meta.shape)
    &&& root_slots_fit(x.root_slots@)
    &&& forall|slot: int|
        0 <= slot < x.meta.meta_b_slots() ==> is_bit(
            (#[trigger] meta_b_cell(&x.meta, &x.ghosts, &x.sources, 8, slot))@,
        )
    &&& forall|i: int|
        0 <= i < x.inputs.leaves@.len() ==> leaf_below(#[trigger] x.inputs.leaves@[i], wires)
    &&& forall|i: int|
        0 <= i < x.inputs.spine.instances@.len() ==> instance_below(
            #[trigger] x.inputs.spine.instances@[i],
            wires,
        )
    &&& x.inputs.tx_root->0.root_w.below(wires)
    &&& forall|q: int|
        0 <= q < x.inputs.tx_root->0.paths@.len() ==> (
        #[trigger] x.inputs.tx_root->0.paths@[q]).entry_w.below(wires)
    &&& wires + 2 * x.inputs.spine.instances@.len() < usize::MAX
    &&& forall|p: Seq<SelectedZkRegionFamily>| #[trigger]
        is_order(p) ==> cursor_after(
            p,
            x.geometry,
            wires + 2 * x.inputs.spine.instances@.len(),
            6,
        ) < usize::MAX
}

/// A region with wires: its six families by rank, the cells it hands on, the
/// endpoint columns of its walks and the descriptors of its path families. The
/// statement pins are kept as they were laid down.
pub struct SelectedZkAuthPcsRegionAllocation {
    pub ledger: SelectedZkRegionAllocationLedger,
    pub slices: Vec<Vec<WitnessSlice>>,
    pub endpoints: Vec<Vec<Vec<F128>>>,
    pub wallet_b_families: Vec<MerkleRegionFamily>,
    pub meta_b_families: Vec<MerkleRegionFamily>,
    pub pins_meta: Vec<CellPin>,
    pub pins_meta_b: Vec<CellPin>,
    pub leg: LegStatement,
    pub paired: PairedExactStateCells,
}

/// Every column of a region has the length of its family.
proof fn lemma_region_shapes(
    columns: RegionColumns,
    authorization: SelectedZkAuthorizationRegionDraft,
    class: SelectedZkBlockGeometry,
    wires: nat,
    x: RegionInputs,
    draft: AuthPcsMetaRegionDraft,
)
    requires
        authorization_fits(authorization, class),
        prepared(wires, class, x),
        draft.columns_of(&x.meta, &x.ghosts, &x.sources),
        columns_by_rank(columns, authorization, draft.meta, draft.meta_b),
    ensures
        forall|f: SelectedZkRegionFamily|
            family_columns(columns.committed@[#[trigger] f.rank()]@, f, x.geometry),
{
    reveal(family_columns);
    reveal(SelectedZkRegionFamily::shape);
    assert forall|f: SelectedZkRegionFamily| family_columns(
        columns.committed@[#[trigger] f.rank()]@,
        f,
        x.geometry,
    ) by {
        let cols = columns.committed@[f.rank()]@;
        match f {
            SelectedZkRegionFamily::Main => {
                assert forall|c: int| 0 <= c < cols.len() implies (#[trigger] cols[c])@.len()
                    == pow2(x.geometry.main_w_log as nat) by {
                    assert(cols[c] == authorization.main.columns.tracks@[c]);
                }
            },
            SelectedZkRegionFamily::Owner => {
                assert forall|c: int| 0 <= c < cols.len() implies (#[trigger] cols[c])@.len()
                    == pow2(x.geometry.owner_w_log as nat) by {
                    assert(cols[c] == authorization.owner.columns.tracks@[c]);
                }
            },
            SelectedZkRegionFamily::WalletB => {},
            SelectedZkRegionFamily::WalletA => {},
            SelectedZkRegionFamily::MetaA => {
                assert forall|c: int| 0 <= c < cols.len() implies (#[trigger] cols[c])@.len()
                    == pow2(x.geometry.meta_a_w_log as nat) by {
                    assert(cols[c] == draft.meta.tracks@[c]);
                }
            },
            SelectedZkRegionFamily::MetaB => {
                assert forall|c: int| 0 <= c < cols.len() implies (#[trigger] cols[c])@.len()
                    == pow2(x.geometry.meta_b_w_log as nat) by {
                    assert(cols[c] == draft.meta_b.tracks@[c]);
                }
                assert(all_cells_bits(cols[8]@)) by {
                    assert(cols[8] == draft.meta_b.tracks@[8]);
                    assert forall|i: int| 0 <= i < cols[8]@.len() implies is_bit(
                        (#[trigger] cols[8]@[i])@,
                    ) by {
                        assert(draft.meta_b.tracks@[8]@[i] == meta_b_cell(
                            &x.meta,
                            &x.ghosts,
                            &x.sources,
                            8,
                            i,
                        ));
                    }
                }
            },
        }
    }
}

/// The statement of the paths closes: every recomputed root is the committed
/// one.
proof fn lemma_leg_closed(x: RegionInputs, draft: AuthPcsMetaRegionDraft, wires: nat)
    requires
        class_geometry(&x.meta, x.geometry),
        x.inputs.tx_root is Some,
        x.inputs.fits(&x.meta),
        draft.legs_of(&x.meta, &x.inputs),
        x.inputs.tx_root->0.root_w.below(wires),
        forall|q: int|
            0 <= q < x.inputs.tx_root->0.paths@.len() ==> (
            #[trigger] x.inputs.tx_root->0.paths@[q]).entry_w.below(wires),
    ensures
        leg_closed(draft.legs@[0], draft.leg_depths@[0]),
        views_bounded(
            statement_leg_pins(
                draft.legs@[0],
                draft.leg_depths@[0] as int,
                draft.legs@[0].path_slots@.len(),
            ),
            9,
            x.meta.meta_b_slots() as int,
            wires,
        ),
        views_bounded(pin_views(draft.cell_pins_meta_b@), 9, x.meta.meta_b_slots() as int, wires),
{
    let t = x.inputs.tx_root->0;
    let leg = draft.legs@[0];
    let n = x.inputs.tx_roots@.len();
    let g = &x.meta;
    lemma_meta_a_parts(g.shape);
    crate::meta_region::lemma_div_ceil_pos(g.shape.tx_paths as nat, g.shape.tiles as nat);
    assert(g.shape.tx_cap() * g.shape.tiles == g.shape.tiles * g.shape.tx_cap())
        by (nonlinear_arith);
    assert forall|q: int| 0 <= q < n implies #[trigger] leg.path_slots@[q] + 2 * t.depth
        <= g.meta_b_slots() by {
        assert(leg.path_slots@[q] == tx_path_slot(g, q));
        lemma_path_inside(g, q);
    }
    assert forall|q: int| 0 <= q < n implies #[trigger] leg.recomputed_roots@[q]
        == leg.committed_roots@[q] by {
        assert(leg.path_slots@[q] == tx_path_slot(g, q));
        assert(leg_path(g, &t, x.inputs.tx_roots@, leg, q));
        if q < t.paths@.len() {
            assert(x.inputs.tx_roots@[q] == t.root);
        }
    }
    assert(leg.recomputed_roots@ =~= leg.committed_roots@);
    assert forall|q: int| 0 <= q < n implies (#[trigger] leg.entry_wires@[q]).below(wires) by {
        assert(leg.path_slots@[q] == tx_path_slot(g, q));
        crate::circuit::lemma_forms(0, 0, |i: int| 0u128);
        if q < t.paths@.len() {
            assert(t.paths@[q].entry_w.below(wires));
        }
    }
    assert forall|q: int| 0 <= q < n implies (#[trigger] leg.root_wires@[q]).below(wires) by {
        assert(leg.path_slots@[q] == tx_path_slot(g, q));
        crate::circuit::lemma_forms(x.inputs.tx_roots@[q].a@, 0, |i: int| 0u128);
        crate::circuit::lemma_forms(x.inputs.tx_roots@[q].b@, 0, |i: int| 0u128);
    }
    assert(draft.leg_depths@[0] == t.depth);
    assert(leg.path_slots@.len() == n);
    lemma_statement_bounded(leg, t.depth as int, n, g.meta_b_slots() as int, wires);
    lemma_paths_bounded(g, &t, t.paths@.len(), wires);
}

/// The pins of the first walk are bounded.
proof fn lemma_meta_pins_bounded(x: RegionInputs, root_wire: nat, n: nat)
    requires
        class_geometry(&x.meta, x.geometry),
        x.inputs.fits(&x.meta),
        root_wire + 2 * x.inputs.spine.instances@.len() <= n,
        n < usize::MAX,
        forall|i: int|
            0 <= i < x.inputs.leaves@.len() ==> leaf_below(
                #[trigger] x.inputs.leaves@[i],
                root_wire,
            ),
        forall|i: int|
            0 <= i < x.inputs.spine.instances@.len() ==> instance_below(
                #[trigger] x.inputs.spine.instances@[i],
                root_wire,
            ),
    ensures
        views_bounded(
            leaves_pins(x.inputs.leaves@, x.inputs.leaf_shape, x.inputs.leaves@.len())
                + spines_pins(
                x.inputs.spine.instances@,
                x.inputs.spine_shape,
                x.meta.shape,
                root_wire,
                x.inputs.spine.instances@.len(),
            ),
            8,
            x.meta.meta_slots as int,
            n,
        ),
{
    lemma_meta_a_parts(x.meta.shape);
    assert forall|i: int| 0 <= i < x.inputs.leaves@.len() implies leaf_below(
        #[trigger] x.inputs.leaves@[i],
        n,
    ) by {
        assert(leaf_below(x.inputs.leaves@[i], root_wire));
    }
    assert forall|i: int| 0 <= i < x.inputs.spine.instances@.len() implies instance_below(
        #[trigger] x.inputs.spine.instances@[i],
        n,
    ) && crate::meta_pins::instance_fits(
        x.inputs.spine.instances@[i],
        x.inputs.spine_shape,
    ) by {
        let inst = x.inputs.spine.instances@[i];
        assert(instance_below(inst, root_wire));
        assert forall|k: int| 0 <= k < inst.leaves_w@.len() implies (
        #[trigger] inst.leaves_w@[k]).below(n) by {
            assert(inst.leaves_w@[k].below(root_wire));
        }
        if inst.contract is Some {
            let c = inst.contract->0;
            assert forall|k: int| 0 <= k < c.program_w@.len() implies (
            #[trigger] c.program_w@[k]).below(n) by {
                assert(c.program_w@[k].below(root_wire));
            }
        }
    }
    lemma_leaves_bounded(
        x.inputs.leaves@,
        x.inputs.leaf_shape,
        x.inputs.leaves@.len(),
        x.meta.meta_slots as int,
        n,
    );
    lemma_spines_bounded(
        x.inputs.spine.instances@,
        x.inputs.spine_shape,
        x.meta.shape,
        root_wire,
        x.inputs.spine.instances@.len(),
        n,
    );
}

/// Every paired update of the class lies inside the second walk.
proof fn lemma_updates_inside(g: &MetaGeometry, o: int)
    requires
        g.wf(),
        g.shape.leaves > 0,
        0 <= o,
    ensures
        o < g.shape.touched ==> update_base(
            &g.meta_b->0,
            g.meta_b->0.bases@[0] as int,
            g.local_cap as int,
            o,
        ) + 64 <= g.meta_b->0.slots,
        o < g.shape.segments ==> update_base(
            &g.meta_b->0,
            g.meta_b->0.bases@[1] as int,
            g.upper_cap as int,
            o,
        ) + 64 <= g.meta_b->0.slots,
        g.local_cap > 0,
        g.upper_cap > 0,
{
    lemma_meta_a_parts(g.shape);
    let k = g.shape.tiles as int;
    crate::meta_region::lemma_div_ceil_pos(g.shape.touched as nat, g.shape.tiles as nat);
    crate::meta_region::lemma_div_ceil_pos(g.shape.segments as nat, g.shape.tiles as nat);
    let sizes = g.shape.family_slots();
    assert(sizes[0] == g.local_cap * 64);
    assert(sizes[1] == g.upper_cap * 64);
    if o < g.shape.touched {
        let cap = g.local_cap as int;
        vstd::arithmetic::div_mod::lemma_fundamental_div_mod(o, cap);
        vstd::arithmetic::div_mod::lemma_mod_bound(o, cap);
        vstd::arithmetic::div_mod::lemma_div_pos_is_pos(o, cap);
        let blk = o / cap;
        assert(blk < k) by (nonlinear_arith)
            requires
                o == cap * blk + o % cap,
                o < cap * k,
                o % cap >= 0,
                cap > 0,
        ;
        lemma_family_slots(g, blk, 0);
    }
    if o < g.shape.segments {
        let cap = g.upper_cap as int;
        vstd::arithmetic::div_mod::lemma_fundamental_div_mod(o, cap);
        vstd::arithmetic::div_mod::lemma_mod_bound(o, cap);
        vstd::arithmetic::div_mod::lemma_div_pos_is_pos(o, cap);
        let blk = o / cap;
        assert(blk < k) by (nonlinear_arith)
            requires
                o == cap * blk + o % cap,
                o < cap * k,
                o % cap >= 0,
                cap > 0,
        ;
        lemma_family_slots(g, blk, 1);
    }
}

/// A family of an allocated ledger ends before the ledger does.
proof fn lemma_family_end(
    ledger: &SelectedZkRegionAllocationLedger,
    geometry: SelectedZkBlockGeometry,
    f: SelectedZkRegionFamily,
)
    requires
        ledger.allocates(geometry),
    ensures
        ledger.start_of(f) + f.shape(geometry).1 as nat * pow2(f.shape(geometry).0 as nat)
            <= ledger.after,
{
    let m = lemma_order_onto(ledger.order@, f);
    lemma_family_fits(ledger, geometry, m as nat);
    lemma_cursor_mono(ledger.order@, geometry, ledger.before as nat, (m + 1) as nat, 6);
}

/// Every slice of a placed family ends before the ledger does.
proof fn lemma_slices_inside(
    b: FieldR1csBuilder,
    slices: Seq<WitnessSlice>,
    columns: Seq<Vec<F128>>,
    start: nat,
    w_log: usize,
    end: nat,
)
    requires
        family_placed(b, slices, columns, start, w_log),
        start + columns.len() * pow2(w_log as nat) <= end,
    ensures
        slices.len() == columns.len(),
        forall|c: int|
            0 <= c < slices.len() ==> (#[trigger] slices[c]).first() + pow2(w_log as nat) <= end
                && slices[c].size() == pow2(w_log as nat),
{
    reveal(family_placed);
    assert forall|c: int| 0 <= c < slices.len() implies (#[trigger] slices[c]).first() + pow2(
        w_log as nat,
    ) <= end && slices[c].size() == pow2(w_log as nat) by {
        assert((c + 1) * pow2(w_log as nat) <= columns.len() * pow2(w_log as nat))
            by (nonlinear_arith)
            requires
                c + 1 <= columns.len(),
        ;
        assert((c + 1) * pow2(w_log as nat) == c * pow2(w_log as nat) + pow2(w_log as nat))
            by (nonlinear_arith);
    }
}

/// The cells of a region: the six families where the ledger puts them, with
/// the columns they were given.
pub open spec fn region_cells(
    b: FieldR1csBuilder,
    r: SelectedZkAuthPcsRegionAllocation,
    authorization: SelectedZkAuthorizationRegionDraft,
    x: RegionInputs,
) -> bool {
    &&& r.slices@.len() == 6
    &&& family_placed(
        b,
        r.slices@[0]@,
        authorization.main.columns.tracks@.subrange(0, 6),
        r.ledger.main as nat,
        x.geometry.main_w_log,
    )
    &&& family_placed(
        b,
        r.slices@[1]@,
        authorization.owner.columns.tracks@.subrange(0, 6),
        r.ledger.owner as nat,
        x.geometry.owner_w_log,
    )
    &&& family_placed(
        b,
        r.slices@[2]@,
        authorization.wallet_b.committed@,
        r.ledger.wallet_b as nat,
        x.geometry.wallet_b_w_log,
    )
    &&& family_placed(
        b,
        r.slices@[3]@,
        authorization.wallet_a.committed@,
        r.ledger.wallet_a as nat,
        x.geometry.wallet_a_w_log,
    )
    &&& r.slices@[4]@.len() == 8
    &&& forall|c: int|
        0 <= c < 8 ==> (#[trigger] r.slices@[4]@[c]).log2_len == x.geometry.meta_a_w_log
            && r.slices@[4]@[c].first() == r.ledger.meta_a + c * pow2(
            x.geometry.meta_a_w_log as nat,
        )
    &&& forall|c: int, i: int|
        0 <= c < 8 && 0 <= i < x.meta.meta_slots ==> #[trigger] b.witness()(
            r.slices@[4]@[c].first() + i,
        ) == meta_a_cell(&x.meta, &x.ghosts, &x.sources, c, i)@
    &&& r.slices@[5]@.len() == 9
    &&& forall|c: int|
        0 <= c < 9 ==> (#[trigger] r.slices@[5]@[c]).log2_len == x.geometry.meta_b_w_log
            && r.slices@[5]@[c].first() == r.ledger.meta_b + c * pow2(
            x.geometry.meta_b_w_log as nat,
        )
    &&& forall|c: int, i: int|
        0 <= c < 9 && 0 <= i < x.meta.meta_b_slots() ==> #[trigger] b.witness()(
            r.slices@[5]@[c].first() + i,
        ) == meta_b_cell(&x.meta, &x.ghosts, &x.sources, c, i)@
}

/// The handoff of a region: the cells of every paired update of the class.
pub open spec fn region_handoff(r: SelectedZkAuthPcsRegionAllocation, x: RegionInputs) -> bool {
    let layout = x.meta.meta_b->0;
    &&& r.paired.local@.len() == x.geometry.touched_capacity
    &&& r.paired.upper@.len() == x.geometry.segment_capacity
    &&& forall|o: int|
        0 <= o < x.geometry.touched_capacity ==> local_cells_at(
            #[trigger] r.paired.local@[o],
            r.slices@[5]@,
            x.root_slots@,
            update_base(
                &layout,
                x.geometry.local_base as int,
                x.geometry.local_updates_per_block as int,
                o,
            ),
        )
    &&& forall|o: int|
        0 <= o < x.geometry.segment_capacity ==> upper_cells_at(
            #[trigger] r.paired.upper@[o],
            r.slices@[5]@,
            x.root_slots@,
            update_base(
                &layout,
                x.geometry.upper_base as int,
                x.geometry.upper_updates_per_block as int,
                o,
            ),
        )
}

/// The statement pins of a region: of the leaves and the spines on the first
/// walk; of the directions, entries and roots of the paths on the second.
pub open spec fn region_pins(
    r: SelectedZkAuthPcsRegionAllocation,
    x: RegionInputs,
    root_wire: nat,
) -> bool {
    &&& pin_views(r.pins_meta@) == leaves_pins(
        x.inputs.leaves@,
        x.inputs.leaf_shape,
        x.inputs.leaves@.len(),
    ) + spines_pins(
        x.inputs.spine.instances@,
        x.inputs.spine_shape,
        x.meta.shape,
        root_wire,
        x.inputs.spine.instances@.len(),
    )
    &&& r.leg.of(x.inputs.tx_roots@.len())
    &&& forall|q: int|
        0 <= q < x.inputs.tx_roots@.len() ==> leg_path(
            &x.meta,
            &x.inputs.tx_root->0,
            x.inputs.tx_roots@,
            r.leg,
            q,
        ) && #[trigger] r.leg.path_slots@[q] == tx_path_slot(&x.meta, q)
    &&& pin_views(r.pins_meta_b@) == paths_pins(
        &x.meta,
        &x.inputs.tx_root->0,
        x.inputs.tx_root->0.paths@.len(),
    ) + statement_leg_pins(
        r.leg,
        x.inputs.tx_root->0.depth as int,
        x.inputs.tx_roots@.len(),
    )
}

/// All statement pins of a region hold.
pub open spec fn region_pinned(
    r: SelectedZkAuthPcsRegionAllocation,
    z: spec_fn(int) -> u128,
) -> bool {
    &&& pins_hold(r.pins_meta@, r.slices@[4]@, z, r.pins_meta@.len())
    &&& pins_hold(r.pins_meta_b@, r.slices@[5]@, z, r.pins_meta_b@.len())
}

/// The endpoint columns of a region, by family rank: the entry lanes of every
/// walk and then its exit lanes.
pub open spec fn region_endpoints(
    endpoints: Seq<Vec<Vec<F128>>>,
    authorization: SelectedZkAuthorizationRegionDraft,
    x: RegionInputs,
) -> bool {
    &&& endpoints.len() == 6
    &&& endpoints[0]@ == authorization.main.columns.tracks@.subrange(6, 14)
    &&& endpoints[1]@ == authorization.owner.columns.tracks@.subrange(6, 14)
    &&& endpoints[2]@ == authorization.wallet_b.s0@ + authorization.wallet_b.s_out@
    &&& endpoints[3]@ == authorization.wallet_a.s0@ + authorization.wallet_a.s_out@
    &&& endpoints[4]@.len() == 8
    &&& endpoints[5]@.len() == 8
    &&& forall|t: int, slot: int|
        0 <= t < 8 && 0 <= slot < x.meta.meta_slots
            ==> #[trigger] endpoints[4]@[t]@[slot] == meta_a_cell(
            &x.meta,
            &x.ghosts,
            &x.sources,
            8 + t,
            slot,
        )
    &&& forall|t: int, slot: int|
        0 <= t < 8 && 0 <= slot < x.meta.meta_b_slots()
            ==> #[trigger] endpoints[5]@[t]@[slot] == meta_b_cell(
            &x.meta,
            &x.ghosts,
            &x.sources,
            9 + t,
            slot,
        )
}

/// The metadata half and its columns, before allocation.
struct Staged {
    columns: RegionColumns,
    families: Vec<MerkleRegionFamily>,
    pins_meta: Vec<CellPin>,
    pins_meta_b: Vec<CellPin>,
    leg: LegStatement,
}

spec fn staged(
    s: Staged,
    authorization: SelectedZkAuthorizationRegionDraft,
    x: RegionInputs,
    root_wire: nat,
) -> bool {
    &&& s.columns.committed@.len() == 6
    &&& s.columns.committed@[0]@ == authorization.main.columns.tracks@.subrange(0, 6)
    &&& s.columns.committed@[1]@ == authorization.owner.columns.tracks@.subrange(0, 6)
    &&& s.columns.committed@[2]@ == authorization.wallet_b.committed@
    &&& s.columns.committed@[3]@ == authorization.wallet_a.committed@
    &&& s.columns.committed@[4]@.len() == 8
    &&& s.columns.committed@[5]@.len() == 9
    &&& forall|f: SelectedZkRegionFamily|
        family_columns(s.columns.committed@[#[trigger] f.rank()]@, f, x.geometry)
    &&& forall|t: int, slot: int|
        0 <= t < 8 && 0 <= slot < x.meta.meta_slots
            ==> #[trigger] s.columns.committed@[4]@[t]@[slot] == meta_a_cell(
            &x.meta,
            &x.ghosts,
            &x.sources,
            t,
            slot,
        )
    &&& forall|t: int, slot: int|
        0 <= t < 9 && 0 <= slot < x.meta.meta_b_slots()
            ==> #[trigger] s.columns.committed@[5]@[t]@[slot] == meta_b_cell(
            &x.meta,
            &x.ghosts,
            &x.sources,
            t,
            slot,
        )
    &&& region_endpoints(s.columns.endpoints@, authorization, x)
    &&& s.families@ == family_list(&x.meta, x.ivs)
    &&& pin_views(s.pins_meta@) == leaves_pins(
        x.inputs.leaves@,
        x.inputs.leaf_shape,
        x.inputs.leaves@.len(),
    ) + spines_pins(
        x.inputs.spine.instances@,
        x.inputs.spine_shape,
        x.meta.shape,
        root_wire,
        x.inputs.spine.instances@.len(),
    )
    &&& s.leg.of(x.inputs.tx_roots@.len())
    &&& forall|q: int|
        0 <= q < x.inputs.tx_roots@.len() ==> leg_path(
            &x.meta,
            &x.inputs.tx_root->0,
            x.inputs.tx_roots@,
            s.leg,
            q,
        ) && #[trigger] s.leg.path_slots@[q] == tx_path_slot(&x.meta, q)
    &&& pin_views(s.pins_meta_b@) == paths_pins(
        &x.meta,
        &x.inputs.tx_root->0,
        x.inputs.tx_root->0.paths@.len(),
    ) + statement_leg_pins(
        s.leg,
        x.inputs.tx_root->0.depth as int,
        x.inputs.tx_roots@.len(),
    )
    &&& views_bounded(
        pin_views(s.pins_meta_b@),
        9,
        x.meta.meta_b_slots() as int,
        root_wire,
    )
}

/// Builds the metadata half and stages all columns and pins of a region.
fn stage_region(
    b: &mut FieldR1csBuilder,
    authorization: SelectedZkAuthorizationRegionDraft,
    Ghost(class): Ghost<SelectedZkBlockGeometry>,
    x: &RegionInputs,
) -> (s: Staged)
    requires
        old(b).wf(),
        authorization_fits(authorization, class),
        x.inputs.tx_root is Some,
        prepared(old(b).wires(), class, *x),
    ensures
        final(b).extends(old(b)),
        final(b).wires() == old(b).wires() + 2 * x.inputs.spine.instances@.len(),
        forall|i: int|
            0 <= i < x.inputs.spine.instances@.len() ==> final(b).witness()(old(b).wires() + 2 * i)
                == (#[trigger] x.inputs.spine.instances@[i]).root.a@ && final(b).witness()(
                old(b).wires() + 2 * i + 1,
            ) == x.inputs.spine.instances@[i].root.b@,
        forall|z: spec_fn(int) -> u128| #[trigger] final(b).holds(z) <==> old(b).holds(z),
        final(b).honest() <==> old(b).honest(),
        staged(s, authorization, *x, old(b).wires()),
        final(b).shape() == free_step(
            old(b).shape(),
            (2 * x.inputs.spine.instances@.len()) as nat,
        ),
{
    let ghost wires = b.wires();
    let draft = build_auth_pcs_meta_region_draft(
        b,
        &x.meta,
        &x.inputs,
        &x.ghosts,
        &x.sources,
        x.ivs,
    );
    proof {
        lemma_leg_closed(*x, draft, wires);
    }
    let mut pins_meta_b = draft.cell_pins_meta_b;
    let mut legs = draft.legs;
    append_meta_b_statement_pins(&mut pins_meta_b, &draft.leg_depths, &legs);
    let ghost leg_spec = legs@[0];
    let ghost depth = draft.leg_depths@[0] as int;
    proof {
        let empty = statement_pins(legs@, draft.leg_depths@, 0);
        assert(statement_pins(legs@, draft.leg_depths@, 1) =~= statement_leg_pins(
            leg_spec,
            depth,
            leg_spec.path_slots@.len(),
        ));
    }
    let ghost columns_draft = draft;
    let columns = region_columns(authorization, draft.meta, draft.meta_b);
    proof {
        lemma_region_shapes(columns, authorization, class, wires, *x, columns_draft);
        assert forall|t: int, slot: int|
            0 <= t < 8 && 0 <= slot < x.meta.meta_slots implies #[trigger] columns.committed@[4]@[t]@[slot]
            == meta_a_cell(&x.meta, &x.ghosts, &x.sources, t, slot) by {
            assert(columns.committed@[4]@[t] == columns_draft.meta.tracks@[t]);
        }
        assert forall|t: int, slot: int|
            0 <= t < 9 && 0 <= slot < x.meta.meta_b_slots() implies #[trigger] columns.committed@[5]@[t]@[slot]
            == meta_b_cell(&x.meta, &x.ghosts, &x.sources, t, slot) by {
            assert(columns.committed@[5]@[t] == columns_draft.meta_b.tracks@[t]);
        }
        assert forall|t: int, slot: int|
            0 <= t < 8 && 0 <= slot < x.meta.meta_slots implies #[trigger] columns.endpoints@[4]@[t]@[slot]
            == meta_a_cell(&x.meta, &x.ghosts, &x.sources, 8 + t, slot) by {
            assert(columns.endpoints@[4]@[t] == columns_draft.meta.tracks@[8 + t]);
        }
        assert forall|t: int, slot: int|
            0 <= t < 8 && 0 <= slot < x.meta.meta_b_slots() implies #[trigger] columns.endpoints@[5]@[t]@[slot]
            == meta_b_cell(&x.meta, &x.ghosts, &x.sources, 9 + t, slot) by {
            assert(columns.endpoints@[5]@[t] == columns_draft.meta_b.tracks@[9 + t]);
        }
    }
    let leg = match legs.pop() {
        Some(leg) => leg,
        None => {
            assert(false);
            LegStatement {
                entry_wires: Vec::new(),
                root_wires: Vec::new(),
                committed_roots: Vec::new(),
                recomputed_roots: Vec::new(),
                path_slots: Vec::new(),
            }
        },
    };
    assert(leg == leg_spec);
    Staged {
        columns,
        families: draft.meta_b_families,
        pins_meta: draft.cell_pins_meta,
        pins_meta_b,
        leg,
    }
}

proof fn lemma_views_mono(
    views: Seq<crate::columns::PinView>,
    columns: int,
    slots: int,
    m: nat,
    n: nat,
)
    requires
        views_bounded(views, columns, slots, m),
        m <= n,
    ensures
        views_bounded(views, columns, slots, n),
{
}

/// Places a staged region: the six families, the handoff and the pins.
fn place_region(
    b: &mut FieldR1csBuilder,
    Ghost(authorization): Ghost<SelectedZkAuthorizationRegionDraft>,
    Ghost(class): Ghost<SelectedZkBlockGeometry>,
    x: &RegionInputs,
    s: Staged,
    Ghost(root_wire): Ghost<nat>,
) -> (r: SelectedZkAuthPcsRegionAllocation)
    requires
        old(b).wf(),
        old(b).wires() == root_wire + 2 * x.inputs.spine.instances@.len(),
        x.inputs.tx_root is Some,
        x.paired.touched_capacity == x.geometry.touched_capacity,
        x.paired.segment_capacity == x.geometry.segment_capacity,
        prepared(root_wire, class, *x),
        staged(s, authorization, *x, root_wire),
    ensures
        refines(*final(b), *old(b)),
        r.ledger.before == old(b).wires(),
        r.ledger.allocates(x.geometry),
        forall|p: Seq<SelectedZkRegionFamily>| #[trigger]
            is_order(p) ==> r.ledger.after <= cursor_after(
                p,
                x.geometry,
                r.ledger.before as nat,
                6,
            ),
        region_cells(*final(b), r, authorization, *x),
        region_handoff(r, *x),
        region_pins(r, *x, root_wire),
        region_endpoints(r.endpoints@, authorization, *x),
        r.wallet_b_families@ == wallet_b_list(x.ivs.capsule),
        r.meta_b_families@ == family_list(&x.meta, x.ivs),
        old(b).gate_list().len() == 0 ==> final(b).wires() == r.ledger.after + r.pins_meta@.len()
            + r.pins_meta_b@.len(),
        forall|z: spec_fn(int) -> u128| #[trigger]
            final(b).holds(z) && old(b).live(z) ==> region_pinned(r, z) && family_bits(
                r.slices@[2]@,
                SelectedZkRegionFamily::WalletB,
                z,
            ) && family_bits(r.slices@[5]@, SelectedZkRegionFamily::MetaB, z),
        old(b).live(old(b).witness()) ==> (final(b).honest() <==> old(b).honest()
            && region_pinned(r, final(b).witness())),
        forall|p: Seq<SelectedZkRegionFamily>| #[trigger]
            is_order(p) && lex_less(p, r.ledger.order@) ==> r.ledger.after < cursor_after(
                p,
                x.geometry,
                r.ledger.before as nat,
                6,
            ),
        final(b).shape() == ({
            let s2 = families_step(old(b).shape(), r.ledger.order@, x.geometry, 6);
            let s3 = cells_step(s2, r.slices@[4]@, r.pins_meta@, r.pins_meta@.len());
            cells_step(s3, r.slices@[5]@, r.pins_meta_b@, r.pins_meta_b@.len())
        }),
{
    broadcast use group_agree;

    let ghost b0 = *b;
    let geometry = x.geometry;
    let ledger = SelectedZkRegionAllocationLedger::new(b.num_wires(), geometry);
    let slices = allocate_families(b, &s.columns.committed, &ledger, geometry);
    let ghost b1 = *b;
    let ghost order0 = ledger.order@;
    proof {
        assert(cursor_after(order0, geometry, ledger.before as nat, 6) < usize::MAX);
        reveal(SelectedZkRegionFamily::shape);
        let fa = SelectedZkRegionFamily::MetaA;
        let fb = SelectedZkRegionFamily::MetaB;
        assert(fa.rank() == 4 && fb.rank() == 5);
        lemma_family_end(&ledger, geometry, fa);
        lemma_family_end(&ledger, geometry, fb);
        lemma_slices_inside(
            b1,
            slices@[4]@,
            s.columns.committed@[4]@,
            ledger.start_of(fa),
            geometry.meta_a_w_log,
            ledger.after as nat,
        );
        lemma_slices_inside(
            b1,
            slices@[5]@,
            s.columns.committed@[5]@,
            ledger.start_of(fb),
            geometry.meta_b_w_log,
            ledger.after as nat,
        );
        assert(nine_columns(slices@[5]@, x.meta.meta_b_slots()));
        assert forall|o: int| 0 <= o < geometry.touched_capacity implies #[trigger] update_base(
            &x.meta.meta_b->0,
            geometry.local_base as int,
            geometry.local_updates_per_block as int,
            o,
        ) + 64 <= x.meta.meta_b->0.slots by {
            lemma_updates_inside(&x.meta, o);
        }
        assert forall|o: int| 0 <= o < geometry.segment_capacity implies #[trigger] update_base(
            &x.meta.meta_b->0,
            geometry.upper_base as int,
            geometry.upper_updates_per_block as int,
            o,
        ) + 64 <= x.meta.meta_b->0.slots by {
            lemma_updates_inside(&x.meta, o);
        }
        lemma_updates_inside(&x.meta, 0);
    }
    let paired = match &x.meta.meta_b {
        Some(layout) => paired_exact_state_cells(
            &slices[5],
            layout,
            geometry.local_base,
            geometry.upper_base,
            geometry.local_updates_per_block,
            geometry.upper_updates_per_block,
            x.paired.touched_capacity,
            x.paired.segment_capacity,
            &x.root_slots,
        ),
        None => {
            assert(x.meta.shape.family_slots()[0] == x.meta.shape.local_cap() * 64);
            assert(false);
            PairedExactStateCells { local: Vec::new(), upper: Vec::new() }
        },
    };
    proof {
        lemma_meta_pins_bounded(*x, root_wire, b1.wires());
        lemma_pins_exist(s.pins_meta@, slices@[4]@, x.meta.meta_slots as int, b1.wires());
    }
    pin_stage2_cells(b, &slices[4], &s.pins_meta);
    let ghost b2 = *b;
    proof {
        lemma_views_mono(
            pin_views(s.pins_meta_b@),
            9,
            x.meta.meta_b_slots() as int,
            root_wire,
            b2.wires(),
        );
        lemma_pins_exist(s.pins_meta_b@, slices@[5]@, x.meta.meta_b_slots() as int, b2.wires());
    }
    pin_stage2_cells(b, &slices[5], &s.pins_meta_b);
    let wallet_b_families = wallet_b_families(x.ivs.capsule);
    let r = SelectedZkAuthPcsRegionAllocation {
        ledger,
        slices,
        endpoints: s.columns.endpoints,
        wallet_b_families,
        meta_b_families: s.families,
        pins_meta: s.pins_meta,
        pins_meta_b: s.pins_meta_b,
        leg: s.leg,
        paired,
    };
    proof {
        lemma_region_cells(*b, b1, r, authorization, *x, s.columns.committed@);
        lemma_region_sound(*b, b2, b1, b0, r);
    }
    r
}

/// What the allocation put into the wires is still there at the end.
proof fn lemma_region_cells(
    b: FieldR1csBuilder,
    b1: FieldR1csBuilder,
    r: SelectedZkAuthPcsRegionAllocation,
    authorization: SelectedZkAuthorizationRegionDraft,
    x: RegionInputs,
    families: Seq<Vec<Vec<F128>>>,
)
    requires
        b1.wf(),
        b.extends(&b1),
        b1.wires() == r.ledger.after,
        r.ledger.allocates(x.geometry),
        r.slices@.len() == 6,
        families.len() == 6,
        x.meta.meta_slots == pow2(x.geometry.meta_a_w_log as nat),
        x.meta.meta_b_slots() == pow2(x.geometry.meta_b_w_log as nat),
        families[0]@ == authorization.main.columns.tracks@.subrange(0, 6),
        families[1]@ == authorization.owner.columns.tracks@.subrange(0, 6),
        families[2]@ == authorization.wallet_b.committed@,
        families[3]@ == authorization.wallet_a.committed@,
        families[4]@.len() == 8,
        families[5]@.len() == 9,
        forall|f: SelectedZkRegionFamily|
            family_columns(families[#[trigger] f.rank()]@, f, x.geometry),
        forall|t: int, slot: int|
            0 <= t < 8 && 0 <= slot < x.meta.meta_slots ==> #[trigger] families[4]@[t]@[slot]
                == meta_a_cell(&x.meta, &x.ghosts, &x.sources, t, slot),
        forall|t: int, slot: int|
            0 <= t < 9 && 0 <= slot < x.meta.meta_b_slots() ==> #[trigger] families[5]@[t]@[slot]
                == meta_b_cell(&x.meta, &x.ghosts, &x.sources, t, slot),
        forall|f: SelectedZkRegionFamily|
            family_placed(
                b1,
                r.slices@[#[trigger] f.rank()]@,
                families[f.rank()]@,
                r.ledger.start_of(f),
                f.shape(x.geometry).0,
            ),
    ensures
        region_cells(b, r, authorization, x),
{
    assert forall|f: SelectedZkRegionFamily| family_placed(
        b,
        r.slices@[#[trigger] f.rank()]@,
        families[f.rank()]@,
        r.ledger.start_of(f),
        f.shape(x.geometry).0,
    ) by {
        lemma_family_end(&r.ledger, x.geometry, f);
        assert(families[f.rank()]@.len() == f.shape(x.geometry).1) by {
            reveal(family_columns);
            assert(family_columns(families[f.rank()]@, f, x.geometry));
        }
        lemma_placed_kept(
            b,
            b1,
            r.slices@[f.rank()]@,
            families[f.rank()]@,
            r.ledger.start_of(f),
            f.shape(x.geometry).0,
        );
    }
    reveal(SelectedZkRegionFamily::shape);
    let f0 = SelectedZkRegionFamily::Main;
    let f1 = SelectedZkRegionFamily::Owner;
    let f2 = SelectedZkRegionFamily::WalletB;
    let f3 = SelectedZkRegionFamily::WalletA;
    let f4 = SelectedZkRegionFamily::MetaA;
    let f5 = SelectedZkRegionFamily::MetaB;
    assert(f0.rank() == 0 && f1.rank() == 1 && f2.rank() == 2 && f3.rank() == 3 && f4.rank() == 4
        && f5.rank() == 5);
    assert(r.slices@[4]@.len() == 8 && r.slices@[5]@.len() == 9) by {
        reveal(family_placed);
    }
    assert forall|c: int| 0 <= c < 8 implies (#[trigger] r.slices@[4]@[c]).log2_len
        == x.geometry.meta_a_w_log && r.slices@[4]@[c].first() == r.ledger.meta_a + c * pow2(
        x.geometry.meta_a_w_log as nat,
    ) by {
        reveal(family_placed);
    }
    assert forall|c: int| 0 <= c < 9 implies (#[trigger] r.slices@[5]@[c]).log2_len
        == x.geometry.meta_b_w_log && r.slices@[5]@[c].first() == r.ledger.meta_b + c * pow2(
        x.geometry.meta_b_w_log as nat,
    ) by {
        reveal(family_placed);
    }
    assert forall|c: int, i: int| 0 <= c < 8 && 0 <= i < x.meta.meta_slots implies #[trigger] b.witness()(
        r.slices@[4]@[c].first() + i,
    ) == meta_a_cell(&x.meta, &x.ghosts, &x.sources, c, i)@ by {
        reveal(family_placed);
        assert(families[4]@[c]@[i] == meta_a_cell(&x.meta, &x.ghosts, &x.sources, c, i));
    }
    assert forall|c: int, i: int| 0 <= c < 9 && 0 <= i < x.meta.meta_b_slots() implies #[trigger] b.witness()(
        r.slices@[5]@[c].first() + i,
    ) == meta_b_cell(&x.meta, &x.ghosts, &x.sources, c, i)@ by {
        reveal(family_placed);
        assert(families[5]@[c]@[i] == meta_b_cell(&x.meta, &x.ghosts, &x.sources, c, i));
    }
}

/// The pins and the bit columns constrain every assignment, and the honest
/// one exactly as far as its cells differ from the statement.
proof fn lemma_region_sound(
    b: FieldR1csBuilder,
    b2: FieldR1csBuilder,
    b1: FieldR1csBuilder,
    b0: FieldR1csBuilder,
    r: SelectedZkAuthPcsRegionAllocation,
)
    requires
        b0.wf(),
        b1.extends(&b0),
        refines(b2, b1),
        refines(b, b2),
        r.slices@.len() == 6,
        pins_bounded(r.pins_meta@, r.slices@[4]@, b1.wires()),
        pins_bounded(r.pins_meta_b@, r.slices@[5]@, b2.wires()),
        b1.honest() <==> b0.honest(),
        forall|z: spec_fn(int) -> u128| #[trigger]
            b1.holds(z) <==> b0.holds(z) && forall|f: SelectedZkRegionFamily|
                family_bits(r.slices@[#[trigger] f.rank()]@, f, z),
        forall|z: spec_fn(int) -> u128| #[trigger]
            b2.holds(z) && b1.live(z) ==> pins_hold(
                r.pins_meta@,
                r.slices@[4]@,
                z,
                r.pins_meta@.len(),
            ),
        b1.live(b1.witness()) ==> (b2.honest() <==> b1.honest() && pins_hold(
            r.pins_meta@,
            r.slices@[4]@,
            b1.witness(),
            r.pins_meta@.len(),
        )),
        forall|z: spec_fn(int) -> u128| #[trigger]
            b.holds(z) && b2.live(z) ==> pins_hold(
                r.pins_meta_b@,
                r.slices@[5]@,
                z,
                r.pins_meta_b@.len(),
            ),
        b2.live(b2.witness()) ==> (b.honest() <==> b2.honest() && pins_hold(
            r.pins_meta_b@,
            r.slices@[5]@,
            b2.witness(),
            r.pins_meta_b@.len(),
        )),
    ensures
        refines(b, b0),
        forall|z: spec_fn(int) -> u128| #[trigger]
            b.holds(z) && b0.live(z) ==> region_pinned(r, z) && family_bits(
                r.slices@[2]@,
                SelectedZkRegionFamily::WalletB,
                z,
            ) && family_bits(r.slices@[5]@, SelectedZkRegionFamily::MetaB, z),
        b0.live(b0.witness()) ==> (b.honest() <==> b0.honest() && region_pinned(r, b.witness())),
{
    broadcast use group_agree;

    assert forall|z: spec_fn(int) -> u128| #[trigger] b.holds(z) && b0.live(z) implies region_pinned(
        r,
        z,
    ) && family_bits(r.slices@[2]@, SelectedZkRegionFamily::WalletB, z) && family_bits(
        r.slices@[5]@,
        SelectedZkRegionFamily::MetaB,
        z,
    ) by {
        assert(b2.holds(z) && b1.holds(z));
        assert(b1.live(z) && b2.live(z));
        assert(SelectedZkRegionFamily::WalletB.rank() == 2);
        assert(SelectedZkRegionFamily::MetaB.rank() == 5);
    }
    if b0.live(b0.witness()) {
        assert(b1.live(b1.witness()));
        assert(b2.live(b2.witness()));
        lemma_pins_agree(
            r.pins_meta@,
            r.slices@[4]@,
            b1.wires(),
            b1.witness(),
            b.witness(),
        );
        lemma_pins_agree(
            r.pins_meta_b@,
            r.slices@[5]@,
            b2.wires(),
            b2.witness(),
            b.witness(),
        );
    }
}

/// Pins on the wires below `n` hold or fail with those wires.
proof fn lemma_pins_agree(
    pins: Seq<CellPin>,
    slices: Seq<WitnessSlice>,
    n: nat,
    z: spec_fn(int) -> u128,
    w: spec_fn(int) -> u128,
)
    requires
        pins_bounded(pins, slices, n),
        crate::circuit::agree(z, w, n) || crate::circuit::agree(w, z, n),
    ensures
        pins_hold(pins, slices, z, pins.len()) <==> pins_hold(pins, slices, w, pins.len()),
{
    broadcast use group_agree;

    assert(crate::circuit::agree(z, w, n));
    assert forall|i: int| 0 <= i < pins.len() implies crate::columns::pin_holds(
        #[trigger] pins[i],
        slices,
        z,
    ) == crate::columns::pin_holds(pins[i], slices, w) by {
        let at = (slices[pins[i].column as int].first() + pins[i].slot) as int;
        assert(pins[i].wire@.at(z) == pins[i].wire@.at(w));
        assert(z(at) == w(at));
    }
    if pins_hold(pins, slices, z, pins.len()) {
        assert forall|i: int| 0 <= i < pins.len() implies crate::columns::pin_holds(
            #[trigger] pins[i],
            slices,
            w,
        ) by {
            assert(crate::columns::pin_holds(pins[i], slices, z));
        }
    }
    if pins_hold(pins, slices, w, pins.len()) {
        assert forall|i: int| 0 <= i < pins.len() implies crate::columns::pin_holds(
            #[trigger] pins[i],
            slices,
            z,
        ) by {
            assert(crate::columns::pin_holds(pins[i], slices, w));
        }
    }
}

/// Checks, allocates and closes one selected authorization region. A refused
/// region leaves the builder as it was.
pub fn allocate_selected_zk_auth_pcs_region(
    b: &mut FieldR1csBuilder,
    authorization: SelectedZkAuthorizationRegionDraft,
    class: Option<SelectedZkBlockGeometry>,
    x: RegionInputs,
) -> (r: Result<SelectedZkAuthPcsRegionAllocation, SelectedZkAuthPcsRegionAllocationError>)
    requires
        old(b).wf(),
        x.inputs.tx_root is Some,
        class matches Some(g) ==> g.tx_log + 5 <= usize::MAX,
        refusal(authorization, class, x) is None ==> prepared(old(b).wires(), class->0, x),
    ensures
        match refusal(authorization, class, x) {
            Some(error) => {
                &&& r == Err::<SelectedZkAuthPcsRegionAllocation, _>(error)
                &&& *final(b) == *old(b)
            },
            None => {
                &&& r is Ok
                &&& refines(*final(b), *old(b))
                &&& r->Ok_0.ledger.before == old(b).wires() + 2 * x.inputs.spine.instances@.len()
                &&& r->Ok_0.ledger.allocates(x.geometry)
                &&& forall|p: Seq<SelectedZkRegionFamily>| #[trigger]
                    is_order(p) ==> r->Ok_0.ledger.after <= cursor_after(
                        p,
                        x.geometry,
                        r->Ok_0.ledger.before as nat,
                        6,
                    )
                &&& forall|p: Seq<SelectedZkRegionFamily>| #[trigger]
                    is_order(p) && lex_less(p, r->Ok_0.ledger.order@) ==> r->Ok_0.ledger.after
                        < cursor_after(p, x.geometry, r->Ok_0.ledger.before as nat, 6)
                &&& final(b).shape() == region_step(
                    old(b).shape(),
                    x.inputs.spine.instances@.len(),
                    x.geometry,
                    r->Ok_0,
                )
                &&& region_cells(*final(b), r->Ok_0, authorization, x)
                &&& region_handoff(r->Ok_0, x)
                &&& region_pins(r->Ok_0, x, old(b).wires())
                &&& region_endpoints(r->Ok_0.endpoints@, authorization, x)
                &&& r->Ok_0.wallet_b_families@ == wallet_b_list(x.ivs.capsule)
                &&& r->Ok_0.meta_b_families@ == family_list(&x.meta, x.ivs)
                &&& (old(b).gate_list().len() == 0 ==> final(b).wires() == r->Ok_0.ledger.after
                    + r->Ok_0.pins_meta@.len() + r->Ok_0.pins_meta_b@.len())
                &&& forall|z: spec_fn(int) -> u128| #[trigger]
                    final(b).holds(z) && old(b).live(z) ==> region_pinned(r->Ok_0, z)
                        && family_bits(
                        r->Ok_0.slices@[2]@,
                        SelectedZkRegionFamily::WalletB,
                        z,
                    ) && family_bits(r->Ok_0.slices@[5]@, SelectedZkRegionFamily::MetaB, z)
                &&& (old(b).live(old(b).witness()) ==> (final(b).honest() <==> old(b).honest()
                    && region_pinned(r->Ok_0, final(b).witness())))
            },
        },
{
    reveal(region_step);
    broadcast use group_agree;

    let geometry = match preflight_selected_zk_authorization_draft(&authorization, class) {
        Ok(g) => g,
        Err(error) => {
            return Err(error);
        },
    };
    let instances = x.inputs.spine.instances.len();
    if x.geometry.tier == usize::MAX || instances != x.geometry.tier + 1 {
        return Err(SelectedZkAuthPcsRegionAllocationError::SpineShape);
    }
    if x.geometry.auth_tiles != geometry.auth_tiles {
        return Err(SelectedZkAuthPcsRegionAllocationError::AuthorizationShape);
    }
    match &x.inputs.tx_root {
        Some(t) => {
            match preflight_selected_zk_meta_inputs(
                x.inputs.leaves.len(),
                x.paired,
                t,
                instances,
                x.geometry,
            ) {
                Ok(()) => {},
                Err(error) => {
                    return Err(error);
                },
            }
        },
        None => {},
    }
    let ghost b0 = *b;
    let ghost authorization0 = authorization;
    let staged_region = stage_region(b, authorization, Ghost(geometry), &x);
    let ghost b1 = *b;
    let r = place_region(
        b,
        Ghost(authorization0),
        Ghost(geometry),
        &x,
        staged_region,
        Ghost(b0.wires()),
    );
    proof {
        assert forall|z: spec_fn(int) -> u128| #[trigger] b.holds(z) && b0.live(z) implies region_pinned(
            r,
            z,
        ) && family_bits(r.slices@[2]@, SelectedZkRegionFamily::WalletB, z) && family_bits(
            r.slices@[5]@,
            SelectedZkRegionFamily::MetaB,
            z,
        ) by {
            assert(b1.live(z));
        }
        if b0.live(b0.witness()) {
            assert(b1.live(b1.witness()));
        }
    }
    Ok(r)
}

} // verus!
