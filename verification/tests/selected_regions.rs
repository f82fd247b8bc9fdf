//! One selected authorization region, from its drafts to its wires.
use noid_recursive::circuit::{FieldR1csBuilder, LinExpr};
use noid_recursive::duplex::DuplexLayout;
use noid_recursive::duplex_union::{duplex_family_refs, DuplexUnion};
use noid_recursive::field::F128;
use noid_recursive::meta_draft::{MetaInputs, MetaIvs, SpineRegionData};
use noid_recursive::meta_pins::{
    DigestPair, ExactStateLeaf, LeafShape, SpineInstanceRegion, SpineShape, WirePair,
};
use noid_recursive::meta_region::{meta_geometry, GhostState, MetaShape, MetaSources};
use noid_recursive::region_layout::SelectedZkBlockGeometry;
use noid_recursive::selected_allocation::{
    allocate_selected_zk_auth_pcs_region, wallet_b_families, RegionInputs,
};
use noid_recursive::selected_region::{
    ExactStatePairedShape, RawWalk, RootSlots, SelectedZkAuthPcsRegionAllocationError,
    SelectedZkAuthorizationRegionDraft,
};
use noid_recursive::tx_root::{TxRootPathRegion, TxRootRegionData};
use noid_recursive::walk_planes::WalkColumns;

fn f(lo: u64) -> F128 {
    F128::new(lo, 0)
}

fn digest(seed: u64) -> DigestPair {
    DigestPair { a: f(seed), b: f(seed + 1) }
}

fn constant_pair(d: DigestPair) -> WirePair {
    WirePair { a: LinExpr::constant(d.a), b: LinExpr::constant(d.b) }
}

fn column(len: usize, salt: u64) -> Vec<F128> {
    (0..len).map(|s| F128::new(salt, s as u64)).collect()
}

/// Columns with bits in one of them.
fn columns(n: usize, len: usize, salt: u64, empty: usize, bits: Option<usize>) -> Vec<Vec<F128>> {
    (0..n)
        .map(|t| {
            if t < empty {
                Vec::new()
            } else if Some(t) == bits {
                (0..len).map(|s| F128::from_bool(s % 3 == 1)).collect()
            } else {
                column(len, salt + t as u64)
            }
        })
        .collect()
}

fn duplex(w_log: usize, salt: u64) -> DuplexUnion {
    DuplexUnion {
        columns: WalkColumns { tracks: columns(14, 1 << w_log, salt, 0, None) },
        fixed: vec![],
        refs: duplex_family_refs(0, 0),
        layout: DuplexLayout { slots: vec![], challenges: vec![], n_data: 0 },
        w_log,
        block_log: w_log,
        challenges: vec![vec![]],
        rec_blocks: vec![],
        rec_refs: vec![],
        rec_challenges: vec![],
    }
}

fn raw(n: usize, w_log: usize, salt: u64, bits: Option<usize>) -> RawWalk {
    RawWalk {
        committed: columns(n, 1 << w_log, salt, 0, bits),
        s0: columns(4, 1 << w_log, salt + 50, 0, None),
        s_out: columns(4, 1 << w_log, salt + 60, 0, None),
    }
}

fn class() -> SelectedZkBlockGeometry {
    let g = meta_geometry(shape());
    let layout = g.meta_b.clone().unwrap();
    SelectedZkBlockGeometry {
        tier: 0,
        auth_tiles: 1,
        tx_log: 0,
        wallet_a_w_log: 6,
        wallet_b_w_log: 5,
        meta_a_w_log: g.meta_w_log,
        meta_b_w_log: layout.w_log,
        meta_b_block_log: layout.block_log,
        owner_w_log: 7,
        main_w_log: 8,
        exact_state_region_log: 2,
        spine_cap_log: 0,
        touched_capacity: 1,
        segment_capacity: 1,
        local_updates_per_block: 1,
        upper_updates_per_block: 1,
        local_base: layout.bases[0],
        upper_base: layout.bases[1],
        tx_root_paths_per_block: 256,
    }
}

fn shape() -> MetaShape {
    MetaShape {
        tiles: 1,
        leaves: 2,
        touched: 1,
        segments: 1,
        instances: 1,
        wrap_slots: 1,
        tx_depth: 8,
        tx_paths: 256,
        overflow: true,
    }
}

fn authorization() -> SelectedZkAuthorizationRegionDraft {
    SelectedZkAuthorizationRegionDraft {
        owner: duplex(7, 1000),
        main: duplex(8, 2000),
        wallet_a: raw(6, 6, 3000, None),
        wallet_b: raw(9, 5, 4000, Some(8)),
        overflow_a: raw(6, 5, 5000, None),
        overflow_b: raw(9, 4, 6000, Some(8)),
        changed_committed_columns: 27,
        committed_cells: 6 * 64 + 9 * 32 + 6 * 128 + 6 * 256,
    }
}

fn region_inputs() -> RegionInputs {
    let tx_hash = digest(71);
    let root = digest(900);
    let leaf = |i: u64| ExactStateLeaf {
        packed_value_w: LinExpr::constant(f(i)),
        owner_hi_w: LinExpr::constant(f(i + 1)),
        owner_lo_w: LinExpr::constant(f(i + 2)),
        expected_leaf_w: constant_pair(digest(500 + i)),
        expected_leaf: digest(500 + i),
    };
    let walk = |n, len, salt, empty, bits| WalkColumns { tracks: columns(n, len, salt, empty, bits) };
    let mut tree = columns(16, 32, 7100, 0, None);
    tree[2] = Vec::new();
    tree[3] = Vec::new();
    RegionInputs {
        geometry: class(),
        meta: meta_geometry(shape()),
        inputs: MetaInputs {
            leaves: vec![leaf(40), leaf(50)],
            leaf_digests: vec![digest(540), digest(550)],
            leaf_shape: LeafShape { pad: f(9), digest_slot: 1 },
            tx_root: Some(TxRootRegionData {
                depth: 8,
                root_w: constant_pair(root),
                root,
                paths: (0..256)
                    .map(|i| TxRootPathRegion {
                        entry_w: constant_pair(digest(10_000 + 2 * i)),
                        entry: digest(10_000 + 2 * i),
                        siblings: (0..8).map(|l| digest(20_000 + 16 * i + 2 * l)).collect(),
                    })
                    .collect(),
                rim: vec![],
            }),
            tx_roots: vec![root; 256],
            spine: SpineRegionData {
                instances: vec![SpineInstanceRegion {
                    leaves_w: (0..16).map(|i| constant_pair(digest(300 + 2 * i))).collect(),
                    tx_hash_w: constant_pair(tx_hash),
                    tx_hash,
                    root: digest(81),
                    contract: None,
                }],
                objects: false,
            },
            spine_hashes: vec![tx_hash],
            spine_shape: SpineShape {
                wrap_slots: 1,
                wrap_slot: 0,
                kid_leaf_base: 16,
                code_base: 0,
                policy_base: 0,
                old_object_base: 0,
                new_object_base: 0,
                object_version: f(2),
            },
        },
        paired: ExactStatePairedShape {
            local_updates: 1,
            upper_updates: 0,
            local_update_count: 1,
            upper_update_count: 0,
            touched_capacity: 1,
            segment_capacity: 1,
            active_upper_depth: 8,
        },
        ghosts: GhostState { s0: (1..5).map(f).collect(), s_out: (11..15).map(f).collect() },
        sources: MetaSources {
            overflow_a: vec![walk(16, 32, 7000, 2, None)],
            leaves: vec![walk(16, 4, 7200, 2, None)],
            spines: vec![WalkColumns { tracks: tree }, walk(16, 1, 7300, 2, None)],
            overflow_b: vec![walk(17, 16, 8000, 0, Some(8))],
            paired: vec![walk(17, 64, 8100, 0, Some(8)), walk(17, 64, 8200, 0, Some(8))],
            tx_root: vec![walk(17, 4096, 8300, 0, Some(8))],
        },
        ivs: MetaIvs { update: digest(1), compress: digest(3), capsule: digest(5) },
        root_slots: (0..16).map(|l| RootSlots { before: 4 * l + 1, after: 4 * l + 3 }).collect(),
    }
}

#[test]
fn a_region_is_allocated_where_its_ledger_says_and_pinned_to_its_statements() {
    let mut b = FieldR1csBuilder::new();
    let region = allocate_selected_zk_auth_pcs_region(
        &mut b,
        authorization(),
        Some(class()),
        region_inputs(),
    )
    .unwrap_or_else(|_| unreachable!());
    let ledger = &region.ledger;
    assert_eq!(ledger.before, 3, "the constant wire and two root lanes");
    for (family, start) in
        [ledger.main, ledger.owner, ledger.wallet_b, ledger.wallet_a, ledger.meta_a, ledger.meta_b]
            .into_iter()
            .enumerate()
    {
        assert_eq!(region.slices[family][0].start(), start);
    }
    assert_eq!(
        b.num_wires(),
        ledger.after + region.pins_meta.len() + region.pins_meta_b.len()
    );
    assert_eq!(region.wallet_b_families, wallet_b_families(digest(5)));
    assert_eq!(region.paired.local.len(), 1);
    let (r1cs, mut witness) = b.build();
    assert_eq!(witness[ledger.main + 5], F128::new(2000, 5));
    assert_eq!(witness[ledger.owner + 128 + 5], F128::new(1001, 5));

    // The statements are not those of these columns, until their cells are.
    assert!(!r1cs.satisfies(&witness));
    for (pins, slices) in
        [(&region.pins_meta, &region.slices[4]), (&region.pins_meta_b, &region.slices[5])]
    {
        for pin in pins {
            let value = pin.wire.eval(&witness);
            witness[slices[pin.column].start() + pin.slot] = value;
        }
    }
    assert!(r1cs.satisfies(&witness));
    let pin = &region.pins_meta_b[7];
    let cell = region.slices[5][pin.column].start() + pin.slot;
    witness[cell] = witness[cell].plus(F128::one());
    assert!(!r1cs.satisfies(&witness));
    witness[cell] = witness[cell].plus(F128::one());
    let direction = region.slices[2][8].start() + 3;
    witness[direction] = f(2);
    assert!(!r1cs.satisfies(&witness), "directions are bits");
}

#[test]
fn a_region_of_another_shape_is_refused_without_a_wire() {
    let refused = |authorization, class, x| {
        let mut b = FieldR1csBuilder::new();
        let r = allocate_selected_zk_auth_pcs_region(&mut b, authorization, class, x);
        assert_eq!(b.num_wires(), 1);
        r.err().unwrap()
    };
    let mut fewer = authorization();
    fewer.changed_committed_columns = 26;
    assert_eq!(
        refused(fewer, Some(class()), region_inputs()),
        SelectedZkAuthPcsRegionAllocationError::AuthorizationShape
    );
    assert_eq!(
        refused(authorization(), None, region_inputs()),
        SelectedZkAuthPcsRegionAllocationError::AuthorizationShape
    );
    let mut direction = authorization();
    direction.wallet_b.committed[8][0] = f(2);
    assert_eq!(
        refused(direction, Some(class()), region_inputs()),
        SelectedZkAuthPcsRegionAllocationError::AuthorizationShape
    );
    let mut spine = region_inputs();
    spine.inputs.spine.instances.clear();
    assert_eq!(
        refused(authorization(), Some(class()), spine),
        SelectedZkAuthPcsRegionAllocationError::SpineShape
    );
    let mut state = region_inputs();
    state.paired.active_upper_depth = 7;
    assert_eq!(
        refused(authorization(), Some(class()), state),
        SelectedZkAuthPcsRegionAllocationError::ExactStateShape
    );
    let mut root = region_inputs();
    root.inputs.tx_root.as_mut().unwrap().paths[3].siblings.pop();
    assert_eq!(
        refused(authorization(), Some(class()), root),
        SelectedZkAuthPcsRegionAllocationError::TxRootShape
    );
}
