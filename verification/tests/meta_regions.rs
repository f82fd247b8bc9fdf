//! The metadata walks of a block.
use noid_recursive::circuit::{FieldR1csBuilder, LinExpr};
use noid_recursive::columns::{
    alloc_column_slice_values_only, pin_stage2_cells, slot_cell, CellPin, WitnessSlice,
};
use noid_recursive::field::F128;
use noid_recursive::meta_draft::{
    build_auth_pcs_meta_region_draft, MerkleRegionFamily, MetaInputs, MetaIvs, SpineRegionData,
};
use noid_recursive::meta_pins::{
    DigestPair, ExactStateLeaf, LeafShape, SpineInstanceRegion, SpineShape, WirePair,
};
use noid_recursive::meta_region::{
    meta_geometry, GhostState, MetaShape, MetaSources, C0, IN0, KID0, PAIRED_UPDATE_DEPTH,
    PAIRED_UPDATE_SLOTS_PER_LEVEL, PAIRED_UPDATE_STRIDE, SPINE_TREE_SLOTS, STATE_SIZE,
};
use noid_recursive::paired_pins::{
    pin_paired_consistency_cells, pin_paired_overhang_ghost_cells,
};
use noid_recursive::patterns::{pattern_in_dyadic_region, FixedPattern};
use noid_recursive::region_layout::tiled_walk_layout;
use noid_recursive::selected_region::{
    paired_exact_state_cells, paired_update_base, RootSlots,
};
use noid_recursive::tx_root::{
    append_meta_b_statement_pins, index_bits, tx_root_leg, tx_root_witnesses, LegStatement,
    TxRootPathRegion, TxRootRegionData,
};
use noid_recursive::walk_planes::{place_pieces, uniform_plane, Piece, WalkColumns};

fn f(lo: u64) -> F128 {
    F128::new(lo, 0)
}

fn digest(seed: u64) -> DigestPair {
    DigestPair { a: f(seed), b: f(seed + 1) }
}

fn constant_pair(d: DigestPair) -> WirePair {
    WirePair { a: LinExpr::constant(d.a), b: LinExpr::constant(d.b) }
}

#[test]
fn meta_statement_entry_and_root_pins_reject_mutations() {
    let depth = 2usize;
    let root_slot = 2 * (depth - 1) + 1;
    let entry = DigestPair { a: f(5), b: f(7) };
    let root = DigestPair { a: f(11), b: f(13) };
    let mut columns = vec![vec![F128::zero(); 16]; 9];
    columns[4][0] = entry.a;
    columns[5][0] = entry.b;
    columns[0][root_slot] = root.a;
    columns[1][root_slot] = root.b;
    let mut b = FieldR1csBuilder::new();
    let slices = columns
        .iter()
        .map(|column| alloc_column_slice_values_only(&mut b, column, 4))
        .collect::<Vec<_>>();
    let mut pins: Vec<CellPin> = Vec::new();
    let leg = LegStatement {
        entry_wires: vec![constant_pair(entry)],
        root_wires: vec![constant_pair(root)],
        committed_roots: vec![root],
        recomputed_roots: vec![root],
        path_slots: vec![0],
    };
    append_meta_b_statement_pins(&mut pins, &vec![depth], &vec![leg]);
    assert_eq!(pins.len(), 4);
    pin_stage2_cells(&mut b, &slices, &pins);
    let (r1cs, witness) = b.build();
    assert!(r1cs.satisfies(&witness));

    let mut bad_entry = witness.clone();
    let at = slices[4].start();
    bad_entry[at] = bad_entry[at].plus(F128::one());
    assert!(!r1cs.satisfies(&bad_entry));
    let mut bad_root = witness;
    let at = slices[0].start() + root_slot;
    bad_root[at] = bad_root[at].plus(F128::one());
    assert!(!r1cs.satisfies(&bad_root));
}

#[test]
fn b255_meta_gates_select_disjoint_dyadic_regions() {
    let w_log = 15usize;
    let es = pattern_in_dyadic_region(FixedPattern::new(0, vec![F128::one()]), 0, 8192, w_log)
        .materialize(1usize << w_log);
    let spine = pattern_in_dyadic_region(
        FixedPattern::new(6, vec![F128::one(); 64]),
        16384,
        16384,
        w_log,
    )
    .materialize(1usize << w_log);

    assert!(es[..8192].iter().all(|&v| v == F128::one()));
    assert!(es[8192..].iter().all(|&v| v == F128::zero()));
    assert!(spine[..16384].iter().all(|&v| v == F128::zero()));
    assert!(spine[16384..].iter().all(|&v| v == F128::one()));
}

fn shape(tiles: usize, instances: usize) -> MetaShape {
    MetaShape {
        tiles,
        leaves: 0,
        touched: 0,
        segments: 0,
        instances,
        wrap_slots: 1,
        tx_depth: 0,
        tx_paths: 0,
        overflow: false,
    }
}

fn columns(tracks: usize, len: usize, empty: std::ops::Range<usize>, salt: u64) -> WalkColumns {
    WalkColumns {
        tracks: (0..tracks)
            .map(|t| {
                if empty.contains(&t) {
                    Vec::new()
                } else {
                    (0..len).map(|s| F128::new(salt + t as u64, s as u64)).collect()
                }
            })
            .collect(),
    }
}

fn ghosts() -> GhostState {
    GhostState { s0: (1..5).map(f).collect(), s_out: (11..15).map(f).collect() }
}

fn ivs() -> MetaIvs {
    MetaIvs { update: digest(1), compress: digest(3), capsule: digest(5) }
}

#[test]
fn meta_region_draft_spine_only_matches_direct_raw_columns() {
    let tree = columns(16, SPINE_TREE_SLOTS, 2..4, 100);
    let wrap = columns(16, 1, 0..2, 200);
    let tx_hash = digest(71);
    let instance = SpineInstanceRegion {
        leaves_w: (0..16).map(|i| constant_pair(digest(300 + 2 * i))).collect(),
        tx_hash_w: constant_pair(tx_hash),
        tx_hash,
        root: digest(81),
        contract: None,
    };
    let inputs = MetaInputs {
        leaves: vec![],
        leaf_digests: vec![],
        leaf_shape: LeafShape { pad: f(9), digest_slot: 1 },
        tx_root: None,
        tx_roots: vec![],
        spine: SpineRegionData { instances: vec![instance], objects: false },
        spine_hashes: vec![tx_hash],
        spine_shape: SpineShape {
            wrap_slots: 1,
            wrap_slot: 0,
            kid_leaf_base: 16,
            code_base: 0,
            policy_base: 0,
            old_object_base: 0,
            new_object_base: 0,
            object_version: f(2),
        },
    };
    let sources = MetaSources {
        overflow_a: vec![],
        leaves: vec![],
        spines: vec![tree.clone(), wrap.clone()],
        overflow_b: vec![],
        paired: vec![],
        tx_root: vec![],
    };
    let g = meta_geometry(shape(1, 1));
    let mut b = FieldR1csBuilder::new();
    let before = b.num_wires();
    let draft = build_auth_pcs_meta_region_draft(&mut b, &g, &inputs, &ghosts(), &sources, ivs());

    assert!(draft.has_meta);
    assert!(!draft.has_both_a_families);
    assert_eq!(g.spine_cap, 1);
    assert_eq!(draft.meta.tracks[0].len(), 64, "spine-only region slots");
    assert_eq!(g.meta_w_log, 6);
    assert!(g.meta_b.is_none());
    assert!(draft.meta_b_families.is_empty());
    assert_eq!(b.num_wires() - before, 2, "two spine root bridge wires");
    assert_eq!(draft.cell_pins_meta.len(), 38, "32 KID + 4 root + 2 digest pins");

    for lane in 0..2 {
        assert_eq!(
            draft.meta.tracks[KID0 + lane][..SPINE_TREE_SLOTS],
            tree.tracks[KID0 + lane][..]
        );
        assert_eq!(
            draft.meta.tracks[IN0 + lane][SPINE_TREE_SLOTS..SPINE_TREE_SLOTS + 1],
            wrap.tracks[IN0 + lane][..]
        );
    }
    for lane in 0..3 * STATE_SIZE {
        assert_eq!(
            draft.meta.tracks[C0 + lane][..SPINE_TREE_SLOTS],
            tree.tracks[C0 + lane][..]
        );
    }
    // Past the spine every slot is the canonical one.
    assert_eq!(draft.meta.tracks[KID0][40], F128::zero());
    assert_eq!(draft.meta.tracks[8][40], f(1));
    assert_eq!(draft.meta.tracks[12][40], f(11));
}

#[test]
fn spines_fill_their_blocks_in_order() {
    let g = meta_geometry(shape(2, 3));
    assert_eq!((g.spine_cap, g.spine_per_tx, g.meta_slots, g.meta_w_log), (2, 128, 256, 8));
}

#[test]
fn leaves_and_spines_take_half_of_the_walk_each() {
    let both = MetaShape {
        leaves: 5,
        touched: 5,
        segments: 1,
        tx_depth: 3,
        tx_paths: 4,
        overflow: false,
        ..shape(2, 2)
    };
    let g = meta_geometry(both);
    assert_eq!(g.es_region_slots, 16);
    assert_eq!((g.spine_meta_base, g.meta_slots, g.meta_w_log), (128, 256, 8));
    assert_eq!((g.local_cap, g.upper_cap, g.tx_cap, g.tx_stride), (3, 1, 2, 8));
    let layout = g.meta_b.unwrap();
    assert_eq!(layout.bases, vec![0, 192, 256]);
    assert_eq!((layout.live_per_block, layout.block_slots, layout.slots), (272, 512, 1024));
}

#[test]
fn paired_k2_reference_pins_cover_overhang_and_handoff_stops_at_capacity() {
    let k = 2usize;
    let class_capacities = [3usize, 1usize];
    let caps_per_block = [2usize, 1usize];
    let family_slots = caps_per_block.map(|cap| cap * PAIRED_UPDATE_STRIDE);
    let layout = tiled_walk_layout(k, &family_slots);
    assert_eq!(layout.bases, vec![0, 2 * PAIRED_UPDATE_STRIDE]);
    assert_eq!(layout.block_slots, 4 * PAIRED_UPDATE_STRIDE);

    let mut b = FieldR1csBuilder::new();
    let slices: Vec<WitnessSlice> = (0..9)
        .map(|c| {
            let column = (0..layout.slots).map(|s| F128::new(c, s as u64)).collect::<Vec<_>>();
            alloc_column_slice_values_only(&mut b, &column, layout.w_log)
        })
        .collect();
    let roots = (0..16)
        .map(|level| RootSlots { before: 4 * level + 1, after: 4 * level + 3 })
        .collect::<Vec<_>>();
    let handoff = paired_exact_state_cells(
        &slices,
        &layout,
        layout.bases[0],
        layout.bases[1],
        caps_per_block[0],
        caps_per_block[1],
        class_capacities[0],
        class_capacities[1],
        &roots,
    );
    assert_eq!(handoff.local.len(), class_capacities[0]);
    assert_eq!(handoff.upper.len(), class_capacities[1]);
    let bases = [0, 64, 256];
    for (ordinal, cells) in handoff.local.iter().enumerate() {
        let base = paired_update_base(&layout, layout.bases[0], caps_per_block[0], ordinal);
        assert_eq!(base, bases[ordinal]);
        for lane in 0..2 {
            assert_eq!(cells.old_entry.lane(lane), slot_cell(&slices[4 + lane], base));
            assert_eq!(cells.new_entry.lane(lane), slot_cell(&slices[4 + lane], base + 2));
            assert_eq!(cells.old_root.lane(lane), slot_cell(&slices[lane], base + 61));
            assert_eq!(cells.new_root.lane(lane), slot_cell(&slices[lane], base + 63));
        }
        for level in 0..PAIRED_UPDATE_DEPTH {
            assert_eq!(
                cells.directions[level],
                slot_cell(&slices[8], base + level * PAIRED_UPDATE_SLOTS_PER_LEVEL)
            );
        }
    }
    for (ordinal, cells) in handoff.upper.iter().enumerate() {
        let base = paired_update_base(&layout, layout.bases[1], caps_per_block[1], ordinal);
        for level in 0..PAIRED_UPDATE_DEPTH {
            for lane in 0..2 {
                assert_eq!(
                    cells.old_roots[level].lane(lane),
                    slot_cell(&slices[lane], base + roots[level].before)
                );
                assert_eq!(
                    cells.new_roots[level].lane(lane),
                    slot_cell(&slices[lane], base + roots[level].after)
                );
            }
        }
    }
}

#[test]
fn transaction_paths_take_the_bits_of_their_index() {
    assert_eq!(index_bits(6, 4), vec![false, true, true, false]);
    let path = |i: u64| TxRootPathRegion {
        entry_w: constant_pair(digest(10 * i)),
        entry: digest(10 * i),
        siblings: vec![digest(100 + i), digest(200 + i), digest(300 + i)],
    };
    let root = digest(900);
    let t = TxRootRegionData {
        depth: 3,
        root_w: constant_pair(root),
        root,
        paths: vec![path(0), path(1), path(2)],
        rim: vec![],
    };
    let witnesses = tx_root_witnesses(&t, 4);
    assert_eq!(witnesses[2].directions, vec![false, true, false]);
    assert_eq!(witnesses[2].entry, digest(20));
    assert_eq!(witnesses[3].entry, DigestPair { a: F128::zero(), b: F128::zero() });
    assert_eq!(witnesses[3].directions, vec![false; 3]);

    let g = meta_geometry(MetaShape {
        tx_depth: 3,
        tx_paths: 3,
        ..shape(2, 0)
    });
    let layout = g.meta_b.clone().unwrap();
    let ghost_root = digest(950);
    let roots = vec![root, root, root, ghost_root];
    let leg = tx_root_leg(&g, &layout, &t, &roots);
    assert_eq!(leg.path_slots, vec![0, 8, 16, 24]);
    assert_eq!(leg.committed_roots, roots);
    assert_eq!(leg.entry_wires[3].lane(0), LinExpr::zero());
    assert_eq!(leg.root_wires[3].lane(1), LinExpr::constant(ghost_root.b));
}

#[test]
fn placed_pieces_keep_the_canonical_cells_around_them() {
    let plane = uniform_plane(&vec![f(1), f(2)], 6);
    let source = WalkColumns { tracks: vec![vec![f(7), f(8), f(9)], Vec::new()] };
    let piece = Piece { base: 2, from: 1, slots: 2, source: 0 };
    let placed = place_pieces(&plane, &vec![piece], &vec![source], 6);
    assert_eq!(placed.tracks[0], vec![f(1), f(1), f(8), f(9), f(1), f(1)]);
    assert_eq!(placed.tracks[1], vec![f(2); 6], "an empty track is not placed");
}

#[test]
fn families_are_listed_with_their_offsets() {
    let g = meta_geometry(MetaShape {
        leaves: 5,
        touched: 5,
        segments: 1,
        tx_depth: 3,
        tx_paths: 4,
        ..shape(2, 0)
    });
    let leaf = |i: u64| ExactStateLeaf {
        packed_value_w: LinExpr::constant(f(i)),
        owner_hi_w: LinExpr::constant(f(i + 1)),
        owner_lo_w: LinExpr::constant(f(i + 2)),
        expected_leaf_w: constant_pair(digest(500 + i)),
        expected_leaf: digest(500 + i),
    };
    let root = digest(900);
    let path = |i: u64| TxRootPathRegion {
        entry_w: constant_pair(digest(10 * i)),
        entry: digest(10 * i),
        siblings: vec![digest(100 + i), digest(200 + i), digest(300 + i)],
    };
    let inputs = MetaInputs {
        leaves: (0..5).map(|i| leaf(10 * i)).collect(),
        leaf_digests: (0..5).map(|i| digest(500 + 10 * i)).collect(),
        leaf_shape: LeafShape { pad: f(9), digest_slot: 1 },
        tx_root: Some(TxRootRegionData {
            depth: 3,
            root_w: constant_pair(root),
            root,
            paths: (0..4).map(path).collect(),
            rim: vec![],
        }),
        tx_roots: vec![root; 4],
        spine: SpineRegionData { instances: vec![], objects: false },
        spine_hashes: vec![],
        spine_shape: SpineShape {
            wrap_slots: 1,
            wrap_slot: 0,
            kid_leaf_base: 16,
            code_base: 0,
            policy_base: 0,
            old_object_base: 0,
            new_object_base: 0,
            object_version: f(2),
        },
    };
    let sources = MetaSources {
        overflow_a: vec![],
        leaves: vec![columns(16, 16, 0..2, 1000)],
        spines: vec![],
        overflow_b: vec![],
        paired: vec![
            columns(17, 192, 0..0, 2000),
            columns(17, 64, 0..0, 2100),
            columns(17, 192, 0..0, 2200),
            columns(17, 64, 0..0, 2300),
        ],
        tx_root: vec![columns(17, 16, 0..0, 3000), columns(17, 16, 0..0, 3100)],
    };
    let mut b = FieldR1csBuilder::new();
    let draft = build_auth_pcs_meta_region_draft(&mut b, &g, &inputs, &ghosts(), &sources, ivs());
    assert_eq!(
        draft.meta_b_families,
        vec![
            MerkleRegionFamily::PairedUpdate { offset: 0, n_updates: 3, iv: ivs().update },
            MerkleRegionFamily::PairedUpdate { offset: 192, n_updates: 1, iv: ivs().update },
            MerkleRegionFamily::TwoPermutation {
                offset: 256,
                depth: 3,
                n_paths: 2,
                iv: ivs().compress,
            },
        ]
    );
    let at = |slot: usize| draft.meta_b.tracks[0][slot];
    assert_eq!(at(0), F128::new(2000, 0));
    assert_eq!(at(192), F128::new(2100, 0));
    assert_eq!(at(256), F128::new(3000, 0));
    assert_eq!(at(512), F128::new(2200, 0));
    assert_eq!(at(512 + 256 + 3), F128::new(3100, 3));
    assert_eq!(draft.meta.tracks[IN0][5], F128::new(1002, 5));
    assert_eq!(draft.leg_depths, vec![3]);
    assert_eq!(draft.leg_caps, vec![2]);
    assert_eq!(draft.legs[0].path_slots, vec![256, 264, 768, 776]);
}

#[test]
fn paired_copies_and_overhang_cost_their_rows() {
    let caps = [2usize, 1usize];
    let layout = tiled_walk_layout(2, &[caps[0] * 64, caps[1] * 64]);
    // A column of an update whose siblings and directions are copied along
    // every level, and whose digests are all equal.
    let update = |c: usize, s: usize| match c {
        6 | 7 => f(100 * c as u64 + (s / 4) as u64),
        8 => F128::from_bool(s / 4 % 3 == 0),
        _ => f(5),
    };
    let mut b = FieldR1csBuilder::new();
    let slices: Vec<WitnessSlice> = (0..9)
        .map(|c| {
            let column =
                (0..layout.slots).map(|s| update(c, s % 64)).collect::<Vec<_>>();
            alloc_column_slice_values_only(&mut b, &column, layout.w_log)
        })
        .collect();
    let before = b.num_wires();
    pin_paired_consistency_cells(
        &mut b,
        &slices,
        &layout,
        layout.bases[0],
        layout.bases[1],
        caps[0],
        caps[1],
    );
    assert_eq!(b.num_wires() - before, 206 * 6, "exact copies cover all tiles");
    let ghost: Vec<Vec<F128>> = (0..9).map(|c| (0..64).map(|s| update(c, s)).collect()).collect();
    let before = b.num_wires();
    for (family, capacity) in [(0, 3), (1, 1)] {
        pin_paired_overhang_ghost_cells(
            &mut b,
            &slices,
            &layout,
            layout.bases[family],
            caps[family],
            capacity,
            2 * caps[family],
            &ghost,
        );
    }
    assert_eq!(b.num_wires() - before, 2 * 9 * PAIRED_UPDATE_STRIDE);
    let (r1cs, witness) = b.build();
    assert!(r1cs.satisfies(&witness));

    let last_live = paired_update_base(&layout, layout.bases[0], caps[0], 2);
    let flipped = |column: usize, slot: usize| {
        let mut w = witness.clone();
        let at = slices[column].start() + slot;
        w[at] = w[at].plus(F128::one());
        r1cs.satisfies(&w)
    };
    assert!(flipped(4, last_live), "the entry of the last live update is free");
    let local_ghost = paired_update_base(&layout, layout.bases[0], caps[0], 3);
    for column in 0..9 {
        assert!(!flipped(column, local_ghost), "column {column}");
    }
    let upper_ghost = paired_update_base(&layout, layout.bases[1], caps[1], 1);
    assert!(!flipped(4, upper_ghost));
    assert!(!flipped(8, last_live + 2), "a direction is copied along its level");
    assert!(!flipped(4, last_live + 3), "the bridge carries the old digest");
}
