//! The layout of the selected region and of its tiled walks.
use noid_recursive::circuit::{FieldR1csBuilder, LinExpr};
use noid_recursive::columns::{
    alloc_boolean_column_slice_values_only, alloc_column_slice_values_only, alloc_selected_columns,
    pin_stage2_cells, push_pin, slot_cell, CellPin, WitnessSlice,
};
use noid_recursive::field::F128;
use noid_recursive::meta_pins::WirePair;
use noid_recursive::meta_region::PAIRED_UPDATE_STRIDE;
use noid_recursive::path_roots::{pin_wallet_b_roots, WalletFfRootPin};
use noid_recursive::patterns::{
    common_period_ones, common_period_pattern, dyadic_region_bits, pattern_in_dyadic_region,
    rec_hi_bits,
};
use noid_recursive::region_layout::{
    checked_next_multiple_of, next_selected_family_permutation, tiled_walk_layout,
    SelectedZkBlockGeometry, SelectedZkRegionAllocationLedger, SelectedZkRegionFamily,
    TiledWalkLayout, SELECTED_ZK_REGION_COMMITTED_COLUMNS, SELECTED_ZK_REGION_MAIN_COLUMNS,
    SELECTED_ZK_REGION_META_A_COLUMNS, SELECTED_ZK_REGION_META_B_COLUMNS,
    SELECTED_ZK_REGION_OWNER_COLUMNS, SELECTED_ZK_REGION_WALLET_A_COLUMNS,
    SELECTED_ZK_REGION_WALLET_B_COLUMNS,
};

const SELECTED_ZK_REGION_COMMITTED_CELLS: usize = 7_536_640;

fn selected_zk_block_geometry(tier: usize) -> SelectedZkBlockGeometry {
    match tier {
        255 => SelectedZkBlockGeometry {
            tier: 255,
            auth_tiles: 256,
            tx_log: 8,
            wallet_a_w_log: 19,
            wallet_b_w_log: 18,
            meta_a_w_log: 15,
            meta_b_w_log: 17,
            meta_b_block_log: 9,
            owner_w_log: 15,
            main_w_log: 16,
            exact_state_region_log: 13,
            spine_cap_log: 0,
            touched_capacity: 1_531,
            segment_capacity: 256,
            local_updates_per_block: 6,
            upper_updates_per_block: 1,
            local_base: 0,
            upper_base: 384,
            tx_root_paths_per_block: 1,
        },
        _ => SelectedZkBlockGeometry {
            tier: 25,
            auth_tiles: 32,
            tx_log: 5,
            wallet_a_w_log: 16,
            wallet_b_w_log: 15,
            meta_a_w_log: 12,
            meta_b_w_log: 16,
            meta_b_block_log: 11,
            owner_w_log: 12,
            main_w_log: 13,
            exact_state_region_log: 10,
            spine_cap_log: 0,
            touched_capacity: 151,
            segment_capacity: 26,
            local_updates_per_block: 5,
            upper_updates_per_block: 1,
            local_base: 0,
            upper_base: 320,
            tx_root_paths_per_block: 1,
        },
    }
}

#[test]
fn selected_b255_column_ledger_minimizes_alignment_exactly() {
    let geometry = selected_zk_block_geometry(255);
    let ledger = SelectedZkRegionAllocationLedger::new(966_647, geometry);
    assert_eq!(ledger.before, 966_647);
    assert_eq!(ledger.main, 983_040);
    assert_eq!(ledger.owner, 1_376_256);
    assert_eq!(ledger.wallet_b, 1_572_864);
    assert_eq!(ledger.wallet_a, 4_194_304);
    assert_eq!(ledger.meta_a, 3_932_160);
    assert_eq!(ledger.meta_b, 7_340_032);
    assert_eq!(ledger.after, 8_519_680);
    assert_eq!(ledger.after - ledger.before - SELECTED_ZK_REGION_COMMITTED_CELLS, 16_393);

    let mut ranges = Vec::new();
    let mut cursor = ledger.before;
    for &family in &ledger.order {
        let (w_log, columns) = family.dimensions(geometry);
        let start = match family {
            SelectedZkRegionFamily::Main => ledger.main,
            SelectedZkRegionFamily::Owner => ledger.owner,
            SelectedZkRegionFamily::WalletB => ledger.wallet_b,
            SelectedZkRegionFamily::WalletA => ledger.wallet_a,
            SelectedZkRegionFamily::MetaA => ledger.meta_a,
            SelectedZkRegionFamily::MetaB => ledger.meta_b,
        };
        let len = 1usize << w_log;
        cursor = cursor.checked_next_multiple_of(len).unwrap();
        assert_eq!(start, cursor, "optimal family alignment");
        for column in 0..columns {
            ranges.push(start + column * len..start + (column + 1) * len);
        }
        cursor += columns * len;
    }
    assert_eq!(ranges.len(), SELECTED_ZK_REGION_COMMITTED_COLUMNS);
    assert_eq!(cursor, ledger.after);
    assert!(ledger.after < 1 << 24, "selected slices fit the B255 witness");
    for (index, left) in ranges.iter().enumerate() {
        for right in &ranges[index + 1..] {
            assert!(left.end <= right.start || right.end <= left.start);
        }
    }
}

#[test]
fn selected_lower_classes_keep_their_own_committed_domains() {
    for (tier, expected_cells, expected_span, class_m) in [
        (25usize, 1_384_448usize, 1_384_448usize, 22usize),
        (255, 7_536_640, 7_536_640, 24),
    ] {
        let geometry = selected_zk_block_geometry(tier);
        let ledger = SelectedZkRegionAllocationLedger::new(0, geometry);
        let committed_cells = SELECTED_ZK_REGION_WALLET_A_COLUMNS * (1 << geometry.wallet_a_w_log)
            + SELECTED_ZK_REGION_WALLET_B_COLUMNS * (1 << geometry.wallet_b_w_log)
            + SELECTED_ZK_REGION_META_B_COLUMNS * (1 << geometry.meta_b_w_log)
            + SELECTED_ZK_REGION_MAIN_COLUMNS * (1 << geometry.main_w_log)
            + SELECTED_ZK_REGION_META_A_COLUMNS * (1 << geometry.meta_a_w_log)
            + SELECTED_ZK_REGION_OWNER_COLUMNS * (1 << geometry.owner_w_log);
        assert_eq!(committed_cells, expected_cells, "B{tier} committed cells");
        assert_eq!(ledger.after, expected_span, "B{tier} allocation span");
        assert!(ledger.after < 1usize << class_m, "B{tier} class domain");
    }
}

#[test]
fn no_other_order_ends_earlier() {
    let geometry = selected_zk_block_geometry(255);
    for before in [0usize, 1, 966_647, 3_000_001] {
        let ledger = SelectedZkRegionAllocationLedger::new(before, geometry);
        let mut order = vec![
            SelectedZkRegionFamily::Main,
            SelectedZkRegionFamily::Owner,
            SelectedZkRegionFamily::WalletB,
            SelectedZkRegionFamily::WalletA,
            SelectedZkRegionFamily::MetaA,
            SelectedZkRegionFamily::MetaB,
        ];
        order.sort_by_key(|family| family.index());
        let mut seen = 0;
        loop {
            let mut cursor = before;
            for family in &order {
                let (w_log, columns) = family.dimensions(geometry);
                cursor = checked_next_multiple_of(cursor, 1 << w_log).unwrap() + (columns << w_log);
            }
            assert!(ledger.after <= cursor);
            seen += 1;
            if !next_selected_family_permutation(&mut order) {
                break;
            }
        }
        assert_eq!(seen, 720);
    }
}

#[test]
fn alignment_past_the_last_index_is_refused() {
    assert_eq!(checked_next_multiple_of(0, 8), Some(0));
    assert_eq!(checked_next_multiple_of(9, 8), Some(16));
    assert_eq!(checked_next_multiple_of(usize::MAX, 8), None);
}

fn production_split_b(k: usize) -> (TiledWalkLayout, TiledWalkLayout, TiledWalkLayout) {
    let wallet_slots: [usize; 2] = [64 * 8, 64 * 8];
    let meta_slots: [usize; 2] =
        [12 * (2usize * 16).next_power_of_two(), (2usize * 8).next_power_of_two()];
    let wallet = tiled_walk_layout(k, &wallet_slots);
    let meta = tiled_walk_layout(k, &meta_slots);
    let combined = tiled_walk_layout(
        k,
        &[wallet_slots[0], wallet_slots[1], meta_slots[0], meta_slots[1]],
    );
    (wallet, meta, combined)
}

#[test]
fn split_walk_b_layout_and_k1_k2_matrix() {
    let (w1, m1, old1) = production_split_b(1);
    let (w2, m2, old2) = production_split_b(2);

    assert_eq!(w1.bases, vec![0, 512]);
    assert_eq!((w1.live_per_block, w1.block_slots, w1.w_log), (1024, 1024, 10));
    assert_eq!(m1.bases, vec![0, 384]);
    assert_eq!((m1.live_per_block, m1.block_slots, m1.w_log), (400, 512, 9));
    assert_eq!((old1.live_per_block, old1.block_slots, old1.w_log), (1424, 2048, 11));

    assert_eq!(w2.bases, w1.bases);
    assert_eq!(m2.bases, m1.bases);
    assert_eq!(w2.block_log, w1.block_log);
    assert_eq!(m2.block_log, m1.block_log);
    assert_eq!(w2.w_log, w1.w_log + 1);
    assert_eq!(m2.w_log, m1.w_log + 1);
    assert_eq!(old2.w_log, old1.w_log + 1);
    assert_eq!(w2.slots, 2 * w1.slots);
    assert_eq!(m2.slots, 2 * m1.slots);

    let wallet_matrix_k1 = common_period_ones(0, 512, w1.block_log);
    let wallet_matrix_k2 = common_period_ones(0, 512, w2.block_log);
    let meta_matrix_k1 = common_period_ones(384, 16, m1.block_log);
    let meta_matrix_k2 = common_period_ones(384, 16, m2.block_log);
    assert_eq!(wallet_matrix_k1, wallet_matrix_k2, "wallet-B matrix period");
    assert_eq!(meta_matrix_k1, meta_matrix_k2, "meta-B matrix period");

    const COLS: usize = 9;
    assert_eq!(COLS * (old1.slots - w1.slots - m1.slots), 4_608, "K=1 raw split saving");
    assert_eq!(COLS * (old2.slots - w2.slots - m2.slots), 9_216, "K=2 raw split saving");
}

#[test]
fn split_walk_b_b255_raw_saving_is_1_179_648_rows() {
    let (wallet, meta, old) = production_split_b(256);
    assert_eq!(wallet.slots, 262_144);
    assert_eq!(meta.slots, 131_072);
    assert_eq!(old.slots, 524_288);
    assert_eq!(9 * (old.slots - wallet.slots - meta.slots), 1_179_648);
}

fn paired_meta_layout(
    k: usize,
    touched_capacity: usize,
    segment_capacity: usize,
    tx_root_slots: usize,
) -> TiledWalkLayout {
    tiled_walk_layout(
        k,
        &[
            touched_capacity.div_ceil(k) * PAIRED_UPDATE_STRIDE,
            segment_capacity.div_ceil(k) * PAIRED_UPDATE_STRIDE,
            tx_root_slots,
        ],
    )
}

#[test]
fn paired_meta_b_shape_k1_k2_and_b255_m17() {
    let k1 = paired_meta_layout(1, 6, 1, 16);
    let k2 = paired_meta_layout(2, 12, 2, 16);
    assert_eq!(k1.bases, vec![0, 384, 448]);
    assert_eq!(k2.bases, k1.bases);
    assert_eq!(k1.block_slots, 512);
    assert_eq!(k2.block_slots, 512);
    assert_eq!(k2.w_log, k1.w_log + 1);
    assert_eq!(k2.slots, 2 * k1.slots);

    let b255 = paired_meta_layout(256, 1_531, 256, 16);
    assert_eq!(b255.bases, vec![0, 384, 448]);
    assert_eq!(b255.live_per_block, 464);
    assert_eq!(b255.block_slots, 512);
    assert_eq!(b255.slots, 131_072);
    assert_eq!(b255.w_log, 17, "B255 paired meta-B is m17");
    assert_eq!(9 * b255.slots, 1_179_648, "exactly nine meta-B columns");
    let b255_overhang_updates =
        256 * 1_531usize.div_ceil(256) - 1_531 + 256 * 256usize.div_ceil(256) - 256;
    assert_eq!(b255_overhang_updates, 5);
    assert_eq!(
        9 * PAIRED_UPDATE_STRIDE * b255_overhang_updates,
        2_880,
        "B255 paired overhang exact-cell rows"
    );
}

/// A column and the wires of its cells, cell by cell.
fn alloc_column_slice(
    b: &mut FieldR1csBuilder,
    col: &[F128],
    log2_len: usize,
) -> (WitnessSlice, Vec<LinExpr>) {
    let block = 1usize << log2_len;
    while b.num_wires() % block != 0 {
        b.alloc_f128(F128::zero());
    }
    let index = b.num_wires() / block;
    let wires = col.iter().map(|&v| LinExpr::from_wire(b.alloc_f128(v))).collect();
    for _ in col.len()..block {
        b.alloc_f128(F128::zero());
    }
    (WitnessSlice { log2_len, index }, wires)
}

fn alloc_boolean_column_slice(
    b: &mut FieldR1csBuilder,
    col: &[F128],
    log2_len: usize,
) -> (WitnessSlice, Vec<LinExpr>) {
    let block = 1usize << log2_len;
    while b.num_wires() % block != 0 {
        b.alloc_f128(F128::zero());
    }
    let index = b.num_wires() / block;
    let wires = col
        .iter()
        .map(|&v| LinExpr::from_wire(b.alloc_bool(v == F128::one())))
        .collect();
    for _ in col.len()..block {
        b.alloc_bool(false);
    }
    (WitnessSlice { log2_len, index }, wires)
}

#[test]
fn values_only_allocators_match_legacy_slices_wires_rows_and_values() {
    let column = [
        F128::new(3, 5),
        F128::new(7, 11),
        F128::zero(),
        F128::new(13, 17),
        F128::new(19, 23),
    ];
    let boolean = [F128::one(), F128::zero(), F128::one()];
    let mut legacy = FieldR1csBuilder::new();
    let mut values_only = FieldR1csBuilder::new();
    for value in [F128::new(29, 31), F128::new(37, 41)] {
        legacy.alloc_f128(value);
        values_only.alloc_f128(value);
    }

    let (legacy_column, column_wires) = alloc_column_slice(&mut legacy, &column, 3);
    let fast_column = alloc_column_slice_values_only(&mut values_only, &column, 3);
    assert_eq!(fast_column, legacy_column);
    assert_eq!(fast_column.start(), legacy_column.start());
    assert_eq!(fast_column.len(), legacy_column.len());
    assert_eq!(legacy.values(), values_only.values());
    assert_eq!(legacy.num_wires(), values_only.num_wires());
    for (offset, expression) in column_wires.iter().enumerate() {
        assert_eq!(*expression, slot_cell(&legacy_column, offset));
    }

    let (legacy_boolean, boolean_wires) = alloc_boolean_column_slice(&mut legacy, &boolean, 3);
    let fast_boolean = alloc_boolean_column_slice_values_only(&mut values_only, &boolean, 3);
    assert_eq!(fast_boolean, legacy_boolean);
    assert_eq!(fast_boolean.start(), legacy_boolean.start());
    assert_eq!(fast_boolean.len(), legacy_boolean.len());
    assert_eq!(legacy.values(), values_only.values());
    assert_eq!(legacy.num_wires(), values_only.num_wires());
    for (offset, expression) in boolean_wires.iter().enumerate() {
        assert_eq!(*expression, slot_cell(&legacy_boolean, offset));
    }

    let (legacy_relation, legacy_witness) = legacy.build();
    let (fast_relation, fast_witness) = values_only.build();
    assert_eq!(fast_witness, legacy_witness);
    assert!(fast_relation.same_structure(&legacy_relation));
}

#[test]
fn ff_d_committed_slice_is_exact_boolean_at_no_extra_row_cost() {
    let column = (0..8)
        .map(|slot| if slot & 1 == 1 { F128::one() } else { F128::zero() })
        .collect::<Vec<_>>();
    let mut b = FieldR1csBuilder::new();
    let before = b.num_wires();
    assert_eq!(before, 1, "the constant wire");
    let slice = alloc_boolean_column_slice_values_only(&mut b, &column, 3);
    assert_eq!(
        b.num_wires() - before,
        15,
        "seven alignment rows plus the same eight committed cells"
    );
    let (r1cs, witness) = b.build();
    assert!(r1cs.satisfies(&witness));
    let mut bad = witness;
    bad[slice.start()] = F128::new(2, 0);
    assert!(!r1cs.satisfies(&bad), "non-boolean committed D cell survived exact allocation row");
}

#[test]
fn only_the_chosen_column_is_boolean() {
    let columns = vec![vec![F128::new(9, 0); 4], vec![F128::one(); 4]];
    let mut b = FieldR1csBuilder::new();
    let slices = alloc_selected_columns(&mut b, &columns, 2, Some(1));
    let (r1cs, witness) = b.build();
    assert!(r1cs.satisfies(&witness));
    let mut other = witness.clone();
    other[slices[0].start() + 1] = F128::new(77, 3);
    assert!(r1cs.satisfies(&other));
    other[slices[1].start() + 1] = F128::new(77, 3);
    assert!(!r1cs.satisfies(&other));
}

#[test]
fn pinned_cells_hold_their_wires() {
    let mut b = FieldR1csBuilder::new();
    let slice = alloc_column_slice_values_only(&mut b, &[F128::new(5, 0), F128::new(6, 0)], 1);
    let mut pins: Vec<CellPin> = Vec::new();
    push_pin(&mut pins, 0, 1, LinExpr::constant(F128::new(6, 0)));
    pin_stage2_cells(&mut b, &vec![slice], &pins);
    let (r1cs, witness) = b.build();
    assert!(r1cs.satisfies(&witness));
    let mut free = witness.clone();
    free[slice.start()] = F128::new(8, 0);
    assert!(r1cs.satisfies(&free), "an unpinned cell is free");
    let mut bad = witness;
    bad[slice.start() + 1] = F128::new(8, 0);
    assert!(!r1cs.satisfies(&bad));
}

#[test]
fn recording_bits_are_those_above_the_block() {
    assert_eq!(rec_hi_bits(0b1011_0000, 4, 9), vec![true, true, false, true, false]);
    assert_eq!(dyadic_region_bits(96, 32, 8), vec![true, true, false]);
    assert!(dyadic_region_bits(0, 256, 8).is_empty());
}

#[test]
fn a_pattern_of_a_region_is_zero_outside_it() {
    let whole = pattern_in_dyadic_region(common_period_ones(1, 2, 2), 0, 8, 3);
    let zeros_and_ones = |cells: &[u64]| cells.iter().map(|&c| F128::new(c, 0)).collect::<Vec<_>>();
    assert_eq!(whole.materialize(8), zeros_and_ones(&[0, 1, 1, 0, 0, 1, 1, 0]));
    let upper = pattern_in_dyadic_region(common_period_ones(1, 2, 2), 4, 4, 3);
    assert_eq!(upper.materialize(8), zeros_and_ones(&[0, 0, 0, 0, 0, 1, 1, 0]));
    let tiled = common_period_pattern(&[F128::new(3, 0), F128::new(4, 0)], 1, 3, 3);
    assert_eq!(tiled.materialize(8), zeros_and_ones(&[0, 3, 4, 3, 4, 3, 4, 0]));
}

/// A stand-in for the permutation of the path.
fn mix(input: [F128; 4]) -> [F128; 4] {
    let mut out = input;
    for round in 0..3u64 {
        for x in out.iter_mut() {
            *x = x.times(*x).times(*x).plus(F128::new(round + 1, 31));
        }
        out.rotate_left(1);
        out[0] = out[0].plus(out[3]);
    }
    out
}

/// The nine columns of one feed-forward path in eight slots, and its root.
fn ff_path_columns(depth: usize) -> (Vec<Vec<F128>>, [F128; 2]) {
    let mut columns = vec![vec![F128::zero(); 8]; 9];
    let mut carried = [F128::new(5, 7), F128::new(11, 13)];
    for level in 0..depth {
        let n = level as u64;
        let sibling = [F128::new(17 + n, 19 + n), F128::new(23 + n, 29 + n)];
        let right = level & 1 == 1;
        let (first, second) = if right { (sibling, carried) } else { (carried, sibling) };
        let state = mix([first[0], first[1], second[0], second[1]]);
        for (column, value) in state.iter().enumerate() {
            columns[column][level] = *value;
        }
        for lane in 0..2 {
            columns[4 + lane][level] = carried[lane];
            columns[6 + lane][level] = sibling[lane];
        }
        columns[8][level] = F128::from_bool(right);
        carried = [state[0].plus(first[0]), state[1].plus(first[1])];
    }
    if depth < 8 {
        columns[4][depth] = carried[0];
        columns[5][depth] = carried[1];
    }
    (columns, carried)
}

#[test]
fn wallet_ff_root_pin_uses_composite_only_at_power_of_two_depth() {
    // Depth five keeps the root-copy cell; depth eight has no tail, and two
    // products rebuild its root.
    for (depth, rows) in [(5, 2), (8, 4)] {
        let (columns, root) = ff_path_columns(depth);
        let mut b = FieldR1csBuilder::new();
        let slices = alloc_selected_columns(&mut b, &columns, 3, Some(8));
        let before = b.num_wires();
        let wires = WirePair { a: LinExpr::constant(root[0]), b: LinExpr::constant(root[1]) };
        pin_wallet_b_roots(&mut b, &slices, &vec![WalletFfRootPin::new(0, depth, wires)]);
        assert_eq!(b.num_wires() - before, rows);
        let (r1cs, witness) = b.build();
        assert!(r1cs.satisfies(&witness));
        let mut bad = witness.clone();
        let cell = if depth < 8 { slices[4].start() + depth } else { slices[6].start() + 7 };
        bad[cell] = bad[cell].plus(F128::one());
        assert!(!r1cs.satisfies(&bad));
    }
}

#[test]
fn a_wrong_public_root_is_refused() {
    for depth in [1, 3, 4, 8] {
        let (columns, root) = ff_path_columns(depth);
        let mut b = FieldR1csBuilder::new();
        let slices = alloc_selected_columns(&mut b, &columns, 3, Some(8));
        let wires = WirePair {
            a: LinExpr::constant(root[0]),
            b: LinExpr::constant(root[1].plus(F128::one())),
        };
        pin_wallet_b_roots(&mut b, &slices, &vec![WalletFfRootPin::new(0, depth, wires)]);
        let (r1cs, witness) = b.build();
        assert!(!r1cs.satisfies(&witness));
    }
}

#[test]
fn rearrangements_of_repeated_families_come_in_order() {
    use_families(&[1, 1, 2, 2, 2, 2], 15);
    use_families(&[3, 3, 3, 3, 3, 3], 1);
    use_families(&[0, 0, 1, 1, 4, 5], 180);
}

/// Counts the rearrangements of the families of these ranks, from the first on.
fn use_families(ranks: &[usize], expected: usize) {
    let families = [
        SelectedZkRegionFamily::Main,
        SelectedZkRegionFamily::Owner,
        SelectedZkRegionFamily::WalletB,
        SelectedZkRegionFamily::WalletA,
        SelectedZkRegionFamily::MetaA,
        SelectedZkRegionFamily::MetaB,
    ];
    let mut order = ranks
        .iter()
        .map(|&rank| families.into_iter().find(|f| f.index() == rank).unwrap())
        .collect::<Vec<_>>();
    let mut seen = 1;
    loop {
        let before = order.iter().map(|f| f.index()).collect::<Vec<_>>();
        let advanced = next_selected_family_permutation(&mut order);
        let after = order.iter().map(|f| f.index()).collect::<Vec<_>>();
        if !advanced {
            assert_eq!(after, before);
            break;
        }
        assert!(before < after);
        let mut sorted = after.clone();
        sorted.sort();
        assert_eq!(sorted, ranks);
        seen += 1;
    }
    assert_eq!(seen, expected);
}
