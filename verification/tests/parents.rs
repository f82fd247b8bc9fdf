//! The parent region of a history step.
use noid_recursive::basis::FlatBasis;
use noid_recursive::circuit::{FieldR1cs, FieldR1csBuilder, LinExpr};
use noid_recursive::columns::WitnessSlice;
use noid_recursive::duplex::{DuplexLayout, DuplexSlot, LanePosition, LaneSource, SubChannel};
use noid_recursive::duplex_union::ChannelColumns;
use noid_recursive::field::F128;
use noid_recursive::meta_draft::MerkleRegionFamily;
use noid_recursive::meta_pins::{DigestPair, WirePair};
use noid_recursive::parent_close::{
    finalize_history_step_parent_region, prepare_history_step_parent_columns, ArmObligations,
    CarrierWalks, Obligation, RecordingWalk,
};
use noid_recursive::parent_geometry::{
    checked_tree_structure, combined_leaf_descriptor, dense_path_geometry, dir_bit_offset,
    fewest_extra_paths, HistoryStepPcsCarrierGeometry, PcsParams, RegionSidecarError, TreeInfo,
};
use noid_recursive::parent_link::{
    build_recording_free_link_assembly, canonical_link_walk_slices, check_carried_roots,
    link_path_families, link_streams, HistoryStepParentGeometry, LayoutRecordedChannel, LinkProof, LinkQuery,
};
use noid_recursive::recording::{
    recording_cells, selected_cells, RecordedWires, RecordingCell, TierBlock,
};
use noid_recursive::sidecar_purpose::{
    auth_pcs_main_c_sidecar_purpose, auth_pcs_meta_a_sidecar_purpose,
    auth_pcs_meta_b_sidecar_purpose, auth_pcs_wallet_a_sidecar_purpose,
    auth_pcs_wallet_b_sidecar_purpose, link_r_pcs_leaf_sidecar_purpose,
    link_r_pcs_path_sidecar_purpose, link_recordings_purpose,
};
use noid_recursive::walk_planes::WalkColumns;

const LOG_PACKING: usize = 7;
const MAX_LANES: usize = 64;
const QUERIES: usize = 133;

fn params(m: usize) -> PcsParams {
    PcsParams {
        m: m + LOG_PACKING,
        log_inv_rate: 2,
        log_batch_size: 5,
        arities: vec![4, 4, 4, 4],
        fri_commits: 2,
        query_count: Some(QUERIES),
    }
}

fn at(slot: usize, lane: usize) -> LanePosition {
    LanePosition { slot, lane }
}

/// Three data lanes and a constant, then two challenges.
fn layout() -> DuplexLayout {
    DuplexLayout {
        slots: vec![
            DuplexSlot { lane0: Some(LaneSource::Data(0)), lane1: Some(LaneSource::Const(7)) },
            DuplexSlot { lane0: Some(LaneSource::Data(1)), lane1: None },
        ],
        challenges: vec![at(1, 0), at(1, 1)],
        n_data: 2,
    }
}

fn recording(layout: DuplexLayout) -> LayoutRecordedChannel {
    let data = vec![F128::one(); layout.n_data];
    let challenges = vec![None; layout.challenges.len()];
    LayoutRecordedChannel { layout, data, challenges, post_state: vec![], perms: 2 }
}

#[test]
fn single_parent_geometry_has_one_fixed_recording_recipe() {
    let single =
        HistoryStepParentGeometry::single(params(24), layout(), layout(), LOG_PACKING, MAX_LANES)
            .unwrap_or_else(|e| panic!("{e:?}"));
    assert_eq!(single.tier_count(), 1);
    assert_eq!(single.carrier.groups.len(), 1);
    assert!(single.child_layout(1).is_none());
    assert_eq!(single.child_layout(0), Some(&layout()));
    assert_eq!(single.r_prev_layout(0), Some(&layout()));
    assert_eq!((single.child_offset, single.r_prev_offset, single.rec_w_log), (0, 2, 2));
    let iv = DigestPair { a: F128::one(), b: F128::zero() };
    let list = || vec![recording(layout())];
    let specs = single.selected_recordings(&list(), &list(), 0, iv).unwrap_or_else(|e| panic!("{e:?}"));
    assert_eq!(specs.len(), 2);
    assert_eq!(specs[1].iv, iv);
    assert!(single.selected_recordings(&list(), &list(), 1, iv).is_err());
    let mut other = recording(layout());
    other.layout.challenges.pop();
    assert!(single.selected_recordings(&vec![other], &list(), 0, iv).is_err());
    let mut short = recording(layout());
    short.data.pop();
    assert!(single.selected_recordings(&list(), &vec![short], 0, iv).is_err());
}

#[test]
fn history_step_parent_geometry_has_two_tiers_and_two_selected_roles() {
    let geometry = HistoryStepParentGeometry::new(
        &vec![params(23), params(24)],
        vec![layout(), layout()],
        vec![layout(), layout()],
        2,
        LOG_PACKING,
        MAX_LANES,
    )
    .unwrap_or_else(|e| panic!("{e:?}"));
    assert_eq!(geometry.carrier.proof_roles, 1);
    assert_eq!(geometry.carrier.groups.len(), 2);
    assert_eq!(geometry.carrier.n_queries, QUERIES);
    assert_eq!(geometry.tier_count(), 2);
    let dense = dense_path_geometry(&geometry.carrier).unwrap_or_else(|e| panic!("{e:?}"));
    assert_eq!(dense.carrier_depths, [21, 17, 13, 9]);
    assert_eq!(dense.n_paths, QUERIES);
    assert_eq!(dense.family_path_counts, [141, 134, 133, 136]);
    assert_eq!(dense.active_slots, 1usize << 13);
    assert_eq!(dense.w_log, 13);
    let iv = DigestPair { a: F128::one(), b: F128::zero() };
    let families = link_path_families(&dense, iv);
    assert_eq!(
        families[1],
        MerkleRegionFamily::FeedForwardStrided {
            offset: 141 * 21,
            depth: 17,
            n_paths: 134,
            stride: 17,
            iv
        }
    );
    let lanes = geometry.carrier.leaf_lanes(MAX_LANES).unwrap_or_else(|e| panic!("{e:?}"));
    assert_eq!(lanes, vec![32; 4]);
    let leaf = combined_leaf_descriptor(&geometry.carrier, MAX_LANES)
        .unwrap_or_else(|e| panic!("{e:?}"));
    assert_eq!((leaf.tx_tile_log, leaf.lanes), (8, vec![32; 4]));

    let io = WitnessSlice { log2_len: 10, index: 1 };
    let slices = canonical_link_walk_slices(io, 14, 13, 2);
    assert_eq!(slices.leaf[0].start(), 16384);
    assert_eq!(slices.leaf[5].start(), 6 * 16384);
    assert_eq!(slices.path[0].start(), 7 * 16384);
    assert_eq!(slices.rec[0].start(), 7 * 16384 + 9 * 8192);
    assert_eq!(slices.selector.start(), 7 * 16384 + 9 * 8192 + 24);
}

#[test]
fn parent_shapes_that_do_not_fit_are_refused() {
    let build = |params: Vec<PcsParams>, tiers: usize| {
        HistoryStepParentGeometry::new(
            &params,
            (0..tiers).map(|_| layout()).collect(),
            (0..tiers).map(|_| layout()).collect(),
            tiers,
            LOG_PACKING,
            MAX_LANES,
        )
        .err()
    };
    assert_eq!(build(vec![params(23)], 2), Some(RegionSidecarError::BadVk));
    let mut other = params(24);
    other.query_count = Some(QUERIES + 1);
    assert_eq!(
        build(vec![params(23), other], 2),
        Some(RegionSidecarError::UnsupportedVkShape)
    );
    let mut deep = params(24);
    deep.fri_commits = 4;
    assert_eq!(build(vec![deep], 1), Some(RegionSidecarError::BadVk));
    let mut rate = params(24);
    rate.log_inv_rate = 6;
    assert_eq!(build(vec![rate], 1), Some(RegionSidecarError::UnsupportedVkShape));
    let mut uncounted = params(23);
    uncounted.query_count = None;
    assert_eq!(
        build(vec![uncounted, params(24)], 2),
        Some(RegionSidecarError::UnsupportedVkShape),
        "no query count in the first tier"
    );
}

#[test]
fn a_commitment_has_its_ladder_of_trees() {
    let trees =
        checked_tree_structure(&params(24), LOG_PACKING, MAX_LANES).unwrap_or_else(|e| panic!("{e:?}"));
    let tree = |lanes, depth| TreeInfo { lanes, depth };
    assert_eq!(trees, vec![tree(32, 21), tree(32, 17), tree(32, 13), tree(32, 9)]);
    assert_eq!(dir_bit_offset(&trees, 2, 21), 8);
}

#[test]
fn padding_is_filled_with_the_fewest_paths() {
    assert_eq!(fewest_extra_paths(&vec![21, 17, 13, 9], 212), Some(vec![8, 1, 0, 3]));
    assert_eq!(fewest_extra_paths(&vec![4, 6], 7), None);
    assert_eq!(fewest_extra_paths(&vec![4, 6], 0), Some(vec![0, 0]));
    let mixed = fewest_extra_paths(&vec![5, 4], 12).unwrap();
    assert_eq!(mixed, vec![0, 3]);
}

#[test]
fn a_recording_uses_its_challenge_and_data_cells() {
    let cell = |column, offset| RecordingCell { column, offset };
    let cells = recording_cells(&layout(), 4, 8);
    assert_eq!(cells, vec![cell(2, 5), cell(3, 5), cell(0, 4), cell(0, 5)]);
    let marked = selected_cells(&vec![TierBlock { layout: layout(), base: 0 }], 4);
    assert_eq!(marked[0], vec![true, true, false, false]);
    assert_eq!(marked[1], vec![false; 4]);
    assert_eq!(marked[3], vec![false, true, false, false]);
}

#[test]
fn the_purposes_differ() {
    let purposes = [
        auth_pcs_wallet_a_sidecar_purpose(),
        auth_pcs_meta_a_sidecar_purpose(),
        auth_pcs_wallet_b_sidecar_purpose(),
        auth_pcs_meta_b_sidecar_purpose(),
        auth_pcs_main_c_sidecar_purpose(),
        link_r_pcs_leaf_sidecar_purpose(),
        link_r_pcs_path_sidecar_purpose(),
        link_recordings_purpose("child", "step"),
    ];
    assert_eq!(purposes[7].inputs, vec!["child", "step"]);
    for (i, x) in purposes.iter().enumerate() {
        for y in &purposes[i + 1..] {
            assert!(x.domain != y.domain || x.inputs != y.inputs);
        }
    }
}

struct Region {
    matrix: FieldR1cs,
    witness: Vec<F128>,
    leaf: usize,
    entry: usize,
    direction: usize,
    root: usize,
    selector: usize,
    recorded: usize,
}

fn f(lo: u64) -> F128 {
    F128::new(lo, 0)
}

/// One query, one tree of depth two on a carrier of depth three, two tiers.
fn region(active: usize) -> Region {
    let leaf: Vec<Vec<F128>> = (0..6).map(|c| vec![f(10 + c), f(20 + c)]).collect();
    let mut path: Vec<Vec<F128>> =
        (0..9).map(|c| (0..4).map(|s| f(100 + 10 * c + s)).collect()).collect();
    path[8] = vec![f(1), f(0), f(1), f(0)];
    // The leaf digest enters the path.
    path[4][0] = leaf[2][0];
    path[5][0] = leaf[3][0];
    let rec: Vec<Vec<F128>> =
        (0..6).map(|c| (0..4).map(|s| f(300 + 10 * c + s)).collect()).collect();
    let child = || TierBlock { layout: layout(), base: 0 };
    let r_prev = || TierBlock { layout: layout(), base: 2 };

    let mut b = FieldR1csBuilder::new();
    let blocks = vec![child(), r_prev(), child(), r_prev()];
    let mut columns =
        prepare_history_step_parent_columns(&mut b, &leaf, 1, &path, 2, &rec, 2, &blocks, 2, active)
            .unwrap_or_else(|e| panic!("{e:?}"));

    let wire = |b: &mut FieldR1csBuilder, value: F128| LinExpr::from_wire(b.alloc_f128(value));
    // The active tier claims what the columns carry, the other anything.
    let mut arms = Vec::new();
    let mut children = Vec::new();
    let mut enclosing = Vec::new();
    for tier in 0..2 {
        let off = if tier == active { f(0) } else { f(9) };
        let lanes =
            vec![wire(&mut b, leaf[0][0].plus(off)), wire(&mut b, leaf[1][0].plus(off))];
        let dir_bits = vec![wire(&mut b, path[8][0]), wire(&mut b, path[8][1].plus(off))];
        let root = WirePair {
            a: wire(&mut b, path[4][2].plus(off)),
            b: wire(&mut b, path[5][2].plus(off)),
        };
        arms.push(ArmObligations {
            trees: vec![TreeInfo { lanes: 2, depth: 2 }],
            obligations: vec![Obligation { lanes, dir_bits, root }],
        });
        for (base, list) in [(0, &mut children), (2, &mut enclosing)] {
            list.push(RecordedWires {
                challenge_wires: vec![
                    wire(&mut b, rec[2][base + 1].plus(off)),
                    wire(&mut b, rec[3][base + 1].plus(off)),
                ],
                data_wires: vec![
                    wire(&mut b, rec[0][base].plus(off)),
                    wire(&mut b, rec[0][base + 1].plus(off)),
                ],
            });
        }
    }
    let selectors =
        vec![LinExpr::from_wire(b.alloc_bool(active == 0)), LinExpr::from_wire(b.alloc_bool(active == 1))];
    let walks = CarrierWalks {
        slices_a: columns.slices_a.clone(),
        slices_b: columns.slices_b.clone(),
        leaf_block_log: 1,
        channel_log: 1,
        leaf_w_log: 1,
        path_w_log: 2,
        n_queries: 1,
        lanes: vec![2],
        leaf_positions: vec![vec![at(0, 0), at(0, 1)]],
        carrier_depths: vec![3],
        leg_offsets: vec![0],
    };
    let walk = RecordingWalk {
        slices: columns.slices_rec.clone(),
        w_log: 2,
        child_blocks: vec![child(), child()],
        r_prev_blocks: vec![r_prev(), r_prev()],
    };
    finalize_history_step_parent_region(
        &mut b,
        &walks,
        &columns.selector_slice,
        &walk,
        &mut columns.slots,
        &arms,
        &selectors,
        &children,
        &enclosing,
        active,
    )
    .unwrap_or_else(|e| panic!("{e:?}"));
    let (matrix, witness) = b.build();
    Region {
        matrix,
        witness,
        leaf: columns.slices_a[0].start(),
        entry: columns.slices_b[4].start(),
        direction: columns.slices_b[8].start() + 1,
        root: columns.slices_b[5].start() + 2,
        selector: columns.selector_slice.start(),
        recorded: columns.slices_rec[2].start() + 1,
    }
}

#[test]
fn a_parent_region_binds_the_tier_that_is_selected() {
    let first = region(0);
    let second = region(1);
    assert!(first.matrix.satisfies(&first.witness));
    assert!(second.matrix.satisfies(&second.witness));
    assert!(first.matrix.same_structure(&second.matrix), "one matrix for both tiers");
    for built in [&first, &second] {
        for cell in
            [built.leaf, built.entry, built.direction, built.root, built.selector, built.recorded]
        {
            let mut bad = built.witness.clone();
            bad[cell] = bad[cell].plus(F128::one());
            assert!(!built.matrix.satisfies(&bad), "cell {cell}");
        }
    }
}

/// Two queries of two trees of depths three and two, four lanes a leaf.
fn link_fixture() -> (HistoryStepPcsCarrierGeometry, LinkProof) {
    let trees = vec![TreeInfo { lanes: 4, depth: 3 }, TreeInfo { lanes: 4, depth: 2 }];
    let digest = |seed: u64| DigestPair { a: f(seed), b: f(seed + 1) };
    let queries = (0..2u64)
        .map(|q| LinkQuery {
            leaves: (0..2).map(|t| (0..4).map(|k| f(100 * q + 10 * t + k)).collect()).collect(),
            paths: vec![
                (0..3).map(|l| digest(1000 + 100 * q + 2 * l)).collect(),
                (0..2).map(|l| digest(2000 + 100 * q + 2 * l)).collect(),
            ],
            position: 5 + q as usize,
        })
        .collect();
    let digests = (0..2u64).map(|q| (0..2).map(|t| digest(3000 + 10 * q + 2 * t)).collect()).collect();
    let carrier =
        HistoryStepPcsCarrierGeometry { groups: vec![trees.clone()], n_queries: 2, proof_roles: 1 };
    let roots = vec![digest(9000), digest(9100)];
    (carrier, LinkProof { trees, statement: vec![1, 2, 3], queries, digests, roots })
}

#[test]
fn a_link_carries_the_leaves_and_paths_of_its_proof() {
    let (carrier, proof) = link_fixture();
    let proofs = vec![proof];
    let statements = vec![vec![1, 2, 3]];
    let streams = link_streams(&proofs, &carrier, &statements, &vec![0], MAX_LANES)
        .unwrap_or_else(|e| panic!("{e:?}"));
    assert_eq!(streams.lanes, vec![4, 4]);
    assert_eq!(streams.tiles.len(), 2);
    assert_eq!(streams.tiles[1][0], vec![f(100), f(101), f(102), f(103)]);
    let dense = &streams.dense;
    assert_eq!(dense.carrier_depths, vec![3, 2]);
    assert_eq!(dense.family_path_counts, vec![4, 2]);
    assert_eq!((dense.active_slots, dense.family_offsets[1]), (16, 12));
    let opened = &streams.witnesses[0][0];
    assert_eq!(opened.entry, DigestPair { a: f(3000), b: f(3001) });
    assert_eq!(opened.directions, vec![true, false, true], "position five");
    assert_eq!(streams.witnesses[1][1].directions, vec![true, true], "the high bits of six");
    assert_eq!(streams.witnesses[0][3].entry.a, F128::zero(), "a path past the queries");

    // One channel a tree position, four data lanes each.
    let leaf = || DuplexLayout {
        slots: vec![
            DuplexSlot { lane0: Some(LaneSource::Data(0)), lane1: Some(LaneSource::Data(1)) },
            DuplexSlot { lane0: Some(LaneSource::Data(2)), lane1: Some(LaneSource::Data(3)) },
        ],
        challenges: vec![],
        n_data: 4,
    };
    let iv = DigestPair { a: F128::one(), b: F128::zero() };
    let subs = vec![SubChannel { layout: leaf(), iv }, SubChannel { layout: leaf(), iv }];
    let columns = |tracks: usize, len: usize, salt: u64| WalkColumns {
        tracks: (0..tracks)
            .map(|t| (0..len).map(|s| F128::new(salt + t as u64, s as u64)).collect())
            .collect(),
    };
    let channels = (0..4)
        .map(|c| ChannelColumns { columns: columns(14, 2, 100 * c), challenges: vec![] })
        .collect::<Vec<_>>();
    // The families hold their paths four slots apart.
    let mut sources = vec![columns(17, 16, 7000), columns(17, 8, 8000)];
    // Every path starts at the digest of its leaf.
    for query in 0..2 {
        for tree in 0..2 {
            for lane in 0..2 {
                let digest = channels[2 * query + tree].columns.tracks[2 + lane][1];
                sources[tree].tracks[4 + lane][4 * query] = digest;
            }
        }
    }
    // Every path reaches the committed root of its tree.
    for query in 0..2 {
        for (tree, depth) in [(0usize, 3usize), (1, 2)] {
            let last = 4 * query + depth - 1;
            let root = [proofs[0].roots[tree].a, proofs[0].roots[tree].b];
            for lane in 0..2 {
                let tracks = &mut sources[tree].tracks;
                let carried = tracks[4 + lane][last];
                let turned = tracks[8][last].times(carried.plus(tracks[6 + lane][last]));
                tracks[lane][last] = root[lane].plus(carried).plus(turned);
            }
        }
    }
    let strides = vec![4, 4];
    assert!(check_carried_roots(&proofs, 2, dense, &sources, &strides));
    sources[1].tracks[1][5] = sources[1].tracks[1][5].plus(F128::one());
    assert!(!check_carried_roots(&proofs, 2, dense, &sources, &strides), "a wrong root");
    sources[1].tracks[1][5] = sources[1].tracks[1][5].plus(F128::one());
    let assembly = build_recording_free_link_assembly(
        &proofs,
        2,
        &subs,
        &channels,
        dense,
        &sources,
        &strides,
        iv,
        &FlatBasis::coordinate(),
    );
    assert_eq!(assembly.s_log, 1);
    assert_eq!(assembly.u_a.w_log, 3);
    assert_eq!(assembly.u_a.columns.tracks[3][5], F128::new(203, 1));
    assert_eq!(assembly.leaf_data_positions[1], vec![at(2, 0), at(2, 1), at(3, 0), at(3, 1)]);
    assert_eq!(assembly.path.tracks[0][4], F128::new(7000, 5), "path one, level one");
    assert_eq!(assembly.path.tracks[8][15], F128::new(8008, 5));
    assert_eq!(assembly.path.tracks[4][14], assembly.u_a.columns.tracks[2][7], "a join");
    assert_eq!(
        assembly.path_families[1],
        MerkleRegionFamily::FeedForwardStrided { offset: 12, depth: 2, n_paths: 2, stride: 2, iv }
    );
}

#[test]
fn a_carried_path_with_a_slot_to_spare_reads_its_root_there() {
    let (carrier, mut proof) = link_fixture();
    let dense = dense_path_geometry(&carrier).unwrap_or_else(|e| panic!("{e:?}"));
    // The trees of a smaller tier: two levels in a carrier of three.
    proof.trees[0].depth = 2;
    proof.trees.truncate(1);
    proof.roots.truncate(1);
    let mut tracks = vec![vec![F128::zero(); 16]; 17];
    for query in 0..2 {
        tracks[4][4 * query + 2] = proof.roots[0].a;
        tracks[5][4 * query + 2] = proof.roots[0].b;
    }
    let sources = vec![
        WalkColumns { tracks: tracks.clone() },
        WalkColumns { tracks: vec![vec![F128::zero(); 8]; 17] },
    ];
    let proofs = vec![proof];
    assert!(check_carried_roots(&proofs, 2, &dense, &sources, &vec![4, 4]));
    tracks[5][6] = F128::zero();
    let bad = vec![WalkColumns { tracks }, WalkColumns { tracks: vec![vec![F128::zero(); 8]; 17] }];
    assert!(!check_carried_roots(&proofs, 2, &dense, &bad, &vec![4, 4]));
}

#[test]
fn a_link_of_another_shape_is_refused() {
    let statements = vec![vec![1, 2, 3]];
    let refused = |carrier, proof, active| {
        link_streams(&vec![proof], &carrier, &statements, &vec![active], MAX_LANES).err()
    };
    let (carrier, mut proof) = link_fixture();
    proof.statement[0] = 9;
    assert_eq!(refused(carrier, proof, 0), Some(RegionSidecarError::UnsupportedVkShape));
    let (carrier, proof) = link_fixture();
    assert_eq!(refused(carrier, proof, 1), Some(RegionSidecarError::UnsupportedVkShape));
    let (carrier, mut proof) = link_fixture();
    proof.queries[1].leaves[0].pop();
    assert_eq!(refused(carrier, proof, 0), Some(RegionSidecarError::UnsupportedVkShape));
}

#[test]
fn a_leaf_walk_has_a_tile_and_is_refused_when_its_queries_do_not_fit() {
    let tree = |lanes| TreeInfo { depth: 3, lanes };
    let carrier = |lanes: &[usize], n_queries, proof_roles| HistoryStepPcsCarrierGeometry {
        groups: vec![lanes.iter().map(|&n| tree(n)).collect()],
        n_queries,
        proof_roles,
    };
    let tile_log = |c: &HistoryStepPcsCarrierGeometry| {
        combined_leaf_descriptor(c, MAX_LANES).map(|d| d.tx_tile_log)
    };
    assert_eq!(tile_log(&carrier(&[4, 2], 0, 1)), Ok(0));
    assert_eq!(tile_log(&carrier(&[4, 2], 9, 1)), Ok(4));
    assert_eq!(
        tile_log(&carrier(&[4, 2], usize::MAX, 2)),
        Err(RegionSidecarError::BadVk)
    );
    assert_eq!(tile_log(&carrier(&[4, 2], usize::MAX, 1)), Err(RegionSidecarError::BadVk));
    assert_eq!(tile_log(&carrier(&[4], 9, 1)), Err(RegionSidecarError::UnsupportedVkShape));
}

#[test]
fn the_streams_of_the_active_tier_are_chosen() {
    let geometry = HistoryStepParentGeometry::new(
        &vec![params(23), params(24)],
        vec![layout(), layout()],
        vec![layout(), layout()],
        2,
        LOG_PACKING,
        MAX_LANES,
    )
    .unwrap_or_else(|e| panic!("{e:?}"));
    let seeded = |seed: u64| {
        let mut channel = recording(layout());
        channel.data = vec![f(seed), f(seed + 1)];
        channel
    };
    let children = vec![seeded(10), seeded(20)];
    let r_prev = vec![seeded(30), seeded(40)];
    for slot in 0..2 {
        let streams = geometry
            .selected_streams(&children, &r_prev, slot)
            .unwrap_or_else(|e| panic!("{e:?}"));
        assert_eq!(streams, vec![children[slot].data.clone(), r_prev[slot].data.clone()]);
    }
    assert_eq!(
        geometry.selected_streams(&children, &r_prev, 2).err(),
        Some(RegionSidecarError::UnsupportedVkShape)
    );
}
