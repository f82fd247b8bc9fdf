//! Channels that share a walk, and recordings packed into one.
use noid_recursive::basis::FlatBasis;
use noid_recursive::circuit::{FieldR1csBuilder, LinExpr};
use noid_recursive::columns::{alloc_column_slice_values_only, slot_cell, WitnessSlice};
use noid_recursive::duplex::{
    combined_duplex_fixed_patterns, combined_duplex_layout, duplex_data_positions,
    pack_recording_only_blocks, DuplexLayout, DuplexSlot, LanePosition, LaneSource, SubChannel,
};
use noid_recursive::duplex_regions::{build_combined_duplex_union_with_recordings, pack_recordings};
use noid_recursive::duplex_union::{
    build_combined_duplex_union, build_recording_only_duplex_union, combined_geometry,
    combined_stream, recording_tail, ChannelColumns, DuplexUnion, RecordingSpec,
};
use noid_recursive::field::F128;
use noid_recursive::meta_pins::DigestPair;
use noid_recursive::relation_terms::{ColRef, MdsTable};
use noid_recursive::trace::pin_eq;
use noid_recursive::union_terms::duplex_substitution_terms_sets;
use noid_recursive::walk_claims::{walk_target, LaneClaimGroup};
use noid_recursive::walk_planes::WalkColumns;

const TAG: u128 = 0x0102_0304_0506_0708_090A_0B0C_0D0E_0F10;

fn f(lo: u64) -> F128 {
    F128::new(lo, 0)
}

fn data(k: usize) -> Option<LaneSource> {
    Some(LaneSource::Data(k))
}

fn slot(lane0: Option<LaneSource>, lane1: Option<LaneSource>) -> DuplexSlot {
    DuplexSlot { lane0, lane1 }
}

fn at(slot: usize, lane: usize) -> LanePosition {
    LanePosition { slot, lane }
}

/// Seven slots, six data lanes, five challenges.
fn channel0() -> DuplexLayout {
    DuplexLayout {
        slots: vec![
            slot(data(0), data(1)),
            slot(data(2), Some(LaneSource::Const(TAG))),
            slot(None, None),
            slot(data(3), data(4)),
            slot(data(5), Some(LaneSource::Const(0x80))),
            slot(None, None),
            slot(None, None),
        ],
        challenges: vec![at(1, 0), at(1, 1), at(4, 0), at(4, 1), at(5, 0)],
        n_data: 6,
    }
}

/// Four slots, three data lanes, three challenges.
fn channel1() -> DuplexLayout {
    DuplexLayout {
        slots: vec![
            slot(data(0), data(1)),
            slot(data(2), None),
            slot(None, None),
            slot(None, None),
        ],
        challenges: vec![at(0, 0), at(1, 0), at(1, 1)],
        n_data: 3,
    }
}

/// Three slots, four data lanes, two challenges.
fn channel2() -> DuplexLayout {
    DuplexLayout {
        slots: vec![slot(data(0), data(1)), slot(data(2), data(3)), slot(None, None)],
        challenges: vec![at(1, 0), at(1, 1)],
        n_data: 4,
    }
}

fn iv(seed: u64) -> DigestPair {
    DigestPair { a: F128::new(seed, 77), b: F128::new(seed + 1, 78) }
}

fn tx_data(layout: &DuplexLayout, seed: u64) -> Vec<F128> {
    let mut r = seed;
    (0..layout.n_data)
        .map(|_| {
            r = r.wrapping_mul(0x9E37_79B9_7F4A_7C15).wrapping_add(0x1234_5);
            F128::new(r, r.rotate_left(29) ^ 0xA5A5)
        })
        .collect()
}

fn mds() -> MdsTable {
    let mut entries = [F128::zero(); 16];
    for (k, entry) in entries.iter_mut().enumerate() {
        *entry = f([5, 7, 1, 3, 4, 6, 1, 1, 1, 3, 5, 7, 1, 1, 4, 6][k]);
    }
    MdsTable { entries }
}

/// A stand-in for the permutation: the mixed state, then its image.
fn permute(input: [F128; 4]) -> ([F128; 4], [F128; 4]) {
    let m = mds();
    let mut s0 = [F128::zero(); 4];
    for (e, s) in s0.iter_mut().enumerate() {
        for (j, x) in input.iter().enumerate() {
            *s = s.plus(m.entries[4 * e + j].times(*x));
        }
    }
    let mut out = s0;
    for round in 0..3u64 {
        for x in out.iter_mut() {
            *x = x.times(*x).times(*x).plus(f(round + 1));
        }
        out.rotate_left(1);
        out[0] = out[0].plus(out[3]);
    }
    (s0, out)
}

/// The columns of one channel, slot by slot.
fn channel_columns(
    layout: &DuplexLayout,
    iv: DigestPair,
    stream: &[F128],
    s_log: usize,
    basis: &FlatBasis,
) -> ChannelColumns {
    let mut tracks: Vec<Vec<F128>> = vec![Vec::new(); 14];
    let mut carry = [F128::zero(), F128::zero(), iv.a, iv.b];
    for index in 0..1usize << s_log {
        let mut input = carry;
        let sources = layout.slots.get(index).map_or([None, None], |s| [s.lane0, s.lane1]);
        for lane in 0..2 {
            let cell = match sources[lane] {
                Some(LaneSource::Data(k)) => stream[k],
                _ => F128::zero(),
            };
            tracks[lane].push(cell);
            let absorbed = match sources[lane] {
                Some(LaneSource::Data(k)) => stream[k],
                Some(LaneSource::Const(value)) => basis.to_flat(value),
                None => F128::zero(),
            };
            input[lane] = input[lane].plus(absorbed);
        }
        let (s0, out) = permute(input);
        for lane in 0..4 {
            tracks[2 + lane].push(out[lane]);
            tracks[6 + lane].push(s0[lane]);
            tracks[10 + lane].push(out[lane]);
        }
        carry = out;
    }
    let challenges =
        layout.challenges.iter().map(|p| tracks[2 + p.lane][p.slot]).collect();
    ChannelColumns { columns: WalkColumns { tracks }, challenges }
}

fn combined(subs: &Vec<SubChannel>, streams: &Vec<Vec<Vec<F128>>>) -> DuplexUnion {
    let basis = FlatBasis::coordinate();
    let g = combined_geometry(subs, streams.len());
    let empty = DuplexLayout { slots: vec![], challenges: vec![], n_data: 0 };
    let mut channels = Vec::new();
    for blk in 0..g.blocks {
        for i in 0..g.channels {
            let stream = combined_stream(subs, streams, blk, i);
            let (layout, iv) = match subs.get(i) {
                Some(sub) => (&sub.layout, sub.iv),
                None => (&empty, DigestPair { a: F128::zero(), b: F128::zero() }),
            };
            channels.push(channel_columns(layout, iv, &stream, g.s_log, &basis));
        }
    }
    build_combined_duplex_union(subs, streams.len(), &channels, &basis).0
}

fn alone(layout: &DuplexLayout, iv: DigestPair, stream: &[F128]) -> Vec<F128> {
    let s_log = layout.slots.len().next_power_of_two().trailing_zeros() as usize;
    channel_columns(layout, iv, stream, s_log, &FlatBasis::coordinate()).challenges
}

/// The slots at which the substitution relation of a union fails.
fn broken_slots(u: &DuplexUnion) -> Vec<usize> {
    let alpha = F128::new(0x1357, 0x2468);
    let terms = duplex_substitution_terms_sets(&mds(), &u.refs, &u.rec_refs, alpha);
    let len = 1usize << u.w_log;
    let fixed = u.fixed.iter().map(|p| p.materialize(len)).collect::<Vec<_>>();
    (0..len)
        .filter(|&w| {
            let before = (w + len - 1) % len;
            let mut sum = F128::zero();
            for term in &terms {
                let product = term.factors.iter().fold(term.coeff, |p, factor| {
                    p.times(match *factor {
                        ColRef::Committed(c) => u.columns.tracks[c][w],
                        ColRef::CommittedShift(c) => u.columns.tracks[c][before],
                        ColRef::Fixed(k) => fixed[k][w],
                        _ => unreachable!(),
                    })
                });
                sum = sum.plus(product);
            }
            let lanes = LaneClaimGroup {
                point: vec![],
                values: (0..4).map(|e| u.columns.tracks[6 + e][w]).collect(),
            };
            sum != walk_target(alpha, &lanes)
        })
        .collect()
}

#[test]
fn combined_correctness_vs_separate() {
    let (ch0, ch1) = (channel0(), channel1());
    assert_eq!((ch0.slots.len(), ch0.n_data, ch0.challenges.len()), (7, 6, 5));
    assert_eq!((ch1.slots.len(), ch1.n_data, ch1.challenges.len()), (4, 3, 3));
    let (iv0, iv1) = (iv(1), iv(11));
    let subs = vec![
        SubChannel { layout: channel0(), iv: iv0 },
        SubChannel { layout: channel1(), iv: iv1 },
    ];
    let k = 2usize;
    let streams: Vec<Vec<Vec<F128>>> = (0..k)
        .map(|t| vec![tx_data(&ch0, 0x1000 + t as u64), tx_data(&ch1, 0x2000 + t as u64)])
        .collect();
    let u = combined(&subs, &streams);
    let (n0, n1) = (ch0.challenges.len(), ch1.challenges.len());
    assert_eq!(u.challenges.len(), k);
    for t in 0..k {
        assert_eq!(u.challenges[t].len(), n0 + n1, "concatenated challenge count");
        assert_eq!(u.challenges[t][0..n0], alone(&ch0, iv0, &streams[t][0])[..]);
        assert_eq!(u.challenges[t][n0..n0 + n1], alone(&ch1, iv1, &streams[t][1])[..]);
    }
    assert_ne!(u.challenges[0], u.challenges[1]);
    assert_eq!(duplex_data_positions(&u.layout).len(), ch0.n_data + ch1.n_data);
    assert!(broken_slots(&u).is_empty());
}

#[test]
fn combined_ghost_padding() {
    let (ch0, ch1, ch2) = (channel0(), channel1(), channel2());
    let ivs = [iv(1), iv(11), iv(21)];
    let subs = vec![
        SubChannel { layout: channel0(), iv: ivs[0] },
        SubChannel { layout: channel1(), iv: ivs[1] },
        SubChannel { layout: channel2(), iv: ivs[2] },
    ];
    let k = 3usize;
    let streams: Vec<Vec<Vec<F128>>> = (0..k)
        .map(|t| {
            vec![
                tx_data(&ch0, 0x11 + t as u64),
                tx_data(&ch1, 0x22 + t as u64),
                tx_data(&ch2, 0x33 + t as u64),
            ]
        })
        .collect();
    let u = combined(&subs, &streams);
    assert_eq!(1usize << u.block_log, 4 * 8, "N padded to a power of two");
    assert_eq!(u.w_log, 7, "K padded to a power of two");
    let (n0, n1, n2) = (ch0.challenges.len(), ch1.challenges.len(), ch2.challenges.len());
    assert_eq!(u.challenges.len(), k, "K real tx challenge streams (ghost tile excluded)");
    for t in 0..k {
        assert_eq!(u.challenges[t].len(), n0 + n1 + n2);
        assert_eq!(u.challenges[t][0..n0], alone(&ch0, ivs[0], &streams[t][0])[..]);
        assert_eq!(u.challenges[t][n0..n0 + n1], alone(&ch1, ivs[1], &streams[t][1])[..]);
        assert_eq!(u.challenges[t][n0 + n1..], alone(&ch2, ivs[2], &streams[t][2])[..]);
    }
    assert!(broken_slots(&u).is_empty());
}

#[test]
fn carry_reset_is_load_bearing() {
    let (ch0, ch1) = (channel0(), channel1());
    let (iv0, iv1) = (iv(1), iv(11));
    let subs = vec![
        SubChannel { layout: channel0(), iv: iv0 },
        SubChannel { layout: channel1(), iv: iv1 },
    ];
    let streams: Vec<Vec<Vec<F128>>> = (0..2)
        .map(|t| vec![tx_data(&ch0, 0x900 + t as u64), tx_data(&ch1, 0xA00 + t as u64)])
        .collect();
    let mut u = combined(&subs, &streams);
    let s = 8usize;
    let ones: Vec<usize> = u.fixed[u.refs.start]
        .table
        .iter()
        .enumerate()
        .filter(|(_, v)| **v == F128::one())
        .map(|(i, _)| i)
        .collect();
    assert_eq!(ones, vec![0, s], "START resets each sub-channel's carry at i·S");
    assert_eq!(u.fixed[u.refs.consts + 2].table[0], iv0.a);
    assert_eq!(u.fixed[u.refs.consts + 3].table[0], iv0.b);
    assert_eq!(u.fixed[u.refs.consts + 2].table[s], iv1.a);
    assert_eq!(u.fixed[u.refs.consts + 3].table[s], iv1.b);
    assert!(broken_slots(&u).is_empty());

    u.fixed[u.refs.start].table[s] = F128::zero();
    assert_eq!(broken_slots(&u), vec![s, 16 + s], "removing the carry reset must break the walk");
}

#[test]
fn the_combined_schedule_renumbers_data_and_moves_challenges() {
    let subs = vec![
        SubChannel { layout: channel0(), iv: iv(1) },
        SubChannel { layout: channel1(), iv: iv(2) },
    ];
    let layout = combined_duplex_layout(&subs, 3);
    assert_eq!(layout.slots.len(), 16);
    assert_eq!(layout.n_data, 9);
    assert_eq!(layout.slots[8], slot(data(6), data(7)));
    assert_eq!(layout.slots[7], slot(None, None));
    assert_eq!(layout.challenges[5], at(8, 0));
    let positions = duplex_data_positions(&layout);
    assert_eq!(positions[2], at(1, 0));
    assert_eq!(positions[8], at(9, 0));
    let patterns = combined_duplex_fixed_patterns(&subs, 3, &FlatBasis::coordinate());
    assert_eq!(patterns[4].table[1], F128 { bits: TAG });
    assert_eq!(patterns[1].table[9], F128::one());
    assert_eq!(patterns[2].table[9], F128::zero());
}

#[test]
fn recordings_are_packed_by_falling_size() {
    let packing = pack_recording_only_blocks(&vec![3, 9, 0, 4]);
    assert_eq!(packing.sizes, vec![4, 16, 1, 4]);
    assert_eq!(packing.offsets, vec![16, 0, 24, 20]);
    assert_eq!((packing.used, packing.w_log), (25, 5));
}

/// Recordings packed into one walk, and the chain that leaves the last block.
fn recorded(specs: &Vec<RecordingSpec>, streams: &[Vec<F128>]) -> DuplexUnion {
    let basis = FlatBasis::coordinate();
    let lengths = specs.iter().map(|spec| spec.layout.slots.len()).collect::<Vec<_>>();
    let channels = specs
        .iter()
        .zip(streams)
        .map(|(spec, stream)| {
            let s_log = spec.layout.slots.len().next_power_of_two().trailing_zeros() as usize;
            channel_columns(&spec.layout, spec.iv, stream, s_log, &basis)
        })
        .collect::<Vec<_>>();
    let start = recording_tail(&lengths, &channels);
    let mut tracks: Vec<Vec<F128>> = vec![Vec::new(); 14];
    let mut carry = [start.carry[0], start.carry[1], start.carry[2], start.carry[3]];
    for _ in 0..start.slots {
        let (s0, out) = permute(carry);
        for lane in 0..4 {
            tracks[2 + lane].push(out[lane]);
            tracks[6 + lane].push(s0[lane]);
            tracks[10 + lane].push(out[lane]);
        }
        carry = out;
    }
    build_recording_only_duplex_union(specs, channels, WalkColumns { tracks }, &basis)
}

fn chain(start: &[F128], slots: usize) -> WalkColumns {
    let mut tracks: Vec<Vec<F128>> = vec![Vec::new(); 14];
    let mut carry = [start[0], start[1], start[2], start[3]];
    for _ in 0..slots {
        let (s0, out) = permute(carry);
        for lane in 0..4 {
            tracks[2 + lane].push(out[lane]);
            tracks[6 + lane].push(s0[lane]);
            tracks[10 + lane].push(out[lane]);
        }
        carry = out;
    }
    WalkColumns { tracks }
}

/// Two rows of one channel with two recordings behind them.
fn hosting(seeds: [u64; 2]) -> (DuplexUnion, Vec<RecordingSpec>, Vec<Vec<F128>>) {
    let basis = FlatBasis::coordinate();
    let subs = vec![SubChannel { layout: channel1(), iv: iv(3) }];
    let streams: Vec<Vec<Vec<F128>>> =
        (0..2).map(|t| vec![tx_data(&channel1(), 0xBEEF + t as u64)]).collect();
    let rows = (0..2)
        .map(|t| channel_columns(&channel1(), iv(3), &streams[t][0], 2, &basis))
        .collect::<Vec<_>>();
    let specs = vec![
        RecordingSpec { layout: channel2(), iv: iv(40) },
        RecordingSpec { layout: channel0(), iv: iv(41) },
    ];
    let data = vec![tx_data(&channel2(), seeds[0]), tx_data(&channel0(), seeds[1])];
    let channels = vec![
        channel_columns(&channel2(), iv(40), &data[0], 2, &basis),
        channel_columns(&channel0(), iv(41), &data[1], 3, &basis),
    ];
    let lengths = vec![3, 7];
    let packing = pack_recordings(8, &lengths);
    assert_eq!((packing.base, packing.w_log), (8, 5));
    assert_eq!(packing.packing.offsets, vec![8, 0]);
    let last_row = (0..4).map(|lane| rows[1].columns.tracks[2 + lane][3]).collect::<Vec<_>>();
    let between = chain(&last_row, 0);
    let last = (0..4).map(|lane| channels[0].columns.tracks[2 + lane][3]).collect::<Vec<_>>();
    let tail = chain(&last, 32 - 20);
    let u = build_combined_duplex_union_with_recordings(
        &subs, 2, &rows, &specs, &channels, &between, &tail, &basis,
    );
    (u, specs, data)
}

#[test]
fn duplex_union_two_region_recording_binding() {
    let (u, specs, data) = hosting([0x77, 0x78]);
    assert_eq!(u.w_log, 5);
    assert_eq!(u.block_log, 2);
    assert_eq!(u.rec_blocks.iter().map(|b| b.offset).collect::<Vec<_>>(), vec![16, 8]);
    for (i, spec) in specs.iter().enumerate() {
        assert_eq!(u.rec_challenges[i], alone(&spec.layout, spec.iv, &data[i]));
    }
    assert!(broken_slots(&u).is_empty());
    assert_eq!(u.fixed.len(), 21);

    // A recording of other data does not fit the wires of this one.
    for (seeds, fits) in [([0x77, 0x78], true), ([0x79, 0x78], false), ([0x77, 0x70], false)] {
        let (hosted, _, _) = hosting(seeds);
        let mut b = FieldR1csBuilder::new();
        let slices: Vec<WitnessSlice> = hosted.columns.tracks[..6]
            .iter()
            .map(|col| alloc_column_slice_values_only(&mut b, col, hosted.w_log))
            .collect();
        for (i, block) in u.rec_blocks.iter().enumerate() {
            for (k, p) in duplex_data_positions(&block.layout).iter().enumerate() {
                let cell = slot_cell(&slices[p.lane], block.offset + p.slot);
                pin_eq(&mut b, &LinExpr::constant(data[i][k]), &cell);
            }
            for (k, p) in block.layout.challenges.iter().enumerate() {
                let cell = slot_cell(&slices[2 + p.lane], block.offset + p.slot);
                pin_eq(&mut b, &LinExpr::constant(u.rec_challenges[i][k]), &cell);
            }
        }
        let (r1cs, witness) = b.build();
        assert_eq!(r1cs.satisfies(&witness), fits);
    }
}

#[test]
fn packed_recordings_keep_their_challenges_and_close_one_relation() {
    let layouts = [channel2(), channel0(), channel1()];
    let streams =
        layouts.iter().enumerate().map(|(i, l)| tx_data(l, 0x500 + i as u64)).collect::<Vec<_>>();
    let specs = layouts
        .iter()
        .enumerate()
        .map(|(i, l)| RecordingSpec { layout: l.clone(), iv: iv(30 + i as u64) })
        .collect::<Vec<_>>();
    let u = recorded(&specs, &streams);
    assert_eq!(u.rec_blocks.iter().map(|b| b.offset).collect::<Vec<_>>(), vec![8, 0, 12]);
    for (i, layout) in layouts.iter().enumerate() {
        assert_eq!(u.rec_challenges[i], alone(layout, specs[i].iv, &streams[i]));
    }
    assert!(broken_slots(&u).is_empty());
}

/// The one recording of a hosted transcript.
fn hosted(seed: u64) -> (DuplexLayout, Vec<F128>, DuplexUnion) {
    let layout = channel0();
    let stream = tx_data(&layout, seed);
    let specs = vec![RecordingSpec { layout: channel0(), iv: iv(7) }];
    let u = recorded(&specs, &[stream.clone()]);
    (layout, stream, u)
}

#[test]
fn c_to_recording_only_d_scratch_is_exact_and_single_block() {
    let (layout, stream, u) = hosted(0xD1E7_0000);
    let expected = alone(&layout, iv(7), &stream);
    assert_eq!(u.columns.tracks[0].len(), 8, "one D schedule block");
    assert_eq!(u.challenges.len(), 1, "one hosted C transcript");
    assert_eq!(u.challenges[0], expected, "D challenge cells");
    for (kk, p) in duplex_data_positions(&layout).iter().enumerate() {
        assert_eq!(u.columns.tracks[u.refs.a + p.lane][p.slot], stream[kk], "D data cell {kk}");
    }
    for (kk, p) in layout.challenges.iter().enumerate() {
        assert_eq!(u.columns.tracks[u.refs.c + p.lane][p.slot], expected[kk]);
    }
}

#[test]
fn c_to_d_exact_pins_reject_component_mix_and_cell_mutations() {
    let build = |host_seed: u64, wire_seed: u64| {
        let (layout, _, u) = hosted(host_seed);
        let (_, stream, other) = hosted(wire_seed);
        let mut b = FieldR1csBuilder::new();
        let data_wires =
            stream.iter().map(|&v| LinExpr::from_wire(b.alloc_f128(v))).collect::<Vec<_>>();
        let challenge_wires = other.challenges[0]
            .iter()
            .map(|&v| LinExpr::from_wire(b.alloc_f128(v)))
            .collect::<Vec<_>>();
        let slices: Vec<WitnessSlice> = u.columns.tracks[..6]
            .iter()
            .map(|col| alloc_column_slice_values_only(&mut b, col, u.w_log))
            .collect();
        for (kk, p) in layout.challenges.iter().enumerate() {
            let cell = slot_cell(&slices[u.refs.c + p.lane], p.slot);
            pin_eq(&mut b, &challenge_wires[kk], &cell);
        }
        let positions = duplex_data_positions(&layout);
        for (kk, p) in positions.iter().enumerate() {
            let cell = slot_cell(&slices[u.refs.a + p.lane], p.slot);
            pin_eq(&mut b, &data_wires[kk], &cell);
        }
        let first_data = slices[u.refs.a + positions[0].lane].start() + positions[0].slot;
        let first = layout.challenges[0];
        let first_challenge = slices[u.refs.c + first.lane].start() + first.slot;
        let (r1cs, witness) = b.build();
        (r1cs, witness, first_data, first_challenge)
    };
    let (r1cs, honest, data_cell, challenge_cell) = build(0xC001, 0xC001);
    assert!(r1cs.satisfies(&honest), "honest C->D pins");
    for cell in [data_cell, challenge_cell] {
        let mut bad = honest.clone();
        bad[cell] = bad[cell].plus(F128::one());
        assert!(!r1cs.satisfies(&bad), "mutated hosted D cell {cell}");
    }
    let (mixed_r1cs, mixed, _, _) = build(0xC001, 0xC002);
    assert!(!mixed_r1cs.satisfies(&mixed), "C proof wires mixed with another D recording");
}
