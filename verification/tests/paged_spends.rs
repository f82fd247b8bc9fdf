//! Streams of physical pages and the logical groups they close.
use noid_recursive::circuit::{FieldR1cs, FieldR1csBuilder, LinExpr};
use noid_recursive::development_allocation::alloc_block;
use noid_recursive::field::F128;
use noid_recursive::paged_spend::{
    bind_paged_spend_groups, bind_paged_spend_stream, compact_end_records, end_record,
    group_from_lanes, group_lanes, hash_absorb, hash_carry, hash_pad, hash_seed, record_positions,
    zero_group, PageTrace, PagedSpendBlockTrace, RecordKey,
};

const TIER: usize = 25;
const TX_INPUTS: usize = 8;
const TX_OUTPUTS: usize = 4;
const MAX_PAGES: u8 = 32;
const VERSION: u128 = 1;
const CAPACITY: [u128; 2] = [0x5053, 0x504e];

#[derive(Clone)]
struct Page {
    owner: [u64; 2],
    epoch: [u64; 2],
    fee: u64,
    inputs: Vec<u64>,
    outputs: Vec<u64>,
    start: bool,
    end: bool,
    hash: [u64; 2],
}

fn pages() -> Vec<Page> {
    vec![
        Page {
            owner: [0x33, 0x34],
            epoch: [0x44, 0x45],
            fee: 7,
            inputs: vec![100; 8],
            outputs: vec![893],
            start: true,
            end: false,
            hash: [1001, 1002],
        },
        Page {
            owner: [0x33, 0x34],
            epoch: [0x44, 0x45],
            fee: 0,
            inputs: vec![100],
            outputs: vec![],
            start: false,
            end: true,
            hash: [2001, 2002],
        },
    ]
}

fn one_page() -> Page {
    let mut page = pages().remove(0);
    page.outputs[0] = 793;
    page.end = true;
    page
}

/// A stand-in for the permutation: any bijection on four words will do.
fn permute(state: [u128; 4]) -> [u128; 4] {
    let mut s = state;
    for round in 0..4u128 {
        s[0] = s[0].wrapping_mul(0x9e37_79b9_7f4a_7c15).wrapping_add(s[1] ^ round);
        s.rotate_left(1);
    }
    s
}

fn logical_hash(pages: &[Page]) -> [u128; 2] {
    let mut state = permute([VERSION, pages.len() as u128, CAPACITY[0], CAPACITY[1]]);
    for page in pages {
        state[0] ^= page.hash[0] as u128;
        state[1] ^= page.hash[1] as u128;
        state = permute(state);
    }
    state[0] ^= 0x80;
    state[1] ^= 1u128 << 120;
    let last = permute(state);
    [last[0], last[1]]
}

fn host_permute(b: &mut FieldR1csBuilder, state: &[LinExpr; 4]) -> [LinExpr; 4] {
    let values = [0, 1, 2, 3].map(|lane: usize| state[lane].eval(b.values()).bits);
    permute(values).map(|value| alloc_block(b, value))
}

struct Built {
    matrix: FieldR1cs,
    witness: Vec<F128>,
    trace: PagedSpendBlockTrace,
    starts: Vec<usize>,
}

fn build(pages: &[Page]) -> Built {
    let mut b = FieldR1csBuilder::new();
    let mut traces = Vec::new();
    let mut starts = Vec::new();
    let mut hashes = Vec::new();
    for index in 0..TIER {
        let page = pages.get(index);
        let number = |value: Option<u64>| value.unwrap_or(0) as u128;
        let start = b.alloc_bool(page.map_or(false, |p| p.start));
        starts.push(start.index);
        let amounts = |list: Option<&Vec<u64>>| list.map_or(0, |l| l.iter().sum::<u64>());
        let count = |list: Option<&Vec<u64>>| list.map_or(0, |l| l.len() as u64);
        let inputs = page.map(|p| &p.inputs);
        let outputs = page.map(|p| &p.outputs);
        let fee = alloc_block(&mut b, number(page.map(|p| p.fee)));
        let paid = page.map_or(0, |p| if p.start { p.fee } else { 0 });
        traces.push(PageTrace {
            live: LinExpr::from_wire(b.alloc_bool(page.is_some())),
            start: LinExpr::from_wire(start),
            end: LinExpr::from_wire(b.alloc_bool(page.map_or(false, |p| p.end))),
            raw_inputs: (0..TX_INPUTS)
                .map(|k| LinExpr::from_wire(b.alloc_bool((k as u64) < count(inputs))))
                .collect(),
            raw_outputs: (0..TX_OUTPUTS)
                .map(|k| LinExpr::from_wire(b.alloc_bool((k as u64) < count(outputs))))
                .collect(),
            owner: [0, 1].map(|lane| alloc_block(&mut b, number(page.map(|p| p.owner[lane])))),
            epoch: [0, 1].map(|lane| alloc_block(&mut b, number(page.map(|p| p.epoch[lane])))),
            fee,
            paid_fee: alloc_block(&mut b, paid as u128),
            live_input_count: alloc_block(&mut b, count(inputs) as u128),
            live_output_count: alloc_block(&mut b, count(outputs) as u128),
            input_sum: alloc_block(&mut b, amounts(inputs) as u128),
            output_sum: alloc_block(&mut b, amounts(outputs) as u128),
        });
        hashes.push([0, 1].map(|lane| alloc_block(&mut b, number(page.map(|p| p.hash[lane])))));
    }
    let mut stream = bind_paged_spend_stream(&mut b, &traces, MAX_PAGES);
    let mut state = [LinExpr::zero(), LinExpr::zero(), LinExpr::zero(), LinExpr::zero()];
    let mut records = Vec::new();
    for index in 0..TIER {
        stream.next_page(&mut b, &traces);
        let run = &stream.runs[index];
        let seed = hash_seed(&b, VERSION, &run.remaining, CAPACITY);
        let seeded = host_permute(&mut b, &seed);
        let absorbing =
            hash_absorb(&mut b, &traces[index].start, &seeded, &state, &hashes[index]);
        let absorbed = host_permute(&mut b, &absorbing);
        state = hash_carry(&mut b, &traces[index].live, &absorbed);
        let padded = hash_pad(&b, &state);
        let last = host_permute(&mut b, &padded);
        let finalized = [last[0].clone(), last[1].clone()];
        records.push(end_record(&mut b, &traces[index], run, &finalized, index));
    }
    let (padded, positions) = compact_end_records(&b, records);
    let width = padded.len();
    let mut routed: Vec<Vec<F128>> = vec![Vec::new(); width];
    for (group, &position) in padded.into_iter().zip(&positions) {
        routed[position] = group_lanes(group).iter().map(|lane| lane.eval(b.values())).collect();
    }
    let mut groups = Vec::new();
    for lanes in routed {
        let wires = lanes.into_iter().map(|lane| LinExpr::from_wire(b.alloc_f128(lane))).collect();
        groups.push(group_from_lanes(wires));
    }
    let trace = bind_paged_spend_groups(&mut b, groups, TIER);
    let (matrix, witness) = b.build();
    Built { matrix, witness, trace, starts }
}

#[test]
fn two_pages_compact_to_one_native_logical_hash() {
    let pages = pages();
    let expected = logical_hash(&pages);
    let built = build(&pages);
    let at = |e: &LinExpr| e.eval(&built.witness).bits;
    assert!(built.matrix.satisfies(&built.witness));
    assert_eq!(at(&built.trace.logical_count), 1);
    let first = &built.trace.groups[0];
    assert_eq!([at(&first.logical_txid[0]), at(&first.logical_txid[1])], expected);
    assert_eq!(at(&first.live_input_count), 9);
    assert_eq!(at(&first.live_output_count), 1);
    assert_eq!(at(&first.fee), 7);
    assert_eq!(at(&first.end_page), 2);
    assert!(built.trace.groups[1..].iter().all(|group| at(&group.live) == 0));
    assert_eq!(built.trace.groups.len(), 32);
}

#[test]
fn group_owner_fee_and_balance_tampering_are_unsatisfied() {
    let honest = pages();
    let built = build(&honest);
    assert!(built.matrix.satisfies(&built.witness));

    let mut owner = honest.clone();
    owner[1].owner = [0x99, 0x99];
    let built = build(&owner);
    assert!(!built.matrix.satisfies(&built.witness));

    let mut epoch = honest.clone();
    epoch[1].epoch = [0x98, 0x98];
    let built = build(&epoch);
    assert!(!built.matrix.satisfies(&built.witness));

    let mut fee = honest.clone();
    fee[1].fee = 1;
    let built = build(&fee);
    assert!(!built.matrix.satisfies(&built.witness));

    let mut inflation = honest;
    inflation[0].outputs[0] += 1;
    let built = build(&inflation);
    assert!(!built.matrix.satisfies(&built.witness));
}

#[test]
fn marker_mutation_and_redundant_page_are_unsatisfied() {
    let built = build(&pages());
    assert!(built.matrix.satisfies(&built.witness));
    let mut missing_start = built.witness.clone();
    let wire = built.starts[0];
    missing_start[wire] = missing_start[wire].plus(F128::one());
    assert!(!built.matrix.satisfies(&missing_start));

    let mut redundant = pages();
    redundant[1].end = false;
    let mut third = redundant[1].clone();
    third.inputs = vec![];
    third.end = true;
    redundant.push(third);
    let built = build(&redundant);
    assert!(!built.matrix.satisfies(&built.witness));
}

#[test]
fn matrix_is_invariant_across_group_partition_and_values() {
    let one = one_page();
    let mut second = one.clone();
    second.epoch = [0x66, 0x66];
    second.hash = [777, 888];

    let one_group = build(&pages());
    let two_groups = build(&[one, second]);
    assert!(one_group.matrix.satisfies(&one_group.witness));
    assert!(two_groups.matrix.satisfies(&two_groups.witness));
    assert_eq!(one_group.trace.logical_count.eval(&one_group.witness).bits, 1);
    assert_eq!(two_groups.trace.logical_count.eval(&two_groups.witness).bits, 2);
    assert!(one_group.matrix.same_structure(&two_groups.matrix));
}

#[test]
fn an_empty_stream_closes_no_group() {
    let built = build(&[]);
    assert!(built.matrix.satisfies(&built.witness));
    assert_eq!(built.trace.logical_count.eval(&built.witness).bits, 0);
}

#[test]
fn a_stream_that_ends_open_is_unsatisfied() {
    let mut open = pages();
    open[1].end = false;
    let built = build(&open);
    assert!(!built.matrix.satisfies(&built.witness));
}

#[test]
fn live_records_come_first_in_the_order_of_their_last_pages() {
    let key = |dead, end_page| RecordKey { dead, end_page };
    let keys = vec![key(true, 0), key(false, 9), key(true, 0), key(false, 4)];
    assert_eq!(record_positions(&keys), vec![2, 1, 3, 0]);
    let empty = zero_group();
    assert!(group_lanes(empty).iter().all(|lane| lane.eval(&[]) == F128::zero()));
}
