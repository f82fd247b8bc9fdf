//! The development allocation, before and after a fork.
use noid_recursive::circuit::{FieldR1cs, FieldR1csBuilder, LinExpr, Wire};
use noid_recursive::development_allocation::{
    alloc_block, bind_development_allocation, set_shifts, AllocationSchedule,
    DevelopmentAllocationTrace, StateDepthTrace, TARGET_BLOCKS_PER_DAY,
};
use noid_recursive::field::F128;
use noid_recursive::scheduled_allocation::{
    ForkAllocationSchedule, PreparedDevelopmentAllocation, V2Activation,
};

const END_HEIGHT: u64 = 3_153_600;
const MIN_DEPTH: u64 = 24;
const V2_INTERVAL_BLOCKS: u64 = 1_051_200;
const V2_REWARDS: [u64; 4] = [8_000_000, 6_000_000, 4_000_000, 2_000_000];

/// The reward halves with every level of the state.
fn rewards() -> Vec<u64> {
    (0..9).map(|level| 50_000_000u64 >> level).collect()
}

fn depth_trace(b: &mut FieldR1csBuilder, depth: u64) -> StateDepthTrace {
    let value = alloc_block(b, depth as u128);
    let one_hot = (0..9u64)
        .map(|level| LinExpr::from_wire(b.alloc_bool(MIN_DEPTH + level == depth)))
        .collect();
    StateDepthTrace { value, one_hot }
}

fn plain(value: u64) -> F128 {
    F128::new(value, 0)
}

struct Native {
    miner: u64,
    payout: Option<u64>,
}

fn native(height: u64, depth: u64) -> Native {
    let reward = rewards()[(depth - MIN_DEPTH) as usize];
    let share = reward / 20;
    let active = height >= 1 && height <= END_HEIGHT;
    Native {
        miner: if active { reward - 2 * share } else { reward },
        payout: if active && height % TARGET_BLOCKS_PER_DAY == 0 {
            Some(share * TARGET_BLOCKS_PER_DAY)
        } else {
            None
        },
    }
}

fn case(height: u64, depth: u64) -> (FieldR1cs, Vec<F128>, DevelopmentAllocationTrace, Wire) {
    let expected = native(height, depth);
    let schedule = AllocationSchedule { rewards: rewards(), end_height: END_HEIGHT };
    let mut b = FieldR1csBuilder::new();
    let height = alloc_block(&mut b, height as u128);
    let depth = depth_trace(&mut b, depth);
    let wire = b.alloc_f128(plain(expected.payout.unwrap_or(0)));
    let payout = LinExpr::from_wire(wire);
    let trace = bind_development_allocation(&mut b, &height, &depth, &payout, &schedule);
    let (matrix, witness) = b.build();
    (matrix, witness, trace, wire)
}

#[test]
fn exact_edges_match_native_schedule() {
    for height in [
        1,
        TARGET_BLOCKS_PER_DAY - 1,
        TARGET_BLOCKS_PER_DAY,
        TARGET_BLOCKS_PER_DAY + 1,
        END_HEIGHT,
        END_HEIGHT + 1,
    ] {
        let expected = native(height, 24);
        let (matrix, witness, trace, _) = case(height, 24);
        assert!(matrix.satisfies(&witness), "height {height}");
        assert_eq!(trace.miner_subsidy.eval(&witness), plain(expected.miner), "height {height}");
        assert_eq!(
            trace.payout_each.eval(&witness),
            plain(expected.payout.unwrap_or(0)),
            "height {height}"
        );
    }
}

#[test]
fn scheduled_payout_amount_is_load_bearing() {
    let (due, witness, _, payout) = case(TARGET_BLOCKS_PER_DAY, 24);
    let mut bad = witness;
    bad[payout.index] = bad[payout.index].plus(F128::one());
    assert!(!due.satisfies(&bad), "payout-height amount mutation was accepted");
}

#[test]
fn the_raw_amount_is_free_off_a_payout_height() {
    let (matrix, witness, _, payout) = case(TARGET_BLOCKS_PER_DAY + 1, 24);
    let mut other = witness;
    other[payout.index] = plain(77);
    assert!(matrix.satisfies(&other));
}

#[test]
fn expansion_day_uses_the_current_lower_reward_tier() {
    let (matrix, witness, trace, _) = case(TARGET_BLOCKS_PER_DAY, 25);
    assert!(matrix.satisfies(&witness));
    let expected = native(TARGET_BLOCKS_PER_DAY, 25);
    assert_eq!(trace.payout_each.eval(&witness), plain(expected.payout.unwrap()));
    assert_eq!(expected.payout.unwrap(), 25_000_000 / 20 * 4320);
}

#[test]
fn a_day_of_blocks_is_a_sum_of_powers_of_two() {
    assert_eq!(set_shifts(TARGET_BLOCKS_PER_DAY), vec![12, 7, 6, 5]);
    assert_eq!(set_shifts(1), vec![0]);
}

fn fork_schedule(activation: u64, interval: u64) -> ForkAllocationSchedule {
    let end_height = if activation > END_HEIGHT {
        END_HEIGHT
    } else {
        activation + (END_HEIGHT - activation) * 20 / interval
    };
    ForkAllocationSchedule {
        min_depth: MIN_DEPTH,
        legacy_rewards: rewards(),
        v2_rewards: V2_REWARDS.to_vec(),
        v2_interval_blocks: V2_INTERVAL_BLOCKS,
        end_height,
        activation: Some(V2Activation { height: activation, block_time: interval }),
    }
}

/// The amounts of a block, counted out by hand.
fn by_hand(schedule: &ForkAllocationSchedule, height: u64, depth: u64) -> (u64, u64) {
    let at = schedule.activation.unwrap();
    let reward = if height >= at.height {
        let years = ((height - at.height) / V2_INTERVAL_BLOCKS) as usize;
        V2_REWARDS[years.min(V2_REWARDS.len() - 1)]
    } else {
        rewards()[(depth - MIN_DEPTH) as usize]
    };
    let share = reward / 20;
    let active = height >= 1 && height <= schedule.end_height;
    if !active {
        return (reward, 0);
    }
    let day = 86_400 / at.block_time;
    let blocks = if height < at.height {
        if height % TARGET_BLOCKS_PER_DAY == 0 { TARGET_BLOCKS_PER_DAY } else { 0 }
    } else if height == at.height {
        0
    } else if (height - at.height + 1) % day == 0 {
        day
    } else if height == schedule.end_height {
        (height - at.height + 1) % day
    } else {
        0
    };
    (reward - 2 * share, share * blocks)
}

fn check_fork_case(
    schedule: &ForkAllocationSchedule,
    height: u64,
    first: &mut Option<FieldR1cs>,
) {
    let (miner, payout) = by_hand(schedule, height, 24);
    let amounts = schedule.amounts_at(height, 0);
    assert_eq!((amounts.miner_subsidy, amounts.payout_each), (miner, payout), "height {height}");
    let mut b = FieldR1csBuilder::new();
    let h = b.alloc_f128(plain(height));
    let h_expr = LinExpr::from_wire(h);
    let depth = depth_trace(&mut b, 24);
    let amount = alloc_block(&mut b, payout as u128);
    let prepared = PreparedDevelopmentAllocation::new(&mut b, &h_expr, &depth, &amount, schedule);
    let trace = prepared.trace();
    let reserved = [
        &trace.v2_active,
        &trace.active,
        &trace.payout_due,
        &trace.share_each,
        &trace.miner_subsidy,
        &trace.payout_each,
    ]
    .map(|value| {
        assert_eq!(value.terms.len(), 1);
        value.terms[0].wire
    });
    assert_eq!(trace.payout_each.eval(b.values()), plain(payout));
    assert_eq!(trace.miner_subsidy.eval(b.values()), plain(miner));
    prepared.finish(&mut b);
    let (matrix, mut witness) = b.build();
    assert!(matrix.satisfies(&witness), "height {height}");
    if let Some(known) = first {
        assert!(known.same_structure(&matrix));
    }
    for output in reserved {
        witness[output] = witness[output].plus(F128::one());
        assert!(!matrix.satisfies(&witness), "unbound schedule output {output}");
        witness[output] = witness[output].plus(F128::one());
    }
    witness[h.index] = witness[h.index].plus(F128::one());
    assert!(!matrix.satisfies(&witness));
    *first = Some(matrix);
}

#[test]
fn explicit_schedule_matches_native_boundaries_and_rejects_changed_height() {
    for interval in [20, 30, 40] {
        let period = 86_400 / interval;
        for activation in [
            1,
            10,
            4_320,
            219_177,
            END_HEIGHT,
            u64::MAX - V2_INTERVAL_BLOCKS,
            u64::MAX,
        ] {
            let schedule = fork_schedule(activation, interval);
            let end = schedule.end_height;
            let mut first = None;
            for height in [
                activation - 1,
                activation,
                activation.saturating_add(1),
                activation.saturating_add(period - 1),
                activation.saturating_add(period),
                end,
                end + 1,
                END_HEIGHT,
                END_HEIGHT + 1,
                u64::MAX,
            ] {
                check_fork_case(&schedule, height, &mut first);
            }
        }
    }
}

#[test]
fn every_state_level_matches_at_fork_annual_daily_and_final_boundaries() {
    let h = 219_177;
    let schedule = fork_schedule(h, 30);
    let end = schedule.end_height;
    let mut heights = vec![h - 1, h, h + 2878, h + 2879, end, end + 1, u64::MAX];
    for epoch in 1..V2_REWARDS.len() {
        let threshold = h + epoch as u64 * V2_INTERVAL_BLOCKS;
        heights.extend([threshold - 1, threshold, threshold + 1, threshold + 2879]);
    }
    let mut first: Option<FieldR1cs> = None;
    for level in 24..=32u64 {
        for &height in &heights {
            let (miner, payout) = by_hand(&schedule, height, level);
            let mut b = FieldR1csBuilder::new();
            let height = alloc_block(&mut b, height as u128);
            let depth = depth_trace(&mut b, level);
            let amount = alloc_block(&mut b, payout as u128);
            let prepared =
                PreparedDevelopmentAllocation::new(&mut b, &height, &depth, &amount, &schedule);
            let reward_wire = prepared.trace().miner_subsidy.terms[0].wire;
            prepared.finish(&mut b);
            let (matrix, mut witness) = b.build();
            assert!(matrix.satisfies(&witness), "level={level}");
            if let Some(known) = &first {
                assert!(known.same_structure(&matrix));
            }
            for wrong in V2_REWARDS {
                if wrong != miner {
                    let original = witness[reward_wire];
                    witness[reward_wire] = plain(wrong);
                    assert!(!matrix.satisfies(&witness), "level={level}, wrong={wrong}");
                    witness[reward_wire] = original;
                }
            }
            first = Some(matrix);
        }
    }
}

#[test]
fn a_reward_is_split_into_a_subsidy_and_two_shares() {
    for depth in 24..33 {
        let (matrix, witness, trace, _) = case(5, depth);
        assert!(matrix.satisfies(&witness));
        let value = |e: &LinExpr| e.eval(&witness).bits as u64;
        let reward = rewards()[(depth - MIN_DEPTH) as usize];
        assert_eq!(value(&trace.miner_subsidy) + 2 * value(&trace.share_each), reward);
    }
}

#[test]
fn every_block_since_the_fork_is_paid_for_once() {
    let mut schedule = fork_schedule(10, 8_640);
    for end in [57, 59, 60] {
        schedule.end_height = end;
        let share = V2_REWARDS[0] / 20;
        let mut paid = 0;
        for height in 10..=end + 30 {
            paid += schedule.amounts_at(height, 0).payout_each / share;
        }
        assert_eq!(paid, end - 9);
    }
}
