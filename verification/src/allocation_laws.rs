//! What the allocation schedules pay, height by height.
use crate::development_allocation::{is_active, is_payout_height, miner_part, share};
use crate::scheduled_allocation::{
    fired, fired_blocks, lemma_epoch, lemma_rules_disjoint, ForkAllocationSchedule,
};
use crate::circuit::FieldR1csBuilder;
use crate::trace::int_at;
use vstd::prelude::*;

verus! {

/// A share is the twentieth part of a reward, rounded down; the miner keeps what two shares
/// leave, and everything while no allocation runs.
pub proof fn lemma_share_parts(reward: nat)
    ensures
        20 * share(reward) <= reward,
        reward < 20 * (share(reward) + 1),
        miner_part(reward, true) + share(reward) + share(reward) == reward,
        miner_part(reward, false) == reward,
{
}

/// The allocation runs from height one up to its last height, and pays at the end of every
/// full day of blocks in between.
pub proof fn lemma_payout_days(height: nat, end_height: nat)
    ensures
        is_active(height, end_height) <==> height > 0 && height <= end_height,
        is_payout_height(height, end_height) <==> height > 0 && height <= end_height && height
            == 4320 * (height / 4320),
{
}

/// The blocks that a height pays for. Before the new rules, and without them, every full
/// day pays for its blocks. The first block under the new rules pays nothing; from there
/// on every full day of the new length pays for its own blocks, and the last height pays
/// for what is left of an unfinished day.
pub proof fn lemma_paid_blocks(s: ForkAllocationSchedule, height: nat)
    requires
        s.wf(),
    ensures
        s.activation is None ==> s.paid_blocks(height) == if height % 4320 == 0 {
            4320nat
        } else {
            0
        },
        s.activation matches Some(at) ==> s.interval() * at.block_time == 86400,
        s.activation matches Some(at) ==> height < at.height ==> s.paid_blocks(height)
            == if height % 4320 == 0 {
            4320nat
        } else {
            0
        },
        s.activation matches Some(at) ==> height == at.height ==> s.paid_blocks(height) == 0,
        s.activation matches Some(at) ==> height > at.height ==> {
            let since = (height - (at.height - 1)) as nat;
            s.paid_blocks(height) == if since % s.interval() == 0 {
                s.interval()
            } else if height == s.end_height {
                since % s.interval()
            } else {
                0
            }
        },
{
    lemma_rules_disjoint(s, height);
    let rules = s.rules(height);
    reveal_with_fuel(fired_blocks, 4);
    if s.activation is Some {
        let at = s.activation->0;
        let b = at.block_time as int;
        vstd::arithmetic::div_mod::lemma_fundamental_div_mod(86_400, b);
        assert(b * (86_400int / b) == (86_400int / b) * b) by (nonlinear_arith);
        let days = s.interval();
        if height > at.height {
            let since = (height - (at.height - 1)) as nat;
            assert(rules[1].0 == (since % days == 0));
            if height == s.end_height {
                assert(s.final_blocks() == since % days);
            }
        }
    }
}

/// A payout is due exactly at the heights of the allocation that pay for blocks, and is one
/// share of the block's reward for each of them.
pub proof fn lemma_payout_due(s: ForkAllocationSchedule, height: nat, depth: int)
    requires
        s.wf(),
    ensures
        s.active(height) <==> height > 0 && height <= s.end_height,
        s.due(height) <==> s.active(height) && s.paid_blocks(height) > 0,
        s.active(height) ==> s.payout(height, depth) == share(s.reward(height, depth))
            * s.paid_blocks(height),
        !s.active(height) ==> s.payout(height, depth) == 0,
{
    lemma_rules_disjoint(s, height);
    reveal_with_fuel(fired_blocks, 4);
    reveal_with_fuel(fired, 4);
}

/// Under the new rules the reward is that of the latest epoch that has begun; the first
/// begins with the new rules, and each of the others a full interval after the one before,
/// if at all. Before, the reward is that of the state depth.
pub proof fn lemma_reward_epoch(s: ForkAllocationSchedule, height: nat, depth: int, k: nat)
    requires
        s.wf(),
        k < s.v2_rewards@.len(),
    ensures
        s.activation is None ==> s.reward(height, depth) == s.legacy_rewards@[depth],
        s.activation matches Some(at) ==> height < at.height ==> s.reward(height, depth)
            == s.legacy_rewards@[depth],
        s.epoch(height) < s.v2_rewards@.len(),
        s.activation matches Some(at) ==> height >= at.height ==> {
            &&& s.reward(height, depth) == s.v2_rewards@[s.epoch(height) as int]
            &&& k <= s.epoch(height) <==> (k == 0 || (at.height + k * s.v2_interval_blocks <= height
                && at.height + k * s.v2_interval_blocks <= u64::MAX))
        },
{
    lemma_epoch(s, k, (s.v2_rewards@.len() - 1) as nat, height);
}

/// What a bound allocation says of its amounts: two shares and the miner's part make the
/// reward, a share is nothing while no allocation runs, and a payout is a day's worth of
/// shares at the end of a day and nothing at any other height.
pub proof fn lemma_amounts_balance(
    trace: crate::development_allocation::DevelopmentAllocationTrace,
    b: FieldR1csBuilder,
    z: spec_fn(int) -> u128,
    height: nat,
    reward: nat,
    end_height: nat,
)
    requires
        trace.matches_schedule(b, z, height, reward, end_height),
    ensures
        ({
            let each = int_at(b, trace.share_each@, z);
            let runs = 1 <= height <= end_height;
            &&& int_at(b, trace.miner_subsidy@, z) + each + each == reward
            &&& runs ==> 20 * each <= reward < 20 * (each + 1)
            &&& !runs ==> each == 0
            &&& trace.active.at(z) == if runs {
                1u128
            } else {
                0
            }
            &&& trace.payout_due.at(z) == if runs && height % 4320 == 0 {
                1u128
            } else {
                0
            }
            &&& int_at(b, trace.payout_each@, z) == if runs && height % 4320 == 0 {
                each * 4320
            } else {
                0
            }
        }),
{
}

/// The same of a scheduled allocation: a payout is one share for each block that the height
/// pays for.
pub proof fn lemma_scheduled_amounts_balance(
    trace: crate::scheduled_allocation::DevelopmentAllocationTrace,
    b: FieldR1csBuilder,
    z: spec_fn(int) -> u128,
    s: ForkAllocationSchedule,
    height: nat,
    depth: int,
)
    requires
        s.wf(),
        trace.matches_schedule(b, z, s, height, depth),
    ensures
        ({
            let each = int_at(b, trace.share_each@, z);
            let reward = s.reward(height, depth);
            let runs = 1 <= height <= s.end_height;
            &&& int_at(b, trace.miner_subsidy@, z) + each + each == reward
            &&& runs ==> 20 * each <= reward < 20 * (each + 1)
            &&& !runs ==> each == 0
            &&& int_at(b, trace.payout_each@, z) == each * s.paid_blocks(height)
            &&& trace.active.at(z) == if runs {
                1u128
            } else {
                0
            }
            &&& trace.payout_due.at(z) == if runs && s.paid_blocks(height) > 0 {
                1u128
            } else {
                0
            }
            &&& trace.v2_active.at(z) == if s.activation matches Some(at) && height >= at.height {
                1u128
            } else {
                0
            }
        }),
{
    lemma_payout_due(s, height, depth);
    assert(0 * s.paid_blocks(height) == 0) by (nonlinear_arith);
}

} // verus!
