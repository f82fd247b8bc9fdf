//! The development allocation under an explicit fork schedule, as a circuit.
//!
//! From the activation height on, the reward follows annual epochs instead of
//! the state depth, and the daily payout follows the new block interval. All
//! amounts come from fixed integer tables; no amount is ever multiplied in the
//! field.
use crate::bits::{
    all_bits, bits_nat, exprs_at, exprs_bounded, int_bits, one_hot, wires_at, wires_bounded,
};
use crate::bits::lemma_int_bits;
use crate::circuit::{agree, group_agree, FieldR1csBuilder, LinExpr, LinForm, Wire};
use crate::development_allocation::{
    alloc_block, is_active, lemma_exprs_mono, miner_part, payout_boundary_for,
    selected_depth_constant, share, AllocationSchedule, StateDepthTrace, HEIGHT_BITS,
    TARGET_BLOCKS_PER_DAY,
};
use crate::field::{bit_of, fmul, is_bit, F128};
use crate::field::{lemma_fmul_unit, lemma_xor};
use crate::trace::{
    all_zero, constant_bits, equals_constant, int_at, integer_add_no_overflow, lemma_bit_ops,
    lemma_exprs_kept, less_than_bits, mux, pin_eq, range_check_bits, refines, wire_exprs,
};
use crate::circuit::{
    const_form, form_add, form_add_const, form_scale, forms, wire_forms, wires_from, Shape,
};
use crate::development_allocation::{allocation_step, boundary_step, table_form, AllocationForms};
use crate::trace::{
    add_step, all_zero_step, borrow_step, constant_forms, equals_step, mul_step, mux_step,
    pin_eq_step, range_step,
};
use vstd::arithmetic::power2::pow2;
use vstd::prelude::*;

verus! {

broadcast use group_agree;

/// When the new rules start and how far apart their blocks are, in seconds.
#[derive(Clone, Copy, Debug, PartialEq, Eq, Structural)]
pub struct V2Activation {
    pub height: u64,
    pub block_time: u64,
}

/// The reward tables and heights of one fork schedule.
pub struct ForkAllocationSchedule {
    pub min_depth: u64,
    pub legacy_rewards: Vec<u64>,
    pub v2_rewards: Vec<u64>,
    pub v2_interval_blocks: u64,
    pub end_height: u64,
    pub activation: Option<V2Activation>,
}

impl ForkAllocationSchedule {
    /// The schedule's amounts fit 64 bits, its activation starts after the
    /// first block and its block time divides a day.
    pub open spec fn wf(&self) -> bool {
        &&& self.end_height < u64::MAX
        &&& self.v2_rewards@.len() >= 1
        &&& self.activation matches Some(at) ==> at.height >= 1 && at.block_time > 0 && 86_400int
            % at.block_time as int == 0
        &&& self.amounts_fit(TARGET_BLOCKS_PER_DAY as nat)
        &&& self.amounts_fit(self.interval())
    }

    pub open spec fn amounts_fit(&self, blocks: nat) -> bool {
        &&& forall|i: int|
            0 <= i < self.legacy_rewards@.len() ==> share(#[trigger] self.legacy_rewards@[i] as nat)
                * blocks <= u64::MAX
        &&& forall|i: int|
            0 <= i < self.v2_rewards@.len() ==> share(#[trigger] self.v2_rewards@[i] as nat)
                * blocks <= u64::MAX
    }

    /// Blocks per day under the new rules.
    pub open spec fn interval(&self) -> nat {
        match self.activation {
            Some(at) => 86_400nat / at.block_time as nat,
            None => TARGET_BLOCKS_PER_DAY as nat,
        }
    }

    /// The new rules apply at this height.
    pub open spec fn is_v2(&self, height: nat) -> bool {
        self.activation matches Some(at) && height >= at.height
    }

    /// Reward epoch `k` has begun at this height. An epoch that would begin
    /// past the largest height never does.
    pub open spec fn started(&self, k: nat, height: nat) -> bool {
        k == 0 || (k < self.v2_rewards@.len() && self.activation is Some && ({
            let first = self.activation->0.height + k * self.v2_interval_blocks;
            first <= u64::MAX && height >= first
        }))
    }

    /// How many of the epochs `1..=k` have begun.
    pub open spec fn started_count(&self, k: nat, height: nat) -> nat
        decreases k,
    {
        if k == 0 {
            0
        } else {
            self.started_count((k - 1) as nat, height) + if self.started(k, height) {
                1nat
            } else {
                0
            }
        }
    }

    /// The reward epoch of a height.
    pub open spec fn epoch(&self, height: nat) -> nat {
        self.started_count((self.v2_rewards@.len() - 1) as nat, height)
    }

    /// The reward of a block at a height and a state depth index.
    pub open spec fn reward(&self, height: nat, depth: int) -> nat {
        if self.is_v2(height) {
            self.v2_rewards@[self.epoch(height) as int] as nat
        } else {
            self.legacy_rewards@[depth] as nat
        }
    }

    /// Blocks since the last full day at the end of the allocation.
    pub open spec fn final_blocks(&self) -> nat {
        match self.activation {
            Some(at) => if self.end_height > at.height {
                ((self.end_height - (at.height - 1)) as nat) % self.interval()
            } else {
                0
            },
            None => 0,
        }
    }

    /// The payout rules at a height: whether each fires, and the number of
    /// blocks it pays for.
    pub open spec fn rules(&self, height: nat) -> Seq<(bool, nat)> {
        match self.activation {
            None => seq![
                (height % TARGET_BLOCKS_PER_DAY as nat == 0, TARGET_BLOCKS_PER_DAY as nat),
            ],
            Some(at) => {
                let daily = seq![
                    (
                        height < at.height && height % TARGET_BLOCKS_PER_DAY as nat == 0,
                        TARGET_BLOCKS_PER_DAY as nat,
                    ),
                    (
                        height > at.height && ((height - (at.height - 1)) as nat) % self.interval()
                            == 0,
                        self.interval(),
                    ),
                ];
                if self.final_blocks() != 0 {
                    daily.push((height == self.end_height, self.final_blocks()))
                } else {
                    daily
                }
            },
        }
    }

    /// The number of blocks paid for at a height.
    pub open spec fn paid_blocks(&self, height: nat) -> nat {
        fired_blocks(self.rules(height), self.rules(height).len())
    }

    pub open spec fn active(&self, height: nat) -> bool {
        is_active(height, self.end_height as nat)
    }

    pub open spec fn due(&self, height: nat) -> bool {
        self.active(height) && fired(self.rules(height), self.rules(height).len())
    }

    /// The payout of a block.
    pub open spec fn payout(&self, height: nat, depth: int) -> nat {
        if self.active(height) {
            share(self.reward(height, depth)) * self.paid_blocks(height)
        } else {
            0
        }
    }
}

/// Whether one of the first `n` rules fires.
pub open spec fn fired(rules: Seq<(bool, nat)>, n: nat) -> bool
    decreases n,
{
    n > 0 && (fired(rules, (n - 1) as nat) || rules[n - 1].0)
}

/// The blocks of those of the first `n` rules that fire.
pub open spec fn fired_blocks(rules: Seq<(bool, nat)>, n: nat) -> nat
    decreases n,
{
    if n == 0 {
        0
    } else {
        fired_blocks(rules, (n - 1) as nat) + if rules[n - 1].0 {
            rules[n - 1].1
        } else {
            0
        }
    }
}

/// The blocks paid for from the activation up to a height.
pub open spec fn paid_since_fork(s: ForkAllocationSchedule, height: nat) -> nat
    recommends
        s.activation is Some,
    decreases height,
{
    if height < s.activation->0.height {
        0
    } else if height == 0 {
        s.paid_blocks(0)
    } else {
        paid_since_fork(s, (height - 1) as nat) + s.paid_blocks(height)
    }
}

/// What a height under the new rules pays for: a day on a full day since the
/// activation, the remainder at the last height, nothing otherwise.
proof fn lemma_paid_at(s: ForkAllocationSchedule, height: nat)
    requires
        s.wf(),
        s.activation is Some,
        s.activation->0.height < height,
    ensures
        s.interval() > 0,
        s.paid_blocks(height) == ({
            let run = (height - (s.activation->0.height - 1)) as nat;
            if run % s.interval() == 0 {
                s.interval()
            } else if height == s.end_height {
                run % s.interval()
            } else {
                0
            }
        }),
{
    lemma_rules_disjoint(s, height);
    reveal_with_fuel(fired_blocks, 4);
}

/// Below the last height the full days since the activation are paid for.
proof fn lemma_paid_days(s: ForkAllocationSchedule, height: nat)
    requires
        s.wf(),
        s.activation is Some,
        s.interval() >= 2,
        s.activation->0.height <= height < s.end_height,
    ensures
        ({
            let run = (height - (s.activation->0.height - 1)) as nat;
            paid_since_fork(s, height) == run - run % s.interval()
        }),
    decreases height,
{
    let at = s.activation->0.height as nat;
    let day = s.interval();
    let run = (height - (at - 1)) as nat;
    if height == at {
        assert(run == 1);
        vstd::arithmetic::div_mod::lemma_small_mod(1, day);
        lemma_rules_disjoint(s, height);
        reveal_with_fuel(fired_blocks, 4);
        assert(s.paid_blocks(height) == 0);
        assert(paid_since_fork(s, (height - 1) as nat) == 0);
    } else {
        lemma_paid_days(s, (height - 1) as nat);
        lemma_paid_at(s, height);
        lemma_run_step(run, day);
    }
}

/// One block more fills a day, or makes the day in progress longer.
proof fn lemma_run_step(run: nat, day: nat)
    requires
        run > 0,
        day >= 2,
    ensures
        run % day == 0 ==> (run - 1) as nat % day == day - 1,
        run % day != 0 ==> (run - 1) as nat % day == run % day - 1,
{
    let q = (run - 1) as int / day as int;
    let m = (run - 1) as int % day as int;
    vstd::arithmetic::div_mod::lemma_fundamental_div_mod((run - 1) as int, day as int);
    vstd::arithmetic::div_mod::lemma_mod_bound((run - 1) as int, day as int);
    if m + 1 < day {
        assert(run == q * day + (m + 1)) by (nonlinear_arith)
            requires
                run - 1 == day * q + m,
        ;
        vstd::arithmetic::div_mod::lemma_fundamental_div_mod_converse(
            run as int,
            day as int,
            q,
            m + 1,
        );
    } else {
        assert(run == (q + 1) * day + 0) by (nonlinear_arith)
            requires
                run - 1 == day * q + m,
                m + 1 == day,
        ;
        vstd::arithmetic::div_mod::lemma_fundamental_div_mod_converse(
            run as int,
            day as int,
            q + 1,
            0,
        );
    }
}

/// Every block from the activation to the last height is paid for exactly once:
/// full days as they end, and the remainder at the last height. A day is more
/// than one block.
pub proof fn lemma_every_block_paid(s: ForkAllocationSchedule)
    requires
        s.wf(),
        s.activation is Some,
        s.interval() >= 2,
        s.activation->0.height < s.end_height,
    ensures
        paid_since_fork(s, s.end_height as nat) == s.end_height - (s.activation->0.height - 1),
{
    let at = s.activation->0.height as nat;
    let end = s.end_height as nat;
    let day = s.interval();
    let run = (end - (at - 1)) as nat;
    lemma_paid_days(s, (end - 1) as nat);
    lemma_paid_at(s, end);
    lemma_run_step(run, day);
}

/// At most one payout rule fires at a height.
pub proof fn lemma_rules_disjoint(s: ForkAllocationSchedule, height: nat)
    requires
        s.wf(),
    ensures
        forall|i: int, j: int|
            0 <= i < j < s.rules(height).len() ==> !((#[trigger] s.rules(height)[i]).0 && (
            #[trigger] s.rules(height)[j]).0),
        forall|i: int|
            0 <= i < s.rules(height).len() ==> ((#[trigger] s.rules(height)[i]).1
                == TARGET_BLOCKS_PER_DAY || s.rules(height)[i].1 <= s.interval()),
        s.interval() > 0,
        1 <= s.rules(height).len() <= 3,
{
    if s.activation is Some {
        let at = s.activation->0;
        let d = at.block_time as int;
        vstd::arithmetic::div_mod::lemma_fundamental_div_mod(86_400, d);
        assert(d * (86_400int / d) == 86_400);
        assert(86_400int / d > 0) by (nonlinear_arith)
            requires
                d * (86_400int / d) == 86_400,
                d > 0,
        ;
    }
}

proof fn lemma_fired_prefix(rules: Seq<(bool, nat)>, n: nat)
    requires
        n < rules.len(),
        forall|i: int, j: int|
            0 <= i < j < rules.len() ==> !((#[trigger] rules[i]).0 && (#[trigger] rules[j]).0),
    ensures
        rules[n as int].0 ==> !fired(rules, n) && fired_blocks(rules, n) == 0,
    decreases n,
{
    if rules[n as int].0 {
        lemma_fired_none(rules, n, n);
    }
}

proof fn lemma_fired_none(rules: Seq<(bool, nat)>, n: nat, k: nat)
    requires
        k <= n < rules.len(),
        rules[n as int].0,
        forall|i: int, j: int|
            0 <= i < j < rules.len() ==> !((#[trigger] rules[i]).0 && (#[trigger] rules[j]).0),
    ensures
        !fired(rules, k),
        fired_blocks(rules, k) == 0,
    decreases k,
{
    if k > 0 {
        lemma_fired_none(rules, n, (k - 1) as nat);
        assert(!(rules[k - 1].0 && rules[n as int].0));
    }
}

/// Later epochs begin later.
proof fn lemma_started_mono(s: ForkAllocationSchedule, k: nat, height: nat)
    requires
        s.started(k + 1, height),
    ensures
        s.started(k, height),
{
    if k > 0 {
        let i = s.v2_interval_blocks as int;
        assert(k * i <= (k + 1) * i) by (nonlinear_arith)
            requires
                i >= 0,
        ;
    }
}

proof fn lemma_started_down(s: ForkAllocationSchedule, j: nat, k: nat, height: nat)
    requires
        j <= k,
        s.started(k, height),
    ensures
        s.started(j, height),
    decreases k - j,
{
    if j < k {
        lemma_started_mono(s, (k - 1) as nat, height);
        lemma_started_down(s, j, (k - 1) as nat, height);
    }
}

/// An epoch has begun exactly up to the epoch of the height.
pub proof fn lemma_epoch(s: ForkAllocationSchedule, k: nat, n: nat, height: nat)
    requires
        k <= n,
    ensures
        s.started_count(n, height) <= n,
        s.started(k, height) <==> k <= s.started_count(n, height),
    decreases n,
{
    if n > 0 {
        let m = (n - 1) as nat;
        if s.started(n, height) {
            lemma_started_down(s, m, n, height);
            lemma_epoch(s, m, m, height);
            lemma_started_down(s, k, n, height);
        } else if k <= m {
            lemma_epoch(s, k, m, height);
        } else {
            lemma_epoch(s, m, m, height);
        }
    }
}

/// The first height of an epoch, if it fits.
pub open spec fn epoch_start(schedule: ForkAllocationSchedule, k: nat) -> Option<u64> {
    match schedule.activation {
        Some(at) => {
            let first = at.height + k * schedule.v2_interval_blocks;
            if first <= u64::MAX {
                Some(first as u64)
            } else {
                None
            }
        },
        None => None,
    }
}

/// The rows that tell which of the first `k` epochs have started.
#[verifier::opaque]
pub open spec fn started_step(
    s: Shape,
    bits: Seq<LinForm>,
    schedule: ForkAllocationSchedule,
    k: nat,
) -> (Shape, Seq<LinForm>)
    decreases k,
{
    if k <= 1 {
        (s, Seq::empty().push(const_form(1)))
    } else {
        let (t, started) = started_step(s, bits, schedule, (k - 1) as nat);
        match epoch_start(schedule, (k - 1) as nat) {
            Some(first) => {
                let (u, before) = borrow_step(t, bits, constant_forms(first, 64), bits.len());
                (u, started.push(form_add_const(before, 1)))
            },
            None => (t, started.push(const_form(0))),
        }
    }
}

/// The rows of the epoch selectors, and the selectors.
#[verifier::opaque]
pub open spec fn epochs_step(s: Shape, bits: Seq<LinForm>, schedule: ForkAllocationSchedule) -> (
    Shape,
    Seq<LinForm>,
) {
    let n = schedule.v2_rewards@.len();
    let (t, flags) = started_step(s, bits, schedule, n);
    let started = flags.push(const_form(0));
    (t, Seq::new(n, |i: int| form_add(started[i], started[i + 1])))
}

/// One-hot reward epochs, derived only from the height bits.
pub fn reward_epoch_selectors(
    b: &mut FieldR1csBuilder,
    height_bits: &[LinExpr],
    schedule: &ForkAllocationSchedule,
) -> (r: Vec<LinExpr>)
    requires
        old(b).wf(),
        height_bits@.len() == 64,
        exprs_bounded(height_bits@, old(b).wires()),
        schedule.v2_rewards@.len() >= 1,
    ensures
        refines(*final(b), *old(b)),
        final(b).honest() <==> old(b).honest(),
        r@.len() == schedule.v2_rewards@.len(),
        exprs_bounded(r@, final(b).wires()),
        forall|z: spec_fn(int) -> u128| #[trigger]
            final(b).holds(z) && all_bits(exprs_at(height_bits@, z)) ==> one_hot(
                exprs_at(r@, z),
                schedule.epoch(bits_nat(exprs_at(height_bits@, z))) as int,
            ),
        epochs_step(old(b).shape(), forms(height_bits@), *schedule) == (final(b).shape(), forms(r@)),
{
    reveal(started_step);
    reveal(epochs_step);
    let ghost entry = *b;
    let ghost before = *b;
    let n = schedule.v2_rewards.len();
    let mut started: Vec<LinExpr> = Vec::new();
    started.push(LinExpr::one());
    let mut k: usize = 1;
    while k < n
        invariant
            1 <= k <= n,
            n == schedule.v2_rewards@.len(),
            before.wf(),
            refines(*b, before),
            b.honest() <==> before.honest(),
            height_bits@.len() == 64,
            exprs_bounded(height_bits@, before.wires()),
            started@.len() == k,
            exprs_bounded(started@, b.wires()),
            forall|z: spec_fn(int) -> u128, j: int|
                #![trigger b.holds(z), started@[j]]
                b.holds(z) && all_bits(exprs_at(height_bits@, z)) && 0 <= j < k
                    ==> started@[j].at(z) == bit_of(
                    schedule.started(j as nat, bits_nat(exprs_at(height_bits@, z))),
                ),
            started_step(entry.shape(), forms(height_bits@), *schedule, k as nat) == (
                b.shape(),
                forms(started@),
            ),
        decreases n - k,
    {
        reveal(started_step);
        let ghost start = *b;
        let ghost started0 = started@;
        let mut threshold: Option<u64> = None;
        if let Some(at) = schedule.activation {
            if let Some(elapsed) = (k as u64).checked_mul(schedule.v2_interval_blocks) {
                threshold = at.height.checked_add(elapsed);
            }
            proof {
                let prod = k as int * schedule.v2_interval_blocks as int;
                assert(prod >= 0) by (nonlinear_arith)
                    requires
                        prod == k as int * schedule.v2_interval_blocks as int,
                        k >= 0,
                        schedule.v2_interval_blocks >= 0,
                ;
            }
        }
        let flag = match threshold {
            Some(first) => {
                let first_bits = constant_bits(first, HEIGHT_BITS);
                let before_first = less_than_bits(b, height_bits, first_bits.as_slice());
                let flag = before_first.add_const(F128::one());
                proof {
                    assert forall|z: spec_fn(int) -> u128| #[trigger]
                        b.holds(z) && all_bits(exprs_at(height_bits@, z)) implies flag.at(z)
                        == bit_of(
                        schedule.started(k as nat, bits_nat(exprs_at(height_bits@, z))),
                    ) by {
                        assert(exprs_at(first_bits@, z) == int_bits(first as u128, 64));
                        lemma_int_bits(first as u128, 64);
                        vstd::arithmetic::power2::lemma2_to64();
                        vstd::arithmetic::power2::lemma2_to64_rest();
                        lemma_bit_ops(before_first.at(z), 1);
                    }
                }
                flag
            },
            None => LinExpr::zero(),
        };
        started.push(flag);
        proof {
            assert forall|z: spec_fn(int) -> u128, j: int|
                #![trigger b.holds(z), started@[j]]
                b.holds(z) && all_bits(exprs_at(height_bits@, z)) && 0 <= j < k + 1
                implies started@[j].at(z) == bit_of(
                schedule.started(j as nat, bits_nat(exprs_at(height_bits@, z))),
            ) by {
                if j < k {
                    assert(started@[j] == started0[j]);
                    assert(start.holds(z));
                }
            }
            assert forall|j: int| 0 <= j < started@.len() implies (#[trigger] started@[j]).bound()
                <= b.wires() by {
                if j < k {
                    assert(started@[j] == started0[j]);
                }
            }
        }
        k = k + 1;
    }
    started.push(LinExpr::zero());
    let ghost all = started@;
    let mut r: Vec<LinExpr> = Vec::new();
    let mut i: usize = 0;
    proof {
        assert forall|j: int| 0 <= j < all.len() implies (#[trigger] all[j]).bound() <= b.wires() by {}
        assert forall|z: spec_fn(int) -> u128, j: int|
            #![trigger b.holds(z), all[j]]
            b.holds(z) && all_bits(exprs_at(height_bits@, z)) && 0 <= j <= n implies all[j].at(z)
            == bit_of(schedule.started(j as nat, bits_nat(exprs_at(height_bits@, z)))) by {}
    }
    while i < n
        invariant
            i <= n,
            n == schedule.v2_rewards@.len(),
            started@ == all,
            all.len() == n + 1,
            exprs_bounded(all, b.wires()),
            r@.len() == i,
            exprs_bounded(r@, b.wires()),
            forall|z: spec_fn(int) -> u128, j: int|
                0 <= j < i ==> #[trigger] r@[j].at(z) == all[j].at(z) ^ all[j + 1].at(z),
            forall|j: int|
                0 <= j < i ==> (#[trigger] r@[j])@ == form_add(started@[j]@, started@[j + 1]@),
        decreases n - i,
    {
        assert(all[i as int].bound() <= b.wires() && all[i + 1].bound() <= b.wires());
        let pair = started[i].add(&started[i + 1]);
        r.push(pair);
        i = i + 1;
    }
    proof {
        assert forall|z: spec_fn(int) -> u128| #[trigger]
            b.holds(z) && all_bits(exprs_at(height_bits@, z)) implies one_hot(
            exprs_at(r@, z),
            schedule.epoch(bits_nat(exprs_at(height_bits@, z))) as int,
        ) by {
            let h = bits_nat(exprs_at(height_bits@, z));
            let e = schedule.epoch(h);
            let vals = exprs_at(r@, z);
            lemma_epoch(*schedule, 0, (n - 1) as nat, h);
            assert forall|j: int| 0 <= j < vals.len() implies #[trigger] vals[j] == bit_of(j == e) by {
                assert(r@[j].at(z) == all[j].at(z) ^ all[j + 1].at(z));
                assert(all[j].at(z) == bit_of(schedule.started(j as nat, h)));
                assert(all[j + 1].at(z) == bit_of(schedule.started((j + 1) as nat, h)));
                lemma_bit_ops(all[j].at(z), all[j + 1].at(z));
                lemma_epoch(*schedule, j as nat, (n - 1) as nat, h);
                if j + 1 < n {
                    lemma_epoch(*schedule, (j + 1) as nat, (n - 1) as nat, h);
                }
            }
        }
    }
    r
}

/// The rows of the payout rules: whether the new rules apply, one selector
/// per rule, and the blocks that each rule pays for.
#[verifier::opaque]
pub open spec fn rules_step(
    s: Shape,
    height: LinForm,
    bits: Seq<LinForm>,
    schedule: ForkAllocationSchedule,
) -> (Shape, LinForm, Seq<LinForm>, Seq<u64>) {
    match schedule.activation {
        None => {
            let (t, due) = boundary_step(s, height, TARGET_BLOCKS_PER_DAY);
            (
                t,
                const_form(0),
                Seq::empty().push(due),
                Seq::empty().push(TARGET_BLOCKS_PER_DAY),
            )
        },
        Some(at) => {
            let interval = (86_400int / at.block_time as int) as u64;
            let origin = (at.height - 1) as u64;
            let (s1, is_before) = borrow_step(s, bits, constant_forms(at.height, 64), bits.len());
            let after = form_add_const(is_before, 1);
            let (s2, old_boundary) = boundary_step(s1, height, TARGET_BLOCKS_PER_DAY);
            let (s3, old_due) = mul_step(s2, is_before, old_boundary);
            let s4 = s3.free();
            let elapsed = s3.next();
            let (s5, selected) = mul_step(s4, after, height);
            let start = form_scale(after, (s.flat)(origin as u128));
            let (s6, whole) = add_step(s5, elapsed, start, 64);
            let s7 = pin_eq_step(s6, selected, whole);
            let (s8, boundary) = boundary_step(s7, elapsed, interval);
            let (s9, first) = equals_step(s8, bits, at.height, bits.len());
            let (s10, later) = mul_step(s9, after, form_add_const(first, 1));
            let (s11, regular) = mul_step(s10, later, boundary);
            let selectors = Seq::empty().push(old_due).push(regular);
            let blocks = Seq::empty().push(TARGET_BLOCKS_PER_DAY).push(interval);
            let rest = if schedule.end_height > at.height {
                (schedule.end_height - origin) % interval as int
            } else {
                0
            };
            if rest != 0 {
                let (s12, last) = equals_step(s11, bits, schedule.end_height, bits.len());
                (s12, after, selectors.push(last), blocks.push(rest as u64))
            } else {
                (s11, after, selectors, blocks)
            }
        },
    }
}

/// The payout rules as selectors with fixed block counts, and the flag of the
/// new rules.
#[verifier::rlimit(40)]
pub fn payout_rules(
    b: &mut FieldR1csBuilder,
    height: &LinExpr,
    bits: &[LinExpr],
    native_height: u64,
    schedule: &ForkAllocationSchedule,
) -> (r: (LinExpr, Vec<LinExpr>, Vec<u64>))
    requires
        old(b).wf(),
        schedule.wf(),
        bits@.len() == 64,
        height.bound() <= old(b).wires(),
        exprs_bounded(bits@, old(b).wires()),
        forall|z: spec_fn(int) -> u128| #[trigger]
            old(b).holds(z) && old(b).live(z) ==> all_bits(exprs_at(bits@, z)) && bits_nat(
                exprs_at(bits@, z),
            ) == int_at(*old(b), height@, z),
    ensures
        refines(*final(b), *old(b)),
        r.0.bound() <= final(b).wires(),
        exprs_bounded(r.1@, final(b).wires()),
        r.1@.len() == schedule.rules(0).len(),
        r.2@.len() == schedule.rules(0).len(),
        forall|i: int, h: nat|
            0 <= i < r.2@.len() ==> #[trigger] r.2@[i] == (#[trigger] schedule.rules(h)[i]).1,
        forall|z: spec_fn(int) -> u128| #[trigger]
            final(b).holds(z) && old(b).live(z) ==> {
                let h = int_at(*old(b), height@, z);
                &&& r.0.at(z) == bit_of(schedule.is_v2(h))
                &&& forall|i: int|
                    0 <= i < r.1@.len() ==> (#[trigger] r.1@[i]).at(z) == bit_of(
                        schedule.rules(h)[i].0,
                    )
            },
        old(b).live(old(b).witness()) && native_height == int_at(
            *old(b),
            height@,
            old(b).witness(),
        ) ==> (final(b).honest() <==> old(b).honest()),
        rules_step(old(b).shape(), height@, forms(bits@), *schedule) == (
            final(b).shape(),
            r.0@,
            forms(r.1@),
            r.2@,
        ),
{
    reveal(rules_step);
    assert(forms(Seq::<LinExpr>::empty()) =~= Seq::empty());
    let ghost before = *b;
    let ghost t = b.flat_basis();
    let ghost w = b.witness();
    proof {
        b.lemma_basis_wf();
        vstd::arithmetic::power2::lemma2_to64();
        vstd::arithmetic::power2::lemma2_to64_rest();
        lemma_rules_disjoint(*schedule, 0);
    }
    let mut selectors: Vec<LinExpr> = Vec::new();
    let mut blocks: Vec<u64> = Vec::new();
    let at = match schedule.activation {
        None => {
            let due = payout_boundary_for(b, height, native_height, TARGET_BLOCKS_PER_DAY);
            selectors.push(due);
            blocks.push(TARGET_BLOCKS_PER_DAY);
            return (LinExpr::zero(), selectors, blocks);
        },
        Some(at) => at,
    };
    let interval: u64 = 86_400 / at.block_time;
    let at_bits = constant_bits(at.height, HEIGHT_BITS);
    let is_before = less_than_bits(b, bits, at_bits.as_slice());
    let ghost b1 = *b;
    let after = is_before.add_const(F128::one());
    let old_boundary = payout_boundary_for(b, height, native_height, TARGET_BLOCKS_PER_DAY);
    let ghost b2 = *b;
    let old_due = crate::trace::mul(b, &is_before, &old_boundary);
    let ghost b3 = *b;
    let origin_height: u64 = at.height - 1;
    let elapsed_native: u64 = if native_height >= origin_height {
        native_height - origin_height
    } else {
        0
    };
    let elapsed = alloc_block(b, elapsed_native as u128);
    let ghost b4 = *b;
    let selected_height = crate::trace::mul(b, &after, height);
    let ghost b5 = *b;
    let origin_value = b.basis().to_flat(origin_height as u128);
    let origin = after.scale(origin_value);
    let recomposed = integer_add_no_overflow(b, &elapsed, &origin, HEIGHT_BITS);
    let ghost b6 = *b;
    pin_eq(b, &selected_height, &recomposed);
    let ghost b7 = *b;
    let boundary = payout_boundary_for(b, &elapsed, elapsed_native, interval);
    let ghost b8 = *b;
    proof {
        lemma_exprs_mono(bits@, before.wires(), b8.wires());
    }
    let first = equals_constant(b, bits, at.height);
    let ghost b9 = *b;
    let not_first = first.add_const(F128::one());
    let later = crate::trace::mul(b, &after, &not_first);
    let ghost b10 = *b;
    let regular = crate::trace::mul(b, &later, &boundary);
    let ghost b11 = *b;
    selectors.push(old_due);
    blocks.push(TARGET_BLOCKS_PER_DAY);
    selectors.push(regular);
    blocks.push(interval);
    proof {
        assert forall|z: spec_fn(int) -> u128| #[trigger] b11.holds(z) && before.live(z) implies {
            let h = int_at(before, height@, z);
            &&& all_bits(exprs_at(bits@, z))
            &&& bits_nat(exprs_at(bits@, z)) == h
            &&& after.at(z) == bit_of(schedule.is_v2(h))
            &&& old_due.at(z) == bit_of(h < at.height && h % TARGET_BLOCKS_PER_DAY as nat == 0)
            &&& regular.at(z) == bit_of(
                h > at.height && ((h - (at.height - 1)) as nat) % interval as nat == 0,
            )
        } by {
            assert(b10.holds(z) && b9.holds(z) && b8.holds(z) && b7.holds(z) && b6.holds(z)
                && b5.holds(z) && b4.holds(z) && b3.holds(z) && b2.holds(z) && b1.holds(z)
                && before.holds(z));
            assert(b1.live(z) && b5.live(z) && b6.live(z) && b7.live(z));
            let h = int_at(before, height@, z);
            lemma_int_bits(at.height as u128, 64);
            assert(exprs_at(at_bits@, z) == int_bits(at.height as u128, 64));
            assert(is_before.at(z) == bit_of(h < at.height));
            lemma_bit_ops(is_before.at(z), 1);
            assert(int_at(b1, height@, z) == h);
            lemma_bit_ops(is_before.at(z), old_boundary.at(z));
            assert(first.at(z) == bit_of(h == at.height));
            lemma_bit_ops(first.at(z), 1);
            lemma_bit_ops(after.at(z), not_first.at(z));
            lemma_bit_ops(later.at(z), boundary.at(z));
            lemma_fmul_unit(height.at(z));
            lemma_fmul_unit(origin_value@);
            t.lemma_inverse(origin_height as u128);
            t.lemma_inverse(height.at(z));
            t.lemma_linear(0, 0);
            let e = int_at(before, elapsed@, z);
            assert(selected_height.at(z) == recomposed.at(z));
            assert(int_at(b5, recomposed@, z) == int_at(b5, elapsed@, z) + int_at(
                b5,
                origin@,
                z,
            ));
            assert(origin.at(z) == fmul(after.at(z), origin_value@));
            if h >= at.height {
                assert(int_at(b5, origin@, z) == origin_height);
                assert(e == h - origin_height);
            }
            assert(boundary.at(z) == bit_of(e % interval as nat == 0));
        }
        if before.live(w) && native_height == int_at(before, height@, w) {
            assert(height.at(b1.witness()) == height.at(w));
            assert(b3.honest() <==> before.honest());
            assert(b5.honest() <==> before.honest());
            if before.honest() {
                let v = b5.witness();
                assert(b5.honest());
                assert(b5.holds(v) && b4.holds(v) && b3.holds(v) && b2.holds(v) && b1.holds(v) && before.holds(v));
                assert(before.live(v));
                assert(height.at(v) == height.at(w));
                let h = native_height as nat;
                lemma_int_bits(at.height as u128, 64);
                assert(exprs_at(at_bits@, v) == int_bits(at.height as u128, 64));
                assert(is_before.at(v) == bit_of(h < at.height));
                lemma_bit_ops(is_before.at(v), 1);
                lemma_fmul_unit(height.at(v));
                lemma_fmul_unit(origin_value@);
                t.lemma_inverse(origin_height as u128);
                t.lemma_inverse(height.at(v));
                t.lemma_linear(0, 0);
                assert(elapsed.at(v) == elapsed.at(b4.witness()));
                assert(int_at(b5, elapsed@, v) == elapsed_native);
                assert(origin.at(v) == fmul(after.at(v), origin_value@));
                assert(int_at(b5, origin@, v) == if h >= at.height {
                    origin_height as nat
                } else {
                    0
                });
                assert(b6.honest());
                let u = b6.witness();
                assert(b6.holds(u) && b5.live(u));
                assert(selected_height.at(u) == selected_height.at(v));
                assert(elapsed.at(u) == elapsed.at(v));
                assert(origin.at(u) == origin.at(v));
                assert(int_at(b5, recomposed@, u) == elapsed_native + int_at(b5, origin@, v));
                t.lemma_inverse(selected_height.at(u));
                t.lemma_inverse(recomposed.at(u));
                assert(b7.honest());
                assert(elapsed.at(b7.witness()) == elapsed.at(v));
                assert(b8.honest());
            }
            if b8.honest() {
                assert(b7.honest() && b6.honest() && b5.honest());
            }
            assert(b11.honest() <==> before.honest());
        }
    }
    let mut final_blocks: u64 = 0;
    if schedule.end_height > at.height {
        final_blocks = (schedule.end_height - origin_height) % interval;
    }
    if final_blocks != 0 {
        proof {
            lemma_exprs_mono(bits@, before.wires(), b11.wires());
        }
        let last = equals_constant(b, bits, schedule.end_height);
        proof {
            assert forall|z: spec_fn(int) -> u128| #[trigger]
                b.holds(z) && before.live(z) implies last.at(z) == bit_of(
                int_at(before, height@, z) == schedule.end_height,
            ) by {
                assert(b11.holds(z));
                lemma_int_bits(schedule.end_height as u128, 64);
            }
        }
        selectors.push(last);
        blocks.push(final_blocks);
    }
    (after, selectors, blocks)
}

/// A table of amounts: each entry is the reward, its share times a number of
/// blocks, or the miner's part.
#[derive(Clone, Copy, Debug, PartialEq, Eq, Structural)]
pub enum Amount {
    Reward,
    ShareTimes(u64),
    MinerPart,
}

/// The amount of one reward.
pub open spec fn amount_of(kind: Amount, reward: nat) -> nat {
    match kind {
        Amount::Reward => reward,
        Amount::ShareTimes(blocks) => share(reward) * blocks as nat,
        Amount::MinerPart => miner_part(reward, true),
    }
}

/// The amounts of a table of rewards.
pub open spec fn amount_table(rewards: Seq<u64>, kind: Amount) -> Seq<u64> {
    rewards.map_values(|reward: u64| amount_of(kind, reward as nat) as u64)
}

fn amounts(rewards: &Vec<u64>, kind: Amount) -> (r: Vec<u64>)
    requires
        forall|i: int|
            0 <= i < rewards@.len() ==> amount_of(kind, #[trigger] rewards@[i] as nat) <= u64::MAX,
    ensures
        r@.len() == rewards@.len(),
        forall|i: int|
            0 <= i < rewards@.len() ==> #[trigger] r@[i] == amount_of(kind, rewards@[i] as nat),
        r@ == amount_table(rewards@, kind),
{
    let mut r: Vec<u64> = Vec::new();
    let mut i: usize = 0;
    while i < rewards.len()
        invariant
            i <= rewards@.len(),
            r@.len() == i,
            forall|k: int|
                0 <= k < rewards@.len() ==> amount_of(kind, #[trigger] rewards@[k] as nat)
                    <= u64::MAX,
            forall|k: int| 0 <= k < i ==> #[trigger] r@[k] == amount_of(kind, rewards@[k] as nat),
        decreases rewards@.len() - i,
    {
        let reward = rewards[i];
        assert(amount_of(kind, rewards@[i as int] as nat) <= u64::MAX);
        let value: u64 = match kind {
            Amount::Reward => reward,
            Amount::ShareTimes(blocks) => (reward / 20) * blocks,
            Amount::MinerPart => reward - 2 * (reward / 20),
        };
        r.push(value);
        i = i + 1;
    }
    assert(r@ =~= amount_table(rewards@, kind));
    r
}

/// Every amount of this kind fits 64 bits.
pub open spec fn kind_fits(schedule: ForkAllocationSchedule, kind: Amount) -> bool {
    match kind {
        Amount::ShareTimes(blocks) => schedule.amounts_fit(blocks as nat),
        _ => true,
    }
}

/// The rows of one amount, and its form.
#[verifier::opaque]
pub open spec fn amount_step(
    s: Shape,
    depth: Seq<LinForm>,
    epochs: Seq<LinForm>,
    v2_active: LinForm,
    schedule: ForkAllocationSchedule,
    kind: Amount,
) -> (Shape, LinForm) {
    mux_step(
        s,
        v2_active,
        table_form(s.flat, epochs, amount_table(schedule.v2_rewards@, kind), epochs.len()),
        table_form(s.flat, depth, amount_table(schedule.legacy_rewards@, kind), depth.len()),
    )
}

/// The amount selected by the legacy depth or, under the new rules, by the
/// reward epoch.
pub fn selected_amount(
    b: &mut FieldR1csBuilder,
    depth_selectors: &Vec<LinExpr>,
    epochs: &Vec<LinExpr>,
    v2_active: &LinExpr,
    schedule: &ForkAllocationSchedule,
    kind: Amount,
) -> (r: LinExpr)
    requires
        old(b).wf(),
        kind_fits(*schedule, kind),
        depth_selectors@.len() == schedule.legacy_rewards@.len(),
        epochs@.len() == schedule.v2_rewards@.len(),
        exprs_bounded(depth_selectors@, old(b).wires()),
        exprs_bounded(epochs@, old(b).wires()),
        v2_active.bound() <= old(b).wires(),
    ensures
        refines(*final(b), *old(b)),
        final(b).honest() <==> old(b).honest(),
        r.bound() <= final(b).wires(),
        forall|z: spec_fn(int) -> u128, d: int, e: int|
            #![trigger final(b).holds(z), one_hot(exprs_at(depth_selectors@, z), d), one_hot(exprs_at(epochs@, z), e)]
            final(b).holds(z) && one_hot(exprs_at(depth_selectors@, z), d) && one_hot(
                exprs_at(epochs@, z),
                e,
            ) && is_bit(v2_active.at(z)) ==> {
                let amount = amount_of(
                    kind,
                    if v2_active.at(z) == 1 {
                        schedule.v2_rewards@[e] as nat
                    } else {
                        schedule.legacy_rewards@[d] as nat
                    },
                );
                &&& r.at(z) == old(b).flat_basis().flat(amount as u128)
                &&& int_at(*old(b), r@, z) == amount
                &&& amount <= u64::MAX
            },
        amount_step(
            old(b).shape(),
            forms(depth_selectors@),
            forms(epochs@),
            v2_active@,
            *schedule,
            kind,
        ) == (final(b).shape(), r@),
{
    reveal(amount_step);
    let ghost before = *b;
    let old_values = amounts(&schedule.legacy_rewards, kind);
    let new_values = amounts(&schedule.v2_rewards, kind);
    let old_amount = selected_depth_constant(b, depth_selectors.as_slice(), old_values.as_slice());
    let new_amount = selected_depth_constant(b, epochs.as_slice(), new_values.as_slice());
    let r = mux(b, v2_active, &new_amount, &old_amount);
    proof {
        assert forall|z: spec_fn(int) -> u128, d: int, e: int|
            #![trigger b.holds(z), one_hot(exprs_at(depth_selectors@, z), d), one_hot(exprs_at(epochs@, z), e)]
            b.holds(z) && one_hot(exprs_at(depth_selectors@, z), d) && one_hot(
                exprs_at(epochs@, z),
                e,
            ) && is_bit(v2_active.at(z)) implies {
            let amount = amount_of(
                kind,
                if v2_active.at(z) == 1 {
                    schedule.v2_rewards@[e] as nat
                } else {
                    schedule.legacy_rewards@[d] as nat
                },
            );
            &&& r.at(z) == before.flat_basis().flat(amount as u128)
            &&& int_at(before, r@, z) == amount
            &&& amount <= u64::MAX
        } by {
            assert(old_amount.at(z) == before.flat_basis().flat(old_values@[d] as u128));
            assert(new_amount.at(z) == before.flat_basis().flat(new_values@[e] as u128));
            before.lemma_basis_wf();
            before.flat_basis().lemma_inverse(old_values@[d] as u128);
            before.flat_basis().lemma_inverse(new_values@[e] as u128);
            assert(r.at(z) == if v2_active.at(z) == 1 {
                new_amount.at(z)
            } else {
                old_amount.at(z)
            });
        }
    }
    r
}

/// The schedule outputs of one block.
pub struct DevelopmentAllocationTrace {
    /// The bits of the block height, lowest first.
    pub height_bits: Vec<Wire>,
    /// One exactly when the new rules apply.
    pub v2_active: LinExpr,
    pub active: LinExpr,
    pub payout_due: LinExpr,
    pub share_each: LinExpr,
    pub miner_subsidy: LinExpr,
    pub payout_each: LinExpr,
}

impl DevelopmentAllocationTrace {
    /// What the trace reads.
    pub open spec fn forms(&self) -> AllocationForms {
        AllocationForms {
            height_bits: self.height_bits@,
            v2_active: self.v2_active@,
            active: self.active@,
            payout_due: self.payout_due@,
            share_each: self.share_each@,
            miner_subsidy: self.miner_subsidy@,
            payout_each: self.payout_each@,
        }
    }

    pub open spec fn bounded(&self, n: nat) -> bool {
        &&& self.height_bits@.len() == 64
        &&& wires_bounded(self.height_bits@, n)
        &&& self.v2_active.bound() <= n
        &&& self.active.bound() <= n
        &&& self.payout_due.bound() <= n
        &&& self.share_each.bound() <= n
        &&& self.miner_subsidy.bound() <= n
        &&& self.payout_each.bound() <= n
    }

    /// The bits spell the height.
    pub open spec fn spells_height(&self, z: spec_fn(int) -> u128, height: nat) -> bool {
        &&& all_bits(wires_at(self.height_bits@, z))
        &&& bits_nat(wires_at(self.height_bits@, z)) == height
    }

    /// The amounts are those of the schedule at a height and a depth index.
    pub open spec fn matches_schedule(
        &self,
        b: FieldR1csBuilder,
        z: spec_fn(int) -> u128,
        s: ForkAllocationSchedule,
        height: nat,
        depth: int,
    ) -> bool {
        let reward = s.reward(height, depth);
        &&& self.v2_active.at(z) == bit_of(s.is_v2(height))
        &&& self.active.at(z) == bit_of(s.active(height))
        &&& self.payout_due.at(z) == bit_of(s.due(height))
        &&& int_at(b, self.share_each@, z) == if s.active(height) {
            share(reward)
        } else {
            0
        }
        &&& int_at(b, self.miner_subsidy@, z) == miner_part(reward, s.active(height))
        &&& int_at(b, self.payout_each@, z) == s.payout(height, depth)
    }
}

proof fn lemma_amounts_fit(s: ForkAllocationSchedule, blocks: nat, most: nat)
    requires
        s.amounts_fit(most),
        blocks <= most,
    ensures
        s.amounts_fit(blocks),
{
    assert forall|i: int| 0 <= i < s.legacy_rewards@.len() implies share(
        #[trigger] s.legacy_rewards@[i] as nat,
    ) * blocks <= u64::MAX by {
        let x = share(s.legacy_rewards@[i] as nat);
        assert(x * blocks <= x * most) by (nonlinear_arith)
            requires
                blocks <= most,
        ;
    }
    assert forall|i: int| 0 <= i < s.v2_rewards@.len() implies share(
        #[trigger] s.v2_rewards@[i] as nat,
    ) * blocks <= u64::MAX by {
        let x = share(s.v2_rewards@[i] as nat);
        assert(x * blocks <= x * most) by (nonlinear_arith)
            requires
                blocks <= most,
        ;
    }
}

/// The selectors carry the rules of a height.
pub open spec fn rules_at(
    s: ForkAllocationSchedule,
    selectors: Seq<LinExpr>,
    z: spec_fn(int) -> u128,
    height: nat,
) -> bool {
    &&& selectors.len() == s.rules(height).len()
    &&& forall|i: int|
        0 <= i < selectors.len() ==> (#[trigger] selectors[i]).at(z) == bit_of(
            s.rules(height)[i].0,
        )
}

/// The sum of the first `n` forms.
#[verifier::opaque]
pub open spec fn sum_form(es: Seq<LinForm>, n: nat) -> LinForm
    decreases n,
{
    if n == 0 {
        const_form(0)
    } else {
        form_add(sum_form(es, (n - 1) as nat), es[n - 1])
    }
}

/// One exactly when some rule fires.
fn any_rule(selectors: &Vec<LinExpr>, schedule: &ForkAllocationSchedule, Ghost(n): Ghost<nat>) -> (r:
    LinExpr)
    requires
        schedule.wf(),
        exprs_bounded(selectors@, n),
    ensures
        r.bound() <= n,
        forall|z: spec_fn(int) -> u128, h: nat|
            #![trigger rules_at(*schedule, selectors@, z, h), r.at(z)]
            rules_at(*schedule, selectors@, z, h) ==> r.at(z) == bit_of(
                fired(schedule.rules(h), schedule.rules(h).len()),
            ),
        r@ == sum_form(forms(selectors@), selectors@.len()),
{
    reveal(sum_form);
    let mut sum = LinExpr::zero();
    let mut i: usize = 0;
    while i < selectors.len()
        invariant
            i <= selectors@.len(),
            schedule.wf(),
            exprs_bounded(selectors@, n),
            sum.bound() <= n,
            forall|z: spec_fn(int) -> u128, h: nat|
                #![trigger rules_at(*schedule, selectors@, z, h), sum.at(z)]
                rules_at(*schedule, selectors@, z, h) ==> sum.at(z) == bit_of(
                    fired(schedule.rules(h), i as nat),
                ),
            sum@ == sum_form(forms(selectors@), i as nat),
        decreases selectors@.len() - i,
    {
        reveal(sum_form);
        let ghost sum0 = sum;
        assert(selectors@[i as int].bound() <= n);
        sum = sum.add(&selectors[i]);
        proof {
            assert forall|z: spec_fn(int) -> u128, h: nat|
                #![trigger rules_at(*schedule, selectors@, z, h), sum.at(z)]
                rules_at(*schedule, selectors@, z, h) implies sum.at(z) == bit_of(
                fired(schedule.rules(h), (i + 1) as nat),
            ) by {
                assert(sum0.at(z) == bit_of(fired(schedule.rules(h), i as nat)));
                assert(selectors@[i as int].at(z) == bit_of(schedule.rules(h)[i as int].0));
                lemma_rules_disjoint(*schedule, h);
                lemma_fired_prefix(schedule.rules(h), i as nat);
                lemma_bit_ops(sum0.at(z), selectors@[i as int].at(z));
            }
        }
        i = i + 1;
    }
    sum
}

/// The reward selectors agree with the schedule at a height and a depth.
pub open spec fn rewards_at(
    s: ForkAllocationSchedule,
    depth_selectors: Seq<LinExpr>,
    epochs: Seq<LinExpr>,
    v2_active: LinForm,
    z: spec_fn(int) -> u128,
    height: nat,
    depth: int,
) -> bool {
    &&& one_hot(exprs_at(depth_selectors, z), depth)
    &&& one_hot(exprs_at(epochs, z), s.epoch(height) as int)
    &&& v2_active.at(z) == bit_of(s.is_v2(height))
}

/// The rows of the payout of the first `n` rules, and its form.
#[verifier::opaque]
pub open spec fn payout_step(
    s: Shape,
    selectors: Seq<LinForm>,
    blocks: Seq<u64>,
    depth: Seq<LinForm>,
    epochs: Seq<LinForm>,
    v2_active: LinForm,
    schedule: ForkAllocationSchedule,
    n: nat,
) -> (Shape, LinForm)
    decreases n,
{
    if n == 0 {
        (s, const_form(0))
    } else {
        let (s0, sum) = payout_step(
            s,
            selectors,
            blocks,
            depth,
            epochs,
            v2_active,
            schedule,
            (n - 1) as nat,
        );
        let kind = Amount::ShareTimes(blocks[n - 1]);
        let (s1, amount) = amount_step(s0, depth, epochs, v2_active, schedule, kind);
        let (s2, term) = mul_step(s1, selectors[n - 1], amount);
        (s2, form_add(sum, term))
    }
}

/// The payout of the rule that fires.
fn rule_payout(
    b: &mut FieldR1csBuilder,
    selectors: &Vec<LinExpr>,
    blocks: &Vec<u64>,
    depth_selectors: &Vec<LinExpr>,
    epochs: &Vec<LinExpr>,
    v2_active: &LinExpr,
    schedule: &ForkAllocationSchedule,
) -> (r: LinExpr)
    requires
        old(b).wf(),
        schedule.wf(),
        selectors@.len() == blocks@.len(),
        selectors@.len() == schedule.rules(0).len(),
        forall|i: int, h: nat|
            0 <= i < blocks@.len() ==> #[trigger] blocks@[i] == (#[trigger] schedule.rules(
                h,
            )[i]).1,
        depth_selectors@.len() == schedule.legacy_rewards@.len(),
        epochs@.len() == schedule.v2_rewards@.len(),
        exprs_bounded(selectors@, old(b).wires()),
        exprs_bounded(depth_selectors@, old(b).wires()),
        exprs_bounded(epochs@, old(b).wires()),
        v2_active.bound() <= old(b).wires(),
    ensures
        refines(*final(b), *old(b)),
        final(b).honest() <==> old(b).honest(),
        r.bound() <= final(b).wires(),
        forall|z: spec_fn(int) -> u128, h: nat, d: int|
            #![trigger final(b).holds(z), rules_at(*schedule, selectors@, z, h), rewards_at(*schedule, depth_selectors@, epochs@, v2_active@, z, h, d)]
            final(b).holds(z) && rules_at(*schedule, selectors@, z, h) && rewards_at(
                *schedule,
                depth_selectors@,
                epochs@,
                v2_active@,
                z,
                h,
                d,
            ) ==> {
                let amount = share(schedule.reward(h, d)) * schedule.paid_blocks(h);
                r.at(z) == old(b).flat_basis().flat(amount as u128) && amount <= u64::MAX
            },
        payout_step(
            old(b).shape(),
            forms(selectors@),
            blocks@,
            forms(depth_selectors@),
            forms(epochs@),
            v2_active@,
            *schedule,
            selectors@.len(),
        ) == (final(b).shape(), r@),
{
    reveal(payout_step);
    let ghost entry = *b;
    let ghost before = *b;
    let mut sum = LinExpr::zero();
    let mut i: usize = 0;
    proof {
        lemma_rules_disjoint(*schedule, 0);
        before.lemma_basis_wf();
        before.flat_basis().lemma_linear(0, 0);
        assert forall|x: nat| #[trigger] (x * 0) == 0 by {}
    }
    while i < selectors.len()
        invariant
            i <= selectors@.len(),
            before.wf(),
            before.flat_basis().wf(),
            before.flat_basis().flat(0) == 0,
            refines(*b, before),
            b.honest() <==> before.honest(),
            schedule.wf(),
            selectors@.len() == blocks@.len(),
            selectors@.len() == schedule.rules(0).len(),
            forall|k: int, h: nat|
                0 <= k < blocks@.len() ==> #[trigger] blocks@[k] == (#[trigger] schedule.rules(
                    h,
                )[k]).1,
            depth_selectors@.len() == schedule.legacy_rewards@.len(),
            epochs@.len() == schedule.v2_rewards@.len(),
            exprs_bounded(selectors@, before.wires()),
            exprs_bounded(depth_selectors@, before.wires()),
            exprs_bounded(epochs@, before.wires()),
            v2_active.bound() <= before.wires(),
            sum.bound() <= b.wires(),
            forall|z: spec_fn(int) -> u128, h: nat, d: int|
                #![trigger b.holds(z), rules_at(*schedule, selectors@, z, h), rewards_at(*schedule, depth_selectors@, epochs@, v2_active@, z, h, d)]
                b.holds(z) && rules_at(*schedule, selectors@, z, h) && rewards_at(
                    *schedule,
                    depth_selectors@,
                    epochs@,
                    v2_active@,
                    z,
                    h,
                    d,
                ) ==> {
                    let amount = share(schedule.reward(h, d)) * fired_blocks(
                        schedule.rules(h),
                        i as nat,
                    );
                    sum.at(z) == before.flat_basis().flat(amount as u128) && amount <= u64::MAX
                },
            payout_step(
                entry.shape(),
                forms(selectors@),
                blocks@,
                forms(depth_selectors@),
                forms(epochs@),
                v2_active@,
                *schedule,
                i as nat,
            ) == (b.shape(), sum@),
        decreases selectors@.len() - i,
    {
        reveal(payout_step);
        let ghost start = *b;
        let ghost sum0 = sum;
        proof {
            lemma_rules_disjoint(*schedule, 0);
            assert(blocks@[i as int] == schedule.rules(0)[i as int].1);
            if blocks@[i as int] != TARGET_BLOCKS_PER_DAY {
                lemma_amounts_fit(*schedule, blocks@[i as int] as nat, schedule.interval());
            }
            lemma_exprs_mono(depth_selectors@, before.wires(), start.wires());
            lemma_exprs_mono(epochs@, before.wires(), start.wires());
            assert(selectors@[i as int].bound() <= before.wires());
        }
        let amount = selected_amount(
            b,
            depth_selectors,
            epochs,
            v2_active,
            schedule,
            Amount::ShareTimes(blocks[i]),
        );
        let ghost mid = *b;
        let term = crate::trace::mul(b, &selectors[i], &amount);
        sum = sum.add(&term);
        proof {
            assert forall|z: spec_fn(int) -> u128, h: nat, d: int|
                #![trigger b.holds(z), rules_at(*schedule, selectors@, z, h), rewards_at(*schedule, depth_selectors@, epochs@, v2_active@, z, h, d)]
                b.holds(z) && rules_at(*schedule, selectors@, z, h) && rewards_at(
                    *schedule,
                    depth_selectors@,
                    epochs@,
                    v2_active@,
                    z,
                    h,
                    d,
                ) implies {
                let amount = share(schedule.reward(h, d)) * fired_blocks(
                    schedule.rules(h),
                    (i + 1) as nat,
                );
                sum.at(z) == before.flat_basis().flat(amount as u128) && amount <= u64::MAX
            } by {
                assert(mid.holds(z) && start.holds(z));
                let x = share(schedule.reward(h, d));
                let prev = fired_blocks(schedule.rules(h), i as nat);
                assert(sum0.at(z) == before.flat_basis().flat((x * prev) as u128));
                assert(selectors@[i as int].at(z) == bit_of(schedule.rules(h)[i as int].0));
                assert(blocks@[i as int] == schedule.rules(h)[i as int].1);
                lemma_rules_disjoint(*schedule, h);
                lemma_fired_prefix(schedule.rules(h), i as nat);
                lemma_fmul_unit(amount.at(z));
                lemma_xor(sum0.at(z), 0, 0);
                lemma_xor(amount.at(z), 0, 0);
                assert(one_hot(exprs_at(depth_selectors@, z), d));
                assert(one_hot(exprs_at(epochs@, z), schedule.epoch(h) as int));
                if schedule.rules(h)[i as int].0 {
                    assert(x * prev == 0) by (nonlinear_arith)
                        requires
                            prev == 0,
                    ;
                }
            }
        }
        i = i + 1;
    }
    sum
}

/// The flags of one block that only depend on its height.
struct HeightFlags {
    height_bits: Vec<Wire>,
    active: LinExpr,
    v2_active: LinExpr,
    payout_due: LinExpr,
    selectors: Vec<LinExpr>,
    blocks: Vec<u64>,
    epochs: Vec<LinExpr>,
}

/// What the flags of a height read.
pub struct FlagForms {
    pub height_bits: Seq<Wire>,
    pub active: LinForm,
    pub v2_active: LinForm,
    pub payout_due: LinForm,
    pub selectors: Seq<LinForm>,
    pub blocks: Seq<u64>,
    pub epochs: Seq<LinForm>,
}

impl HeightFlags {
    spec fn forms(&self) -> FlagForms {
        FlagForms {
            height_bits: self.height_bits@,
            active: self.active@,
            v2_active: self.v2_active@,
            payout_due: self.payout_due@,
            selectors: forms(self.selectors@),
            blocks: self.blocks@,
            epochs: forms(self.epochs@),
        }
    }

    spec fn bounded(&self, s: ForkAllocationSchedule, n: nat) -> bool {
        &&& self.height_bits@.len() == 64
        &&& wires_bounded(self.height_bits@, n)
        &&& self.active.bound() <= n
        &&& self.v2_active.bound() <= n
        &&& self.payout_due.bound() <= n
        &&& exprs_bounded(self.selectors@, n)
        &&& exprs_bounded(self.epochs@, n)
        &&& self.epochs@.len() == s.v2_rewards@.len()
        &&& self.selectors@.len() == s.rules(0).len()
        &&& self.blocks@.len() == s.rules(0).len()
        &&& forall|i: int, h: nat|
            0 <= i < self.blocks@.len() ==> #[trigger] self.blocks@[i] == (#[trigger] s.rules(
                h,
            )[i]).1
    }

    spec fn at_height(&self, s: ForkAllocationSchedule, z: spec_fn(int) -> u128, h: nat) -> bool {
        &&& all_bits(wires_at(self.height_bits@, z))
        &&& bits_nat(wires_at(self.height_bits@, z)) == h
        &&& self.active.at(z) == bit_of(s.active(h))
        &&& self.v2_active.at(z) == bit_of(s.is_v2(h))
        &&& self.payout_due.at(z) == bit_of(s.due(h))
        &&& rules_at(s, self.selectors@, z, h)
        &&& one_hot(exprs_at(self.epochs@, z), s.epoch(h) as int)
    }
}

/// The rows of the flags of a height, and what they read.
#[verifier::opaque]
pub open spec fn flags_step(s: Shape, height: LinForm, schedule: ForkAllocationSchedule) -> (
    Shape,
    FlagForms,
) {
    let height_bits = wires_from(s.n(), 64);
    let bits = wire_forms(height_bits);
    let s1 = range_step(s, height, 64);
    let bound = constant_forms((schedule.end_height + 1) as u64, 64);
    let (s2, below) = borrow_step(s1, bits, bound, 64);
    let (s3, zero) = all_zero_step(s2, bits, 64);
    let (s4, active) = mul_step(s3, below, form_add_const(zero, 1));
    let (s5, v2_active, selectors, blocks) = rules_step(s4, height, bits, schedule);
    let any = sum_form(selectors, selectors.len());
    let (s6, payout_due) = mul_step(s5, active, any);
    let (s7, epochs) = epochs_step(s6, bits, schedule);
    (s7, FlagForms { height_bits, active, v2_active, payout_due, selectors, blocks, epochs })
}

/// Binds everything that only depends on the height.
fn bind_height_flags(
    b: &mut FieldR1csBuilder,
    child_height: &LinExpr,
    schedule: &ForkAllocationSchedule,
) -> (r: HeightFlags)
    requires
        old(b).wf(),
        schedule.wf(),
        child_height.bound() <= old(b).wires(),
        int_at(*old(b), child_height@, old(b).witness()) < pow2(64),
    ensures
        refines(*final(b), *old(b)),
        r.bounded(*schedule, final(b).wires()),
        forall|z: spec_fn(int) -> u128| #[trigger]
            final(b).holds(z) && old(b).live(z) ==> {
                let h = int_at(*old(b), child_height@, z);
                h < pow2(64) && r.at_height(*schedule, z, h)
            },
        old(b).live(old(b).witness()) ==> (final(b).honest() <==> old(b).honest()),
        flags_step(old(b).shape(), child_height@, *schedule) == (final(b).shape(), r.forms()),
{
    reveal(flags_step);
    let ghost before = *b;
    let ghost t = b.flat_basis();
    let ghost w = b.witness();
    proof {
        b.lemma_basis_wf();
        vstd::arithmetic::power2::lemma2_to64();
        vstd::arithmetic::power2::lemma2_to64_rest();
        lemma_rules_disjoint(*schedule, 0);
    }
    let flat = b.value_of(child_height);
    let native_height: u64 = b.basis().to_tower(flat) as u64;
    let height_wires = range_check_bits(b, child_height, HEIGHT_BITS);
    let ghost b1 = *b;
    let height_bits = wire_exprs(height_wires.as_slice());
    proof {
        assert(wires_bounded(height_wires@, b1.wires()));
    }
    let bound_bits = constant_bits(schedule.end_height + 1, HEIGHT_BITS);
    let below_end = less_than_bits(b, height_bits.as_slice(), bound_bits.as_slice());
    let ghost b2 = *b;
    proof {
        lemma_exprs_mono(height_bits@, b1.wires(), b2.wires());
    }
    let height_is_zero = all_zero(b, height_bits.as_slice());
    let ghost b3 = *b;
    let nonzero = height_is_zero.add_const(F128::one());
    let active = crate::trace::mul(b, &below_end, &nonzero);
    let ghost b4 = *b;
    proof {
        lemma_exprs_mono(height_bits@, b1.wires(), b4.wires());
        assert forall|z: spec_fn(int) -> u128| #[trigger] b4.holds(z) && before.live(z) implies {
            let h = int_at(before, child_height@, z);
            &&& h < pow2(64)
            &&& all_bits(wires_at(height_wires@, z))
            &&& all_bits(exprs_at(height_bits@, z))
            &&& bits_nat(exprs_at(height_bits@, z)) == h
            &&& bits_nat(wires_at(height_wires@, z)) == h
            &&& active.at(z) == bit_of(schedule.active(h))
        } by {
            assert(b3.holds(z) && b2.holds(z) && b1.holds(z));
            let h = int_at(before, child_height@, z);
            assert(exprs_at(height_bits@, z) == wires_at(height_wires@, z));
            lemma_int_bits((schedule.end_height + 1) as u128, 64);
            assert(exprs_at(bound_bits@, z) == int_bits((schedule.end_height + 1) as u128, 64));
            assert(below_end.at(z) == bit_of(h < schedule.end_height + 1));
            assert(height_is_zero.at(z) == bit_of(h == 0));
            lemma_bit_ops(height_is_zero.at(z), 1);
            lemma_bit_ops(below_end.at(z), nonzero.at(z));
        }
        assert(child_height.at(b4.witness()) == child_height.at(w));
        if before.live(w) {
            assert(b4.honest() <==> before.honest());
        }
    }
    let (v2_active, selectors, blocks) = payout_rules(
        b,
        child_height,
        height_bits.as_slice(),
        native_height,
        schedule,
    );
    let ghost b5 = *b;
    let interval_boundary = any_rule(&selectors, schedule, Ghost(b5.wires()));
    let payout_due = crate::trace::mul(b, &active, &interval_boundary);
    let ghost b6 = *b;
    proof {
        lemma_exprs_mono(height_bits@, b1.wires(), b6.wires());
    }
    let epochs = reward_epoch_selectors(b, height_bits.as_slice(), schedule);
    let ghost b7 = *b;
    let r = HeightFlags {
        height_bits: height_wires,
        active,
        v2_active,
        payout_due,
        selectors,
        blocks,
        epochs,
    };
    proof {
        assert forall|z: spec_fn(int) -> u128| #[trigger] b7.holds(z) && before.live(z) implies {
            let h = int_at(before, child_height@, z);
            h < pow2(64) && r.at_height(*schedule, z, h)
        } by {
            assert(b6.holds(z) && b5.holds(z) && b4.holds(z));
            assert(b4.live(z));
            let h = int_at(before, child_height@, z);
            assert(int_at(b4, child_height@, z) == h);
            assert(schedule.rules(h).len() == schedule.rules(0).len());
            assert(rules_at(*schedule, selectors@, z, h));
            assert(interval_boundary.at(z) == bit_of(
                fired(schedule.rules(h), schedule.rules(h).len()),
            ));
            lemma_bit_ops(active.at(z), interval_boundary.at(z));
        }
        lemma_exprs_mono(selectors@, b5.wires(), b7.wires());
        if before.live(w) {
            assert(b7.honest() <==> before.honest());
        }
    }
    r
}

/// The amounts of one block: share, miner subsidy and payout.
struct Amounts {
    share_each: LinExpr,
    miner_subsidy: LinExpr,
    payout_each: LinExpr,
}

/// What the amounts of a block read.
pub struct AmountForms {
    pub share_each: LinForm,
    pub miner_subsidy: LinForm,
    pub payout_each: LinForm,
}

impl Amounts {
    spec fn forms(&self) -> AmountForms {
        AmountForms {
            share_each: self.share_each@,
            miner_subsidy: self.miner_subsidy@,
            payout_each: self.payout_each@,
        }
    }

    spec fn bounded(&self, n: nat) -> bool {
        &&& self.share_each.bound() <= n
        &&& self.miner_subsidy.bound() <= n
        &&& self.payout_each.bound() <= n
    }

    spec fn at_height(
        &self,
        b: FieldR1csBuilder,
        s: ForkAllocationSchedule,
        z: spec_fn(int) -> u128,
        h: nat,
        d: int,
    ) -> bool {
        let t = b.flat_basis();
        let reward = s.reward(h, d);
        &&& t.tower(self.share_each.at(z)) == if s.active(h) {
            share(reward)
        } else {
            0
        }
        &&& t.tower(self.miner_subsidy.at(z)) == miner_part(reward, s.active(h))
        &&& t.tower(self.payout_each.at(z)) == s.payout(h, d)
        &&& self.payout_each.at(z) == t.flat(s.payout(h, d) as u128)
        &&& s.payout(h, d) <= u64::MAX
        &&& !s.due(h) ==> s.payout(h, d) == 0
    }
}

/// The rows of the amounts of a block, and what they read.
#[verifier::opaque]
pub open spec fn amounts_step(
    s: Shape,
    flags: FlagForms,
    depth: Seq<LinForm>,
    schedule: ForkAllocationSchedule,
) -> (Shape, AmountForms) {
    let v2 = flags.v2_active;
    let (s1, full) = amount_step(s, depth, flags.epochs, v2, schedule, Amount::Reward);
    let (s2, share) = amount_step(s1, depth, flags.epochs, v2, schedule, Amount::ShareTimes(1));
    let (s3, payout) = if schedule.activation is Some {
        payout_step(
            s2,
            flags.selectors,
            flags.blocks,
            depth,
            flags.epochs,
            v2,
            schedule,
            flags.selectors.len(),
        )
    } else {
        let daily = Amount::ShareTimes(TARGET_BLOCKS_PER_DAY);
        amount_step(s2, depth, flags.epochs, v2, schedule, daily)
    };
    let (s4, reduced) = amount_step(s3, depth, flags.epochs, v2, schedule, Amount::MinerPart);
    let (s5, miner_subsidy) = mux_step(s4, flags.active, reduced, full);
    let (s6, share_each) = mul_step(s5, flags.active, share);
    let due = if schedule.activation is Some {
        flags.active
    } else {
        flags.payout_due
    };
    let (s7, payout_each) = mul_step(s6, due, payout);
    (s7, AmountForms { share_each, miner_subsidy, payout_each })
}

/// Selects the amounts of one block; records no equation.
fn select_amounts(
    b: &mut FieldR1csBuilder,
    flags: &HeightFlags,
    depth_selectors: &Vec<LinExpr>,
    schedule: &ForkAllocationSchedule,
) -> (r: Amounts)
    requires
        old(b).wf(),
        schedule.wf(),
        depth_selectors@.len() == schedule.legacy_rewards@.len(),
        exprs_bounded(depth_selectors@, old(b).wires()),
        flags.bounded(*schedule, old(b).wires()),
    ensures
        refines(*final(b), *old(b)),
        final(b).honest() <==> old(b).honest(),
        r.bounded(final(b).wires()),
        forall|z: spec_fn(int) -> u128, h: nat, d: int|
            #![trigger final(b).holds(z), flags.at_height(*schedule, z, h), one_hot(exprs_at(depth_selectors@, z), d)]
            final(b).holds(z) && flags.at_height(*schedule, z, h) && one_hot(
                exprs_at(depth_selectors@, z),
                d,
            ) ==> r.at_height(*old(b), *schedule, z, h, d),
        amounts_step(old(b).shape(), flags.forms(), forms(depth_selectors@), *schedule) == (
            final(b).shape(),
            r.forms(),
        ),
{
    reveal(amounts_step);
    let ghost before = *b;
    let ghost t = b.flat_basis();
    let ghost sel = depth_selectors@;
    proof {
        b.lemma_basis_wf();
        lemma_amounts_fit(*schedule, 1, TARGET_BLOCKS_PER_DAY as nat);
    }
    let full_subsidy = selected_amount(
        b,
        depth_selectors,
        &flags.epochs,
        &flags.v2_active,
        schedule,
        Amount::Reward,
    );
    let ghost b8 = *b;
    proof {
        lemma_exprs_mono(sel, before.wires(), b8.wires());
        lemma_exprs_mono(flags.epochs@, before.wires(), b8.wires());
    }
    let share_each = selected_amount(
        b,
        depth_selectors,
        &flags.epochs,
        &flags.v2_active,
        schedule,
        Amount::ShareTimes(1),
    );
    let ghost b9 = *b;
    proof {
        lemma_exprs_mono(sel, before.wires(), b9.wires());
        lemma_exprs_mono(flags.epochs@, before.wires(), b9.wires());
        lemma_exprs_mono(flags.selectors@, before.wires(), b9.wires());
    }
    let fork_schedule = schedule.activation.is_some();
    let selected_payout_each = if fork_schedule {
        rule_payout(
            b,
            &flags.selectors,
            &flags.blocks,
            depth_selectors,
            &flags.epochs,
            &flags.v2_active,
            schedule,
        )
    } else {
        selected_amount(
            b,
            depth_selectors,
            &flags.epochs,
            &flags.v2_active,
            schedule,
            Amount::ShareTimes(TARGET_BLOCKS_PER_DAY),
        )
    };
    let ghost b10 = *b;
    proof {
        lemma_exprs_mono(sel, before.wires(), b10.wires());
        lemma_exprs_mono(flags.epochs@, before.wires(), b10.wires());
    }
    let active_miner = selected_amount(
        b,
        depth_selectors,
        &flags.epochs,
        &flags.v2_active,
        schedule,
        Amount::MinerPart,
    );
    let ghost b11 = *b;
    let miner_subsidy = mux(b, &flags.active, &active_miner, &full_subsidy);
    let ghost b12 = *b;
    let current_share = crate::trace::mul(b, &flags.active, &share_each);
    let ghost b13 = *b;
    let expected_payout = if fork_schedule {
        crate::trace::mul(b, &flags.active, &selected_payout_each)
    } else {
        crate::trace::mul(b, &flags.payout_due, &selected_payout_each)
    };
    let r = Amounts { share_each: current_share, miner_subsidy, payout_each: expected_payout };
    proof {
        assert forall|z: spec_fn(int) -> u128, h: nat, d: int|
            #![trigger b.holds(z), flags.at_height(*schedule, z, h), one_hot(exprs_at(sel, z), d)]
            b.holds(z) && flags.at_height(*schedule, z, h) && one_hot(exprs_at(sel, z), d)
            implies r.at_height(before, *schedule, z, h, d) by {
            assert(b13.holds(z) && b12.holds(z) && b11.holds(z) && b10.holds(z) && b9.holds(z)
                && b8.holds(z));
            let reward = schedule.reward(h, d);
            assert(rules_at(*schedule, flags.selectors@, z, h));
            assert(rewards_at(*schedule, sel, flags.epochs@, flags.v2_active@, z, h, d));
            assert(one_hot(exprs_at(flags.epochs@, z), schedule.epoch(h) as int));
            assert(full_subsidy.at(z) == t.flat(reward as u128));
            assert(share(reward) * 1 == share(reward));
            assert(share_each.at(z) == t.flat(share(reward) as u128));
            assert(active_miner.at(z) == t.flat(miner_part(reward, true) as u128));
            t.lemma_inverse(reward as u128);
            t.lemma_inverse(share(reward) as u128);
            t.lemma_inverse(miner_part(reward, true) as u128);
            t.lemma_linear(0, 0);
            let paid = share(reward) * schedule.paid_blocks(h);
            lemma_not_fired(schedule.rules(h), schedule.rules(h).len());
            assert(share(reward) * 0 == 0);
            if fork_schedule {
                assert(selected_payout_each.at(z) == t.flat(paid as u128));
                t.lemma_inverse(paid as u128);
            } else {
                let daily = share(reward) * TARGET_BLOCKS_PER_DAY as nat;
                assert(selected_payout_each.at(z) == t.flat(daily as u128));
                t.lemma_inverse(daily as u128);
                reveal_with_fuel(fired, 2);
                reveal_with_fuel(fired_blocks, 2);
                assert(schedule.paid_blocks(h) == if h % TARGET_BLOCKS_PER_DAY as nat == 0 {
                    TARGET_BLOCKS_PER_DAY as nat
                } else {
                    0
                });
            }
            lemma_fmul_unit(share_each.at(z));
            lemma_fmul_unit(selected_payout_each.at(z));
        }
    }
    r
}

/// The rows of the allocation under a schedule, and what its trace reads. No
/// row depends on the values of the height, the depth or the amount.
#[verifier::opaque]
pub open spec fn scheduled_step(
    s: Shape,
    height: LinForm,
    depth: Seq<LinForm>,
    raw: LinForm,
    schedule: ForkAllocationSchedule,
) -> (Shape, AllocationForms) {
    let (s1, flags) = flags_step(s, height, schedule);
    let (s2, amounts) = amounts_step(s1, flags, depth, schedule);
    let (s3, selected) = mul_step(s2, flags.payout_due, raw);
    (
        pin_eq_step(s3, selected, amounts.payout_each),
        AllocationForms {
            height_bits: flags.height_bits,
            v2_active: flags.v2_active,
            active: flags.active,
            payout_due: flags.payout_due,
            share_each: amounts.share_each,
            miner_subsidy: amounts.miner_subsidy,
            payout_each: amounts.payout_each,
        },
    )
}

/// Binds the schedule outputs of one block under a fork schedule.
pub fn bind_development_allocation_with_schedule(
    b: &mut FieldR1csBuilder,
    child_height: &LinExpr,
    child_depth: &StateDepthTrace,
    payout_raw_amount: &LinExpr,
    schedule: &ForkAllocationSchedule,
) -> (r: DevelopmentAllocationTrace)
    requires
        old(b).wf(),
        schedule.wf(),
        child_depth.one_hot@.len() == schedule.legacy_rewards@.len(),
        exprs_bounded(child_depth.one_hot@, old(b).wires()),
        child_height.bound() <= old(b).wires(),
        payout_raw_amount.bound() <= old(b).wires(),
        int_at(*old(b), child_height@, old(b).witness()) < pow2(64),
    ensures
        refines(*final(b), *old(b)),
        r.bounded(final(b).wires()),
        forall|z: spec_fn(int) -> u128, d: int|
            #![trigger final(b).holds(z), one_hot(exprs_at(child_depth.one_hot@, z), d)]
            final(b).holds(z) && old(b).live(z) && one_hot(exprs_at(child_depth.one_hot@, z), d)
                ==> {
                let height = int_at(*old(b), child_height@, z);
                &&& height < pow2(64)
                &&& r.spells_height(z, height)
                &&& r.matches_schedule(*old(b), z, *schedule, height, d)
                &&& schedule.due(height) ==> int_at(*old(b), payout_raw_amount@, z)
                    == schedule.payout(height, d)
            },
        forall|d: int|
            old(b).live(old(b).witness()) && #[trigger] one_hot(
                exprs_at(child_depth.one_hot@, old(b).witness()),
                d,
            ) ==> (final(b).honest() <==> old(b).honest() && (schedule.due(
                int_at(*old(b), child_height@, old(b).witness()),
            ) ==> int_at(*old(b), payout_raw_amount@, old(b).witness()) == schedule.payout(
                int_at(*old(b), child_height@, old(b).witness()),
                d,
            ))),
        scheduled_step(
            old(b).shape(),
            child_height@,
            forms(child_depth.one_hot@),
            payout_raw_amount@,
            *schedule,
        ) == (final(b).shape(), r.forms()),
{
    reveal(scheduled_step);
    let ghost before = *b;
    let ghost t = b.flat_basis();
    let ghost w = b.witness();
    let ghost sel = child_depth.one_hot@;
    let flags = bind_height_flags(b, child_height, schedule);
    let ghost b1 = *b;
    proof {
        lemma_exprs_mono(sel, before.wires(), b1.wires());
    }
    let amounts = select_amounts(b, &flags, &child_depth.one_hot, schedule);
    let ghost b2 = *b;
    let selected_payout = crate::trace::mul(b, &flags.payout_due, payout_raw_amount);
    let ghost b3 = *b;
    pin_eq(b, &selected_payout, &amounts.payout_each);
    let r = DevelopmentAllocationTrace {
        height_bits: flags.height_bits,
        v2_active: flags.v2_active,
        active: flags.active,
        payout_due: flags.payout_due,
        share_each: amounts.share_each,
        miner_subsidy: amounts.miner_subsidy,
        payout_each: amounts.payout_each,
    };
    proof {
        assert forall|z: spec_fn(int) -> u128, d: int|
            #![trigger b3.holds(z), one_hot(exprs_at(sel, z), d)]
            b3.holds(z) && before.live(z) && one_hot(exprs_at(sel, z), d) implies {
            let h = int_at(before, child_height@, z);
            &&& h < pow2(64)
            &&& r.spells_height(z, h)
            &&& r.matches_schedule(before, z, *schedule, h, d)
            &&& selected_payout.at(z) == amounts.payout_each.at(z) <==> (schedule.due(h)
                ==> int_at(before, payout_raw_amount@, z) == schedule.payout(h, d))
        } by {
            assert(b2.holds(z) && b1.holds(z));
            let h = int_at(before, child_height@, z);
            assert(flags.at_height(*schedule, z, h));
            assert(amounts.at_height(b1, *schedule, z, h, d));
            before.lemma_basis_wf();
            t.lemma_inverse(payout_raw_amount.at(z));
            t.lemma_linear(0, 0);
            lemma_fmul_unit(payout_raw_amount.at(z));
        }
        assert forall|d: int|
            before.live(w) && #[trigger] one_hot(exprs_at(sel, w), d) implies (b.honest()
            <==> before.honest() && (schedule.due(int_at(before, child_height@, w)) ==> int_at(
            before,
            payout_raw_amount@,
            w,
        ) == schedule.payout(int_at(before, child_height@, w), d))) by {
            let v = b3.witness();
            lemma_exprs_kept(b3, before, sel);
            assert(one_hot(exprs_at(sel, v), d));
            assert(child_height.at(v) == child_height.at(w));
            assert(payout_raw_amount.at(v) == payout_raw_amount.at(w));
            assert(b3.honest() <==> before.honest());
            if b3.honest() {
                assert(b3.holds(v) && before.live(v));
            }
        }
    }
    r
}

/// If no rule fires, no blocks are paid for.
proof fn lemma_not_fired(rules: Seq<(bool, nat)>, n: nat)
    ensures
        !fired(rules, n) ==> fired_blocks(rules, n) == 0,
    decreases n,
{
    if n > 0 {
        lemma_not_fired(rules, (n - 1) as nat);
    }
}

/// The schedule values of one block.
#[derive(Clone, Copy, Debug, PartialEq, Eq, Structural)]
pub struct ScheduledAmounts {
    pub v2_active: bool,
    pub active: bool,
    pub payout_due: bool,
    pub share_each: u64,
    pub miner_subsidy: u64,
    pub payout_each: u64,
}

impl ForkAllocationSchedule {
    fn native_epoch(&self, height: u64) -> (e: usize)
        requires
            self.v2_rewards@.len() >= 1,
        ensures
            e == self.epoch(height as nat),
            e < self.v2_rewards@.len(),
    {
        let n = self.v2_rewards.len();
        let mut count: usize = 0;
        let mut k: usize = 1;
        while k < n
            invariant
                1 <= k <= n,
                n == self.v2_rewards@.len(),
                count == self.started_count((k - 1) as nat, height as nat),
                count < k,
            decreases n - k,
        {
            if let Some(at) = self.activation {
                if let Some(elapsed) = (k as u64).checked_mul(self.v2_interval_blocks) {
                    if let Some(first) = at.height.checked_add(elapsed) {
                        if height >= first {
                            count = count + 1;
                        }
                    }
                }
                proof {
                    let prod = k as int * self.v2_interval_blocks as int;
                    assert(prod >= 0) by (nonlinear_arith)
                        requires
                            prod == k as int * self.v2_interval_blocks as int,
                            k >= 0,
                            self.v2_interval_blocks >= 0,
                    ;
                }
            }
            k = k + 1;
        }
        count
    }

    fn native_paid_blocks(&self, height: u64) -> (r: (bool, u64))
        requires
            self.wf(),
        ensures
            r.0 == fired(self.rules(height as nat), self.rules(height as nat).len()),
            r.1 == self.paid_blocks(height as nat),
            r.1 == TARGET_BLOCKS_PER_DAY || r.1 <= self.interval(),
    {
        proof {
            lemma_rules_disjoint(*self, height as nat);
            reveal_with_fuel(fired, 4);
            reveal_with_fuel(fired_blocks, 4);
        }
        match self.activation {
            None => if height % TARGET_BLOCKS_PER_DAY == 0 {
                (true, TARGET_BLOCKS_PER_DAY)
            } else {
                (false, 0)
            },
            Some(at) => {
                let interval: u64 = 86_400 / at.block_time;
                let origin: u64 = at.height - 1;
                if height < at.height && height % TARGET_BLOCKS_PER_DAY == 0 {
                    (true, TARGET_BLOCKS_PER_DAY)
                } else if height > at.height && (height - origin) % interval == 0 {
                    (true, interval)
                } else if height == self.end_height && height > at.height {
                    // Not a full day, so the remainder is the final payout.
                    (true, (height - origin) % interval)
                } else {
                    (false, 0)
                }
            },
        }
    }

    /// The schedule at a height and a state depth index.
    pub fn amounts_at(&self, height: u64, depth: usize) -> (r: ScheduledAmounts)
        requires
            self.wf(),
            depth < self.legacy_rewards@.len(),
        ensures
            r.v2_active == self.is_v2(height as nat),
            r.active == self.active(height as nat),
            r.payout_due == self.due(height as nat),
            r.share_each == if self.active(height as nat) {
                share(self.reward(height as nat, depth as int))
            } else {
                0
            },
            r.miner_subsidy == miner_part(
                self.reward(height as nat, depth as int),
                self.active(height as nat),
            ),
            r.payout_each == self.payout(height as nat, depth as int),
    {
        let v2_active = match self.activation {
            Some(at) => height >= at.height,
            None => false,
        };
        let epoch = self.native_epoch(height);
        let reward: u64 = if v2_active {
            self.v2_rewards[epoch]
        } else {
            self.legacy_rewards[depth]
        };
        let active = 1 <= height && height <= self.end_height;
        let (rule_fires, blocks) = self.native_paid_blocks(height);
        let part: u64 = reward / 20;
        proof {
            if blocks != TARGET_BLOCKS_PER_DAY {
                lemma_amounts_fit(*self, blocks as nat, self.interval());
            }
            if v2_active {
                assert(share(self.v2_rewards@[epoch as int] as nat) * (blocks as nat) <= u64::MAX);
            } else {
                assert(share(self.legacy_rewards@[depth as int] as nat) * (blocks as nat)
                    <= u64::MAX);
            }
        }
        let payout: u64 = part * blocks;
        ScheduledAmounts {
            v2_active,
            active,
            payout_due: active && rule_fires,
            share_each: if active {
                part
            } else {
                0
            },
            miner_subsidy: if active {
                reward - 2 * part
            } else {
                reward
            },
            payout_each: if active {
                payout
            } else {
                0
            },
        }
    }
}

/// What a reserved schedule is bound to once it is finished.
struct DeferredInputs<'a> {
    height: &'a LinExpr,
    depth: &'a StateDepthTrace,
    payout_raw_amount: &'a LinExpr,
    schedule: &'a ForkAllocationSchedule,
}

/// The schedule outputs of one block, reserved first and bound later.
pub struct PreparedDevelopmentAllocation<'a> {
    trace: DevelopmentAllocationTrace,
    deferred: Option<DeferredInputs<'a>>,
}

/// The rows that reserve the outputs of a schedule, and the reserved wires.
#[verifier::opaque]
pub open spec fn reserve_step(s: Shape, height: LinForm) -> (Shape, AllocationForms) {
    let s1 = range_step(s, height, 64);
    let s2 = s1.free();
    let s3 = s2.free();
    let s4 = s3.free();
    let s5 = s4.free();
    let s6 = s5.free();
    (
        s6.free(),
        AllocationForms {
            height_bits: wires_from(s.n(), 64),
            v2_active: s1.next(),
            active: s2.next(),
            payout_due: s3.next(),
            share_each: s4.next(),
            miner_subsidy: s5.next(),
            payout_each: s6.next(),
        },
    )
}

/// The rows that bind reserved outputs to their schedule.
#[verifier::opaque]
pub open spec fn finish_step(
    s: Shape,
    height: LinForm,
    depth: Seq<LinForm>,
    raw: LinForm,
    schedule: ForkAllocationSchedule,
    out: AllocationForms,
) -> Shape {
    let (s0, bound) = scheduled_step(s, height, depth, raw, schedule);
    let s1 = pin_eq_step(s0, out.v2_active, bound.v2_active);
    let s2 = pin_eq_step(s1, out.active, bound.active);
    let s3 = pin_eq_step(s2, out.payout_due, bound.payout_due);
    let s4 = pin_eq_step(s3, out.share_each, bound.share_each);
    let s5 = pin_eq_step(s4, out.miner_subsidy, bound.miner_subsidy);
    pin_eq_step(s5, out.payout_each, bound.payout_each)
}

impl<'a> PreparedDevelopmentAllocation<'a> {
    /// The reserved outputs.
    pub closed spec fn outputs(&self) -> DevelopmentAllocationTrace {
        self.trace
    }

    /// Whether the outputs still have to be bound.
    pub closed spec fn is_deferred(&self) -> bool {
        self.deferred is Some
    }

    pub closed spec fn height(&self) -> LinForm {
        self.deferred->0.height@
    }

    pub closed spec fn depth(&self) -> StateDepthTrace {
        *self.deferred->0.depth
    }

    pub closed spec fn payout_raw_amount(&self) -> LinForm {
        self.deferred->0.payout_raw_amount@
    }

    pub closed spec fn schedule(&self) -> ForkAllocationSchedule {
        *self.deferred->0.schedule
    }

    /// The recorded inputs can be bound on a builder with `n` wires.
    pub open spec fn ready(&self, n: nat) -> bool {
        &&& self.outputs().bounded(n)
        &&& self.is_deferred() ==> {
            &&& self.schedule().wf()
            &&& self.depth().one_hot@.len() == self.schedule().legacy_rewards@.len()
            &&& exprs_bounded(self.depth().one_hot@, n)
            &&& self.height().bound() <= n
            &&& self.payout_raw_amount().bound() <= n
        }
    }

    /// Binds the legacy schedule at once; nothing is left to finish.
    pub fn legacy(
        b: &mut FieldR1csBuilder,
        height: &'a LinExpr,
        depth: &'a StateDepthTrace,
        payout_raw_amount: &'a LinExpr,
        schedule: &AllocationSchedule,
    ) -> (r: Self)
        requires
            old(b).wf(),
            schedule.wf(),
            depth.one_hot@.len() == schedule.rewards@.len(),
            exprs_bounded(depth.one_hot@, old(b).wires()),
            height.bound() <= old(b).wires(),
            payout_raw_amount.bound() <= old(b).wires(),
            int_at(*old(b), height@, old(b).witness()) < pow2(64),
        ensures
            refines(*final(b), *old(b)),
            !r.is_deferred(),
            r.ready(final(b).wires()),
            forall|z: spec_fn(int) -> u128| #[trigger] r.outputs().v2_active.at(z) == 0,
            forall|z: spec_fn(int) -> u128, d: int|
                #![trigger final(b).holds(z), one_hot(exprs_at(depth.one_hot@, z), d)]
                final(b).holds(z) && old(b).live(z) && one_hot(exprs_at(depth.one_hot@, z), d) ==> {
                    let h = int_at(*old(b), height@, z);
                    let reward = schedule.rewards@[d] as nat;
                    let end = schedule.end_height as nat;
                    let trace = r.outputs();
                    let due = crate::development_allocation::is_payout_height(h, end);
                    &&& trace.spells_height(z, h)
                    &&& trace.active.at(z) == bit_of(is_active(h, end))
                    &&& trace.payout_due.at(z) == bit_of(due)
                    &&& int_at(*old(b), trace.share_each@, z) == if is_active(h, end) {
                        share(reward)
                    } else {
                        0
                    }
                    &&& int_at(*old(b), trace.miner_subsidy@, z) == miner_part(
                        reward,
                        is_active(h, end),
                    )
                    &&& int_at(*old(b), trace.payout_each@, z) == if due {
                        share(reward) * TARGET_BLOCKS_PER_DAY as nat
                    } else {
                        0
                    }
                },
            allocation_step(
                old(b).shape(),
                height@,
                forms(depth.one_hot@),
                payout_raw_amount@,
                *schedule,
            ) == (final(b).shape(), r.outputs().forms()),
    {
        let bound = crate::development_allocation::bind_development_allocation(
            b,
            height,
            depth,
            payout_raw_amount,
            schedule,
        );
        let trace = DevelopmentAllocationTrace {
            height_bits: bound.height_bits,
            v2_active: LinExpr::zero(),
            active: bound.active,
            payout_due: bound.payout_due,
            share_each: bound.share_each,
            miner_subsidy: bound.miner_subsidy,
            payout_each: bound.payout_each,
        };
        PreparedDevelopmentAllocation { trace, deferred: None }
    }

    /// Reserves the outputs of a fork schedule on free wires that carry the
    /// schedule's own values; `finish` binds them.
    pub fn new(
        b: &mut FieldR1csBuilder,
        height: &'a LinExpr,
        depth: &'a StateDepthTrace,
        payout_raw_amount: &'a LinExpr,
        schedule: &'a ForkAllocationSchedule,
    ) -> (r: Self)
        requires
            old(b).wf(),
            schedule.wf(),
            schedule.activation is Some,
            depth.one_hot@.len() == schedule.legacy_rewards@.len(),
            exprs_bounded(depth.one_hot@, old(b).wires()),
            height.bound() <= old(b).wires(),
            depth.value.bound() <= old(b).wires(),
            payout_raw_amount.bound() <= old(b).wires(),
            int_at(*old(b), height@, old(b).witness()) < pow2(64),
            schedule.min_depth <= int_at(*old(b), depth.value@, old(b).witness())
                < schedule.min_depth + schedule.legacy_rewards@.len(),
        ensures
            refines(*final(b), *old(b)),
            r.is_deferred(),
            r.ready(final(b).wires()),
            r.height() == height@,
            r.depth() == *depth,
            r.payout_raw_amount() == payout_raw_amount@,
            r.schedule() == *schedule,
            forall|z: spec_fn(int) -> u128| #[trigger]
                final(b).holds(z) && old(b).live(z) ==> r.outputs().spells_height(
                    z,
                    int_at(*old(b), height@, z),
                ),
            old(b).live(old(b).witness()) ==> (final(b).honest() <==> old(b).honest()),
            r.outputs().matches_schedule(
                *old(b),
                final(b).witness(),
                *schedule,
                int_at(*old(b), height@, old(b).witness()),
                int_at(*old(b), depth.value@, old(b).witness()) - schedule.min_depth,
            ),
            reserve_step(old(b).shape(), height@) == (final(b).shape(), r.outputs().forms()),
    {
        reveal(reserve_step);
        let ghost before = *b;
        let ghost t = b.flat_basis();
        proof {
            b.lemma_basis_wf();
            t.lemma_linear(0, 0);
            vstd::arithmetic::power2::lemma2_to64();
            vstd::arithmetic::power2::lemma2_to64_rest();
        }
        let native_height: u64 = b.basis().to_tower(b.value_of(height)) as u64;
        let native_depth: u128 = b.basis().to_tower(b.value_of(&depth.value));
        let depths: usize = schedule.legacy_rewards.len();
        let index: usize = (native_depth - schedule.min_depth as u128) as usize;
        assert(index < depths);
        let native = schedule.amounts_at(native_height, index);
        let height_bits = range_check_bits(b, height, HEIGHT_BITS);
        let ghost b1 = *b;
        let v2_active = alloc_block(b, if native.v2_active {
            1
        } else {
            0
        });
        let ghost b2 = *b;
        let active = alloc_block(b, if native.active {
            1
        } else {
            0
        });
        let ghost b3 = *b;
        let payout_due = alloc_block(b, if native.payout_due {
            1
        } else {
            0
        });
        let ghost b4 = *b;
        let share_each = alloc_block(b, native.share_each as u128);
        let ghost b5 = *b;
        let miner_subsidy = alloc_block(b, native.miner_subsidy as u128);
        let ghost b6 = *b;
        let payout_each = alloc_block(b, native.payout_each as u128);
        let trace = DevelopmentAllocationTrace {
            height_bits,
            v2_active,
            active,
            payout_due,
            share_each,
            miner_subsidy,
            payout_each,
        };
        proof {
            let v = b.witness();
            assert(v2_active.at(v) == v2_active.at(b2.witness()));
            assert(active.at(v) == active.at(b3.witness()));
            assert(payout_due.at(v) == payout_due.at(b4.witness()));
            assert(share_each.at(v) == share_each.at(b5.witness()));
            assert(miner_subsidy.at(v) == miner_subsidy.at(b6.witness()));
            assert(index == int_at(before, depth.value@, before.witness()) - schedule.min_depth);
            assert(native_height == int_at(before, height@, before.witness()));
            assert(int_at(b4, share_each@, b5.witness()) == native.share_each);
            assert(int_at(b5, miner_subsidy@, b6.witness()) == native.miner_subsidy);
            assert(int_at(b6, payout_each@, v) == native.payout_each);
            assert(v2_active.at(v) == bit_of(native.v2_active));
            assert(active.at(v) == bit_of(native.active));
            assert(payout_due.at(v) == bit_of(native.payout_due));
            assert forall|k: int| 0 <= k < height_bits@.len() implies (#[trigger] height_bits@[k]).index
                < b.wires() by {
                assert(height_bits@[k].index < b1.wires());
            }
            lemma_exprs_mono(depth.one_hot@, before.wires(), b.wires());
            assert forall|z: spec_fn(int) -> u128| #[trigger]
                b.holds(z) && before.live(z) implies trace.spells_height(
                z,
                int_at(before, height@, z),
            ) by {
                assert(b6.holds(z) && b5.holds(z) && b4.holds(z) && b3.holds(z) && b2.holds(z)
                    && b1.holds(z));
            }
        }
        PreparedDevelopmentAllocation {
            trace,
            deferred: Some(DeferredInputs { height, depth, payout_raw_amount, schedule }),
        }
    }

    /// The reserved outputs.
    pub fn trace(&self) -> (r: &DevelopmentAllocationTrace)
        ensures
            *r == self.outputs(),
    {
        &self.trace
    }

    /// Binds every reserved output to the schedule.
    pub fn finish(self, b: &mut FieldR1csBuilder)
        requires
            old(b).wf(),
            self.ready(old(b).wires()),
            self.is_deferred() ==> int_at(*old(b), self.height(), old(b).witness()) < pow2(64),
        ensures
            refines(*final(b), *old(b)),
            !self.is_deferred() ==> *final(b) == *old(b),
            self.is_deferred() ==> forall|z: spec_fn(int) -> u128, d: int|
                #![trigger final(b).holds(z), one_hot(exprs_at(self.depth().one_hot@, z), d)]
                final(b).holds(z) && old(b).live(z) && one_hot(
                    exprs_at(self.depth().one_hot@, z),
                    d,
                ) ==> {
                    let h = int_at(*old(b), self.height(), z);
                    &&& self.outputs().matches_schedule(*old(b), z, self.schedule(), h, d)
                    &&& self.schedule().due(h) ==> int_at(*old(b), self.payout_raw_amount(), z)
                        == self.schedule().payout(h, d)
                },
            self.is_deferred() ==> forall|d: int|
                old(b).live(old(b).witness()) && #[trigger] one_hot(
                    exprs_at(self.depth().one_hot@, old(b).witness()),
                    d,
                ) ==> (final(b).honest() <==> {
                    let w = old(b).witness();
                    let h = int_at(*old(b), self.height(), w);
                    &&& old(b).honest()
                    &&& self.outputs().matches_schedule(*old(b), w, self.schedule(), h, d)
                    &&& self.schedule().due(h) ==> int_at(*old(b), self.payout_raw_amount(), w)
                        == self.schedule().payout(h, d)
                }),
            self.is_deferred() ==> final(b).shape() == finish_step(
                old(b).shape(),
                self.height(),
                forms(self.depth().one_hot@),
                self.payout_raw_amount(),
                self.schedule(),
                self.outputs().forms(),
            ),
            !self.is_deferred() ==> *final(b) == *old(b),
    {
        reveal(finish_step);
        let ghost before = *b;
        let ghost w = b.witness();
        let ghost t = b.flat_basis();
        match self.deferred {
            None => {},
            Some(inputs) => {
                let ghost sel = inputs.depth.one_hot@;
                let bound = bind_development_allocation_with_schedule(
                    b,
                    inputs.height,
                    inputs.depth,
                    inputs.payout_raw_amount,
                    inputs.schedule,
                );
                let ghost c0 = *b;
                pin_eq(b, &self.trace.v2_active, &bound.v2_active);
                let ghost c1 = *b;
                pin_eq(b, &self.trace.active, &bound.active);
                let ghost c2 = *b;
                pin_eq(b, &self.trace.payout_due, &bound.payout_due);
                let ghost c3 = *b;
                pin_eq(b, &self.trace.share_each, &bound.share_each);
                let ghost c4 = *b;
                pin_eq(b, &self.trace.miner_subsidy, &bound.miner_subsidy);
                let ghost c5 = *b;
                pin_eq(b, &self.trace.payout_each, &bound.payout_each);
                proof {
                    assert forall|z: spec_fn(int) -> u128| #[trigger]
                        b.holds(z) && before.live(z) implies {
                        &&& c0.holds(z)
                        &&& self.trace.v2_active.at(z) == bound.v2_active.at(z)
                        &&& self.trace.active.at(z) == bound.active.at(z)
                        &&& self.trace.payout_due.at(z) == bound.payout_due.at(z)
                        &&& self.trace.share_each.at(z) == bound.share_each.at(z)
                        &&& self.trace.miner_subsidy.at(z) == bound.miner_subsidy.at(z)
                        &&& self.trace.payout_each.at(z) == bound.payout_each.at(z)
                    } by {
                        assert(c5.holds(z) && c4.holds(z) && c3.holds(z) && c2.holds(z)
                            && c1.holds(z) && c0.holds(z));
                        assert(c0.live(z) && c1.live(z) && c2.live(z) && c3.live(z) && c4.live(z)
                            && c5.live(z));
                    }
                    assert forall|z: spec_fn(int) -> u128, d: int|
                        #![trigger b.holds(z), one_hot(exprs_at(self.depth().one_hot@, z), d)]
                        b.holds(z) && before.live(z) && one_hot(
                            exprs_at(self.depth().one_hot@, z),
                            d,
                        ) implies {
                        let h = int_at(before, self.height(), z);
                        &&& self.outputs().matches_schedule(before, z, self.schedule(), h, d)
                        &&& self.schedule().due(h) ==> int_at(before, self.payout_raw_amount(), z)
                            == self.schedule().payout(h, d)
                    } by {
                        assert(c0.holds(z));
                        assert(one_hot(exprs_at(sel, z), d));
                    }
                    assert forall|d: int|
                        before.live(w) && #[trigger] one_hot(
                            exprs_at(self.depth().one_hot@, w),
                            d,
                        ) implies (b.honest() <==> {
                        let h = int_at(before, self.height(), w);
                        &&& before.honest()
                        &&& self.outputs().matches_schedule(before, w, self.schedule(), h, d)
                        &&& self.schedule().due(h) ==> int_at(before, self.payout_raw_amount(), w)
                            == self.schedule().payout(h, d)
                    }) by {
                        lemma_finish_honest(
                            before,
                            c0,
                            c1,
                            c2,
                            c3,
                            c4,
                            c5,
                            *b,
                            self.trace,
                            bound,
                            *inputs.schedule,
                            inputs.height@,
                            sel,
                            inputs.payout_raw_amount@,
                            d,
                        );
                    }
                }
            },
        }
    }
}

proof fn lemma_finish_honest(
    before: FieldR1csBuilder,
    c0: FieldR1csBuilder,
    c1: FieldR1csBuilder,
    c2: FieldR1csBuilder,
    c3: FieldR1csBuilder,
    c4: FieldR1csBuilder,
    c5: FieldR1csBuilder,
    c6: FieldR1csBuilder,
    trace: DevelopmentAllocationTrace,
    bound: DevelopmentAllocationTrace,
    s: ForkAllocationSchedule,
    height: LinForm,
    sel: Seq<LinExpr>,
    raw: LinForm,
    d: int,
)
    requires
        before.wf(),
        before.live(before.witness()),
        trace.bounded(before.wires()),
        bound.bounded(c0.wires()),
        height.bound() <= before.wires(),
        raw.bound() <= before.wires(),
        exprs_bounded(sel, before.wires()),
        one_hot(exprs_at(sel, before.witness()), d),
        refines(c0, before),
        refines(c1, c0),
        refines(c2, c1),
        refines(c3, c2),
        refines(c4, c3),
        refines(c5, c4),
        refines(c6, c5),
        forall|z: spec_fn(int) -> u128, k: int|
            #![trigger c0.holds(z), one_hot(exprs_at(sel, z), k)]
            c0.holds(z) && before.live(z) && one_hot(exprs_at(sel, z), k)
                ==> bound.matches_schedule(before, z, s, int_at(before, height, z), k),
        c0.honest() <==> before.honest() && (s.due(int_at(before, height, before.witness()))
            ==> int_at(before, raw, before.witness()) == s.payout(
            int_at(before, height, before.witness()),
            d,
        )),
        c1.honest() <==> c0.honest() && trace.v2_active.at(c0.witness()) == bound.v2_active.at(
            c0.witness(),
        ),
        c2.honest() <==> c1.honest() && trace.active.at(c1.witness()) == bound.active.at(
            c1.witness(),
        ),
        c3.honest() <==> c2.honest() && trace.payout_due.at(c2.witness()) == bound.payout_due.at(
            c2.witness(),
        ),
        c4.honest() <==> c3.honest() && trace.share_each.at(c3.witness()) == bound.share_each.at(
            c3.witness(),
        ),
        c5.honest() <==> c4.honest() && trace.miner_subsidy.at(c4.witness())
            == bound.miner_subsidy.at(c4.witness()),
        c6.honest() <==> c5.honest() && trace.payout_each.at(c5.witness())
            == bound.payout_each.at(c5.witness()),
    ensures
        c6.honest() <==> before.honest() && trace.matches_schedule(
            before,
            before.witness(),
            s,
            int_at(before, height, before.witness()),
            d,
        ) && (s.due(int_at(before, height, before.witness())) ==> int_at(
            before,
            raw,
            before.witness(),
        ) == s.payout(int_at(before, height, before.witness()), d)),
{
    let w = before.witness();
    let v = c0.witness();
    let t = before.flat_basis();
    before.lemma_basis_wf();
    lemma_exprs_kept(c0, before, sel);
    assert(height.at(v) == height.at(w));
    assert(trace.v2_active.at(c0.witness()) == trace.v2_active.at(w));
    assert(trace.active.at(c1.witness()) == trace.active.at(w));
    assert(trace.payout_due.at(c2.witness()) == trace.payout_due.at(w));
    assert(trace.share_each.at(c3.witness()) == trace.share_each.at(w));
    assert(trace.miner_subsidy.at(c4.witness()) == trace.miner_subsidy.at(w));
    assert(trace.payout_each.at(c5.witness()) == trace.payout_each.at(w));
    assert(bound.active.at(c1.witness()) == bound.active.at(v));
    assert(bound.payout_due.at(c2.witness()) == bound.payout_due.at(v));
    assert(bound.share_each.at(c3.witness()) == bound.share_each.at(v));
    assert(bound.miner_subsidy.at(c4.witness()) == bound.miner_subsidy.at(v));
    assert(bound.payout_each.at(c5.witness()) == bound.payout_each.at(v));
    t.lemma_inverse(trace.share_each.at(w));
    t.lemma_inverse(trace.miner_subsidy.at(w));
    t.lemma_inverse(trace.payout_each.at(w));
    t.lemma_inverse(bound.share_each.at(v));
    t.lemma_inverse(bound.miner_subsidy.at(v));
    t.lemma_inverse(bound.payout_each.at(v));
    if c0.honest() {
        assert(c0.holds(v) && before.live(v));
        assert(one_hot(exprs_at(sel, v), d));
    }
}

} // verus!
