//! Duplex channels as walk columns: schedules, the packing of recorded
//! transcripts, and the unions that tile many channels into one walk.
use crate::basis::FlatBasis;
use crate::dyadic::{
    ceil_log, ceil_pow2, exact_log, is_dyadic, lemma_ceil, next_power_of_two, power_of_two,
};
use crate::field::F128;
use crate::meta_pins::DigestPair;
use crate::patterns::FixedPattern;
use vstd::arithmetic::power2::{lemma_pow2_adds, lemma_pow2_pos, pow2};
use vstd::prelude::*;

verus! {

/// What is absorbed into one rate lane: a lane of the data stream, or a
/// constant in the tower basis.
#[derive(Clone, Copy, Debug, PartialEq, Eq, Structural)]
pub enum LaneSource {
    Data(usize),
    Const(u128),
}

/// One slot of a schedule: what its two rate lanes absorb.
#[derive(Clone, Copy, Debug, PartialEq, Eq, Structural)]
pub struct DuplexSlot {
    pub lane0: Option<LaneSource>,
    pub lane1: Option<LaneSource>,
}

impl DuplexSlot {
    pub open spec fn source(self, lane: int) -> Option<LaneSource> {
        if lane == 0 {
            self.lane0
        } else {
            self.lane1
        }
    }
}

/// A position of a schedule.
#[derive(Clone, Copy, Debug, PartialEq, Eq, Structural)]
pub struct LanePosition {
    pub slot: usize,
    pub lane: usize,
}

/// The compiled schedule of one channel: its slots, where its challenges are
/// squeezed, and how many data lanes it absorbs.
#[derive(Clone, Debug, PartialEq, Eq)]
pub struct DuplexLayout {
    pub slots: Vec<DuplexSlot>,
    pub challenges: Vec<LanePosition>,
    pub n_data: usize,
}

pub open spec fn lane_below(source: Option<LaneSource>, n: int) -> bool {
    source matches Some(LaneSource::Data(k)) ==> k < n
}

impl DuplexLayout {
    /// Every data lane of the schedule is a lane of the stream.
    pub open spec fn wf(&self) -> bool {
        &&& forall|s: int|
            0 <= s < self.slots@.len() ==> lane_below(
                (#[trigger] self.slots@[s]).lane0,
                self.n_data as int,
            ) && lane_below(self.slots@[s].lane1, self.n_data as int)
        &&& forall|c: int|
            0 <= c < self.challenges@.len() ==> (#[trigger] self.challenges@[c]).slot
                < self.slots@.len()
    }

    /// The same schedule.
    pub open spec fn same(&self, other: &DuplexLayout) -> bool {
        &&& self.slots@ == other.slots@
        &&& self.challenges@ == other.challenges@
        &&& self.n_data == other.n_data
    }

    pub fn copy(&self) -> (r: DuplexLayout)
        ensures
            r.same(self),
    {
        let mut slots: Vec<DuplexSlot> = Vec::new();
        let mut i: usize = 0;
        while i < self.slots.len()
            invariant
                i <= self.slots@.len(),
                slots@ == self.slots@.take(i as int),
            decreases self.slots@.len() - i,
        {
            slots.push(self.slots[i]);
            i = i + 1;
            assert(slots@ =~= self.slots@.take(i as int));
        }
        let mut challenges: Vec<LanePosition> = Vec::new();
        let mut i: usize = 0;
        while i < self.challenges.len()
            invariant
                i <= self.challenges@.len(),
                challenges@ == self.challenges@.take(i as int),
            decreases self.challenges@.len() - i,
        {
            challenges.push(self.challenges[i]);
            i = i + 1;
            assert(challenges@ =~= self.challenges@.take(i as int));
        }
        assert(slots@ =~= self.slots@);
        assert(challenges@ =~= self.challenges@);
        DuplexLayout { slots, challenges, n_data: self.n_data }
    }
}

/// The last of the first `m` lanes that absorbs data lane `k`; the start of
/// the schedule if none does.
pub open spec fn position_of(slots: Seq<DuplexSlot>, k: int, m: nat) -> (int, int)
    decreases m,
{
    if m == 0 {
        (0, 0)
    } else if slots[(m - 1) / 2].source((m - 1) % 2) == Some(LaneSource::Data(k as usize)) {
        ((m - 1) / 2, (m - 1) % 2)
    } else {
        position_of(slots, k, (m - 1) as nat)
    }
}

fn record_lane(positions: &mut Vec<LanePosition>, source: Option<LaneSource>, slot: usize, lane: usize)
    requires
        lane_below(source, old(positions)@.len() as int),
    ensures
        final(positions)@.len() == old(positions)@.len(),
        forall|k: int|
            0 <= k < old(positions)@.len() ==> #[trigger] final(positions)@[k] == if source == Some(
                LaneSource::Data(k as usize),
            ) {
                LanePosition { slot, lane }
            } else {
                old(positions)@[k]
            },
{
    let lanes = positions.len();
    assert(lanes == positions@.len());
    match source {
        Some(LaneSource::Data(k)) => {
            positions.set(k, LanePosition { slot, lane });
        },
        _ => {},
    }
}

/// Where each data lane is absorbed.
pub fn duplex_data_positions(layout: &DuplexLayout) -> (r: Vec<LanePosition>)
    requires
        layout.wf(),
    ensures
        r@.len() == layout.n_data,
        forall|k: int|
            0 <= k < layout.n_data ==> ((#[trigger] r@[k]).slot as int, r@[k].lane as int)
                == position_of(layout.slots@, k, 2 * layout.slots@.len()),
{
    let mut r: Vec<LanePosition> = Vec::new();
    let mut i: usize = 0;
    while i < layout.n_data
        invariant
            i <= layout.n_data,
            r@.len() == i,
            forall|k: int| 0 <= k < i ==> (#[trigger] r@[k]).slot == 0 && r@[k].lane == 0,
        decreases layout.n_data - i,
    {
        r.push(LanePosition { slot: 0, lane: 0 });
        i = i + 1;
    }
    let mut s: usize = 0;
    while s < layout.slots.len()
        invariant
            s <= layout.slots@.len(),
            layout.wf(),
            r@.len() == layout.n_data,
            forall|k: int|
                0 <= k < layout.n_data ==> ((#[trigger] r@[k]).slot as int, r@[k].lane as int)
                    == position_of(layout.slots@, k, (2 * s) as nat),
        decreases layout.slots@.len() - s,
    {
        let ghost r0 = r@;
        let slot = layout.slots[s];
        assert(lane_below(layout.slots@[s as int].lane0, layout.n_data as int));
        record_lane(&mut r, slot.lane0, s, 0);
        let ghost r1 = r@;
        record_lane(&mut r, slot.lane1, s, 1);
        proof {
            assert forall|k: int| 0 <= k < layout.n_data implies ((#[trigger] r@[k]).slot as int, r@[k].lane as int)
                == position_of(layout.slots@, k, (2 * (s + 1)) as nat) by {
                let m = (2 * s) as nat;
                assert((r0[k].slot as int, r0[k].lane as int) == position_of(layout.slots@, k, m));
                assert((m + 1 - 1) / 2 == s && (m + 1 - 1) % 2 == 0);
                assert((m + 2 - 1) / 2 == s && (m + 2 - 1) % 2 == 1);
                assert(r1[k] == if slot.lane0 == Some(LaneSource::Data(k as usize)) {
                    LanePosition { slot: s, lane: 0 }
                } else {
                    r0[k]
                });
                assert(position_of(layout.slots@, k, m + 1) == if slot.lane0 == Some(
                    LaneSource::Data(k as usize),
                ) {
                    (s as int, 0int)
                } else {
                    position_of(layout.slots@, k, m)
                });
                assert(position_of(layout.slots@, k, m + 2) == if slot.lane1 == Some(
                    LaneSource::Data(k as usize),
                ) {
                    (s as int, 1int)
                } else {
                    position_of(layout.slots@, k, m + 1)
                });
            }
        }
        s = s + 1;
    }
    r
}

/// The slots of a recorded transcript's block.
pub open spec fn block_size(slots: nat) -> nat {
    ceil_pow2(
        if slots == 0 {
            1
        } else {
            slots
        },
    )
}

/// Block `j` is packed before block `i`: it is larger, or as large and earlier.
pub open spec fn packed_before(sizes: Seq<nat>, j: int, i: int) -> bool {
    sizes[j] > sizes[i] || (sizes[j] == sizes[i] && j < i)
}

/// The slots of the blocks below `n` that are packed before block `i`.
pub open spec fn packed_offset(sizes: Seq<nat>, i: int, n: nat) -> nat
    decreases n,
{
    if n == 0 {
        0
    } else {
        packed_offset(sizes, i, (n - 1) as nat) + if packed_before(sizes, n - 1, i) {
            sizes[n - 1]
        } else {
            0
        }
    }
}

pub open spec fn total(sizes: Seq<nat>, n: nat) -> nat
    decreases n,
{
    if n == 0 {
        0
    } else {
        total(sizes, (n - 1) as nat) + sizes[n - 1]
    }
}

/// Block sizes of schedules with the given numbers of slots.
pub open spec fn block_sizes(lengths: Seq<usize>) -> Seq<nat> {
    Seq::new(lengths.len(), |i: int| block_size(lengths[i] as nat))
}

/// The packing of recorded transcripts: one offset per block, in the order of
/// the blocks, and the walk that covers them all.
pub struct RecordingPacking {
    pub sizes: Vec<usize>,
    pub offsets: Vec<usize>,
    pub used: usize,
    pub w_log: usize,
}

impl RecordingPacking {
    pub open spec fn packs(&self, sizes: Seq<nat>) -> bool {
        &&& self.sizes@.len() == sizes.len()
        &&& self.offsets@.len() == sizes.len()
        &&& forall|i: int|
            0 <= i < sizes.len() ==> #[trigger] self.sizes@[i] == sizes[i] && self.offsets@[i]
                == packed_offset(sizes, i, sizes.len())
        &&& self.used == total(sizes, sizes.len())
        &&& self.w_log == ceil_log(total(sizes, sizes.len()))
    }
}

pub proof fn lemma_packed_within(sizes: Seq<nat>, i: int, n: nat)
    requires
        n <= sizes.len(),
        0 <= i < sizes.len(),
    ensures
        packed_offset(sizes, i, n) + (if i < n {
            sizes[i]
        } else {
            0
        }) <= total(sizes, n),
    decreases n,
{
    if n > 0 {
        lemma_packed_within(sizes, i, (n - 1) as nat);
    }
}

proof fn lemma_total_mono(sizes: Seq<nat>, m: nat, n: nat)
    requires
        m <= n <= sizes.len(),
    ensures
        total(sizes, m) <= total(sizes, n),
    decreases n,
{
    if m < n {
        lemma_total_mono(sizes, m, (n - 1) as nat);
    }
}

/// Packs the blocks of recorded transcripts from offset zero, larger blocks
/// first and equal ones in order.
pub fn pack_recording_only_blocks(lengths: &Vec<usize>) -> (r: RecordingPacking)
    requires
        lengths@.len() > 0,
        ceil_pow2(total(block_sizes(lengths@), lengths@.len())) <= usize::MAX,
    ensures
        r.packs(block_sizes(lengths@)),
{
    let ghost spec_sizes = block_sizes(lengths@);
    let ghost n = lengths@.len();
    proof {
        lemma_ceil(total(spec_sizes, n));
    }
    let mut sizes: Vec<usize> = Vec::new();
    let mut used: usize = 0;
    let mut i: usize = 0;
    while i < lengths.len()
        invariant
            i <= lengths@.len(),
            n == lengths@.len(),
            spec_sizes == block_sizes(lengths@),
            total(spec_sizes, n) <= usize::MAX,
            sizes@.len() == i,
            used == total(spec_sizes, i as nat),
            forall|k: int| 0 <= k < i ==> #[trigger] sizes@[k] == spec_sizes[k],
        decreases lengths@.len() - i,
    {
        proof {
            lemma_total_mono(spec_sizes, (i + 1) as nat, n);
        }
        let slots: usize = if lengths[i] == 0 {
            1
        } else {
            lengths[i]
        };
        let size = next_power_of_two(slots).size;
        sizes.push(size);
        used = used + size;
        i = i + 1;
    }
    let mut offsets: Vec<usize> = Vec::new();
    let mut i: usize = 0;
    while i < sizes.len()
        invariant
            i <= sizes@.len(),
            sizes@.len() == n,
            n == spec_sizes.len(),
            total(spec_sizes, n) <= usize::MAX,
            offsets@.len() == i,
            forall|k: int| 0 <= k < n ==> #[trigger] sizes@[k] == spec_sizes[k],
            forall|k: int|
                0 <= k < i ==> #[trigger] offsets@[k] == packed_offset(spec_sizes, k, n),
        decreases sizes@.len() - i,
    {
        let mut offset: usize = 0;
        let mut j: usize = 0;
        while j < sizes.len()
            invariant
                i < sizes@.len(),
                j <= sizes@.len(),
                sizes@.len() == n,
                n == spec_sizes.len(),
                total(spec_sizes, n) <= usize::MAX,
                forall|k: int| 0 <= k < n ==> #[trigger] sizes@[k] == spec_sizes[k],
                offset == packed_offset(spec_sizes, i as int, j as nat),
            decreases sizes@.len() - j,
        {
            proof {
                lemma_packed_within(spec_sizes, i as int, (j + 1) as nat);
                lemma_total_mono(spec_sizes, (j + 1) as nat, n);
                assert(sizes@[j as int] == spec_sizes[j as int]);
                assert(sizes@[i as int] == spec_sizes[i as int]);
            }
            if sizes[j] > sizes[i] || (sizes[j] == sizes[i] && j < i) {
                offset = offset + sizes[j];
            }
            j = j + 1;
        }
        offsets.push(offset);
        i = i + 1;
    }
    let w_log = next_power_of_two(used).log;
    RecordingPacking { sizes, offsets, used, w_log }
}

proof fn lemma_block_sizes(lengths: Seq<usize>)
    ensures
        forall|i: int|
            0 <= i < lengths.len() ==> is_dyadic(#[trigger] block_sizes(lengths)[i])
                && block_sizes(lengths)[i] > 0,
{
    assert forall|i: int| 0 <= i < lengths.len() implies is_dyadic(
        #[trigger] block_sizes(lengths)[i],
    ) && block_sizes(lengths)[i] > 0 by {
        lemma_ceil(
            if lengths[i] == 0 {
                1
            } else {
                lengths[i] as nat
            },
        );
    }
}

pub proof fn lemma_dyadic_divides(big: nat, small: nat)
    requires
        is_dyadic(big),
        is_dyadic(small),
        small <= big,
    ensures
        big % small == 0,
{
    let k = choose|k: nat| big == #[trigger] pow2(k);
    let j = choose|j: nat| small == #[trigger] pow2(j);
    if j > k {
        vstd::arithmetic::power2::lemma_pow2_strictly_increases(k, j);
    }
    lemma_pow2_adds(j, (k - j) as nat);
    lemma_pow2_pos(j);
    vstd::arithmetic::div_mod::lemma_mod_multiples_basic(
        pow2((k - j) as nat) as int,
        pow2(j) as int,
    );
    assert(pow2(j) * pow2((k - j) as nat) == pow2((k - j) as nat) * pow2(j)) by (nonlinear_arith);
}

/// Every packed block starts at a multiple of its own size.
pub proof fn lemma_packing_aligned(lengths: Seq<usize>, i: int, n: nat)
    requires
        0 <= i < lengths.len(),
        n <= lengths.len(),
    ensures
        packed_offset(block_sizes(lengths), i, n) % block_sizes(lengths)[i] == 0,
    decreases n,
{
    let sizes = block_sizes(lengths);
    lemma_block_sizes(lengths);
    let m = sizes[i];
    if n == 0 {
        vstd::arithmetic::div_mod::lemma_small_mod(0, m);
    } else {
        lemma_packing_aligned(lengths, i, (n - 1) as nat);
        if packed_before(sizes, n - 1, i) {
            lemma_dyadic_divides(sizes[n - 1], m);
            let a = packed_offset(sizes, i, (n - 1) as nat) as int;
            let c = sizes[n - 1] as int;
            vstd::arithmetic::div_mod::lemma_add_mod_noop(a, c, m as int);
            vstd::arithmetic::div_mod::lemma_small_mod(0, m);
        }
    }
}

proof fn lemma_packed_order(sizes: Seq<nat>, j: int, i: int, n: nat)
    requires
        0 <= j < sizes.len(),
        0 <= i < sizes.len(),
        n <= sizes.len(),
        packed_before(sizes, j, i),
    ensures
        packed_offset(sizes, j, n) + (if j < n {
            sizes[j]
        } else {
            0
        }) <= packed_offset(sizes, i, n),
    decreases n,
{
    if n > 0 {
        lemma_packed_order(sizes, j, i, (n - 1) as nat);
    }
}

/// Packed blocks are disjoint and inside the walk, and every slot below the
/// used prefix belongs to the packing: blocks fill it without a gap.
pub proof fn lemma_packing_disjoint(lengths: Seq<usize>, i: int, j: int)
    requires
        0 <= i < lengths.len(),
        0 <= j < lengths.len(),
        i != j,
    ensures
        ({
            let sizes = block_sizes(lengths);
            let n = lengths.len();
            ||| packed_offset(sizes, i, n) + sizes[i] <= packed_offset(sizes, j, n)
            ||| packed_offset(sizes, j, n) + sizes[j] <= packed_offset(sizes, i, n)
        }),
        packed_offset(block_sizes(lengths), i, lengths.len()) + block_sizes(lengths)[i] <= total(
            block_sizes(lengths),
            lengths.len(),
        ),
{
    let sizes = block_sizes(lengths);
    lemma_packed_within(sizes, i, lengths.len());
    if packed_before(sizes, i, j) {
        lemma_packed_order(sizes, i, j, lengths.len());
    } else {
        lemma_packed_order(sizes, j, i, lengths.len());
    }
}

/// One channel of a combined walk: its schedule and its capacity lanes.
pub struct SubChannel {
    pub layout: DuplexLayout,
    pub iv: DigestPair,
}

/// The pattern of a schedule that `which` names, at slot `o` of the block of
/// its channel: 0 is the start, 1 and 2 select the data lanes, 3 to 6 are the
/// constants of the four state lanes.
pub open spec fn pattern_cell(sub: SubChannel, basis: FlatBasis, which: int, o: int) -> u128 {
    let lane = if which < 3 {
        which - 1
    } else {
        which - 3
    };
    let source = if 0 <= o < sub.layout.slots@.len() {
        sub.layout.slots@[o].source(lane)
    } else {
        None
    };
    if which == 0 {
        if o == 0 {
            1
        } else {
            0
        }
    } else if which < 3 {
        if source matches Some(LaneSource::Data(k)) {
            1
        } else {
            0
        }
    } else if which < 5 {
        match source {
            Some(LaneSource::Const(value)) => basis.flat(value),
            _ => 0,
        }
    } else if o == 0 {
        if which == 5 {
            sub.iv.a@
        } else {
            sub.iv.b@
        }
    } else {
        0
    }
}

fn pattern_value(sub: &SubChannel, basis: &FlatBasis, which: usize, o: usize) -> (r: F128)
    requires
        basis.wf(),
        which < 7,
    ensures
        r@ == pattern_cell(*sub, *basis, which as int, o as int),
{
    if which == 0 {
        if o == 0 {
            F128::one()
        } else {
            F128::zero()
        }
    } else if which >= 5 {
        if o != 0 {
            F128::zero()
        } else if which == 5 {
            sub.iv.a
        } else {
            sub.iv.b
        }
    } else if o >= sub.layout.slots.len() {
        F128::zero()
    } else {
        let slot = sub.layout.slots[o];
        let source = if which == 1 || which == 3 {
            slot.lane0
        } else {
            slot.lane1
        };
        match source {
            Some(LaneSource::Data(_)) => if which < 3 {
                F128::one()
            } else {
                F128::zero()
            },
            Some(LaneSource::Const(value)) => if which < 3 {
                F128::zero()
            } else {
                basis.to_flat(value)
            },
            None => F128::zero(),
        }
    }
}

/// The seven fixed patterns of channels that share a block: channel `i` has
/// the slots from `i * 2^s_log` on. The start pattern is one at the first slot
/// of every channel, so no channel inherits the carry of the one before.
pub fn combined_duplex_fixed_patterns(
    subs: &Vec<SubChannel>,
    s_log: usize,
    basis: &FlatBasis,
) -> (r: Vec<FixedPattern>)
    requires
        basis.wf(),
        is_dyadic(subs@.len() * pow2(s_log as nat)),
        subs@.len() * pow2(s_log as nat) <= usize::MAX,
    ensures
        r@.len() == 7,
        forall|which: int|
            0 <= which < 7 ==> (#[trigger] r@[which]).wf() && r@[which].table@.len() == subs@.len()
                * pow2(s_log as nat) && r@[which].gate@.len() == 0,
        forall|which: int, slot: int|
            0 <= which < 7 && 0 <= slot < subs@.len() * pow2(s_log as nat) ==> (
            #[trigger] r@[which].table@[slot])@ == pattern_cell(
                subs@[slot / pow2(s_log as nat) as int],
                *basis,
                which,
                slot % pow2(s_log as nat) as int,
            ),
{
    proof {
        lemma_pow2_pos(s_log as nat);
        let e = choose|e: nat| subs@.len() * pow2(s_log as nat) == #[trigger] pow2(e);
        lemma_pow2_pos(e);
        if subs@.len() == 0 {
            assert(0 * pow2(s_log as nat) == 0);
        }
        assert(pow2(s_log as nat) <= subs@.len() * pow2(s_log as nat)) by (nonlinear_arith)
            requires
                subs@.len() >= 1,
        ;
    }
    let s = power_of_two(s_log);
    let per_tx: usize = subs.len() * s;
    let block_log = match exact_log(per_tx) {
        Some(log) => log,
        None => 0,
    };
    let mut r: Vec<FixedPattern> = Vec::new();
    let mut which: usize = 0;
    while which < 7
        invariant
            which <= 7,
            basis.wf(),
            per_tx == pow2(block_log as nat),
            s == pow2(s_log as nat),
            s > 0,
            subs@.len() * s == per_tx,
            r@.len() == which,
            forall|k: int|
                0 <= k < which ==> (#[trigger] r@[k]).wf() && r@[k].low_log == block_log
                    && r@[k].gate@.len() == 0,
            forall|k: int, slot: int|
                0 <= k < which && 0 <= slot < per_tx ==> (#[trigger] r@[k].table@[slot])@
                    == pattern_cell(subs@[slot / s as int], *basis, k, slot % s as int),
        decreases 7 - which,
    {
        let mut table: Vec<F128> = Vec::with_capacity(per_tx);
        let mut slot: usize = 0;
        while slot < per_tx
            invariant
                which < 7,
                slot <= per_tx,
                basis.wf(),
                s > 0,
                subs@.len() * s == per_tx,
                table@.len() == slot,
                forall|k: int|
                    0 <= k < slot ==> (#[trigger] table@[k])@ == pattern_cell(
                        subs@[k / s as int],
                        *basis,
                        which as int,
                        k % s as int,
                    ),
            decreases per_tx - slot,
        {
            proof {
                assert(subs@.len() * s == s * subs@.len()) by (nonlinear_arith);
                vstd::arithmetic::div_mod::lemma_multiply_divide_lt(
                    slot as int,
                    s as int,
                    subs@.len() as int,
                );
            }
            let value = pattern_value(&subs[slot / s], basis, which, slot % s);
            table.push(value);
            slot = slot + 1;
        }
        r.push(FixedPattern::new(block_log, table));
        which = which + 1;
    }
    r
}

/// The first data lane of channel `i` in the flattened stream.
pub open spec fn data_offset(subs: Seq<SubChannel>, i: nat) -> nat
    decreases i,
{
    if i == 0 {
        0
    } else {
        data_offset(subs, (i - 1) as nat) + subs[i - 1].layout.n_data as nat
    }
}

pub proof fn lemma_data_offset_mono(subs: Seq<SubChannel>, i: nat, j: nat)
    requires
        i <= j <= subs.len(),
    ensures
        data_offset(subs, i) <= data_offset(subs, j),
    decreases j,
{
    if i < j {
        lemma_data_offset_mono(subs, i, (j - 1) as nat);
    }
}

/// A lane whose data are renumbered from `by` on.
pub open spec fn shifted_source(source: Option<LaneSource>, by: int) -> Option<LaneSource> {
    match source {
        Some(LaneSource::Data(k)) => Some(LaneSource::Data((by + k) as usize)),
        _ => source,
    }
}

/// The slot of the combined schedule at `slot`, with blocks of `s` slots.
pub open spec fn combined_slot(subs: Seq<SubChannel>, s: int, slot: int) -> DuplexSlot {
    let i = slot / s;
    let o = slot % s;
    if o < subs[i].layout.slots@.len() {
        DuplexSlot {
            lane0: shifted_source(
                subs[i].layout.slots@[o].lane0,
                data_offset(subs, i as nat) as int,
            ),
            lane1: shifted_source(
                subs[i].layout.slots@[o].lane1,
                data_offset(subs, i as nat) as int,
            ),
        }
    } else {
        DuplexSlot { lane0: None, lane1: None }
    }
}

/// The challenges of the first `n` channels, in order, at their new slots.
pub open spec fn combined_challenges(subs: Seq<SubChannel>, s: int, n: nat) -> Seq<LanePosition>
    decreases n,
{
    if n == 0 {
        seq![]
    } else {
        combined_challenges(subs, s, (n - 1) as nat) + Seq::new(
            subs[n - 1].layout.challenges@.len(),
            |c: int|
                LanePosition {
                    slot: ((n - 1) * s + subs[n - 1].layout.challenges@[c].slot) as usize,
                    lane: subs[n - 1].layout.challenges@[c].lane,
                },
        )
    }
}

/// The combined schedule is that of these channels.
pub open spec fn combines(layout: &DuplexLayout, subs: Seq<SubChannel>, s: int) -> bool {
    &&& layout.slots@.len() == subs.len() * s
    &&& forall|slot: int|
        0 <= slot < layout.slots@.len() ==> #[trigger] layout.slots@[slot] == combined_slot(
            subs,
            s,
            slot,
        )
    &&& layout.challenges@ == combined_challenges(subs, s, subs.len())
    &&& layout.n_data == data_offset(subs, subs.len())
}

/// The channels fit blocks of `s` slots.
pub open spec fn channels_fit(subs: Seq<SubChannel>, s: int) -> bool {
    forall|i: int|
        0 <= i < subs.len() ==> (#[trigger] subs[i]).layout.wf() && subs[i].layout.slots@.len() <= s
}

fn shift_source(source: Option<LaneSource>, by: usize, Ghost(n): Ghost<int>) -> (r: Option<
    LaneSource,
>)
    requires
        lane_below(source, n),
        by + n <= usize::MAX,
    ensures
        r == shifted_source(source, by as int),
{
    match source {
        Some(LaneSource::Data(k)) => Some(LaneSource::Data(by + k)),
        other => other,
    }
}

/// The schedule of channels that share a block: channel `i` has the slots from
/// `i * 2^s_log` on, its data lanes are renumbered into one flattened stream,
/// and its challenges follow those of the channels before it.
pub fn combined_duplex_layout(subs: &Vec<SubChannel>, s_log: usize) -> (r: DuplexLayout)
    requires
        channels_fit(subs@, pow2(s_log as nat) as int),
        subs@.len() * pow2(s_log as nat) <= usize::MAX,
        pow2(s_log as nat) <= usize::MAX,
        data_offset(subs@, subs@.len()) <= usize::MAX,
    ensures
        combines(&r, subs@, pow2(s_log as nat) as int),
{
    let s = power_of_two(s_log);
    proof {
        lemma_pow2_pos(s_log as nat);
        assert(0 * s == 0);
    }
    let mut slots: Vec<DuplexSlot> = Vec::new();
    let mut challenges: Vec<LanePosition> = Vec::new();
    let mut data_off: usize = 0;
    let mut i: usize = 0;
    assert(challenges@ =~= combined_challenges(subs@, s as int, 0));
    while i < subs.len()
        invariant
            i <= subs@.len(),
            s == pow2(s_log as nat),
            s > 0,
            channels_fit(subs@, s as int),
            subs@.len() * s <= usize::MAX,
            data_offset(subs@, subs@.len()) <= usize::MAX,
            data_off == data_offset(subs@, i as nat),
            slots@.len() == i * s,
            forall|slot: int|
                0 <= slot < slots@.len() ==> #[trigger] slots@[slot] == combined_slot(
                    subs@,
                    s as int,
                    slot,
                ),
            challenges@ == combined_challenges(subs@, s as int, i as nat),
        decreases subs@.len() - i,
    {
        let sub = &subs[i];
        assert(subs@[i as int].layout.wf());
        proof {
            lemma_data_offset_mono(subs@, (i + 1) as nat, subs@.len());
            assert((i + 1) * s <= subs@.len() * s) by (nonlinear_arith)
                requires
                    i + 1 <= subs@.len(),
            ;
            assert((i + 1) * s == i * s + s) by (nonlinear_arith);
        }
        let mut o: usize = 0;
        while o < s
            invariant
                i < subs@.len(),
                o <= s,
                s > 0,
                sub == subs@[i as int],
                sub.layout.wf(),
                data_off == data_offset(subs@, i as nat),
                data_off + sub.layout.n_data <= usize::MAX,
                slots@.len() == i * s + o,
                forall|slot: int|
                    0 <= slot < slots@.len() ==> #[trigger] slots@[slot] == combined_slot(
                        subs@,
                        s as int,
                        slot,
                    ),
            decreases s - o,
        {
            proof {
                vstd::arithmetic::div_mod::lemma_fundamental_div_mod_converse(
                    i * s + o,
                    s as int,
                    i as int,
                    o as int,
                );
                assert(i * s == s * i) by (nonlinear_arith);
            }
            if o < sub.layout.slots.len() {
                let slot = sub.layout.slots[o];
                assert(lane_below(sub.layout.slots@[o as int].lane0, sub.layout.n_data as int));
                slots.push(
                    DuplexSlot {
                        lane0: shift_source(
                            slot.lane0,
                            data_off,
                            Ghost(sub.layout.n_data as int),
                        ),
                        lane1: shift_source(
                            slot.lane1,
                            data_off,
                            Ghost(sub.layout.n_data as int),
                        ),
                    },
                );
            } else {
                slots.push(DuplexSlot { lane0: None, lane1: None });
            }
            o = o + 1;
        }
        let ghost before = challenges@;
        let off: usize = i * s;
        let mut c: usize = 0;
        while c < sub.layout.challenges.len()
            invariant
                c <= sub.layout.challenges@.len(),
                sub == subs@[i as int],
                sub.layout.wf(),
                sub.layout.slots@.len() <= s,
                off == i * s,
                off + s <= usize::MAX,
                challenges@ == before + Seq::new(
                    c as nat,
                    |d: int|
                        LanePosition {
                            slot: (i * s + sub.layout.challenges@[d].slot) as usize,
                            lane: sub.layout.challenges@[d].lane,
                        },
                ),
            decreases sub.layout.challenges@.len() - c,
        {
            let position = sub.layout.challenges[c];
            assert(sub.layout.challenges@[c as int].slot < sub.layout.slots@.len());
            challenges.push(LanePosition { slot: off + position.slot, lane: position.lane });
            c = c + 1;
            assert(challenges@ =~= before + Seq::new(
                c as nat,
                |d: int|
                    LanePosition {
                        slot: (i * s + sub.layout.challenges@[d].slot) as usize,
                        lane: sub.layout.challenges@[d].lane,
                    },
            ));
        }
        data_off = data_off + sub.layout.n_data;
        i = i + 1;
        assert(challenges@ =~= combined_challenges(subs@, s as int, i as nat));
    }
    DuplexLayout { slots, challenges, n_data: data_off }
}

/// The combined schedule absorbs data lane `data_offset(i) + k` exactly where
/// channel `i` absorbs its lane `k`, at the slots of channel `i`: the data
/// positions of the combination are the flattened positions of its channels.
/// Stated of the first `m` lanes of the combination.
proof fn lemma_combined_position(
    layout: &DuplexLayout,
    subs: Seq<SubChannel>,
    s: int,
    i: int,
    k: int,
    m: nat,
)
    requires
        combines(layout, subs, s),
        channels_fit(subs, s),
        s > 0,
        0 <= i < subs.len(),
        0 <= k < subs[i].layout.n_data,
        data_offset(subs, subs.len()) <= usize::MAX,
        m <= 2 * (subs.len() * s),
    ensures
        ({
            let d = data_offset(subs, i as nat) + k;
            let lo = 2 * (i * s);
            let inside = if m <= lo {
                0
            } else if m - lo <= 2 * subs[i].layout.slots@.len() {
                m - lo
            } else {
                2 * subs[i].layout.slots@.len() as int
            };
            let p = position_of(subs[i].layout.slots@, k, inside as nat);
            let found = exists|l: int|
                0 <= l < inside && #[trigger] subs[i].layout.slots@[l / 2].source(l % 2) == Some(
                    LaneSource::Data(k as usize),
                );
            position_of(layout.slots@, d, m) == if found {
                (i * s + p.0, p.1)
            } else {
                (0, 0)
            }
        }),
    decreases m,
{
    let d = data_offset(subs, i as nat) + k;
    let lo = 2 * (i * s);
    let own = subs[i].layout.slots@;
    if m > 0 {
        lemma_combined_position(layout, subs, s, i, k, (m - 1) as nat);
        let at = (m - 1) as int;
        let slot = at / 2;
        let lane = at % 2;
        let j = slot / s;
        let o = slot % s;
        vstd::arithmetic::div_mod::lemma_fundamental_div_mod(slot, s);
        vstd::arithmetic::div_mod::lemma_mod_bound(slot, s);
        vstd::arithmetic::div_mod::lemma_div_pos_is_pos(slot, s);
        assert(j < subs.len()) by (nonlinear_arith)
            requires
                slot == s * j + o,
                slot < subs.len() * s,
                o >= 0,
                s > 0,
        ;
        assert(s * j == j * s) by (nonlinear_arith);
        assert(layout.slots@[slot] == combined_slot(subs, s, slot));
        assert(subs[j].layout.wf() && subs[j].layout.slots@.len() <= s);
        assert(subs[i].layout.wf() && subs[i].layout.slots@.len() <= s);
        lemma_data_offset_mono(subs, (i + 1) as nat, subs.len());
        lemma_data_offset_mono(subs, (j + 1) as nat, subs.len());
        if j < i {
            lemma_data_offset_mono(subs, (j + 1) as nat, i as nat);
            assert((j + 1) * s <= i * s) by (nonlinear_arith)
                requires
                    j + 1 <= i,
                    s > 0,
            ;
            assert((j + 1) * s == j * s + s) by (nonlinear_arith);
            assert(m <= lo);
            if o < subs[j].layout.slots@.len() {
                assert(lane_below(
                    subs[j].layout.slots@[o].source(lane),
                    subs[j].layout.n_data as int,
                ));
            }
            assert(layout.slots@[slot].source(lane) != Some(LaneSource::Data(d as usize)));
        } else if j > i {
            lemma_data_offset_mono(subs, (i + 1) as nat, j as nat);
            assert((i + 1) * s <= j * s) by (nonlinear_arith)
                requires
                    i + 1 <= j,
                    s > 0,
            ;
            assert((i + 1) * s == i * s + s) by (nonlinear_arith);
            assert(layout.slots@[slot].source(lane) != Some(LaneSource::Data(d as usize)));
            assert(m - 1 - lo >= 2 * own.len());
        } else {
            let l = at - lo;
            assert(l == 2 * o + lane);
            assert(l / 2 == o && l % 2 == lane);
            if o < own.len() {
                assert(layout.slots@[slot].source(lane) == Some(LaneSource::Data(d as usize))
                    <==> own[o].source(lane) == Some(LaneSource::Data(k as usize))) by {
                    assert(lane_below(own[o].source(lane), subs[i].layout.n_data as int));
                }
                let inside0 = l;
                let found0 = exists|x: int|
                    0 <= x < inside0 && #[trigger] own[x / 2].source(x % 2) == Some(
                        LaneSource::Data(k as usize),
                    );
                let found1 = exists|x: int|
                    0 <= x < inside0 + 1 && #[trigger] own[x / 2].source(x % 2) == Some(
                        LaneSource::Data(k as usize),
                    );
                if own[l / 2].source(l % 2) == Some(LaneSource::Data(k as usize)) {
                    assert(found1);
                } else {
                    if found1 {
                        let x = choose|x: int|
                            0 <= x < inside0 + 1 && #[trigger] own[x / 2].source(x % 2) == Some(
                                LaneSource::Data(k as usize),
                            );
                        assert(x < inside0);
                        assert(found0);
                    }
                    if found0 {
                        let x = choose|x: int|
                            0 <= x < inside0 && #[trigger] own[x / 2].source(x % 2) == Some(
                                LaneSource::Data(k as usize),
                            );
                        assert(found1);
                    }
                }
                assert((l + 1 - 1) / 2 == o && (l + 1 - 1) % 2 == lane);
            } else {
                assert(layout.slots@[slot].source(lane) is None);
                assert(l >= 2 * own.len());
            }
        }
    }
}

/// Reading data positions from a combined schedule yields the positions of its
/// channels in order: lane `k` of channel `i`, where that channel absorbs it,
/// is absorbed at the same place of the channel's own block.
pub proof fn lemma_positions_flatten(
    layout: &DuplexLayout,
    subs: Seq<SubChannel>,
    s: int,
    i: int,
    k: int,
)
    requires
        combines(layout, subs, s),
        channels_fit(subs, s),
        s > 0,
        0 <= i < subs.len(),
        0 <= k < subs[i].layout.n_data,
        data_offset(subs, subs.len()) <= usize::MAX,
        exists|l: int|
            0 <= l < 2 * subs[i].layout.slots@.len() && #[trigger] subs[i].layout.slots@[l
                / 2].source(l % 2) == Some(LaneSource::Data(k as usize)),
    ensures
        ({
            let p = position_of(subs[i].layout.slots@, k, 2 * subs[i].layout.slots@.len());
            position_of(
                layout.slots@,
                data_offset(subs, i as nat) + k,
                2 * layout.slots@.len(),
            ) == (i * s + p.0, p.1)
        }),
{
    lemma_combined_position(layout, subs, s, i, k, (2 * (subs.len() * s)) as nat);
    assert((i + 1) * s <= subs.len() * s) by (nonlinear_arith)
        requires
            i + 1 <= subs.len(),
            s > 0,
    ;
    assert((i + 1) * s == i * s + s) by (nonlinear_arith);
    assert(subs[i].layout.slots@.len() <= s);
}

} // verus!
