//! What the recordings of a role say of the cells of their walk, and what the patterns of
//! a schedule are.
use crate::basis::FlatBasis;
use crate::circuit::LinExpr;
use crate::columns::WitnessSlice;
use crate::duplex::{
    combined_challenges, combined_slot, data_offset, packed_before, packed_offset, pattern_cell,
    position_of, total, DuplexSlot, LaneSource, SubChannel,
};
use crate::duplex_regions::{largest, second_base};
use crate::duplex_union::family_refs;
use crate::dyadic::is_dyadic;
use crate::field::{lemma_fmul_unit, lemma_xor};
use crate::recording::{
    block_cells, bound_form, cell_rule, challenge_cell, data_cell, lemma_cell_selected, role_fits,
    role_form, role_rules, RecordedWires, RecordingCell, TierBlock,
};
use crate::duplex::block_sizes;
use crate::duplex_union::{recording_lengths, recording_pattern, RecordingSpec};
use crate::field::F128;
use crate::patterns::FixedPattern;
use crate::pin_laws::{lemma_number, number};
use crate::tx_root::index_bit;
use crate::duplex_regions::{hosts, two_region_slots};
use crate::duplex_union::{ChannelColumns, DuplexUnion};
use crate::recording::tier_cells;
use crate::walk_planes::WalkColumns;
use vstd::arithmetic::power2::{lemma_pow2_adds, lemma_pow2_pos, pow2};
use vstd::prelude::*;

verus! {

/// A data lane is found where the schedule absorbs it, at the last such place.
pub proof fn lemma_position(slots: Seq<DuplexSlot>, k: usize, m: nat, s: int, lane: int)
    requires
        0 <= lane < 2,
        0 <= 2 * s + lane < m,
        (if lane == 0 {
            slots[s].lane0
        } else {
            slots[s].lane1
        }) == Some(LaneSource::Data(k)),
        forall|u: int|
            2 * s + lane < u < m ==> (if u % 2 == 0 {
                (#[trigger] slots[u / 2]).lane0
            } else {
                slots[u / 2].lane1
            }) != Some(LaneSource::Data(k)),
    ensures
        position_of(slots, k as int, m) == (s, lane),
    decreases m,
{
    let l = 2 * s + lane;
    assert(l / 2 == s && l % 2 == lane);
    if m - 1 > l {
        let u = m - 1;
        assert(slots[u / 2] == slots[(m - 1) / 2]);
        lemma_position(slots, k, (m - 1) as nat, s, lane);
    }
}

proof fn lemma_block_cell(block: TierBlock, wires: RecordedWires, i: int, len: int, n: nat)
    requires
        crate::recording::block_inside(&block.layout, block.base as int, len),
        crate::recording::cells_distinct(&block.layout, block.base as int),
        wires.replays(&block.layout, n),
        0 <= i < block.layout.challenges@.len() + block.layout.n_data,
    ensures
        bound_form(
            wires,
            &block.layout,
            block.base as int,
            block_cells(&block.layout, block.base as int)[i],
        ) == Some(wires.form(i)),
{
    let cells = block_cells(&block.layout, block.base as int);
    assert(cells.contains(cells[i]));
    assert(cells[cells.index_of(cells[i])] == cells[i]);
}

proof fn lemma_cell_chosen(
    blocks: Seq<TierBlock>,
    recordings: Seq<RecordedWires>,
    selectors: Seq<LinExpr>,
    slices: Seq<WitnessSlice>,
    len: int,
    n: nat,
    z: spec_fn(int) -> u128,
    chosen: int,
    i: int,
)
    requires
        role_fits(blocks, recordings, len, n),
        role_rules(blocks, recordings, selectors, slices, len, z),
        0 <= chosen < blocks.len() <= 2,
        selectors.len() == blocks.len(),
        len <= usize::MAX,
        selectors[chosen].at(z) == 1,
        blocks.len() == 2 ==> selectors[1 - chosen].at(z) == 0,
        0 <= i < blocks[chosen].layout.challenges@.len() + blocks[chosen].layout.n_data,
        ({
            let cell = block_cells(&blocks[chosen].layout, blocks[chosen].base as int)[i];
            cell.column < 6 && cell.offset < len
        }),
    ensures
        ({
            let cell = block_cells(&blocks[chosen].layout, blocks[chosen].base as int)[i];
            z((slices[cell.column as int].first() + cell.offset) as int)
                == recordings[chosen].form(i).at(z)
        }),
{
    let block = blocks[chosen];
    let cell = block_cells(&block.layout, block.base as int)[i];
    let (c, o) = (cell.column as int, cell.offset as int);
    lemma_block_cell(block, recordings[chosen], i, len, n);
    let first = role_form(blocks, recordings, 0, c, o);
    let second = role_form(blocks, recordings, 1, c, o);
    assert(RecordingCell { column: c as usize, offset: o as usize } == cell);
    assert(cell_rule(
        selectors.len() as int,
        first,
        second,
        selectors[0]@,
        selectors[selectors.len() - 1]@,
        slices[c].first() + o,
        z,
    ));
    if blocks.len() == 2 {
        lemma_cell_selected(
            2,
            first,
            second,
            selectors[0]@,
            selectors[1]@,
            slices[c].first() + o,
            z,
        );
    }
}

/// While a tier is chosen, the cell of each of its challenges, in the column of its lane
/// behind the two data columns and at its slot in the tier's block, carries the challenge
/// that was replayed.
pub proof fn lemma_challenge_recorded(
    blocks: Seq<TierBlock>,
    recordings: Seq<RecordedWires>,
    selectors: Seq<LinExpr>,
    slices: Seq<WitnessSlice>,
    len: int,
    n: nat,
    z: spec_fn(int) -> u128,
    chosen: int,
    k: int,
)
    requires
        role_fits(blocks, recordings, len, n),
        role_rules(blocks, recordings, selectors, slices, len, z),
        0 <= chosen < blocks.len() <= 2,
        selectors.len() == blocks.len(),
        len <= usize::MAX,
        selectors[chosen].at(z) == 1,
        blocks.len() == 2 ==> selectors[1 - chosen].at(z) == 0,
        0 <= k < blocks[chosen].layout.challenges@.len(),
    ensures
        ({
            let at = blocks[chosen].layout.challenges@[k];
            z((slices[2 + at.lane].first() + (blocks[chosen].base + at.slot)) as int)
                == recordings[chosen].challenge_wires@[k].at(z)
        }),
{
    let block = blocks[chosen];
    let cells = block_cells(&block.layout, block.base as int);
    assert(cells[k] == challenge_cell(&block.layout, block.base as int, k));
    assert(block.layout.challenges@[k].slot < block.layout.slots@.len());
    assert(block.layout.challenges@[k].lane < 4);
    lemma_cell_chosen(blocks, recordings, selectors, slices, len, n, z, chosen, k);
}

/// While a tier is chosen, the cell that absorbs each of its data lanes carries the data
/// that was replayed.
pub proof fn lemma_data_recorded(
    blocks: Seq<TierBlock>,
    recordings: Seq<RecordedWires>,
    selectors: Seq<LinExpr>,
    slices: Seq<WitnessSlice>,
    len: int,
    n: nat,
    z: spec_fn(int) -> u128,
    chosen: int,
    k: int,
    s: int,
    lane: int,
)
    requires
        role_fits(blocks, recordings, len, n),
        role_rules(blocks, recordings, selectors, slices, len, z),
        0 <= chosen < blocks.len() <= 2,
        selectors.len() == blocks.len(),
        len <= usize::MAX,
        selectors[chosen].at(z) == 1,
        blocks.len() == 2 ==> selectors[1 - chosen].at(z) == 0,
        0 <= k < blocks[chosen].layout.n_data,
        0 <= s < blocks[chosen].layout.slots@.len(),
        0 <= lane < 2,
        ({
            let slots = blocks[chosen].layout.slots@;
            &&& (if lane == 0 {
                slots[s].lane0
            } else {
                slots[s].lane1
            }) == Some(LaneSource::Data(k as usize))
            &&& forall|u: int|
                2 * s + lane < u < 2 * slots.len() ==> (if u % 2 == 0 {
                    (#[trigger] slots[u / 2]).lane0
                } else {
                    slots[u / 2].lane1
                }) != Some(LaneSource::Data(k as usize))
        }),
    ensures
        z((slices[lane].first() + (blocks[chosen].base + s)) as int)
            == recordings[chosen].data_wires@[k].at(z),
{
    let block = blocks[chosen];
    let m = block.layout.challenges@.len();
    let cells = block_cells(&block.layout, block.base as int);
    lemma_position(block.layout.slots@, k as usize, 2 * block.layout.slots@.len(), s, lane);
    assert(cells[m + k] == data_cell(&block.layout, block.base as int, k));
    lemma_cell_chosen(blocks, recordings, selectors, slices, len, n, z, chosen, m + k);
}

/// An assignment that carries what the chosen tier replayed meets the rules of the role,
/// whatever the other tier asks for.
pub proof fn lemma_role_met(
    blocks: Seq<TierBlock>,
    recordings: Seq<RecordedWires>,
    selectors: Seq<LinExpr>,
    slices: Seq<WitnessSlice>,
    len: int,
    n: nat,
    z: spec_fn(int) -> u128,
    chosen: int,
)
    requires
        role_fits(blocks, recordings, len, n),
        0 <= chosen < blocks.len() <= 2,
        selectors.len() == blocks.len(),
        len <= usize::MAX,
        selectors[chosen].at(z) == 1,
        blocks.len() == 2 ==> selectors[1 - chosen].at(z) == 0,
        forall|k: int|
            0 <= k < blocks[chosen].layout.challenges@.len() ==> z(
                (slices[2 + blocks[chosen].layout.challenges@[k].lane].first() + (
                blocks[chosen].base + blocks[chosen].layout.challenges@[k].slot)) as int,
            ) == (#[trigger] recordings[chosen].challenge_wires@[k]).at(z),
        forall|k: int|
            0 <= k < blocks[chosen].layout.n_data ==> ({
                let slots = blocks[chosen].layout.slots@;
                let p = position_of(slots, k, 2 * slots.len());
                z((slices[p.1].first() + (blocks[chosen].base + p.0)) as int)
            }) == (#[trigger] recordings[chosen].data_wires@[k]).at(z),
    ensures
        role_rules(blocks, recordings, selectors, slices, len, z),
{
    let block = blocks[chosen];
    let m = block.layout.challenges@.len() as int;
    let base = block.base as int;
    let cells = block_cells(&block.layout, base);
    assert forall|c: int, o: int| 0 <= c < 6 && 0 <= o < len implies #[trigger] cell_rule(
        selectors.len() as int,
        role_form(blocks, recordings, 0, c, o),
        role_form(blocks, recordings, 1, c, o),
        selectors[0]@,
        selectors[selectors.len() - 1]@,
        slices[c].first() + o,
        z,
    ) by {
        let own = role_form(blocks, recordings, chosen, c, o);
        let cell = RecordingCell { column: c as usize, offset: o as usize };
        let v = z(slices[c].first() + o);
        if own is Some {
            assert(cells.contains(cell));
            let i = cells.index_of(cell);
            assert(cells[i] == cell);
            let slots = block.layout.slots@;
            if i < m {
                assert(cells[i] == challenge_cell(&block.layout, base, i));
                assert(block.layout.challenges@[i].slot < slots.len());
                assert(block.layout.challenges@[i].lane < 4);
                assert(recordings[chosen].challenge_wires@[i].at(z) == v);
            } else {
                assert(cells[i] == data_cell(&block.layout, base, i - m));
                lemma_position_range(slots, i - m, 2 * slots.len());
                assert(recordings[chosen].data_wires@[i - m].at(z) == v);
            }
            assert((own->0).at(z) == v);
        }
        let x = match role_form(blocks, recordings, 0, c, o) {
            Some(f) => f.at(z),
            None => 0,
        };
        let y = match role_form(blocks, recordings, 1, c, o) {
            Some(f) => f.at(z),
            None => 0,
        };
        lemma_xor(x, y, 0);
        lemma_xor(v, v, 0);
        lemma_fmul_unit(x ^ y);
        lemma_fmul_unit(x ^ v);
        lemma_fmul_unit(y ^ v);
        lemma_fmul_unit(0);
    }
}

proof fn lemma_position_range(slots: Seq<DuplexSlot>, k: int, m: nat)
    ensures
        0 <= position_of(slots, k, m).0,
        2 * position_of(slots, k, m).0 <= m,
        0 <= position_of(slots, k, m).1 < 2,
    decreases m,
{
    if m > 0 {
        lemma_position_range(slots, k, (m - 1) as nat);
    }
}

/// The patterns of a schedule at one slot. The start is the first slot, which also takes
/// the initial capacity. A rate lane that absorbs data is selected and takes no constant;
/// one that absorbs a constant takes it and is not selected; a free lane and every slot
/// behind the schedule take nothing.
pub proof fn lemma_patterns(sub: SubChannel, basis: FlatBasis, o: int)
    requires
        0 <= o,
    ensures
        pattern_cell(sub, basis, 0, o) == if o == 0 {
            1u128
        } else {
            0
        },
        pattern_cell(sub, basis, 5, o) == if o == 0 {
            sub.iv.a@
        } else {
            0
        },
        pattern_cell(sub, basis, 6, o) == if o == 0 {
            sub.iv.b@
        } else {
            0
        },
        o >= sub.layout.slots@.len() ==> forall|which: int|
            1 <= which < 5 ==> #[trigger] pattern_cell(sub, basis, which, o) == 0,
        o < sub.layout.slots@.len() ==> {
            let slot = sub.layout.slots@[o];
            &&& (slot.lane0 matches Some(LaneSource::Data(k)) ==> pattern_cell(sub, basis, 1, o)
                == 1 && pattern_cell(sub, basis, 3, o) == 0)
            &&& (slot.lane1 matches Some(LaneSource::Data(k)) ==> pattern_cell(sub, basis, 2, o)
                == 1 && pattern_cell(sub, basis, 4, o) == 0)
            &&& (slot.lane0 matches Some(LaneSource::Const(v)) ==> pattern_cell(sub, basis, 1, o)
                == 0 && pattern_cell(sub, basis, 3, o) == basis.flat(v))
            &&& (slot.lane1 matches Some(LaneSource::Const(v)) ==> pattern_cell(sub, basis, 2, o)
                == 0 && pattern_cell(sub, basis, 4, o) == basis.flat(v))
            &&& (slot.lane0 is None ==> pattern_cell(sub, basis, 1, o) == 0 && pattern_cell(
                sub,
                basis,
                3,
                o,
            ) == 0)
            &&& (slot.lane1 is None ==> pattern_cell(sub, basis, 2, o) == 0 && pattern_cell(
                sub,
                basis,
                4,
                o,
            ) == 0)
        },
{
}

/// The combined schedule has the slots of each channel in the channel's own block, in
/// order, free behind them; data lanes keep their order within the channel and follow
/// those of all channels before.
pub proof fn lemma_combined(subs: Seq<SubChannel>, s: int, i: int, o: int)
    requires
        0 <= i < subs.len(),
        0 <= o < s,
    ensures
        ({
            let slot = combined_slot(subs, s, i * s + o);
            let by = data_offset(subs, i as nat);
            if o < subs[i].layout.slots@.len() {
                let own = subs[i].layout.slots@[o];
                &&& (own.lane0 matches Some(LaneSource::Data(k)) ==> by + k <= usize::MAX
                    ==> slot.lane0 == Some(LaneSource::Data((by + k) as usize)))
                &&& (own.lane1 matches Some(LaneSource::Data(k)) ==> by + k <= usize::MAX
                    ==> slot.lane1 == Some(LaneSource::Data((by + k) as usize)))
                &&& !(own.lane0 matches Some(LaneSource::Data(k))) ==> slot.lane0 == own.lane0
                &&& !(own.lane1 matches Some(LaneSource::Data(k))) ==> slot.lane1 == own.lane1
            } else {
                slot.lane0 is None && slot.lane1 is None
            }
        }),
        data_offset(subs, 0) == 0,
        data_offset(subs, (i + 1) as nat) == data_offset(subs, i as nat) + subs[i].layout.n_data,
{
    vstd::arithmetic::div_mod::lemma_fundamental_div_mod_converse(i * s + o, s, i, o);
}

/// The challenges of a channel keep their order and their lanes, and stand in the block of
/// the channel, behind those of all channels before.
pub proof fn lemma_combined_challenges(subs: Seq<SubChannel>, s: int, n: nat, c: int)
    requires
        0 <= c < subs[n as int].layout.challenges@.len(),
        0 <= n * s + subs[n as int].layout.challenges@[c].slot <= usize::MAX,
    ensures
        ({
            let before = combined_challenges(subs, s, n);
            let all = combined_challenges(subs, s, n + 1);
            let own = subs[n as int].layout.challenges@;
            &&& all.len() == before.len() + own.len()
            &&& all.take(before.len() as int) == before
            &&& all[before.len() + c].slot == n * s + own[c].slot
            &&& all[before.len() + c].lane == own[c].lane
        }),
        combined_challenges(subs, s, 0).len() == 0,
{
    let before = combined_challenges(subs, s, n);
    let all = combined_challenges(subs, s, n + 1);
    assert(all.take(before.len() as int) =~= before);
}

/// A family reads its two data columns and then its four state columns, and its seven
/// patterns in their order: the start, the two data selectors, the four constants.
pub proof fn lemma_family_columns(column: int, fixed: int, which: int)
    requires
        0 <= column,
        column + 6 <= usize::MAX,
        0 <= fixed,
        fixed + 7 <= usize::MAX,
        0 <= which < 7,
    ensures
        ({
            let refs = family_refs(column, fixed);
            &&& refs.a == column
            &&& refs.c == column + 2
            &&& fixed + which == if which == 0 {
                refs.start as int
            } else if which < 3 {
                refs.abs + (which - 1)
            } else {
                refs.consts + (which - 3)
            }
        }),
{
}

proof fn lemma_packed_order_to(sizes: Seq<nat>, i: int, j: int, n: nat)
    requires
        0 <= i < sizes.len(),
        0 <= j < sizes.len(),
        n <= sizes.len(),
        sizes[i] > sizes[j] || (sizes[i] == sizes[j] && i < j),
    ensures
        packed_offset(sizes, i, n) + (if i < n {
            sizes[i]
        } else {
            0
        }) <= packed_offset(sizes, j, n),
    decreases n,
{
    if n > 0 {
        lemma_packed_order_to(sizes, i, j, (n - 1) as nat);
        let k = n - 1;
        assert(packed_before(sizes, k, i) ==> packed_before(sizes, k, j) && k != i);
        assert(k == i ==> packed_before(sizes, k, j));
    }
}

/// Blocks are packed by size, the largest first, and blocks of one size in their order.
pub proof fn lemma_packing_order(sizes: Seq<nat>, i: int, j: int)
    requires
        0 <= i < sizes.len(),
        0 <= j < sizes.len(),
        sizes[i] > sizes[j] || (sizes[i] == sizes[j] && i < j),
    ensures
        packed_offset(sizes, i, sizes.len()) + sizes[i] <= packed_offset(sizes, j, sizes.len()),
{
    lemma_packed_order_to(sizes, i, j, sizes.len());
}

/// The block that nothing precedes starts at the beginning, and the slots in use are those
/// of all blocks.
pub proof fn lemma_packing_tight(sizes: Seq<nat>, i: int, n: nat)
    requires
        0 <= i < sizes.len(),
        n <= sizes.len(),
        forall|j: int|
            0 <= j < sizes.len() && j != i ==> #[trigger] sizes[j] < sizes[i] || (sizes[j]
                == sizes[i] && i < j),
    ensures
        packed_offset(sizes, i, n) == 0,
        n < sizes.len() ==> total(sizes, n + 1) == total(sizes, n) + sizes[n as int],
        total(sizes, 0) == 0,
    decreases n,
{
    if n > 0 {
        lemma_packing_tight(sizes, i, (n - 1) as nat);
        let k = n - 1;
        if k != i {
            assert(sizes[k] < sizes[i] || (sizes[k] == sizes[i] && i < k));
        }
    }
}

proof fn lemma_largest(sizes: Seq<nat>, n: nat, i: int)
    requires
        n <= sizes.len(),
    ensures
        0 <= i < n ==> sizes[i] <= largest(sizes, n),
        largest(sizes, n) == 0 || exists|k: int| 0 <= k < n && #[trigger] sizes[k] == largest(
            sizes,
            n,
        ),
    decreases n,
{
    if n > 0 {
        lemma_largest(sizes, (n - 1) as nat, i);
        let top = n - 1;
        if sizes[top] > largest(sizes, (n - 1) as nat) {
            assert(sizes[top] == largest(sizes, n));
        }
    }
}

/// Recordings start behind the rows, on a multiple of every block, and no later than the
/// larger of the rows and the largest block asks for.
pub proof fn lemma_second_base(r1: nat, sizes: Seq<nat>, i: int)
    requires
        0 <= i < sizes.len(),
        is_dyadic(r1),
        forall|k: int| 0 <= k < sizes.len() ==> is_dyadic(#[trigger] sizes[k]),
    ensures
        second_base(r1, sizes) >= r1,
        second_base(r1, sizes) % sizes[i] == 0,
        second_base(r1, sizes) == r1 || exists|k: int|
            0 <= k < sizes.len() && #[trigger] sizes[k] == second_base(r1, sizes),
{
    lemma_largest(sizes, sizes.len(), i);
    let top = largest(sizes, sizes.len());
    if top > r1 {
        let k = choose|k: int| 0 <= k < sizes.len() && #[trigger] sizes[k] == top;
        crate::duplex::lemma_dyadic_divides(sizes[k], sizes[i]);
    } else {
        crate::duplex::lemma_dyadic_divides(r1, sizes[i]);
    }
}

/// No slot of a walk of recordings carries the patterns of two of them.
pub proof fn lemma_one_recording(
    recordings: Seq<RecordingSpec>,
    basis: FlatBasis,
    i: int,
    j: int,
    which: int,
    other: int,
    slot: int,
)
    requires
        0 <= i < recordings.len(),
        0 <= j < recordings.len(),
        i != j,
        recording_pattern(recordings, basis, i, which, slot) != 0,
    ensures
        recording_pattern(recordings, basis, j, other, slot) == 0,
{
    crate::duplex::lemma_packing_disjoint(recording_lengths(recordings), i, j);
}

/// The patterns of a recording stand at its packed place, as its own schedule has them.
pub proof fn lemma_recording_at(
    recordings: Seq<RecordingSpec>,
    basis: FlatBasis,
    i: int,
    which: int,
    o: int,
)
    requires
        0 <= i < recordings.len(),
        0 <= o < block_sizes(recording_lengths(recordings))[i],
    ensures
        recording_pattern(
            recordings,
            basis,
            i,
            which,
            packed_offset(
                block_sizes(recording_lengths(recordings)),
                i,
                recordings.len(),
            ) + o,
        ) == pattern_cell(
            SubChannel { layout: recordings[i].layout, iv: recordings[i].iv },
            basis,
            which,
            o,
        ),
        recordings[i].layout.slots@.len() <= usize::MAX ==> recordings[i].layout.slots@.len()
            <= block_sizes(recording_lengths(recordings))[i],
{
    let n = recordings[i].layout.slots@.len();
    crate::dyadic::lemma_ceil(
        if n == 0 {
            1
        } else {
            n
        },
    );
}

/// A gated pattern is open exactly on the slots whose index, from the first gated bit on,
/// spells the same number as its bits.
pub proof fn lemma_gate_number(pattern: FixedPattern, slot: int)
    requires
        slot >= 0,
    ensures
        pattern.gate_open(slot) <==> number(pattern.gate@) == (slot / pow2(
            pattern.gate_from as nat,
        ) as int) % pow2(pattern.gate@.len()) as int,
        pattern.cell(slot) == if pattern.gate_open(slot) {
            pattern.table@[slot % pow2(pattern.low_log as nat) as int]
        } else {
            F128 { bits: 0 }
        },
{
    let from = pattern.gate_from as nat;
    let n = pattern.gate@.len();
    lemma_pow2_pos(from);
    let at = slot / pow2(from) as int;
    vstd::arithmetic::div_mod::lemma_div_pos_is_pos(slot, pow2(from) as int);
    let own = Seq::new(n, |i: int| (at / pow2(i as nat) as int) % 2 == 1);
    lemma_number(at, own);
    assert forall|i: int| 0 <= i < n implies #[trigger] own[i] == index_bit(
        slot,
        pattern.gate_from + i,
    ) by {
        lemma_pow2_pos(i as nat);
        lemma_pow2_adds(from, i as nat);
        vstd::arithmetic::div_mod::lemma_div_denominator(
            slot,
            pow2(from) as int,
            pow2(i as nat) as int,
        );
    }
    if pattern.gate_open(slot) {
        assert(pattern.gate@ =~= own);
    } else {
        let i = choose|i: int|
            0 <= i < n && !(#[trigger] pattern.gate@[i] == index_bit(slot, pattern.gate_from + i));
        assert(own[i] != pattern.gate@[i]);
        if number(own) == number(pattern.gate@) {
            lemma_number_injective(own, pattern.gate@);
        }
    }
}

proof fn lemma_number_injective(x: Seq<bool>, y: Seq<bool>)
    requires
        x.len() == y.len(),
        number(x) == number(y),
    ensures
        x == y,
    decreases x.len(),
{
    if x.len() > 0 {
        assert(x[0] == y[0]);
        lemma_number_injective(x.skip(1), y.skip(1));
        assert forall|i: int| 0 <= i < x.len() implies x[i] == y[i] by {
            if i > 0 {
                assert(x.skip(1)[i - 1] == y.skip(1)[i - 1]);
            }
        }
        assert(x =~= y);
    } else {
        assert(x =~= y);
    }
}

proof fn lemma_tier_prefix(blocks: Seq<TierBlock>, n: nat, i: int, k: int)
    requires
        0 <= i < n,
        n <= blocks.len(),
        0 <= k < block_cells(&blocks[i].layout, blocks[i].base as int).len(),
    ensures
        tier_cells(blocks, n).contains(block_cells(&blocks[i].layout, blocks[i].base as int)[k]),
    decreases n,
{
    let rest = tier_cells(blocks, (n - 1) as nat);
    let own = block_cells(&blocks[n - 1].layout, blocks[n - 1].base as int);
    let all = tier_cells(blocks, n);
    let cell = block_cells(&blocks[i].layout, blocks[i].base as int)[k];
    assert(all == rest + own);
    if i < n - 1 {
        lemma_tier_prefix(blocks, (n - 1) as nat, i, k);
        let j = choose|j: int| 0 <= j < rest.len() && rest[j] == cell;
        assert(all[j] == cell);
    } else {
        assert(all[rest.len() + k] == cell);
    }
}

/// Every challenge and every data lane of every recording has its cell among the deferred
/// ones: a challenge behind the two data columns in the column of its lane, a data lane
/// where it is absorbed, both at their slot behind the start of the recording.
pub proof fn lemma_deferred_cells(blocks: Seq<TierBlock>, i: int, k: int)
    requires
        0 <= i < blocks.len(),
        blocks[i].layout.wf(),
        blocks[i].base + blocks[i].layout.slots@.len() <= usize::MAX,
        forall|c: int|
            0 <= c < blocks[i].layout.challenges@.len() ==> (
            #[trigger] blocks[i].layout.challenges@[c]).lane < 4,
    ensures
        ({
            let layout = blocks[i].layout;
            let cells = tier_cells(blocks, blocks.len());
            &&& 0 <= k < layout.challenges@.len() ==> exists|j: int|
                0 <= j < cells.len() && (#[trigger] cells[j]).column == 2
                    + layout.challenges@[k].lane && cells[j].offset == blocks[i].base
                    + layout.challenges@[k].slot
            &&& 0 <= k < layout.n_data ==> exists|j: int|
                0 <= j < cells.len() && ({
                    let p = position_of(layout.slots@, k, 2 * layout.slots@.len());
                    (#[trigger] cells[j]).column == p.1 && cells[j].offset == blocks[i].base + p.0
                })
        }),
{
    let layout = blocks[i].layout;
    let base = blocks[i].base as int;
    let cells = tier_cells(blocks, blocks.len());
    let own = block_cells(&blocks[i].layout, base);
    let m = layout.challenges@.len();
    if 0 <= k < m {
        lemma_tier_prefix(blocks, blocks.len(), i, k);
        assert(own[k] == challenge_cell(&blocks[i].layout, base, k));
        let at = layout.challenges@[k];
        assert(at.lane < 4 && at.slot < layout.slots@.len());
        let j = choose|j: int| 0 <= j < cells.len() && cells[j] == own[k];
        assert(cells[j].column == 2 + at.lane);
    }
    if 0 <= k < layout.n_data {
        lemma_tier_prefix(blocks, blocks.len(), i, m + k);
        assert(own[m + k] == data_cell(&blocks[i].layout, base, k));
        lemma_position_range(layout.slots@, k, 2 * layout.slots@.len());
        let j = choose|j: int| 0 <= j < cells.len() && cells[j] == own[m + k];
        assert(cells[j].column == own[m + k].column);
    }
}

/// Rows keep their slots and their patterns when recordings are put behind them; each
/// recording stands at its packed place behind the rows with its own columns and patterns,
/// where the patterns of the rows are silent.
pub proof fn lemma_hosted(
    r: DuplexUnion,
    u: DuplexUnion,
    recordings: Seq<RecordingSpec>,
    channels: Seq<ChannelColumns>,
    between: WalkColumns,
    tail: WalkColumns,
    basis: FlatBasis,
    slot: int,
    t: int,
    which: int,
    i: int,
    o: int,
)
    requires
        hosts(r, u, recordings, channels, between, tail, basis),
        0 <= t < 14,
        0 <= which < 7,
        0 <= i < recordings.len(),
        0 <= o < block_sizes(recording_lengths(recordings))[i],
        0 <= slot < pow2(u.w_log as nat),
    ensures
        ({
            let sizes = block_sizes(recording_lengths(recordings));
            let base = second_base(pow2(u.w_log as nat), sizes);
            let at = base + packed_offset(sizes, i, sizes.len()) + o;
            &&& r.columns.tracks@[t]@[slot] == u.columns.tracks@[t]@[slot]
            &&& r.columns.tracks@[t]@[at] == channels[i].columns.tracks@[t]@[o]
            &&& at < two_region_slots(pow2(u.w_log as nat), sizes) ==> {
                &&& r.fixed@[which].cell(at)@ == 0
                &&& r.fixed@[7 + 7 * i + which].cell(at)@ == pattern_cell(
                    SubChannel { layout: recordings[i].layout, iv: recordings[i].iv },
                    basis,
                    which,
                    o,
                )
            }
            &&& slot < two_region_slots(pow2(u.w_log as nat), sizes) ==> {
                &&& r.fixed@[which].cell(slot)
                    == u.fixed@[which].table@[slot % pow2(u.fixed@[which].low_log as nat) as int]
                &&& r.fixed@[7 + 7 * i + which].cell(slot)@ == 0
            }
            &&& r.rec_blocks@[i].offset == base + packed_offset(sizes, i, sizes.len())
        }),
{
    let sizes = block_sizes(recording_lengths(recordings));
    let base = second_base(pow2(u.w_log as nat), sizes);
    let at = base + packed_offset(sizes, i, sizes.len()) + o;
    lemma_largest(sizes, sizes.len(), i);
    let block = r.rec_blocks@[i];
    let cell = channels[i].columns.tracks@[t]@[o];
}

} // verus!
