//! Channel walks that also host recordings: the rows of channels first, then
//! every recording once, in a block of its own.
use crate::basis::FlatBasis;
use crate::duplex::{
    block_sizes, lemma_dyadic_divides, lemma_packing_aligned, pack_recording_only_blocks,
    packed_offset, pattern_cell, total, RecordingPacking, SubChannel,
};
use crate::duplex_union::{
    build_combined_duplex_union, combined_slots, combined_union, copy_stream, duplex_family_refs,
    family_refs, gate_recording, lay_recordings, lemma_packing_within, recording_lengths,
    recording_pieces, ChannelColumns, DuplexFamilyRefs, DuplexUnion, RecordingBlock,
    RecordingSpec,
};
use crate::dyadic::{
    ceil_log, ceil_pow2, is_dyadic, lemma_ceil, lemma_pow2_mono, next_power_of_two,
    power_of_two,
};
use crate::field::F128;
use crate::patterns::{pattern_in_dyadic_region, FixedPattern};
use crate::walk_planes::{rectangular, Piece, WalkColumns};
use vstd::arithmetic::power2::{lemma_pow2_pos, pow2};
use vstd::prelude::*;

verus! {

/// The largest of the first `n` blocks.
pub open spec fn largest(sizes: Seq<nat>, n: nat) -> nat
    decreases n,
{
    if n == 0 {
        0
    } else if sizes[n - 1] > largest(sizes, (n - 1) as nat) {
        sizes[n - 1]
    } else {
        largest(sizes, (n - 1) as nat)
    }
}

/// Where the recordings start: past the rows, and aligned to every block.
pub open spec fn second_base(r1: nat, sizes: Seq<nat>) -> nat {
    if largest(sizes, sizes.len()) > r1 {
        largest(sizes, sizes.len())
    } else {
        r1
    }
}

/// The slots of the whole walk.
pub open spec fn two_region_slots(r1: nat, sizes: Seq<nat>) -> nat {
    ceil_pow2(second_base(r1, sizes) + total(sizes, sizes.len()))
}

/// The packing of recordings behind rows of `r1` slots.
pub struct RegionPacking {
    pub base: usize,
    pub packing: RecordingPacking,
    pub w_log: usize,
}

proof fn lemma_ceil_mono(x: nat, y: nat)
    requires
        x <= y,
    ensures
        ceil_pow2(x) <= ceil_pow2(y),
{
    lemma_ceil(x);
    lemma_ceil(y);
    let (j, k) = (ceil_log(x), ceil_log(y));
    if j > k {
        lemma_pow2_mono(k, (j - 1) as nat);
        assert(pow2((j - 1) as nat) < x);
    } else {
        lemma_pow2_mono(j, k);
    }
}

proof fn lemma_largest(lengths: Seq<usize>, n: nat, i: int)
    requires
        n <= lengths.len(),
    ensures
        n == 0 || is_dyadic(largest(block_sizes(lengths), n)),
        0 <= i < n ==> block_sizes(lengths)[i] <= largest(block_sizes(lengths), n),
    decreases n,
{
    if n > 0 {
        lemma_largest(lengths, (n - 1) as nat, i);
        let l = lengths[n - 1] as nat;
        lemma_ceil(
            if l == 0 {
                1
            } else {
                l
            },
        );
    }
}

/// Every block of a recording starts on a multiple of its size.
proof fn lemma_region_aligned(r1: nat, lengths: Seq<usize>, i: int)
    requires
        is_dyadic(r1),
        0 <= i < lengths.len(),
    ensures
        ({
            let sizes = block_sizes(lengths);
            let offset = packed_offset(sizes, i, sizes.len());
            &&& (second_base(r1, sizes) + offset) as int % sizes[i] as int == 0
            &&& is_dyadic(sizes[i])
            &&& sizes[i] > 0
            &&& lengths[i] <= sizes[i]
            &&& offset + sizes[i] <= total(sizes, sizes.len())
        }),
{
    let sizes = block_sizes(lengths);
    let n = lengths.len();
    let offset = packed_offset(sizes, i, n);
    let base = second_base(r1, sizes);
    let l = lengths[i] as nat;
    lemma_ceil(
        if l == 0 {
            1
        } else {
            l
        },
    );
    lemma_largest(lengths, n, i);
    lemma_packing_aligned(lengths, i, n);
    lemma_packing_within(lengths, i);
    if base != r1 || sizes[i] <= r1 {
        lemma_dyadic_divides(base, sizes[i]);
    }
    vstd::arithmetic::div_mod::lemma_add_mod_noop(base as int, offset as int, sizes[i] as int);
    vstd::arithmetic::div_mod::lemma_small_mod(0, sizes[i]);
}

/// Packs recordings behind rows of `r1` slots, larger blocks first.
pub fn pack_recordings(r1: usize, lengths: &Vec<usize>) -> (r: RegionPacking)
    requires
        lengths@.len() > 0,
        two_region_slots(r1 as nat, block_sizes(lengths@)) <= usize::MAX,
    ensures
        r.packing.packs(block_sizes(lengths@)),
        r.base == second_base(r1 as nat, block_sizes(lengths@)),
        r.w_log == ceil_log(
            second_base(r1 as nat, block_sizes(lengths@)) + total(
                block_sizes(lengths@),
                lengths@.len(),
            ),
        ),
{
    let ghost sizes = block_sizes(lengths@);
    let ghost n = lengths@.len();
    proof {
        let all = second_base(r1 as nat, sizes) + total(sizes, n);
        lemma_ceil(all);
        lemma_ceil_mono(total(sizes, n), all);
    }
    let packing = pack_recording_only_blocks(lengths);
    let mut base: usize = 0;
    let mut i: usize = 0;
    while i < packing.sizes.len()
        invariant
            i <= packing.sizes@.len(),
            packing.packs(sizes),
            sizes.len() == n,
            base == largest(sizes, i as nat),
        decreases packing.sizes@.len() - i,
    {
        assert(packing.sizes@[i as int] == sizes[i as int]);
        if packing.sizes[i] > base {
            base = packing.sizes[i];
        }
        i = i + 1;
    }
    if base < r1 {
        base = r1;
    }
    let whole = next_power_of_two(base + packing.used);
    RegionPacking { base, packing, w_log: whole.log }
}

/// A list of cells behind another.
fn append_cells(column: &mut Vec<F128>, from: &Vec<F128>)
    ensures
        final(column)@ == old(column)@ + from@,
{
    let mut more = copy_stream(from);
    column.append(&mut more);
}

fn append_zeros(column: &mut Vec<F128>, count: usize)
    ensures
        final(column)@ == old(column)@ + Seq::new(count as nat, |i: int| F128 { bits: 0 }),
{
    let ghost before = column@;
    let mut i: usize = 0;
    while i < count
        invariant
            i <= count,
            column@ == before + Seq::new(i as nat, |k: int| F128 { bits: 0 }),
        decreases count - i,
    {
        column.push(F128::zero());
        i = i + 1;
        assert(column@ =~= before + Seq::new(i as nat, |k: int| F128 { bits: 0 }));
    }
    assert(column@ =~= before + Seq::new(count as nat, |k: int| F128 { bits: 0 }));
}

/// The cell of track `t` at `slot`: a row, the chain between, or the recordings
/// and their tail.
pub open spec fn region_cell(
    rows: WalkColumns,
    between: WalkColumns,
    second: WalkColumns,
    r1: int,
    base: int,
    t: int,
    slot: int,
) -> F128 {
    if slot < r1 {
        rows.tracks@[t]@[slot]
    } else if slot < base {
        if t < 2 {
            F128 { bits: 0 }
        } else {
            between.tracks@[t]@[slot - r1]
        }
    } else {
        second.tracks@[t]@[slot - base]
    }
}

/// Joins the rows, the chain that leaves them, and the recordings.
fn join_regions(
    rows: WalkColumns,
    between: &WalkColumns,
    second: &WalkColumns,
    r1: usize,
    base: usize,
    p: usize,
) -> (r: WalkColumns)
    requires
        r1 <= base <= p,
        rectangular(rows, 14, r1 as nat),
        chain_tracks(*between, (base - r1) as nat),
        rectangular(*second, 14, (p - base) as nat),
    ensures
        rectangular(r, 14, p as nat),
        forall|t: int, slot: int|
            0 <= t < 14 && 0 <= slot < p ==> #[trigger] r.tracks@[t]@[slot] == region_cell(
                rows,
                *between,
                *second,
                r1 as int,
                base as int,
                t,
                slot,
            ),
{
    let ghost rows0 = rows;
    let mut tracks: Vec<Vec<F128>> = Vec::new();
    let mut t: usize = 0;
    while t < 14
        invariant
            t <= 14,
            r1 <= base <= p,
            rows == rows0,
            rectangular(rows, 14, r1 as nat),
            chain_tracks(*between, (base - r1) as nat),
            rectangular(*second, 14, (p - base) as nat),
            tracks@.len() == t,
            forall|u: int| 0 <= u < t ==> (#[trigger] tracks@[u])@.len() == p,
            forall|u: int, slot: int|
                0 <= u < t && 0 <= slot < p ==> #[trigger] tracks@[u]@[slot] == region_cell(
                    rows0,
                    *between,
                    *second,
                    r1 as int,
                    base as int,
                    u,
                    slot,
                ),
        decreases 14 - t,
    {
        assert(rows.tracks@[t as int]@.len() == r1);
        assert(between.tracks@[t as int]@.len() == if t < 2 {
            0
        } else {
            base - r1
        });
        assert(second.tracks@[t as int]@.len() == p - base);
        let mut column = copy_stream(&rows.tracks[t]);
        if t < 2 {
            append_zeros(&mut column, base - r1);
        } else {
            append_cells(&mut column, &between.tracks[t]);
        }
        append_cells(&mut column, &second.tracks[t]);
        let ghost done = column@;
        proof {
            assert(done.len() == p);
            assert forall|slot: int| 0 <= slot < p implies #[trigger] done[slot] == region_cell(
                rows0,
                *between,
                *second,
                r1 as int,
                base as int,
                t as int,
                slot,
            ) by {}
        }
        let ghost before = tracks@;
        tracks.push(column);
        proof {
            assert forall|u: int, slot: int| 0 <= u < t + 1 && 0 <= slot < p implies #[trigger] tracks@[u]@[slot]
                == region_cell(rows0, *between, *second, r1 as int, base as int, u, slot) by {
                if u < t {
                    assert(tracks@[u] == before[u]);
                } else {
                    assert(tracks@[u]@ == done);
                }
            }
        }
        t = t + 1;
    }
    WalkColumns { tracks }
}

/// A permutation chain of `slots` slots: it absorbs no data.
pub open spec fn chain_tracks(chain: WalkColumns, slots: nat) -> bool {
    &&& chain.tracks@.len() == 14
    &&& forall|t: int|
        0 <= t < 14 ==> (#[trigger] chain.tracks@[t])@.len() == if t < 2 {
            0
        } else {
            slots
        }
}

/// A union of rows only, whose patterns repeat inside its own walk.
pub open spec fn rows_only(u: DuplexUnion) -> bool {
    &&& rectangular(u.columns, 14, pow2(u.w_log as nat))
    &&& u.fixed@.len() == 7
    &&& forall|k: int|
        0 <= k < 7 ==> (#[trigger] u.fixed@[k]).wf() && u.fixed@[k].gate@.len() == 0 && pow2(
            u.fixed@[k].low_log as nat,
        ) <= pow2(u.w_log as nat)
}

/// The pattern of recording `i` behind the rows.
pub open spec fn hosted_pattern(
    recordings: Seq<RecordingSpec>,
    basis: FlatBasis,
    base: int,
    i: int,
    which: int,
    slot: int,
) -> u128 {
    let sizes = block_sizes(recording_lengths(recordings));
    let offset = base + packed_offset(sizes, i, sizes.len());
    if offset <= slot < offset + sizes[i] {
        pattern_cell(
            SubChannel { layout: recordings[i].layout, iv: recordings[i].iv },
            basis,
            which,
            slot - offset,
        )
    } else {
        0
    }
}

/// A union of rows with recordings behind them.
pub open spec fn hosts(
    r: DuplexUnion,
    u: DuplexUnion,
    recordings: Seq<RecordingSpec>,
    channels: Seq<ChannelColumns>,
    between: WalkColumns,
    tail: WalkColumns,
    basis: FlatBasis,
) -> bool {
    let sizes = block_sizes(recording_lengths(recordings));
    let n = sizes.len();
    let r1 = pow2(u.w_log as nat);
    let base = second_base(r1, sizes);
    let used = total(sizes, n);
    let p = two_region_slots(r1, sizes);
    &&& r.w_log == ceil_log(base + used)
    &&& rectangular(r.columns, 14, p)
    &&& forall|t: int, slot: int|
        0 <= t < 14 && 0 <= slot < base ==> #[trigger] r.columns.tracks@[t]@[slot] == if slot < r1 {
            u.columns.tracks@[t]@[slot]
        } else if t < 2 {
            F128 { bits: 0 }
        } else {
            between.tracks@[t]@[slot - r1]
        }
    &&& forall|i: int, t: int, o: int|
        0 <= i < n && 0 <= t < 14 && 0 <= o < sizes[i] ==> r.columns.tracks@[t]@[base
            + packed_offset(sizes, i, n) + o] == #[trigger] channels[i].columns.tracks@[t]@[o]
    &&& forall|t: int, slot: int|
        0 <= t < 14 && base + used <= slot < p ==> #[trigger] r.columns.tracks@[t]@[slot] == if t
            < 2 {
            F128 { bits: 0 }
        } else {
            tail.tracks@[t]@[slot - base - used]
        }
    &&& r.fixed@.len() == 7 + 7 * n
    &&& forall|which: int, slot: int|
        0 <= which < 7 && 0 <= slot < p ==> #[trigger] r.fixed@[which].cell(slot) == if slot < r1 {
            u.fixed@[which].table@[slot % pow2(u.fixed@[which].low_log as nat) as int]
        } else {
            F128 { bits: 0 }
        }
    &&& forall|i: int, which: int, slot: int|
        0 <= i < n && 0 <= which < 7 && 0 <= slot < p ==> (#[trigger] r.fixed@[7 + 7 * i
            + which].cell(slot))@ == hosted_pattern(
            recordings,
            basis,
            base as int,
            i,
            which,
            slot,
        )
    &&& r.refs == u.refs
    &&& r.layout == u.layout
    &&& r.block_log == u.block_log
    &&& r.challenges == u.challenges
    &&& r.rec_blocks@.len() == n
    &&& r.rec_refs@.len() == n
    &&& r.rec_challenges@.len() == n
    &&& forall|i: int|
        0 <= i < n ==> (#[trigger] r.rec_blocks@[i]).layout.same(&recordings[i].layout)
            && r.rec_blocks@[i].offset == base + packed_offset(sizes, i, n)
    &&& forall|i: int| 0 <= i < n ==> #[trigger] r.rec_refs@[i] == family_refs(0, 7 + 7 * i)
    &&& forall|i: int|
        0 <= i < n ==> (#[trigger] r.rec_challenges@[i])@ == channels[i].challenges@
}

/// The patterns of the rows, restricted to the rows.
fn gate_rows(fixed: Vec<FixedPattern>, r1: usize, w_log: usize) -> (r: Vec<FixedPattern>)
    requires
        fixed@.len() == 7,
        is_dyadic(r1 as nat),
        r1 <= pow2(w_log as nat) <= usize::MAX,
        forall|k: int|
            0 <= k < 7 ==> (#[trigger] fixed@[k]).wf() && fixed@[k].gate@.len() == 0 && pow2(
                fixed@[k].low_log as nat,
            ) <= r1,
    ensures
        r@.len() == 7,
        forall|which: int, slot: int|
            0 <= which < 7 && 0 <= slot < pow2(w_log as nat) ==> #[trigger] r@[which].cell(slot)
                == if slot < r1 {
                fixed@[which].table@[slot % pow2(fixed@[which].low_log as nat) as int]
            } else {
                F128 { bits: 0 }
            },
{
    let ghost all = fixed@;
    let mut rest = fixed;
    let mut reversed: Vec<FixedPattern> = Vec::new();
    let mut k: usize = 7;
    proof {
        assert(rest@ =~= all.take(7));
        lemma_pow2_pos(w_log as nat);
        let e = choose|e: nat| r1 == #[trigger] pow2(e);
        lemma_pow2_pos(e);
        vstd::arithmetic::div_mod::lemma_small_mod(0, r1 as nat);
    }
    while k > 0
        invariant
            k <= 7,
            all.len() == 7,
            is_dyadic(r1 as nat),
            r1 > 0,
            0int % r1 as int == 0,
            r1 <= pow2(w_log as nat) <= usize::MAX,
            rest@ == all.take(k as int),
            forall|j: int|
                0 <= j < 7 ==> (#[trigger] all[j]).wf() && all[j].gate@.len() == 0 && pow2(
                    all[j].low_log as nat,
                ) <= r1,
            reversed@.len() == 7 - k,
            forall|j: int, slot: int|
                k <= j < 7 && 0 <= slot < pow2(w_log as nat) ==> #[trigger] reversed@[6 - j].cell(
                    slot,
                ) == if slot < r1 {
                    all[j].table@[slot % pow2(all[j].low_log as nat) as int]
                } else {
                    F128 { bits: 0 }
                },
        decreases k,
    {
        let ghost before = reversed@;
        let popped = rest.pop();
        k = k - 1;
        match popped {
            Some(pattern) => {
                assert(pattern == all[k as int]);
                assert(rest@ =~= all.take(k as int));
                let gated = pattern_in_dyadic_region(pattern, 0, r1, w_log);
                reversed.push(gated);
                proof {
                    assert forall|j: int, slot: int|
                        k <= j < 7 && 0 <= slot < pow2(w_log as nat) implies #[trigger] reversed@[6
                        - j].cell(slot) == if slot < r1 {
                        all[j].table@[slot % pow2(all[j].low_log as nat) as int]
                    } else {
                        F128 { bits: 0 }
                    } by {
                        if j > k {
                            assert(reversed@[6 - j] == before[6 - j]);
                        } else {
                            assert(reversed@[6 - j] == gated);
                        }
                    }
                }
            },
            None => {
                assert(all.take(k + 1).len() == k + 1);
            },
        }
    }
    let ghost list = reversed@;
    let mut r: Vec<FixedPattern> = Vec::new();
    let mut left: usize = 7;
    assert(reversed@ =~= list.take(7));
    while left > 0
        invariant
            left <= 7,
            list.len() == 7,
            reversed@ == list.take(left as int),
            r@.len() == 7 - left,
            forall|j: int| 0 <= j < 7 - left ==> #[trigger] r@[j] == list[6 - j],
        decreases left,
    {
        let popped = reversed.pop();
        left = left - 1;
        match popped {
            Some(pattern) => {
                assert(pattern == list[left as int]);
                assert(reversed@ =~= list.take(left as int));
                r.push(pattern);
            },
            None => {
                assert(list.take(left + 1).len() == left + 1);
            },
        }
    }
    proof {
        assert forall|which: int, slot: int| 0 <= which < 7 && 0 <= slot < pow2(
            w_log as nat,
        ) implies #[trigger] r@[which].cell(slot) == if slot < r1 {
            all[which].table@[slot % pow2(all[which].low_log as nat) as int]
        } else {
            F128 { bits: 0 }
        } by {
            assert(r@[which] == list[6 - which]);
            assert(list[6 - which].cell(slot) == if slot < r1 {
                all[which].table@[slot % pow2(all[which].low_log as nat) as int]
            } else {
                F128 { bits: 0 }
            });
        }
    }
    r
}

/// Appends recordings to a union of rows. `channels` holds the columns of every
/// recording, `between` the permutation chain from the rows to the first
/// recording, and `tail` the one that leaves the last.
#[verifier::rlimit(60)]
#[verifier::spinoff_prover]
pub fn append_recordings(
    u: DuplexUnion,
    recordings: &Vec<RecordingSpec>,
    channels: &Vec<ChannelColumns>,
    between: &WalkColumns,
    tail: &WalkColumns,
    basis: &FlatBasis,
) -> (r: DuplexUnion)
    requires
        basis.wf(),
        rows_only(u),
        recordings@.len() > 0,
        7 + 7 * recordings@.len() <= usize::MAX,
        channels@.len() == recordings@.len(),
        ({
            let sizes = block_sizes(recording_lengths(recordings@));
            let r1 = pow2(u.w_log as nat);
            let base = second_base(r1, sizes);
            let used = total(sizes, sizes.len());
            let p = two_region_slots(r1, sizes);
            &&& p <= usize::MAX
            &&& forall|i: int|
                0 <= i < channels@.len() ==> rectangular(
                    (#[trigger] channels@[i]).columns,
                    14,
                    sizes[i],
                )
            &&& chain_tracks(*between, (base - r1) as nat)
            &&& chain_tracks(*tail, (p - base - used) as nat)
        }),
    ensures
        hosts(r, u, recordings@, channels@, *between, *tail, *basis),
{
    let ghost u0 = u;
    let mut lengths: Vec<usize> = Vec::new();
    let n = recordings.len();
    let mut i: usize = 0;
    while i < n
        invariant
            i <= n,
            n == recordings@.len(),
            lengths@.len() == i,
            forall|k: int|
                0 <= k < i ==> #[trigger] lengths@[k] == recording_lengths(recordings@)[k],
        decreases n - i,
    {
        lengths.push(recordings[i].layout.slots.len());
        i = i + 1;
    }
    assert(lengths@ =~= recording_lengths(recordings@));
    let ghost sizes = block_sizes(lengths@);
    let ghost r1_spec = pow2(u.w_log as nat);
    let ghost used = total(sizes, sizes.len());
    proof {
        lemma_ceil(second_base(r1_spec, sizes) + used);
        lemma_pow2_pos(u.w_log as nat);
        assert(is_dyadic(r1_spec));
    }
    let r1 = power_of_two(u.w_log);
    let region = pack_recordings(r1, &lengths);
    let base = region.base;
    let w_log = region.w_log;
    let p = power_of_two(w_log);
    let DuplexUnion { columns, fixed, refs, layout, w_log: _, block_log, challenges, .. } = u;
    let mut fixed = gate_rows(fixed, r1, w_log);
    let ghost gated = fixed@;
    let mut rec_blocks: Vec<RecordingBlock> = Vec::new();
    let mut rec_refs: Vec<DuplexFamilyRefs> = Vec::new();
    let mut rec_challenges: Vec<Vec<F128>> = Vec::new();
    let mut pieces: Vec<Piece> = Vec::new();
    let mut i: usize = 0;
    while i < n
        invariant
            i <= n,
            n == recordings@.len(),
            n == channels@.len(),
            7 + 7 * n <= usize::MAX,
            basis.wf(),
            lengths@ == recording_lengths(recordings@),
            sizes == block_sizes(lengths@),
            sizes.len() == n,
            is_dyadic(r1 as nat),
            base == second_base(r1 as nat, sizes),
            used == total(sizes, n as nat),
            base + used <= p,
            p == pow2(w_log as nat),
            region.packing.packs(sizes),
            gated.len() == 7,
            fixed@.len() == 7 + 7 * i,
            forall|k: int| 0 <= k < 7 ==> fixed@[k] == #[trigger] gated[k],
            forall|k: int, which: int, slot: int|
                0 <= k < i && 0 <= which < 7 && 0 <= slot < p ==> (#[trigger] fixed@[7 + 7 * k
                    + which].cell(slot))@ == hosted_pattern(
                    recordings@,
                    *basis,
                    base as int,
                    k,
                    which,
                    slot,
                ),
            rec_blocks@.len() == i,
            rec_refs@.len() == i,
            rec_challenges@.len() == i,
            pieces@.len() == i,
            forall|k: int|
                0 <= k < i ==> #[trigger] pieces@[k] == recording_pieces(sizes)[k]
                    && pieces@[k].base == packed_offset(sizes, k, n as nat) && pieces@[k].slots
                    == sizes[k],
            forall|k: int|
                0 <= k < i ==> (#[trigger] rec_blocks@[k]).layout.same(&recordings@[k].layout)
                    && rec_blocks@[k].offset == base + packed_offset(sizes, k, n as nat),
            forall|k: int| 0 <= k < i ==> #[trigger] rec_refs@[k] == family_refs(0, 7 + 7 * k),
            forall|k: int|
                0 <= k < i ==> (#[trigger] rec_challenges@[k])@ == channels@[k].challenges@,
        decreases n - i,
    {
        let ghost fixed0 = fixed@;
        let slots = recordings[i].layout.slots.len();
        proof {
            assert(slots == lengths@[i as int]);
            lemma_region_aligned(r1 as nat, lengths@, i as int);
            assert(region.packing.sizes@[i as int] == sizes[i as int]);
            assert(recordings@[i as int].layout.slots@.len() == lengths@[i as int]);
        }
        let offset = region.packing.offsets[i];
        let size = region.packing.sizes[i];
        gate_recording(&recordings[i], basis, base + offset, size, w_log, &mut fixed);
        proof {
            assert forall|k: int, which: int, slot: int|
                0 <= k < i + 1 && 0 <= which < 7 && 0 <= slot < p implies (#[trigger] fixed@[7 + 7
                * k + which].cell(slot))@ == hosted_pattern(
                recordings@,
                *basis,
                base as int,
                k,
                which,
                slot,
            ) by {
                if k < i {
                    assert(fixed@[7 + 7 * k + which] == fixed0[7 + 7 * k + which]);
                    assert(fixed0[7 + 7 * k + which].cell(slot)@ == hosted_pattern(
                        recordings@,
                        *basis,
                        base as int,
                        k,
                        which,
                        slot,
                    ));
                } else {
                    assert(fixed@[fixed0.len() + which].cell(slot)@ == hosted_pattern(
                        recordings@,
                        *basis,
                        base as int,
                        k,
                        which,
                        slot,
                    ));
                }
            }
            assert forall|k: int| 0 <= k < 7 implies fixed@[k] == #[trigger] gated[k] by {
                assert(fixed0[k] == gated[k]);
            }
        }
        rec_refs.push(duplex_family_refs(0, 7 + 7 * i));
        rec_blocks.push(
            RecordingBlock { layout: recordings[i].layout.copy(), offset: base + offset },
        );
        rec_challenges.push(copy_stream(&channels[i].challenges));
        pieces.push(Piece { base: offset, from: 0, slots: size, source: i });
        i = i + 1;
    }
    proof {
        assert(region.packing.used == used);
        assert forall|t: int| 0 <= t < 14 implies (#[trigger] tail.tracks@[t])@.len() == if t < 2 {
            0
        } else {
            (p - base) - used
        } by {}
    }
    let second = lay_recordings(
        channels,
        &pieces,
        tail,
        p - base,
        region.packing.used,
        Ghost(lengths@),
    );
    let ghost rows = columns;
    let joined = join_regions(columns, between, &second, r1, base, p);
    let r = DuplexUnion {
        columns: joined,
        fixed,
        refs,
        layout,
        w_log,
        block_log,
        challenges,
        rec_blocks,
        rec_refs,
        rec_challenges,
    };
    proof {
        assert(rows == u0.columns);
        lemma_hosted_cells(r.columns, rows, *between, second, channels@, *tail, lengths@, r1 as int,
            base as int, p as int);
        assert forall|which: int, slot: int|
            0 <= which < 7 && 0 <= slot < p implies #[trigger] r.fixed@[which].cell(slot) == if slot
            < r1 {
            u0.fixed@[which].table@[slot % pow2(u0.fixed@[which].low_log as nat) as int]
        } else {
            F128 { bits: 0 }
        } by {
            assert(fixed@[which] == gated[which]);
            assert(gated[which].cell(slot) == if slot < r1 {
                u0.fixed@[which].table@[slot % pow2(u0.fixed@[which].low_log as nat) as int]
            } else {
                F128 { bits: 0 }
            });
        }
    }
    r
}

/// The cells of joined regions, region by region.
proof fn lemma_hosted_cells(
    joined: WalkColumns,
    rows: WalkColumns,
    between: WalkColumns,
    second: WalkColumns,
    channels: Seq<ChannelColumns>,
    tail: WalkColumns,
    lengths: Seq<usize>,
    r1: int,
    base: int,
    p: int,
)
    requires
        0 <= r1 <= base,
        channels.len() == lengths.len(),
        base + total(block_sizes(lengths), lengths.len()) <= p,
        forall|t: int, slot: int|
            0 <= t < 14 && 0 <= slot < p ==> #[trigger] joined.tracks@[t]@[slot] == region_cell(
                rows,
                between,
                second,
                r1,
                base,
                t,
                slot,
            ),
        forall|i: int, t: int, o: int|
            0 <= i < lengths.len() && 0 <= t < 14 && 0 <= o < block_sizes(lengths)[i]
                ==> second.tracks@[t]@[packed_offset(block_sizes(lengths), i, lengths.len()) + o]
                == #[trigger] channels[i].columns.tracks@[t]@[o],
        forall|t: int, slot: int|
            0 <= t < 14 && total(block_sizes(lengths), lengths.len()) <= slot < p - base
                ==> #[trigger] second.tracks@[t]@[slot] == if t < 2 {
                F128 { bits: 0 }
            } else {
                tail.tracks@[t]@[slot - total(block_sizes(lengths), lengths.len())]
            },
    ensures
        forall|i: int, t: int, o: int|
            0 <= i < lengths.len() && 0 <= t < 14 && 0 <= o < block_sizes(lengths)[i]
                ==> joined.tracks@[t]@[base + packed_offset(
                block_sizes(lengths),
                i,
                lengths.len(),
            ) + o] == #[trigger] channels[i].columns.tracks@[t]@[o],
        forall|t: int, slot: int|
            0 <= t < 14 && base + total(block_sizes(lengths), lengths.len()) <= slot < p
                ==> #[trigger] joined.tracks@[t]@[slot] == if t < 2 {
                F128 { bits: 0 }
            } else {
                tail.tracks@[t]@[slot - base - total(block_sizes(lengths), lengths.len())]
            },
{
    let sizes = block_sizes(lengths);
    let n = lengths.len();
    assert forall|i: int, t: int, o: int| 0 <= i < n && 0 <= t < 14 && 0 <= o < sizes[i] implies joined.tracks@[t]@[base
        + packed_offset(sizes, i, n) + o] == #[trigger] channels[i].columns.tracks@[t]@[o] by {
        lemma_packing_within(lengths, i);
        let slot = base + packed_offset(sizes, i, n) + o;
        assert(joined.tracks@[t]@[slot] == region_cell(rows, between, second, r1, base, t, slot));
        assert(slot - base == packed_offset(sizes, i, n) + o);
    }
    assert forall|t: int, slot: int| 0 <= t < 14 && base + total(sizes, n) <= slot < p implies #[trigger] joined.tracks@[t]@[slot]
        == if t < 2 {
        F128 { bits: 0 }
    } else {
        tail.tracks@[t]@[slot - base - total(sizes, n)]
    } by {
        assert(second.tracks@[t]@[slot - base] == if t < 2 {
            F128 { bits: 0 }
        } else {
            tail.tracks@[t]@[slot - base - total(sizes, n)]
        });
    }
}

/// Tiles rows of channels and hosts recordings behind them.
pub fn build_combined_duplex_union_with_recordings(
    subs: &Vec<SubChannel>,
    k: usize,
    rows: &Vec<ChannelColumns>,
    recordings: &Vec<RecordingSpec>,
    channels: &Vec<ChannelColumns>,
    between: &WalkColumns,
    tail: &WalkColumns,
    basis: &FlatBasis,
) -> (r: DuplexUnion)
    requires
        basis.wf(),
        subs@.len() > 0,
        forall|i: int| 0 <= i < subs@.len() ==> (#[trigger] subs@[i]).layout.wf(),
        crate::duplex::data_offset(subs@, subs@.len()) <= usize::MAX,
        combined_slots(subs@, k as nat) <= usize::MAX,
        crate::duplex_union::channels_tile(rows@, subs@, k as nat),
        recordings@.len() > 0,
        7 + 7 * recordings@.len() <= usize::MAX,
        channels@.len() == recordings@.len(),
        ({
            let sizes = block_sizes(recording_lengths(recordings@));
            let r1 = combined_slots(subs@, k as nat);
            let base = second_base(r1, sizes);
            let used = total(sizes, sizes.len());
            let p = two_region_slots(r1, sizes);
            &&& p <= usize::MAX
            &&& forall|i: int|
                0 <= i < channels@.len() ==> rectangular(
                    (#[trigger] channels@[i]).columns,
                    14,
                    sizes[i],
                )
            &&& chain_tracks(*between, (base - r1) as nat)
            &&& chain_tracks(*tail, (p - base - used) as nat)
        }),
    ensures
        exists|u: DuplexUnion, all: Seq<SubChannel>| #[trigger]
            combined_union(u, all, subs@, k as nat, rows@, *basis) && hosts(
                r,
                u,
                recordings@,
                channels@,
                *between,
                *tail,
                *basis,
            ),
{
    let (u, all) = build_combined_duplex_union(subs, k, rows, basis);
    proof {
        let n = ceil_pow2(subs@.len());
        let s = ceil_pow2(crate::duplex_union::longest(subs@, subs@.len()));
        let blocks = ceil_pow2(
            if k == 0 {
                1
            } else {
                k as nat
            },
        );
        lemma_ceil(
            if k == 0 {
                1
            } else {
                k as nat
            },
        );
        lemma_ceil(subs@.len());
        lemma_ceil(crate::duplex_union::longest(subs@, subs@.len()));
        assert(n * s <= blocks * (n * s)) by (nonlinear_arith)
            requires
                blocks > 0,
        ;
        assert forall|j: int| 0 <= j < 7 implies (#[trigger] u.fixed@[j]).wf()
            && u.fixed@[j].gate@.len() == 0 && pow2(u.fixed@[j].low_log as nat) <= pow2(
            u.w_log as nat,
        ) by {}
    }
    append_recordings(u, recordings, channels, between, tail, basis)
}

} // verus!
