//! Unions of duplex channels: many channels, or many recorded transcripts, in
//! one walk. The permutation columns of every channel come from the host.
use crate::basis::FlatBasis;
use crate::duplex::{
    block_sizes, combined_duplex_fixed_patterns, combined_duplex_layout, combines, data_offset,
    lemma_packing_aligned, lemma_packing_disjoint, pack_recording_only_blocks, packed_before,
    packed_offset, pattern_cell, total, DuplexLayout, DuplexSlot, LanePosition, RecordingPacking,
    SubChannel,
};
use crate::dyadic::{
    ceil_log, ceil_pow2, exact_log, is_dyadic, lemma_ceil, next_power_of_two, power_of_two,
};
use crate::field::F128;
use crate::meta_pins::DigestPair;
use crate::patterns::{pattern_in_dyadic_region, FixedPattern};
use crate::walk_planes::{rectangular, Piece, WalkColumns};
use vstd::arithmetic::power2::{lemma_pow2_adds, lemma_pow2_pos, pow2};
use vstd::prelude::*;

verus! {

/// Which columns and patterns a family of duplex slots reads: two data
/// columns, four state columns, the start pattern, two data selectors and four
/// constants, each run consecutive.
#[derive(Clone, Copy, Debug, PartialEq, Eq, Structural)]
pub struct DuplexFamilyRefs {
    pub a: usize,
    pub c: usize,
    pub start: usize,
    pub abs: usize,
    pub consts: usize,
}

/// The references of a family whose columns start at `column` and whose seven
/// patterns start at `fixed`.
pub open spec fn family_refs(column: int, fixed: int) -> DuplexFamilyRefs {
    DuplexFamilyRefs {
        a: column as usize,
        c: (column + 2) as usize,
        start: fixed as usize,
        abs: (fixed + 1) as usize,
        consts: (fixed + 3) as usize,
    }
}

pub fn duplex_family_refs(column: usize, fixed: usize) -> (r: DuplexFamilyRefs)
    requires
        column + 6 <= usize::MAX,
        fixed + 7 <= usize::MAX,
    ensures
        r == family_refs(column as int, fixed as int),
{
    DuplexFamilyRefs {
        a: column,
        c: column + 2,
        start: fixed,
        abs: fixed + 1,
        consts: fixed + 3,
    }
}

/// Where one recorded transcript lies in a union.
pub struct RecordingBlock {
    pub layout: DuplexLayout,
    pub offset: usize,
}

/// Many duplex channels in one walk: fourteen tracks (two data, four state,
/// four entry and four exit lanes), the fixed patterns, and the challenges of
/// every channel in schedule order.
pub struct DuplexUnion {
    pub columns: WalkColumns,
    pub fixed: Vec<FixedPattern>,
    pub refs: DuplexFamilyRefs,
    pub layout: DuplexLayout,
    pub w_log: usize,
    pub block_log: usize,
    pub challenges: Vec<Vec<F128>>,
    pub rec_blocks: Vec<RecordingBlock>,
    pub rec_refs: Vec<DuplexFamilyRefs>,
    pub rec_challenges: Vec<Vec<F128>>,
}

/// The columns of one channel's block, and the challenges it squeezes.
pub struct ChannelColumns {
    pub columns: WalkColumns,
    pub challenges: Vec<F128>,
}

/// Tiles equally long sources one after the other.
fn tile_columns(sources: &Vec<ChannelColumns>, s: usize, p: usize) -> (r: WalkColumns)
    requires
        s > 0,
        p == sources@.len() * s,
        forall|q: int|
            0 <= q < sources@.len() ==> rectangular((#[trigger] sources@[q]).columns, 14, s as nat),
    ensures
        rectangular(r, 14, p as nat),
        forall|t: int, slot: int|
            0 <= t < 14 && 0 <= slot < p ==> #[trigger] r.tracks@[t]@[slot] == sources@[slot
                / s as int].columns.tracks@[t]@[slot % s as int],
{
    let mut tracks: Vec<Vec<F128>> = Vec::new();
    let mut t: usize = 0;
    while t < 14
        invariant
            t <= 14,
            s > 0,
            p == sources@.len() * s,
            forall|q: int|
                0 <= q < sources@.len() ==> rectangular(
                    (#[trigger] sources@[q]).columns,
                    14,
                    s as nat,
                ),
            tracks@.len() == t,
            forall|u: int| 0 <= u < t ==> (#[trigger] tracks@[u])@.len() == p,
            forall|u: int, slot: int|
                0 <= u < t && 0 <= slot < p ==> #[trigger] tracks@[u]@[slot] == sources@[slot
                    / s as int].columns.tracks@[u]@[slot % s as int],
        decreases 14 - t,
    {
        let mut column: Vec<F128> = Vec::with_capacity(p);
        let mut slot: usize = 0;
        while slot < p
            invariant
                t < 14,
                slot <= p,
                s > 0,
                p == sources@.len() * s,
                forall|q: int|
                    0 <= q < sources@.len() ==> rectangular(
                        (#[trigger] sources@[q]).columns,
                        14,
                        s as nat,
                    ),
                column@.len() == slot,
                forall|k: int|
                    0 <= k < slot ==> #[trigger] column@[k] == sources@[k
                        / s as int].columns.tracks@[t as int]@[k % s as int],
            decreases p - slot,
        {
            proof {
                assert(sources@.len() * s == s * sources@.len()) by (nonlinear_arith);
                vstd::arithmetic::div_mod::lemma_multiply_divide_lt(
                    slot as int,
                    s as int,
                    sources@.len() as int,
                );
                assert(rectangular(sources@[slot as int / s as int].columns, 14, s as nat));
                assert(sources@[slot as int / s as int].columns.tracks@[t as int]@.len() == s);
            }
            column.push(sources[slot / s].columns.tracks[t][slot % s]);
            slot = slot + 1;
        }
        tracks.push(column);
        t = t + 1;
    }
    WalkColumns { tracks }
}

/// The geometry of a combined walk: `channels` channels of `2^s_log` slots in
/// every block, and `blocks` blocks.
#[derive(Clone, Copy, Debug, PartialEq, Eq, Structural)]
pub struct CombinedGeometry {
    pub channels: usize,
    pub s_log: usize,
    pub block_log: usize,
    pub blocks: usize,
    pub w_log: usize,
}

/// The longest schedule of the first `n` channels, and at least one slot.
pub open spec fn longest(subs: Seq<SubChannel>, n: nat) -> nat
    decreases n,
{
    if n == 0 {
        1
    } else {
        let rest = longest(subs, (n - 1) as nat);
        if subs[n - 1].layout.slots@.len() > rest {
            subs[n - 1].layout.slots@.len()
        } else {
            rest
        }
    }
}

impl CombinedGeometry {
    /// The geometry of `k` rows of these channels: as many channels, slots per
    /// channel and blocks as the next powers of two.
    pub open spec fn of(self, subs: Seq<SubChannel>, k: nat) -> bool {
        &&& self.channels == ceil_pow2(subs.len())
        &&& self.s_log == ceil_log(longest(subs, subs.len()))
        &&& pow2(self.block_log as nat) == self.channels * pow2(self.s_log as nat)
        &&& self.blocks == ceil_pow2(
            if k == 0 {
                1
            } else {
                k
            },
        )
        &&& pow2(self.w_log as nat) == self.blocks * pow2(self.block_log as nat)
    }
}

/// The slots of a combined walk.
pub open spec fn combined_slots(subs: Seq<SubChannel>, k: nat) -> nat {
    ceil_pow2(
        if k == 0 {
            1
        } else {
            k
        },
    ) * (ceil_pow2(subs.len()) * ceil_pow2(longest(subs, subs.len())))
}

pub proof fn lemma_longest(subs: Seq<SubChannel>, n: nat, i: int)
    requires
        0 <= i < n <= subs.len(),
    ensures
        subs[i].layout.slots@.len() <= longest(subs, n),
    decreases n,
{
    if i < n - 1 {
        lemma_longest(subs, (n - 1) as nat, i);
    }
}

/// The geometry of `k` rows of channels.
pub fn combined_geometry(subs: &Vec<SubChannel>, k: usize) -> (r: CombinedGeometry)
    requires
        subs@.len() > 0,
        combined_slots(subs@, k as nat) <= usize::MAX,
    ensures
        r.of(subs@, k as nat),
{
    let mut most: usize = 1;
    let mut i: usize = 0;
    while i < subs.len()
        invariant
            i <= subs@.len(),
            most == longest(subs@, i as nat),
        decreases subs@.len() - i,
    {
        if subs[i].layout.slots.len() > most {
            most = subs[i].layout.slots.len();
        }
        i = i + 1;
    }
    let rows: usize = if k == 0 {
        1
    } else {
        k
    };
    let ghost n = ceil_pow2(subs@.len());
    let ghost s = ceil_pow2(longest(subs@, subs@.len()));
    let ghost t = ceil_pow2(rows as nat);
    proof {
        lemma_ceil(subs@.len());
        lemma_ceil(longest(subs@, subs@.len()));
        lemma_ceil(rows as nat);
        assert(n * s > 0 && n <= n * s && s <= n * s) by (nonlinear_arith)
            requires
                n > 0,
                s > 0,
        ;
        assert(t <= t * (n * s) && n * s <= t * (n * s)) by (nonlinear_arith)
            requires
                t > 0,
                n * s > 0,
        ;
        lemma_pow2_adds(ceil_log(subs@.len()), ceil_log(longest(subs@, subs@.len())));
        lemma_pow2_adds(
            ceil_log(rows as nat),
            ceil_log(subs@.len()) + ceil_log(longest(subs@, subs@.len())),
        );
        assert(is_dyadic(n * s));
        assert(is_dyadic(t * (n * s)));
    }
    let channels = next_power_of_two(subs.len());
    let slots = next_power_of_two(most);
    let blocks = next_power_of_two(rows);
    let per_tx: usize = channels.size * slots.size;
    let whole: usize = blocks.size * per_tx;
    let block_log = match exact_log(per_tx) {
        Some(l) => l,
        None => 0,
    };
    let w_log = match exact_log(whole) {
        Some(l) => l,
        None => 0,
    };
    CombinedGeometry {
        channels: channels.size,
        s_log: slots.log,
        block_log,
        blocks: blocks.size,
        w_log,
    }
}

/// The data that channel `i` of block `blk` absorbs: the row's own stream, or
/// zeros in a padding block; a padding channel absorbs nothing.
pub open spec fn stream_of(
    subs: Seq<SubChannel>,
    data: Seq<Vec<Vec<F128>>>,
    blk: int,
    i: int,
    stream: Seq<F128>,
) -> bool {
    if i >= subs.len() {
        stream.len() == 0
    } else if blk < data.len() {
        stream == data[blk]@[i]@
    } else {
        stream.len() == subs[i].layout.n_data && forall|j: int|
            0 <= j < stream.len() ==> (#[trigger] stream[j])@ == 0
    }
}

/// The data stream of one channel of one block.
pub fn combined_stream(
    subs: &Vec<SubChannel>,
    data: &Vec<Vec<Vec<F128>>>,
    blk: usize,
    i: usize,
) -> (r: Vec<F128>)
    requires
        forall|t: int| 0 <= t < data@.len() ==> (#[trigger] data@[t])@.len() == subs@.len(),
    ensures
        stream_of(subs@, data@, blk as int, i as int, r@),
{
    let mut r: Vec<F128> = Vec::new();
    if i >= subs.len() {
        return r;
    }
    if blk < data.len() {
        assert(data@[blk as int]@.len() == subs@.len());
        let stream = &data[blk][i];
        let mut j: usize = 0;
        while j < stream.len()
            invariant
                j <= stream@.len(),
                r@ == stream@.take(j as int),
            decreases stream@.len() - j,
        {
            r.push(stream[j]);
            j = j + 1;
            assert(r@ =~= stream@.take(j as int));
        }
        assert(r@ =~= stream@);
    } else {
        let n = subs[i].layout.n_data;
        let mut j: usize = 0;
        while j < n
            invariant
                j <= n,
                r@.len() == j,
                forall|l: int| 0 <= l < j ==> (#[trigger] r@[l])@ == 0,
            decreases n - j,
        {
            r.push(F128::zero());
            j = j + 1;
        }
    }
    r
}

/// The challenges of `n` channels from channel `first` on, concatenated.
pub open spec fn concat_challenges(channels: Seq<ChannelColumns>, first: int, n: nat) -> Seq<F128>
    decreases n,
{
    if n == 0 {
        seq![]
    } else {
        concat_challenges(channels, first, (n - 1) as nat) + channels[first + n
            - 1].challenges@
    }
}

/// A padding channel: no slots, no challenges, zero capacity.
pub open spec fn padding_channel(sub: SubChannel) -> bool {
    &&& sub.layout.slots@.len() == 0
    &&& sub.layout.challenges@.len() == 0
    &&& sub.layout.n_data == 0
    &&& sub.iv.a@ == 0
    &&& sub.iv.b@ == 0
}

/// The channels followed by padding channels, `n` in all.
pub open spec fn padded(all: Seq<SubChannel>, subs: Seq<SubChannel>, n: nat) -> bool {
    &&& all.len() == n
    &&& forall|i: int|
        0 <= i < subs.len() ==> (#[trigger] all[i]).iv == subs[i].iv && all[i].layout.same(
            &subs[i].layout,
        )
    &&& forall|i: int| subs.len() <= i < n ==> padding_channel(#[trigger] all[i])
}

fn pad_channels(subs: &Vec<SubChannel>, n: usize) -> (all: Vec<SubChannel>)
    requires
        subs@.len() <= n,
    ensures
        padded(all@, subs@, n as nat),
{
    let mut all: Vec<SubChannel> = Vec::new();
    let mut i: usize = 0;
    while i < n
        invariant
            i <= n,
            subs@.len() <= n,
            all@.len() == i,
            forall|j: int|
                0 <= j < subs@.len() && j < i ==> (#[trigger] all@[j]).iv == subs@[j].iv
                    && all@[j].layout.same(&subs@[j].layout),
            forall|j: int| subs@.len() <= j < i ==> padding_channel(#[trigger] all@[j]),
        decreases n - i,
    {
        if i < subs.len() {
            all.push(SubChannel { layout: subs[i].layout.copy(), iv: subs[i].iv });
        } else {
            all.push(
                SubChannel {
                    layout: DuplexLayout {
                        slots: Vec::new(),
                        challenges: Vec::new(),
                        n_data: 0,
                    },
                    iv: DigestPair { a: F128::zero(), b: F128::zero() },
                },
            );
        }
        i = i + 1;
    }
    all
}

/// A union tiles `k` rows of channels: `all` is the padded list of channels,
/// and `channels` the columns of every channel of every block.
pub open spec fn combined_union(
    u: DuplexUnion,
    all: Seq<SubChannel>,
    subs: Seq<SubChannel>,
    k: nat,
    channels: Seq<ChannelColumns>,
    basis: FlatBasis,
) -> bool {
    let n = ceil_pow2(subs.len());
    let s = ceil_pow2(longest(subs, subs.len()));
    &&& padded(all, subs, n)
    &&& pow2(u.block_log as nat) == n * s
    &&& pow2(u.w_log as nat) == combined_slots(subs, k)
    &&& rectangular(u.columns, 14, combined_slots(subs, k))
    &&& forall|t: int, slot: int|
        0 <= t < 14 && 0 <= slot < combined_slots(subs, k)
            ==> #[trigger] u.columns.tracks@[t]@[slot] == channels[slot
            / s as int].columns.tracks@[t]@[slot % s as int]
    &&& u.fixed@.len() == 7
    &&& forall|which: int, slot: int|
        0 <= which < 7 && 0 <= slot < n * s ==> (#[trigger] u.fixed@[which].table@[slot])@
            == pattern_cell(all[slot / s as int], basis, which, slot % s as int)
    &&& forall|which: int|
        0 <= which < 7 ==> (#[trigger] u.fixed@[which]).wf() && u.fixed@[which].table@.len() == n * s
            && u.fixed@[which].gate@.len() == 0
    &&& combines(&u.layout, all, s as int)
    &&& u.refs == family_refs(0, 0)
    &&& u.challenges@.len() == k
    &&& forall|blk: int|
        0 <= blk < k ==> (#[trigger] u.challenges@[blk])@ == concat_challenges(
            channels,
            blk * n,
            n,
        )
    &&& u.rec_blocks@.len() == 0
    &&& u.rec_refs@.len() == 0
    &&& u.rec_challenges@.len() == 0
}

/// The columns of every channel of every block, padding included.
pub open spec fn channels_tile(
    channels: Seq<ChannelColumns>,
    subs: Seq<SubChannel>,
    k: nat,
) -> bool {
    &&& channels.len() == ceil_pow2(
        if k == 0 {
            1
        } else {
            k
        },
    ) * ceil_pow2(subs.len())
    &&& forall|q: int|
        0 <= q < channels.len() ==> rectangular(
            (#[trigger] channels[q]).columns,
            14,
            ceil_pow2(longest(subs, subs.len())),
        )
}

/// The challenges that the first `n` unions squeeze in one row, concatenated.
pub open spec fn concat_rows(unions: Seq<DuplexUnion>, row: int, n: nat) -> Seq<F128>
    decreases n,
{
    if n == 0 {
        seq![]
    } else {
        concat_rows(unions, row, (n - 1) as nat) + unions[n - 1].challenges@[row]@
    }
}

/// Channel `i` of every row is the channel of a union of its own, and the
/// padding squeezes nothing.
pub open spec fn channels_alone(
    channels: Seq<ChannelColumns>,
    alone: Seq<Seq<ChannelColumns>>,
    k: nat,
    n: nat,
) -> bool {
    &&& forall|i: int, row: int|
        #![trigger alone[i][row]]
        0 <= i < alone.len() && 0 <= row < k ==> alone[i][row].challenges@ == channels[row * n
            + i].challenges@
    &&& forall|i: int, row: int|
        alone.len() <= i < n && 0 <= row < k ==> (#[trigger] channels[row * n
            + i]).challenges@.len() == 0
}

proof fn lemma_row_separate(
    channels: Seq<ChannelColumns>,
    alone: Seq<Seq<ChannelColumns>>,
    unions: Seq<DuplexUnion>,
    k: nat,
    n: nat,
    row: int,
    m: nat,
)
    requires
        channels_alone(channels, alone, k, n),
        alone.len() == unions.len(),
        unions.len() <= n,
        m <= n,
        0 <= row < k,
        forall|i: int|
            0 <= i < unions.len() ==> (#[trigger] unions[i]).challenges@[row]@
                == alone[i][row].challenges@,
    ensures
        concat_challenges(channels, row * n, m) == concat_rows(
            unions,
            row,
            if m < unions.len() {
                m
            } else {
                unions.len()
            },
        ),
    decreases m,
{
    if m > 0 {
        let p = (m - 1) as nat;
        lemma_row_separate(channels, alone, unions, k, n, row, p);
        if p < unions.len() {
            assert(unions[p as int].challenges@[row]@ == alone[p as int][row].challenges@);
        } else {
            assert(channels[row * n + p].challenges@.len() == 0);
            assert(concat_challenges(channels, row * n, m) =~= concat_challenges(
                channels,
                row * n,
                p,
            ));
        }
    } else {
        assert(concat_rows(unions, row, 0) =~= seq![]);
    }
}

/// What a channel is built from besides its data: its schedule and its IV.
pub struct ChannelKind {
    pub slots: Seq<DuplexSlot>,
    pub challenges: Seq<LanePosition>,
    pub n_data: nat,
    pub iv: DigestPair,
}

pub open spec fn kind_of(sub: SubChannel) -> ChannelKind {
    ChannelKind {
        slots: sub.layout.slots@,
        challenges: sub.layout.challenges@,
        n_data: sub.layout.n_data as nat,
        iv: sub.iv,
    }
}

/// The data of channel `i` in a row; a padding channel has none.
pub open spec fn row_stream(data: Seq<Seq<Seq<F128>>>, row: int, i: int) -> Seq<F128> {
    if i < data[row].len() {
        data[row][i]
    } else {
        seq![]
    }
}

/// The rows of channels as a host builds them: `squeeze` tells what a channel
/// squeezes of its data.
pub open spec fn built_rows(
    channels: Seq<ChannelColumns>,
    all: Seq<SubChannel>,
    data: Seq<Seq<Seq<F128>>>,
    squeeze: spec_fn(ChannelKind, Seq<F128>) -> Seq<F128>,
) -> bool {
    forall|row: int, i: int|
        #![trigger channels[row * all.len() + i]]
        0 <= row < data.len() && 0 <= i < all.len() ==> channels[row * all.len()
            + i].challenges@ == squeeze(kind_of(all[i]), row_stream(data, row, i))
}

/// One channel of every row, as a row of its own.
pub open spec fn column_of(data: Seq<Seq<Seq<F128>>>, i: int) -> Seq<Seq<Seq<F128>>> {
    Seq::new(data.len(), |row: int| seq![data[row][i]])
}

proof fn lemma_padding_data(subs: Seq<SubChannel>, all: Seq<SubChannel>, n: nat, m: nat)
    requires
        padded(all, subs, n),
        subs.len() <= n,
        m <= n,
    ensures
        data_offset(all, m) == data_offset(
            subs,
            if m < subs.len() {
                m
            } else {
                subs.len()
            },
        ),
    decreases m,
{
    if m > 0 {
        lemma_padding_data(subs, all, n, (m - 1) as nat);
        if m - 1 < subs.len() {
            assert(all[m - 1].layout.same(&subs[m - 1].layout));
        } else {
            assert(padding_channel(all[m - 1]));
        }
    }
}

/// Channels that share a walk squeeze what each squeezes alone. Whatever `squeeze`
/// the host's channels follow, as long as it gives one value per challenge of
/// the schedule: a row of the combined union holds, channel by channel, the row
/// of the union that the channel has to itself, and the combined schedule
/// absorbs the data of all channels. Nothing is carried from one channel into
/// the next.
pub proof fn lemma_channels_separate(
    u: DuplexUnion,
    all: Seq<SubChannel>,
    subs: Seq<SubChannel>,
    channels: Seq<ChannelColumns>,
    basis: FlatBasis,
    data: Seq<Seq<Seq<F128>>>,
    squeeze: spec_fn(ChannelKind, Seq<F128>) -> Seq<F128>,
    unions: Seq<DuplexUnion>,
    alls: Seq<Seq<SubChannel>>,
    alone: Seq<Seq<ChannelColumns>>,
)
    requires
        subs.len() > 0,
        forall|row: int| 0 <= row < data.len() ==> (#[trigger] data[row]).len() == subs.len(),
        forall|kind: ChannelKind, stream: Seq<F128>|
            (#[trigger] squeeze(kind, stream)).len() == kind.challenges.len(),
        combined_union(u, all, subs, data.len(), channels, basis),
        built_rows(channels, all, data, squeeze),
        unions.len() == subs.len(),
        alls.len() == subs.len(),
        alone.len() == subs.len(),
        forall|i: int|
            0 <= i < subs.len() ==> combined_union(
                #[trigger] unions[i],
                alls[i],
                seq![subs[i]],
                data.len(),
                alone[i],
                basis,
            ) && built_rows(alone[i], alls[i], column_of(data, i), squeeze),
    ensures
        u.challenges@.len() == data.len(),
        forall|row: int|
            0 <= row < data.len() ==> (#[trigger] u.challenges@[row])@ == concat_rows(
                unions,
                row,
                unions.len(),
            ),
        u.layout.n_data == data_offset(subs, subs.len()),
        u.rec_blocks@.len() == 0,
        u.rec_refs@.len() == 0,
        u.rec_challenges@.len() == 0,
{
    let k = data.len();
    let n = ceil_pow2(subs.len());
    lemma_ceil(subs.len());
    lemma_ceil(1);
    vstd::arithmetic::power2::lemma2_to64();
    assert(crate::dyadic::covers(0, 1));
    assert(ceil_pow2(1) == 1);
    lemma_padding_data(subs, all, n, n);
    assert(channels_alone(channels, alone, k, n)) by {
        assert forall|i: int, row: int|
            #![trigger alone[i][row]]
            0 <= i < alone.len() && 0 <= row < k implies alone[i][row].challenges@
            == channels[row * n + i].challenges@ by {
            let own = column_of(data, i);
            assert(combined_union(unions[i], alls[i], seq![subs[i]], k, alone[i], basis));
            assert(padded(alls[i], seq![subs[i]], 1));
            assert(alls[i].len() == 1);
            assert(alone[i][row * 1 + 0].challenges@ == squeeze(
                kind_of(alls[i][0]),
                row_stream(own, row, 0),
            )) by {
                assert(row * alls[i].len() + 0 == row * 1 + 0);
            }
            assert(alls[i][0].layout.same(&seq![subs[i]][0].layout));
            assert(kind_of(alls[i][0]) == kind_of(subs[i]));
            assert(all[i].layout.same(&subs[i].layout));
            assert(kind_of(all[i]) == kind_of(subs[i]));
            assert(own[row] == seq![data[row][i]]);
            assert(data[row].len() == subs.len());
        }
        assert forall|i: int, row: int| alone.len() <= i < n && 0 <= row < k implies (
        #[trigger] channels[row * n + i]).challenges@.len() == 0 by {
            assert(padding_channel(all[i]));
            assert(channels[row * n + i].challenges@ == squeeze(
                kind_of(all[i]),
                row_stream(data, row, i),
            ));
        }
    }
    assert forall|row: int| 0 <= row < k implies (#[trigger] u.challenges@[row])@ == concat_rows(
        unions,
        row,
        unions.len(),
    ) by {
        assert forall|i: int| 0 <= i < unions.len() implies (
        #[trigger] unions[i]).challenges@[row]@ == alone[i][row].challenges@ by {
            assert(seq![subs[i]].len() == 1);
            assert(unions[i].challenges@[row]@ == concat_challenges(alone[i], row * 1, 1));
            reveal_with_fuel(concat_challenges, 2);
            assert(concat_challenges(alone[i], row, 1) =~= alone[i][row].challenges@);
        }
        lemma_row_separate(channels, alone, unions, k, n, row, n);
    }
}

/// Tiles `k` rows of different channels into one walk. `channels` holds the
/// columns of every channel of every block, block by block; `all` of the
/// result is the padded list of channels.
pub fn build_combined_duplex_union(
    subs: &Vec<SubChannel>,
    k: usize,
    channels: &Vec<ChannelColumns>,
    basis: &FlatBasis,
) -> (r: (DuplexUnion, Vec<SubChannel>))
    requires
        basis.wf(),
        subs@.len() > 0,
        forall|i: int| 0 <= i < subs@.len() ==> (#[trigger] subs@[i]).layout.wf(),
        data_offset(subs@, subs@.len()) <= usize::MAX,
        combined_slots(subs@, k as nat) <= usize::MAX,
        channels_tile(channels@, subs@, k as nat),
    ensures
        combined_union(r.0, r.1@, subs@, k as nat, channels@, *basis),
{
    let geometry = combined_geometry(subs, k);
    let ghost n = ceil_pow2(subs@.len());
    let ghost s_spec = ceil_pow2(longest(subs@, subs@.len()));
    let ghost rows = if k == 0 {
        1nat
    } else {
        k as nat
    };
    let ghost blocks = ceil_pow2(rows);
    proof {
        lemma_ceil(subs@.len());
        lemma_ceil(longest(subs@, subs@.len()));
        lemma_ceil(rows);
        assert(n * s_spec > 0 && s_spec <= n * s_spec) by (nonlinear_arith)
            requires
                n > 0,
                s_spec > 0,
        ;
        assert(n * s_spec <= blocks * (n * s_spec)) by (nonlinear_arith)
            requires
                blocks > 0,
                n * s_spec > 0,
        ;
        assert(blocks * (n * s_spec) == (blocks * n) * s_spec) by (nonlinear_arith);
        assert(is_dyadic(n * s_spec));
    }
    let s = power_of_two(geometry.s_log);
    let p: usize = geometry.blocks * (geometry.channels * s);
    let columns = tile_columns(channels, s, p);
    let all = pad_channels(subs, geometry.channels);
    proof {
        assert forall|i: int| 0 <= i < all@.len() implies (#[trigger] all@[i]).layout.wf()
            && all@[i].layout.slots@.len() <= s by {
            if i < subs@.len() {
                lemma_longest(subs@, subs@.len(), i);
                assert(all@[i].layout.same(&subs@[i].layout));
                let layout = all@[i].layout;
                assert forall|x: int| 0 <= x < layout.slots@.len() implies crate::duplex::lane_below(
                    (#[trigger] layout.slots@[x]).lane0,
                    layout.n_data as int,
                ) && crate::duplex::lane_below(layout.slots@[x].lane1, layout.n_data as int) by {
                    assert(subs@[i].layout.slots@[x] == layout.slots@[x]);
                }
                assert forall|c: int| 0 <= c < layout.challenges@.len() implies (
                #[trigger] layout.challenges@[c]).slot < layout.slots@.len() by {
                    assert(subs@[i].layout.challenges@[c] == layout.challenges@[c]);
                }
            } else {
                assert(padding_channel(all@[i]));
            }
        }
        lemma_padded_data(all@, subs@, all@.len());
    }
    let fixed = combined_duplex_fixed_patterns(&all, geometry.s_log, basis);
    let layout = combined_duplex_layout(&all, geometry.s_log);
    let mut challenges: Vec<Vec<F128>> = Vec::new();
    let mut blk: usize = 0;
    while blk < k
        invariant
            blk <= k,
            n == geometry.channels,
            k <= blocks,
            channels@.len() == blocks * n,
            challenges@.len() == blk,
            forall|b: int|
                0 <= b < blk ==> (#[trigger] challenges@[b])@ == concat_challenges(
                    channels@,
                    b * n,
                    n,
                ),
        decreases k - blk,
    {
        proof {
            assert((blk + 1) * n <= blocks * n) by (nonlinear_arith)
                requires
                    blk + 1 <= blocks,
                    n >= 0,
            ;
            assert((blk + 1) * n == blk * n + n) by (nonlinear_arith);
        }
        let total_channels = channels.len();
        let first: usize = blk * geometry.channels;
        let mut row: Vec<F128> = Vec::new();
        let mut i: usize = 0;
        assert(row@ =~= concat_challenges(channels@, first as int, 0));
        while i < geometry.channels
            invariant
                i <= geometry.channels,
                total_channels == channels@.len(),
                first + geometry.channels <= channels@.len(),
                row@ == concat_challenges(channels@, first as int, i as nat),
            decreases geometry.channels - i,
        {
            let more = &channels[first + i].challenges;
            let ghost before = row@;
            let mut c: usize = 0;
            while c < more.len()
                invariant
                    c <= more@.len(),
                    row@ == before + more@.take(c as int),
                decreases more@.len() - c,
            {
                row.push(more[c]);
                c = c + 1;
                assert(row@ =~= before + more@.take(c as int));
            }
            assert(more@.take(more@.len() as int) =~= more@);
            i = i + 1;
            assert(row@ =~= concat_challenges(channels@, first as int, i as nat));
        }
        challenges.push(row);
        blk = blk + 1;
    }
    let u = DuplexUnion {
        columns,
        fixed,
        refs: duplex_family_refs(0, 0),
        layout,
        w_log: geometry.w_log,
        block_log: geometry.block_log,
        challenges,
        rec_blocks: Vec::new(),
        rec_refs: Vec::new(),
        rec_challenges: Vec::new(),
    };
    (u, all)
}

/// Padding adds no data lanes.
proof fn lemma_padded_data(all: Seq<SubChannel>, subs: Seq<SubChannel>, n: nat)
    requires
        padded(all, subs, all.len()),
        n <= all.len(),
        subs.len() <= all.len(),
    ensures
        data_offset(all, n) == data_offset(
            subs,
            if n <= subs.len() {
                n
            } else {
                subs.len()
            },
        ),
    decreases n,
{
    if n > 0 {
        lemma_padded_data(all, subs, (n - 1) as nat);
        if n <= subs.len() {
            assert(all[n - 1].layout.same(&subs[n - 1].layout));
        } else {
            assert(padding_channel(all[n - 1]));
        }
    }
}

/// The block that is packed last.
pub open spec fn packed_last(sizes: Seq<nat>, i: int) -> bool {
    &&& 0 <= i < sizes.len()
    &&& forall|j: int| 0 <= j < sizes.len() && j != i ==> #[trigger] packed_before(sizes, j, i)
}

proof fn lemma_last_end(sizes: Seq<nat>, i: int, n: nat)
    requires
        packed_last(sizes, i),
        n <= sizes.len(),
    ensures
        packed_offset(sizes, i, n) + (if i < n {
            sizes[i]
        } else {
            0
        }) == total(sizes, n),
    decreases n,
{
    if n > 0 {
        lemma_last_end(sizes, i, (n - 1) as nat);
        if n - 1 != i {
            assert(packed_before(sizes, n - 1, i));
        }
    }
}

fn find_last(packing: &RecordingPacking, Ghost(sizes): Ghost<Seq<nat>>) -> (r: usize)
    requires
        packing.packs(sizes),
        sizes.len() > 0,
    ensures
        packed_last(sizes, r as int),
{
    let mut last: usize = 0;
    let mut i: usize = 1;
    while i < packing.sizes.len()
        invariant
            1 <= i <= packing.sizes@.len(),
            packing.packs(sizes),
            last < i,
            forall|j: int| 0 <= j < i && j != last ==> #[trigger] packed_before(sizes, j, last as int),
        decreases packing.sizes@.len() - i,
    {
        assert(packing.sizes@[i as int] == sizes[i as int]);
        assert(packing.sizes@[last as int] == sizes[last as int]);
        let ghost old_last = last as int;
        if packing.sizes[i] <= packing.sizes[last] {
            assert(packed_before(sizes, old_last, i as int));
            last = i;
            proof {
                assert forall|j: int| 0 <= j < i + 1 && j != last implies #[trigger] packed_before(
                    sizes,
                    j,
                    last as int,
                ) by {
                    if j != old_last {
                        assert(packed_before(sizes, j, old_last));
                    }
                }
            }
        } else {
            assert(packed_before(sizes, i as int, old_last));
        }
        i = i + 1;
    }
    last
}

/// Where the tail of a recordings-only walk starts: the state that leaves the
/// last packed block, and the number of slots to fill with its permutation
/// chain.
pub struct TailStart {
    pub carry: Vec<F128>,
    pub slots: usize,
}

/// The tail that follows packed recordings.
pub fn recording_tail(lengths: &Vec<usize>, channels: &Vec<ChannelColumns>) -> (r: TailStart)
    requires
        lengths@.len() > 0,
        channels@.len() == lengths@.len(),
        ceil_pow2(total(block_sizes(lengths@), lengths@.len())) <= usize::MAX,
        forall|i: int|
            0 <= i < channels@.len() ==> rectangular(
                (#[trigger] channels@[i]).columns,
                14,
                block_sizes(lengths@)[i],
            ),
    ensures
        r.slots == ceil_pow2(total(block_sizes(lengths@), lengths@.len())) - total(
            block_sizes(lengths@),
            lengths@.len(),
        ),
        r.carry@.len() == 4,
        forall|last: int, lane: int|
            packed_last(block_sizes(lengths@), last) && 0 <= lane < 4 ==> r.carry@[lane]
                == #[trigger] channels@[last].columns.tracks@[2 + lane]@[block_sizes(lengths@)[last]
                - 1],
{
    let packing = pack_recording_only_blocks(lengths);
    let ghost sizes = block_sizes(lengths@);
    let last = find_last(&packing, Ghost(sizes));
    proof {
        lemma_ceil(total(sizes, sizes.len()));
        lemma_ceil(
            if lengths@[last as int] == 0 {
                1
            } else {
                lengths@[last as int] as nat
            },
        );
        assert(packing.sizes@[last as int] == sizes[last as int]);
        assert(rectangular(channels@[last as int].columns, 14, sizes[last as int]));
        assert forall|other: int| packed_last(sizes, other) implies other == last by {
            if other != last {
                assert(packed_before(sizes, last as int, other));
                assert(packed_before(sizes, other, last as int));
            }
        }
    }
    let size = packing.sizes[last];
    let mut carry: Vec<F128> = Vec::new();
    let mut lane: usize = 0;
    while lane < 4
        invariant
            lane <= 4,
            last < channels@.len(),
            size > 0,
            rectangular(channels@[last as int].columns, 14, size as nat),
            carry@.len() == lane,
            forall|l: int|
                0 <= l < lane ==> #[trigger] carry@[l] == channels@[last as int].columns.tracks@[2
                    + l]@[size - 1],
        decreases 4 - lane,
    {
        assert(channels@[last as int].columns.tracks@[2 + lane]@.len() == size);
        carry.push(channels[last].columns.tracks[2 + lane][size - 1]);
        lane = lane + 1;
    }
    let p = power_of_two(packing.w_log);
    TailStart { carry, slots: p - packing.used }
}

/// One recorded transcript: its schedule and its capacity lanes.
pub struct RecordingSpec {
    pub layout: DuplexLayout,
    pub iv: DigestPair,
}

pub open spec fn recording_lengths(recordings: Seq<RecordingSpec>) -> Seq<usize> {
    Seq::new(recordings.len(), |i: int| recordings[i].layout.slots@.len() as usize)
}

/// The runs of a recordings-only walk: every recording at its packed offset,
/// then the tail.
pub open spec fn recording_pieces(sizes: Seq<nat>) -> Seq<Piece> {
    Seq::new(
        sizes.len(),
        |i: int|
            Piece {
                base: packed_offset(sizes, i, sizes.len()) as usize,
                from: 0,
                slots: sizes[i] as usize,
                source: i as usize,
            },
    )
}

/// The pattern of recording `i` that `which` names, at `slot` of the walk: its
/// own pattern inside its block, zero outside.
pub open spec fn recording_pattern(
    recordings: Seq<RecordingSpec>,
    basis: FlatBasis,
    i: int,
    which: int,
    slot: int,
) -> u128 {
    let sizes = block_sizes(recording_lengths(recordings));
    let offset = packed_offset(sizes, i, sizes.len()) as int;
    if offset <= slot < offset + sizes[i] {
        pattern_cell(
            SubChannel { layout: recordings[i].layout, iv: recordings[i].iv },
            basis,
            which,
            slot - offset,
        )
    } else {
        0
    }
}

pub(crate) fn gate_recording(
    rec: &RecordingSpec,
    basis: &FlatBasis,
    offset: usize,
    size: usize,
    w_log: usize,
    fixed: &mut Vec<FixedPattern>,
)
    requires
        basis.wf(),
        rec.layout.slots@.len() <= size,
        is_dyadic(size as nat),
        offset as int % size as int == 0,
        offset + size <= pow2(w_log as nat),
        pow2(w_log as nat) <= usize::MAX,
    ensures
        final(fixed)@.len() == old(fixed)@.len() + 7,
        forall|k: int| 0 <= k < old(fixed)@.len() ==> final(fixed)@[k] == #[trigger] old(fixed)@[k],
        forall|which: int, slot: int|
            0 <= which < 7 && 0 <= slot < pow2(w_log as nat) ==> (#[trigger] final(
                fixed)@[old(fixed)@.len() + which].cell(slot))@ == if offset <= slot < offset + size {
                pattern_cell(
                    SubChannel { layout: rec.layout, iv: rec.iv },
                    *basis,
                    which,
                    slot - offset,
                )
            } else {
                0
            },
{
    let s_log = match exact_log(size) {
        Some(l) => l,
        None => 0,
    };
    let mut one: Vec<SubChannel> = Vec::new();
    let layout = rec.layout.copy();
    one.push(SubChannel { layout, iv: rec.iv });
    proof {
        lemma_pow2_pos(s_log as nat);
        assert(1 * pow2(s_log as nat) == pow2(s_log as nat));
        assert(is_dyadic(pow2(s_log as nat)));
    }
    let mut patterns = combined_duplex_fixed_patterns(&one, s_log, basis);
    let ghost all = patterns@;
    let ghost before = fixed@;
    let ghost sub = SubChannel { layout: rec.layout, iv: rec.iv };
    let mut which: usize = 7;
    let mut gated: Vec<FixedPattern> = Vec::new();
    while which > 0
        invariant
            which <= 7,
            size == pow2(s_log as nat),
            is_dyadic(size as nat),
            offset as int % size as int == 0,
            offset + size <= pow2(w_log as nat),
            pow2(w_log as nat) <= usize::MAX,
            all.len() == 7,
            patterns@ == all.take(which as int),
            one@.len() == 1,
            one@[0].layout.same(&rec.layout),
            one@[0].iv == rec.iv,
            sub == (SubChannel { layout: rec.layout, iv: rec.iv }),
            forall|k: int|
                0 <= k < 7 ==> (#[trigger] all[k]).wf() && all[k].table@.len() == size
                    && all[k].gate@.len() == 0,
            forall|k: int, slot: int|
                0 <= k < 7 && 0 <= slot < size ==> (#[trigger] all[k].table@[slot])@
                    == pattern_cell(one@[slot / size as int], *basis, k, slot % size as int),
            gated@.len() == 7 - which,
            forall|k: int, slot: int|
                which <= k < 7 && 0 <= slot < pow2(w_log as nat) ==> (#[trigger] gated@[6 - k].cell(
                    slot,
                ))@ == if offset <= slot < offset + size {
                    pattern_cell(sub, *basis, k, slot - offset)
                } else {
                    0
                },
        decreases which,
    {
        let ghost gated0 = gated@;
        let popped = patterns.pop();
        which = which - 1;
        match popped {
            Some(pattern) => {
                proof {
                    assert(pattern == all[which as int]);
                    crate::dyadic::lemma_pow2_injective(pattern.low_log as nat, s_log as nat);
                    assert(patterns@ =~= all.take(which as int));
                }
                let g = pattern_in_dyadic_region(pattern, offset, size, w_log);
                gated.push(g);
                proof {
                    assert forall|k: int, slot: int|
                        which <= k < 7 && 0 <= slot < pow2(w_log as nat) implies (
                    #[trigger] gated@[6 - k].cell(slot))@ == if offset <= slot < offset + size {
                        pattern_cell(sub, *basis, k, slot - offset)
                    } else {
                        0
                    } by {
                        if k > which {
                            assert(gated@[6 - k] == gated0[6 - k]);
                        } else {
                            assert(gated@[6 - k] == g);
                            if offset <= slot < offset + size {
                                vstd::arithmetic::div_mod::lemma_fundamental_div_mod(
                                    offset as int,
                                    size as int,
                                );
                                let q = offset as int / size as int;
                                assert(slot == q * size + (slot - offset)) by (nonlinear_arith)
                                    requires
                                        offset == size * q + 0,
                                ;
                                vstd::arithmetic::div_mod::lemma_fundamental_div_mod_converse(
                                    slot,
                                    size as int,
                                    q,
                                    slot - offset,
                                );
                                let o = slot - offset;
                                vstd::arithmetic::div_mod::lemma_small_mod(
                                    o as nat,
                                    size as nat,
                                );
                                vstd::arithmetic::div_mod::lemma_basic_div(o, size as int);
                                assert(all[which as int].table@[o]@ == pattern_cell(
                                    one@[0],
                                    *basis,
                                    which as int,
                                    o,
                                ));
                                assert(pattern_cell(one@[0], *basis, which as int, o)
                                    == pattern_cell(sub, *basis, which as int, o));
                            }
                        }
                    }
                }
            },
            None => {
                assert(all.take(which + 1).len() == which + 1);
            },
        }
    }
    let mut k: usize = 7;
    let ghost list = gated@;
    while k > 0
        invariant
            k <= 7,
            list.len() == 7,
            gated@ == list.take(k as int),
            fixed@.len() == before.len() + 7 - k,
            forall|j: int| 0 <= j < before.len() ==> fixed@[j] == #[trigger] before[j],
            forall|j: int| k <= j < 7 ==> fixed@[before.len() + 6 - j] == #[trigger] list[j],
        decreases k,
    {
        let ghost fixed0 = fixed@;
        let popped = gated.pop();
        k = k - 1;
        match popped {
            Some(g) => {
                fixed.push(g);
                proof {
                    assert(gated@ =~= list.take(k as int));
                    assert(g == list[k as int]);
                    assert forall|j: int| k <= j < 7 implies fixed@[before.len() + 6 - j]
                        == #[trigger] list[j] by {
                        if j > k {
                            assert(fixed0[before.len() + 6 - j] == list[j]);
                        }
                    }
                }
            },
            None => {
                assert(list.take(k + 1).len() == k + 1);
            },
        }
    }
    proof {
        assert forall|which: int, slot: int|
            0 <= which < 7 && 0 <= slot < pow2(w_log as nat) implies (
        #[trigger] fixed@[before.len() + which].cell(slot))@ == if offset <= slot < offset + size {
            pattern_cell(sub, *basis, which, slot - offset)
        } else {
            0
        } by {
            assert(fixed@[before.len() + 6 - (6 - which)] == list[6 - which]);
            assert(list[6 - which].cell(slot)@ == if offset <= slot < offset + size {
                pattern_cell(sub, *basis, which, slot - offset)
            } else {
                0
            });
        }
    }
}

/// Packs recorded transcripts into one walk. `channels` holds the columns of
/// every recording, `tail` the permutation chain that leaves the last block.
/// The first recording is the primary family of the union.
pub fn build_recording_only_duplex_union(
    recordings: &Vec<RecordingSpec>,
    channels: Vec<ChannelColumns>,
    tail: WalkColumns,
    basis: &FlatBasis,
) -> (u: DuplexUnion)
    requires
        basis.wf(),
        recordings@.len() > 0,
        7 * recordings@.len() <= usize::MAX,
        channels@.len() == recordings@.len(),
        ceil_pow2(
            total(block_sizes(recording_lengths(recordings@)), recordings@.len()),
        ) <= usize::MAX,
        forall|i: int|
            0 <= i < channels@.len() ==> rectangular(
                (#[trigger] channels@[i]).columns,
                14,
                block_sizes(recording_lengths(recordings@))[i],
            ),
        tail.tracks@.len() == 14,
        forall|t: int|
            0 <= t < 14 ==> (#[trigger] tail.tracks@[t])@.len() == if t < 2 {
                0
            } else {
                ceil_pow2(total(block_sizes(recording_lengths(recordings@)), recordings@.len()))
                    - total(block_sizes(recording_lengths(recordings@)), recordings@.len())
            },
    ensures
        ({
            let sizes = block_sizes(recording_lengths(recordings@));
            let used = total(sizes, sizes.len());
            let p = ceil_pow2(used);
            &&& u.w_log == ceil_log(used)
            &&& rectangular(u.columns, 14, p)
            &&& forall|i: int, t: int, o: int|
                0 <= i < recordings@.len() && 0 <= t < 14 && 0 <= o < sizes[i] ==> u.columns.tracks@[t]@[packed_offset(
                    sizes,
                    i,
                    sizes.len(),
                ) + o] == #[trigger] channels@[i].columns.tracks@[t]@[o]
            &&& forall|t: int, slot: int|
                0 <= t < 14 && used <= slot < p ==> #[trigger] u.columns.tracks@[t]@[slot] == if t
                    < 2 {
                    F128 { bits: 0 }
                } else {
                    tail.tracks@[t]@[slot - used]
                }
            &&& u.fixed@.len() == 7 * recordings@.len()
            &&& forall|i: int, which: int, slot: int|
                0 <= i < recordings@.len() && 0 <= which < 7 && 0 <= slot < p ==> (
                #[trigger] u.fixed@[7 * i + which].cell(slot))@ == recording_pattern(
                    recordings@,
                    *basis,
                    i,
                    which,
                    slot,
                )
            &&& u.refs == family_refs(0, 0)
            &&& u.layout.same(&recordings@[0].layout)
            &&& pow2(u.block_log as nat) == sizes[0]
            &&& u.challenges@.len() == 1
            &&& u.challenges@[0]@ == channels@[0].challenges@
            &&& u.rec_blocks@.len() == recordings@.len()
            &&& u.rec_challenges@.len() == recordings@.len()
            &&& u.rec_refs@.len() == recordings@.len() - 1
            &&& forall|i: int|
                0 <= i < recordings@.len() ==> (#[trigger] u.rec_blocks@[i]).layout.same(
                    &recordings@[i].layout,
                ) && u.rec_blocks@[i].offset == packed_offset(sizes, i, sizes.len())
            &&& forall|i: int|
                0 <= i < recordings@.len() ==> (#[trigger] u.rec_challenges@[i])@
                    == channels@[i].challenges@
            &&& forall|i: int|
                0 < i < recordings@.len() ==> #[trigger] u.rec_refs@[i - 1] == family_refs(
                    0,
                    7 * i,
                )
        }),
{
    let mut lengths: Vec<usize> = Vec::new();
    let n = recordings.len();
    let mut i: usize = 0;
    while i < n
        invariant
            i <= n,
            n == recordings@.len(),
            lengths@.len() == i,
            forall|k: int| 0 <= k < i ==> #[trigger] lengths@[k] == recording_lengths(recordings@)[k],
        decreases n - i,
    {
        lengths.push(recordings[i].layout.slots.len());
        i = i + 1;
    }
    assert(lengths@ =~= recording_lengths(recordings@));
    let ghost sizes = block_sizes(lengths@);
    let ghost used = total(sizes, sizes.len());
    let ghost p_spec = ceil_pow2(used);
    let packing = pack_recording_only_blocks(&lengths);
    proof {
        lemma_ceil(used);
    }
    let p = power_of_two(packing.w_log);
    let mut fixed: Vec<FixedPattern> = Vec::new();
    let mut rec_blocks: Vec<RecordingBlock> = Vec::new();
    let mut rec_refs: Vec<DuplexFamilyRefs> = Vec::new();
    let mut pieces: Vec<Piece> = Vec::new();
    let mut i: usize = 0;
    while i < n
        invariant
            i <= n,
            n == recordings@.len(),
            7 * n <= usize::MAX,
            basis.wf(),
            lengths@ == recording_lengths(recordings@),
            sizes == block_sizes(lengths@),
            used == total(sizes, sizes.len()),
            used <= p,
            p == pow2(packing.w_log as nat),
            packing.packs(sizes),
            fixed@.len() == 7 * i,
            rec_blocks@.len() == i,
            rec_refs@.len() == if i == 0 {
                0
            } else {
                i - 1
            },
            pieces@.len() == i,
            forall|k: int|
                0 <= k < i ==> #[trigger] pieces@[k] == recording_pieces(sizes)[k] && pieces@[k].base
                    == packed_offset(sizes, k, sizes.len()) && pieces@[k].slots == sizes[k],
            forall|k: int, which: int, slot: int|
                0 <= k < i && 0 <= which < 7 && 0 <= slot < p ==> (#[trigger] fixed@[7 * k
                    + which].cell(slot))@ == recording_pattern(
                    recordings@,
                    *basis,
                    k,
                    which,
                    slot,
                ),
            forall|k: int|
                0 <= k < i ==> (#[trigger] rec_blocks@[k]).layout.same(&recordings@[k].layout)
                    && rec_blocks@[k].offset == packed_offset(sizes, k, sizes.len()),
            forall|k: int| 0 < k < i ==> #[trigger] rec_refs@[k - 1] == family_refs(0, 7 * k),
        decreases n - i,
    {
        let ghost fixed0 = fixed@;
        let slots = recordings[i].layout.slots.len();
        proof {
            assert(slots == lengths@[i as int]);
            assert(packing.sizes@[i as int] == sizes[i as int]);
            lemma_ceil(
                if lengths@[i as int] == 0 {
                    1
                } else {
                    lengths@[i as int] as nat
                },
            );
            lemma_packing_aligned(lengths@, i as int, lengths@.len());
            lemma_packing_within(lengths@, i as int);
            assert(recordings@[i as int].layout.slots@.len() == lengths@[i as int]);
        }
        gate_recording(
            &recordings[i],
            basis,
            packing.offsets[i],
            packing.sizes[i],
            packing.w_log,
            &mut fixed,
        );
        proof {
            assert forall|k: int, which: int, slot: int|
                0 <= k < i + 1 && 0 <= which < 7 && 0 <= slot < p implies (#[trigger] fixed@[7 * k
                + which].cell(slot))@ == recording_pattern(recordings@, *basis, k, which, slot) by {
                if k < i {
                    assert(fixed@[7 * k + which] == fixed0[7 * k + which]);
                    assert(fixed0[7 * k + which].cell(slot)@ == recording_pattern(
                        recordings@,
                        *basis,
                        k,
                        which,
                        slot,
                    ));
                } else {
                    assert(fixed@[fixed0.len() + which].cell(slot)@ == recording_pattern(
                        recordings@,
                        *basis,
                        k,
                        which,
                        slot,
                    ));
                }
            }
        }
        if i > 0 {
            rec_refs.push(duplex_family_refs(0, 7 * i));
        }
        rec_blocks.push(
            RecordingBlock { layout: recordings[i].layout.copy(), offset: packing.offsets[i] },
        );
        pieces.push(
            Piece { base: packing.offsets[i], from: 0, slots: packing.sizes[i], source: i },
        );
        i = i + 1;
    }
    let block_log = match exact_log(packing.sizes[0]) {
        Some(l) => l,
        None => 0,
    };
    proof {
        assert(packing.sizes@[0] == sizes[0]);
        lemma_ceil(
            if lengths@[0] == 0 {
                1
            } else {
                lengths@[0] as nat
            },
        );
    }
    let columns = lay_recordings(&channels, &pieces, &tail, p, packing.used, Ghost(lengths@));
    let mut rec_challenges: Vec<Vec<F128>> = Vec::new();
    let mut i: usize = 0;
    while i < n
        invariant
            i <= n,
            n == channels@.len(),
            rec_challenges@.len() == i,
            forall|k: int|
                0 <= k < i ==> (#[trigger] rec_challenges@[k])@ == channels@[k].challenges@,
        decreases n - i,
    {
        rec_challenges.push(copy_stream(&channels[i].challenges));
        i = i + 1;
    }
    let mut challenges: Vec<Vec<F128>> = Vec::new();
    challenges.push(copy_stream(&channels[0].challenges));
    DuplexUnion {
        columns,
        fixed,
        refs: duplex_family_refs(0, 0),
        layout: recordings[0].layout.copy(),
        w_log: packing.w_log,
        block_log,
        challenges,
        rec_blocks,
        rec_refs,
        rec_challenges,
    }
}

pub(crate) fn copy_stream(s: &Vec<F128>) -> (r: Vec<F128>)
    ensures
        r@ == s@,
{
    let mut r: Vec<F128> = Vec::new();
    let mut i: usize = 0;
    while i < s.len()
        invariant
            i <= s@.len(),
            r@ == s@.take(i as int),
        decreases s@.len() - i,
    {
        r.push(s[i]);
        i = i + 1;
        assert(r@ =~= s@.take(i as int));
    }
    assert(r@ =~= s@);
    r
}

/// A packed block ends inside the used prefix.
pub proof fn lemma_packing_within(lengths: Seq<usize>, i: int)
    requires
        0 <= i < lengths.len(),
    ensures
        packed_offset(block_sizes(lengths), i, lengths.len()) + block_sizes(lengths)[i] <= total(
            block_sizes(lengths),
            lengths.len(),
        ),
{
    crate::duplex::lemma_packed_within(block_sizes(lengths), i, lengths.len());
}

pub(crate) fn lay_recordings(
    channels: &Vec<ChannelColumns>,
    pieces: &Vec<Piece>,
    tail: &WalkColumns,
    p: usize,
    used: usize,
    Ghost(lengths): Ghost<Seq<usize>>,
) -> (r: WalkColumns)
    requires
        channels@.len() == lengths.len(),
        pieces@.len() == lengths.len(),
        used == total(block_sizes(lengths), lengths.len()),
        used <= p,
        forall|i: int|
            0 <= i < lengths.len() ==> #[trigger] pieces@[i] == recording_pieces(
                block_sizes(lengths),
            )[i] && pieces@[i].base == packed_offset(block_sizes(lengths), i, lengths.len())
                && pieces@[i].slots == block_sizes(lengths)[i],
        forall|i: int|
            0 <= i < channels@.len() ==> rectangular(
                (#[trigger] channels@[i]).columns,
                14,
                block_sizes(lengths)[i],
            ),
        tail.tracks@.len() == 14,
        forall|t: int|
            0 <= t < 14 ==> (#[trigger] tail.tracks@[t])@.len() == if t < 2 {
                0
            } else {
                p - used
            },
    ensures
        rectangular(r, 14, p as nat),
        forall|i: int, t: int, o: int|
            0 <= i < lengths.len() && 0 <= t < 14 && 0 <= o < block_sizes(lengths)[i]
                ==> r.tracks@[t]@[packed_offset(block_sizes(lengths), i, lengths.len()) + o]
                == #[trigger] channels@[i].columns.tracks@[t]@[o],
        forall|t: int, slot: int|
            0 <= t < 14 && used <= slot < p ==> #[trigger] r.tracks@[t]@[slot] == if t < 2 {
                F128 { bits: 0 }
            } else {
                tail.tracks@[t]@[slot - used]
            },
{
    let ghost sizes = block_sizes(lengths);
    let n = channels.len();
    let mut tracks: Vec<Vec<F128>> = Vec::new();
    let mut t: usize = 0;
    while t < 14
        invariant
            t <= 14,
            n == channels@.len(),
            sizes == block_sizes(lengths),
            channels@.len() == lengths.len(),
            pieces@.len() == lengths.len(),
            used == total(sizes, lengths.len()),
            used <= p,
            forall|i: int|
                0 <= i < lengths.len() ==> #[trigger] pieces@[i] == recording_pieces(sizes)[i]
                    && pieces@[i].base == packed_offset(sizes, i, lengths.len())
                    && pieces@[i].slots == sizes[i],
            forall|i: int|
                0 <= i < channels@.len() ==> rectangular(
                    (#[trigger] channels@[i]).columns,
                    14,
                    sizes[i],
                ),
            tail.tracks@.len() == 14,
            forall|u: int|
                0 <= u < 14 ==> (#[trigger] tail.tracks@[u])@.len() == if u < 2 {
                    0
                } else {
                    p - used
                },
            tracks@.len() == t,
            forall|u: int| 0 <= u < t ==> (#[trigger] tracks@[u])@.len() == p,
            forall|i: int, u: int, o: int|
                0 <= i < lengths.len() && 0 <= u < t && 0 <= o < sizes[i]
                    ==> tracks@[u]@[packed_offset(sizes, i, lengths.len()) + o]
                    == #[trigger] channels@[i].columns.tracks@[u]@[o],
            forall|u: int, slot: int|
                0 <= u < t && used <= slot < p ==> #[trigger] tracks@[u]@[slot] == if u < 2 {
                    F128 { bits: 0 }
                } else {
                    tail.tracks@[u]@[slot - used]
                },
        decreases 14 - t,
    {
        let mut column: Vec<F128> = Vec::with_capacity(p);
        let mut slot: usize = 0;
        while slot < p
            invariant
                t < 14,
                slot <= p,
                used <= p,
                tail.tracks@.len() == 14,
                tail.tracks@[t as int]@.len() == if t < 2 {
                    0
                } else {
                    p - used
                },
                column@.len() == slot,
                forall|s: int|
                    used <= s < slot ==> #[trigger] column@[s] == if t < 2 {
                        F128 { bits: 0 }
                    } else {
                        tail.tracks@[t as int]@[s - used]
                    },
            decreases p - slot,
        {
            if slot >= used && t >= 2 {
                column.push(tail.tracks[t][slot - used]);
            } else {
                column.push(F128::zero());
            }
            slot = slot + 1;
        }
        let ghost filled = column@;
        let mut i: usize = 0;
        while i < n
            invariant
                t < 14,
                i <= n,
                n == channels@.len(),
                sizes == block_sizes(lengths),
                channels@.len() == lengths.len(),
                pieces@.len() == lengths.len(),
                used == total(sizes, lengths.len()),
                used <= p,
                forall|k: int|
                    0 <= k < lengths.len() ==> #[trigger] pieces@[k] == recording_pieces(sizes)[k]
                        && pieces@[k].base == packed_offset(sizes, k, lengths.len())
                        && pieces@[k].slots == sizes[k],
                forall|k: int|
                    0 <= k < channels@.len() ==> rectangular(
                        (#[trigger] channels@[k]).columns,
                        14,
                        sizes[k],
                    ),
                column@.len() == p,
                filled.len() == p,
                forall|s: int| used <= s < p ==> #[trigger] column@[s] == filled[s],
                forall|k: int, o: int|
                    0 <= k < i && 0 <= o < sizes[k] ==> column@[packed_offset(
                        sizes,
                        k,
                        lengths.len(),
                    ) + o] == #[trigger] channels@[k].columns.tracks@[t as int]@[o],
            decreases n - i,
        {
            let ghost column0 = column@;
            proof {
                lemma_packing_within(lengths, i as int);
                assert(rectangular(channels@[i as int].columns, 14, sizes[i as int]));
                assert(channels@[i as int].columns.tracks@[t as int]@.len() == sizes[i as int]);
                assert(pieces@[i as int] == recording_pieces(sizes)[i as int]);
                assert(pieces@[i as int].from == 0);
            }
            crate::walk_planes::copy_run(&mut column, &channels[i].columns.tracks[t], pieces[i]);
            proof {
                assert forall|k: int, o: int| 0 <= k < i + 1 && 0 <= o < sizes[k] implies column@[packed_offset(
                    sizes,
                    k,
                    lengths.len(),
                ) + o] == #[trigger] channels@[k].columns.tracks@[t as int]@[o] by {
                    lemma_packing_within(lengths, k);
                    if k < i {
                        lemma_packing_disjoint(lengths, i as int, k);
                        assert(column0[packed_offset(sizes, k, lengths.len()) + o]
                            == channels@[k].columns.tracks@[t as int]@[o]);
                    }
                }
            }
            i = i + 1;
        }
        let ghost tracks0 = tracks@;
        tracks.push(column);
        proof {
            assert forall|k: int, u: int, o: int|
                0 <= k < lengths.len() && 0 <= u < t + 1 && 0 <= o < sizes[k] implies tracks@[u]@[packed_offset(
                sizes,
                k,
                lengths.len(),
            ) + o] == #[trigger] channels@[k].columns.tracks@[u]@[o] by {
                if u < t {
                    assert(tracks@[u] == tracks0[u]);
                }
            }
        }
        t = t + 1;
    }
    WalkColumns { tracks }
}

} // verus!
