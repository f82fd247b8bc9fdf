//! The recordings walk of a history step: which of its cells carry a
//! transcript, their deferred rows, and the binding of each such cell to the
//! transcript of the selected parent.
use crate::circuit::{
    agree, group_agree, DeferredConstraintSlot, FieldR1csBuilder, LinExpr, LinForm,
};
use crate::columns::WitnessSlice;
use crate::duplex::{duplex_data_positions, position_of, DuplexLayout};
use crate::dyadic::power_of_two;
use crate::field::{fmul, lemma_fmul_unit, lemma_xor, F128};
use crate::parent_geometry::RegionSidecarError;
use crate::region_layout::{align_up, lemma_align};
use crate::circuit::{const_form, form_add, forms, wire_form, Shape};
use crate::columns::{align_step, free_step};
use crate::trace::mul_step;
use vstd::arithmetic::power2::{lemma_pow2_pos, pow2};
use vstd::prelude::*;

verus! {

/// A cell of the recordings walk: columns zero and one carry data, two to five
/// the state.
#[derive(Clone, Copy, Debug, PartialEq, Eq, Structural)]
pub struct RecordingCell {
    pub column: usize,
    pub offset: usize,
}

/// The cell of challenge `k` of a recording at `base`.
pub open spec fn challenge_cell(layout: &DuplexLayout, base: int, k: int) -> RecordingCell {
    RecordingCell {
        column: (2 + layout.challenges@[k].lane) as usize,
        offset: (base + layout.challenges@[k].slot) as usize,
    }
}

/// The cell of data lane `k` of a recording at `base`.
pub open spec fn data_cell(layout: &DuplexLayout, base: int, k: int) -> RecordingCell {
    let p = position_of(layout.slots@, k, 2 * layout.slots@.len());
    RecordingCell { column: p.1 as usize, offset: (base + p.0) as usize }
}

/// All cells of a recording at `base`: its challenges, then its data.
pub open spec fn block_cells(layout: &DuplexLayout, base: int) -> Seq<RecordingCell> {
    Seq::new(layout.challenges@.len(), |k: int| challenge_cell(layout, base, k)) + Seq::new(
        layout.n_data as nat,
        |k: int| data_cell(layout, base, k),
    )
}

/// A recording at `base` lies in a walk of `len` slots.
pub open spec fn block_inside(layout: &DuplexLayout, base: int, len: int) -> bool {
    &&& layout.wf()
    &&& layout.slots@.len() > 0
    &&& base + layout.slots@.len() <= len
    &&& forall|k: int|
        0 <= k < layout.challenges@.len() ==> (#[trigger] layout.challenges@[k]).lane < 4
}

proof fn lemma_position_inside(layout: &DuplexLayout, k: int, m: nat)
    requires
        layout.slots@.len() > 0,
        m <= 2 * layout.slots@.len(),
    ensures
        0 <= position_of(layout.slots@, k, m).0 < layout.slots@.len(),
        0 <= position_of(layout.slots@, k, m).1 < 2,
    decreases m,
{
    if m > 0 {
        lemma_position_inside(layout, k, (m - 1) as nat);
    }
}

/// Lists the cells of a recording.
pub fn recording_cells(layout: &DuplexLayout, base: usize, len: usize) -> (r: Vec<RecordingCell>)
    requires
        block_inside(layout, base as int, len as int),
    ensures
        r@ == block_cells(layout, base as int),
        forall|i: int| 0 <= i < r@.len() ==> (#[trigger] r@[i]).column < 6 && r@[i].offset < len,
{
    let mut r: Vec<RecordingCell> = Vec::new();
    let n = layout.challenges.len();
    let mut k: usize = 0;
    while k < n
        invariant
            k <= n,
            n == layout.challenges@.len(),
            block_inside(layout, base as int, len as int),
            r@.len() == k,
            forall|i: int|
                0 <= i < k ==> #[trigger] r@[i] == challenge_cell(layout, base as int, i),
            forall|i: int| 0 <= i < k ==> (#[trigger] r@[i]).column < 6 && r@[i].offset < len,
        decreases n - k,
    {
        let position = layout.challenges[k];
        assert(layout.challenges@[k as int].lane < 4);
        assert(layout.challenges@[k as int].slot < layout.slots@.len());
        r.push(RecordingCell { column: 2 + position.lane, offset: base + position.slot });
        k = k + 1;
    }
    let positions = duplex_data_positions(layout);
    let mut k: usize = 0;
    while k < layout.n_data
        invariant
            k <= layout.n_data,
            n == layout.challenges@.len(),
            block_inside(layout, base as int, len as int),
            positions@.len() == layout.n_data,
            forall|i: int|
                0 <= i < layout.n_data ==> ((#[trigger] positions@[i]).slot as int, positions@[i].lane as int)
                    == position_of(layout.slots@, i, 2 * layout.slots@.len()),
            r@.len() == n + k,
            forall|i: int|
                0 <= i < n ==> #[trigger] r@[i] == challenge_cell(layout, base as int, i),
            forall|i: int|
                n <= i < n + k ==> #[trigger] r@[i] == data_cell(layout, base as int, i - n),
            forall|i: int| 0 <= i < n + k ==> (#[trigger] r@[i]).column < 6 && r@[i].offset < len,
        decreases layout.n_data - k,
    {
        proof {
            lemma_position_inside(layout, k as int, 2 * layout.slots@.len());
            assert((positions@[k as int].slot as int, positions@[k as int].lane as int)
                == position_of(layout.slots@, k as int, 2 * layout.slots@.len()));
        }
        r.push(RecordingCell { column: positions[k].lane, offset: base + positions[k].slot });
        k = k + 1;
    }
    assert(r@ =~= block_cells(layout, base as int));
    r
}

/// A table over the cells of a walk: six columns of `len` entries.
pub open spec fn table_of<T>(table: Seq<Vec<T>>, len: int) -> bool {
    &&& table.len() == 6
    &&& forall|c: int| 0 <= c < 6 ==> (#[trigger] table[c])@.len() == len
}

/// One recording of one tier: its schedule and where it starts.
pub struct TierBlock {
    pub layout: DuplexLayout,
    pub base: usize,
}

/// The cells of the first `n` recordings.
pub open spec fn tier_cells(blocks: Seq<TierBlock>, n: nat) -> Seq<RecordingCell>
    decreases n,
{
    if n == 0 {
        seq![]
    } else {
        tier_cells(blocks, (n - 1) as nat) + block_cells(
            &blocks[n - 1].layout,
            blocks[n - 1].base as int,
        )
    }
}

/// Marks the listed cells of a table.
fn mark_cells(table: &mut Vec<Vec<bool>>, cells: &Vec<RecordingCell>, len: usize)
    requires
        table_of(old(table)@, len as int),
        forall|i: int|
            0 <= i < cells@.len() ==> (#[trigger] cells@[i]).column < 6 && cells@[i].offset < len,
    ensures
        table_of(final(table)@, len as int),
        forall|c: int, o: int|
            0 <= c < 6 && 0 <= o < len ==> (#[trigger] final(table)@[c]@[o] <==> old(
                table)@[c]@[o] || cells@.contains(
                RecordingCell { column: c as usize, offset: o as usize },
            )),
{
    let ghost table0 = table@;
    let mut i: usize = 0;
    while i < cells.len()
        invariant
            i <= cells@.len(),
            table_of(table@, len as int),
            forall|k: int|
                0 <= k < cells@.len() ==> (#[trigger] cells@[k]).column < 6 && cells@[k].offset
                    < len,
            forall|c: int, o: int|
                0 <= c < 6 && 0 <= o < len ==> (#[trigger] table@[c]@[o] <==> table0[c]@[o]
                    || exists|k: int|
                    0 <= k < i && #[trigger] cells@[k] == (RecordingCell {
                        column: c as usize,
                        offset: o as usize,
                    })),
        decreases cells@.len() - i,
    {
        let ghost table1 = table@;
        let cell = cells[i];
        assert(cells@[i as int].column < 6 && cells@[i as int].offset < len);
        assert(table@[cell.column as int]@.len() == len);
        table[cell.column].set(cell.offset, true);
        proof {
            assert forall|c: int, o: int| 0 <= c < 6 && 0 <= o < len implies (
            #[trigger] table@[c]@[o] <==> table0[c]@[o] || exists|k: int|
                0 <= k < i + 1 && #[trigger] cells@[k] == (RecordingCell {
                    column: c as usize,
                    offset: o as usize,
                })) by {
                assert(table1[c]@[o] <==> table0[c]@[o] || exists|k: int|
                    0 <= k < i && #[trigger] cells@[k] == (RecordingCell {
                        column: c as usize,
                        offset: o as usize,
                    }));
                if c == cell.column && o == cell.offset {
                    assert(cells@[i as int] == (RecordingCell {
                        column: c as usize,
                        offset: o as usize,
                    }));
                }
            }
        }
        i = i + 1;
    }
    proof {
        assert forall|c: int, o: int| 0 <= c < 6 && 0 <= o < len implies (
        #[trigger] table@[c]@[o] <==> table0[c]@[o] || cells@.contains(
            RecordingCell { column: c as usize, offset: o as usize },
        )) by {
            let cell = RecordingCell { column: c as usize, offset: o as usize };
            if cells@.contains(cell) {
                let k = choose|k: int| 0 <= k < cells@.len() && cells@[k] == cell;
                assert(cells@[k] == cell);
            }
        }
    }
}

/// Marks the cells of all recordings of all tiers.
pub fn selected_cells(blocks: &Vec<TierBlock>, len: usize) -> (r: Vec<Vec<bool>>)
    requires
        forall|i: int|
            0 <= i < blocks@.len() ==> block_inside(
                &(#[trigger] blocks@[i]).layout,
                blocks@[i].base as int,
                len as int,
            ),
    ensures
        table_of(r@, len as int),
        forall|c: int, o: int|
            0 <= c < 6 && 0 <= o < len ==> (#[trigger] r@[c]@[o] <==> tier_cells(
                blocks@,
                blocks@.len(),
            ).contains(RecordingCell { column: c as usize, offset: o as usize })),
{
    let mut r: Vec<Vec<bool>> = Vec::new();
    let mut c: usize = 0;
    while c < 6
        invariant
            c <= 6,
            r@.len() == c,
            forall|d: int| 0 <= d < c ==> (#[trigger] r@[d])@.len() == len,
            forall|d: int, o: int| 0 <= d < c && 0 <= o < len ==> !#[trigger] r@[d]@[o],
        decreases 6 - c,
    {
        let mut column: Vec<bool> = Vec::new();
        let mut o: usize = 0;
        while o < len
            invariant
                o <= len,
                column@.len() == o,
                forall|k: int| 0 <= k < o ==> !#[trigger] column@[k],
            decreases len - o,
        {
            column.push(false);
            o = o + 1;
        }
        r.push(column);
        c = c + 1;
    }
    let mut i: usize = 0;
    while i < blocks.len()
        invariant
            i <= blocks@.len(),
            table_of(r@, len as int),
            forall|k: int|
                0 <= k < blocks@.len() ==> block_inside(
                    &(#[trigger] blocks@[k]).layout,
                    blocks@[k].base as int,
                    len as int,
                ),
            forall|c: int, o: int|
                0 <= c < 6 && 0 <= o < len ==> (#[trigger] r@[c]@[o] <==> tier_cells(
                    blocks@,
                    i as nat,
                ).contains(RecordingCell { column: c as usize, offset: o as usize })),
        decreases blocks@.len() - i,
    {
        let ghost r0 = r@;
        let cells = recording_cells(&blocks[i].layout, blocks[i].base, len);
        mark_cells(&mut r, &cells, len);
        proof {
            let before = tier_cells(blocks@, i as nat);
            let after = tier_cells(blocks@, (i + 1) as nat);
            assert(after == before + cells@);
            assert forall|c: int, o: int| 0 <= c < 6 && 0 <= o < len implies (
            #[trigger] r@[c]@[o] <==> after.contains(
                RecordingCell { column: c as usize, offset: o as usize },
            )) by {
                let cell = RecordingCell { column: c as usize, offset: o as usize };
                assert(r0[c]@[o] <==> before.contains(cell));
                if before.contains(cell) {
                    let k = choose|k: int| 0 <= k < before.len() && before[k] == cell;
                    assert(after[k] == cell);
                }
                if cells@.contains(cell) {
                    let k = choose|k: int| 0 <= k < cells@.len() && cells@[k] == cell;
                    assert(after[before.len() + k] == cell);
                }
                if after.contains(cell) {
                    let k = choose|k: int| 0 <= k < after.len() && after[k] == cell;
                    if k < before.len() {
                        assert(before[k] == cell);
                    } else {
                        assert(cells@[k - before.len()] == cell);
                    }
                }
            }
        }
        i = i + 1;
    }
    r
}

/// The deferred rows of the recordings walk, by cell.
pub struct RecordingSlots {
    pub slots: Vec<Vec<Option<DeferredConstraintSlot>>>,
}

impl RecordingSlots {
    /// Every cell that still has a deferred row has it on its own wire, and
    /// the row is open.
    pub open spec fn open_in(&self, b: FieldR1csBuilder, slices: Seq<WitnessSlice>, len: int) -> bool {
        &&& table_of(self.slots@, len)
        &&& forall|c: int, o: int|
            0 <= c < 6 && 0 <= o < len && #[trigger] self.slots@[c]@[o] is Some
                ==> self.slots@[c]@[o]->0.wire == slices[c].first() + o && b.is_open(
                slices[c].first() + o,
            )
    }
}

/// Six columns of `2^w_log` cells, one after the other.
pub open spec fn six_columns(slices: Seq<WitnessSlice>, w_log: usize) -> bool {
    &&& slices.len() == 6
    &&& forall|c: int|
        0 <= c < 6 ==> (#[trigger] slices[c]).log2_len == w_log && slices[c].first()
            == slices[0].first() + c * pow2(w_log as nat)
}

fn align_zeros(b: &mut FieldR1csBuilder, block: usize)
    requires
        old(b).wf(),
        block > 0,
    ensures
        final(b).extends(old(b)),
        final(b).wires() == align_up(old(b).wires(), block as nat),
        forall|z: spec_fn(int) -> u128| #[trigger] final(b).holds(z) <==> old(b).holds(z),
        final(b).honest() <==> old(b).honest(),
        final(b).shape() == align_step(old(b).shape(), block as nat),
{
    reveal(free_step);
    reveal(align_step);
    let ghost entry = *b;
    broadcast use group_agree;

    proof {
        reveal(align_up);
    }
    let ghost before = *b;
    let rest = b.num_wires() % block;
    let missing: usize = if rest == 0 {
        0
    } else {
        block - rest
    };
    let mut k: usize = 0;
    while k < missing
        invariant
            k <= missing,
            before.wf(),
            b.extends(&before),
            b.wires() == before.wires() + k,
            forall|z: spec_fn(int) -> u128| #[trigger] b.holds(z) <==> before.holds(z),
            b.shape() == free_step(entry.shape(), k as nat),
        decreases missing - k,
    {
        reveal(free_step);
        let _w = b.alloc_f128(F128::zero());
        k = k + 1;
    }
}

/// Allocates one column; the marked cells get deferred rows.
fn allocate_recording_column(
    b: &mut FieldR1csBuilder,
    column: &Vec<F128>,
    marked: &Vec<bool>,
) -> (r: Vec<Option<DeferredConstraintSlot>>)
    requires
        old(b).wf(),
        marked@.len() == column@.len(),
    ensures
        final(b).extends(old(b)),
        final(b).wires() == old(b).wires() + column@.len(),
        forall|z: spec_fn(int) -> u128| #[trigger] final(b).holds(z) <==> old(b).holds(z),
        final(b).honest() <==> old(b).honest(),
        forall|o: int|
            0 <= o < column@.len() ==> #[trigger] final(b).witness()(old(b).wires() + o)
                == column@[o]@,
        r@.len() == column@.len(),
        forall|o: int|
            0 <= o < column@.len() ==> (#[trigger] r@[o] is Some <==> marked@[o]) && (
            r@[o] is Some ==> r@[o]->0.wire == old(b).wires() + o && final(b).is_open(
                old(b).wires() + o,
            )),
        final(b).shape() == free_step(old(b).shape(), column@.len()),
{
    reveal(free_step);
    let ghost entry = *b;
    broadcast use group_agree;

    let ghost before = *b;
    let mut r: Vec<Option<DeferredConstraintSlot>> = Vec::new();
    let mut o: usize = 0;
    while o < column.len()
        invariant
            o <= column@.len(),
            marked@.len() == column@.len(),
            before.wf(),
            b.extends(&before),
            b.wires() == before.wires() + o,
            forall|z: spec_fn(int) -> u128| #[trigger] b.holds(z) <==> before.holds(z),
            forall|k: int|
                0 <= k < o ==> #[trigger] b.witness()(before.wires() + k) == column@[k]@,
            r@.len() == o,
            forall|k: int|
                0 <= k < o ==> (#[trigger] r@[k] is Some <==> marked@[k]) && (r@[k] is Some
                    ==> r@[k]->0.wire == before.wires() + k && b.is_open(before.wires() + k)),
            b.shape() == free_step(entry.shape(), o as nat),
        decreases column@.len() - o,
    {
        reveal(free_step);
        let ghost mid = *b;
        if marked[o] {
            let (_w, slot) = b.alloc_deferred_constraint_f128(column[o]);
            r.push(Some(slot));
        } else {
            let _w = b.alloc_f128(column[o]);
            r.push(None);
        }
        proof {
            assert forall|k: int| 0 <= k < o + 1 implies #[trigger] b.witness()(before.wires() + k)
                == column@[k]@ by {
                if k < o {
                    assert(b.witness()(before.wires() + k) == mid.witness()(before.wires() + k));
                }
            }
            assert forall|k: int| 0 <= k < o + 1 implies (#[trigger] r@[k] is Some <==> marked@[k])
                && (r@[k] is Some ==> r@[k]->0.wire == before.wires() + k && b.is_open(
                before.wires() + k,
            )) by {
                if k < o && r@[k] is Some {
                    assert(mid.is_open(before.wires() + k));
                }
            }
        }
        o = o + 1;
    }
    r
}

/// The wires of the first `n` recording columns. Whether a row is supplied
/// later makes no difference to the wire.
#[verifier::opaque]
pub open spec fn recording_step(s: Shape, len: nat, n: nat) -> Shape
    decreases n,
{
    if n == 0 {
        align_step(s, len)
    } else {
        free_step(recording_step(s, len, (n - 1) as nat), len)
    }
}

/// Allocates the six columns of the recordings walk. Every cell that any
/// tier's recordings use gets a row that is supplied later.
pub fn allocate_selected_recording_columns(
    b: &mut FieldR1csBuilder,
    columns: &Vec<Vec<F128>>,
    w_log: usize,
    blocks: &Vec<TierBlock>,
) -> (r: (Vec<WitnessSlice>, RecordingSlots))
    requires
        old(b).wf(),
        pow2(w_log as nat) <= usize::MAX,
        columns@.len() == 6,
        forall|c: int| 0 <= c < 6 ==> (#[trigger] columns@[c])@.len() == pow2(w_log as nat),
        forall|i: int|
            0 <= i < blocks@.len() ==> block_inside(
                &(#[trigger] blocks@[i]).layout,
                blocks@[i].base as int,
                pow2(w_log as nat) as int,
            ),
    ensures
        final(b).extends(old(b)),
        forall|z: spec_fn(int) -> u128| #[trigger] final(b).holds(z) <==> old(b).holds(z),
        final(b).honest() <==> old(b).honest(),
        six_columns(r.0@, w_log),
        r.0@[0].first() == align_up(old(b).wires(), pow2(w_log as nat)),
        final(b).wires() == r.0@[0].first() + 6 * pow2(w_log as nat),
        forall|c: int, o: int|
            0 <= c < 6 && 0 <= o < pow2(w_log as nat) ==> #[trigger] final(b).witness()(
                r.0@[c].first() + o,
            ) == columns@[c]@[o]@,
        r.1.open_in(*final(b), r.0@, pow2(w_log as nat) as int),
        forall|c: int, o: int|
            0 <= c < 6 && 0 <= o < pow2(w_log as nat) ==> (#[trigger] r.1.slots@[c]@[o] is Some
                <==> tier_cells(blocks@, blocks@.len()).contains(
                RecordingCell { column: c as usize, offset: o as usize },
            )),
        final(b).shape() == recording_step(old(b).shape(), pow2(w_log as nat), 6),
{
    reveal(recording_step);
    let ghost entry = *b;
    broadcast use group_agree;

    let ghost before = *b;
    let len = power_of_two(w_log);
    let marked = selected_cells(blocks, len);
    proof {
        lemma_pow2_pos(w_log as nat);
    }
    align_zeros(b, len);
    let ghost base = b.wires();
    let first = b.num_wires() / len;
    proof {
        lemma_align(before.wires(), len as nat);
        vstd::arithmetic::div_mod::lemma_fundamental_div_mod(base as int, len as int);
        assert(base == first * len) by (nonlinear_arith)
            requires
                base == len * first + 0,
        ;
        assert(0 * len == 0);
    }
    let mut slices: Vec<WitnessSlice> = Vec::new();
    let mut slots: Vec<Vec<Option<DeferredConstraintSlot>>> = Vec::new();
    let mut c: usize = 0;
    while c < 6
        invariant
            c <= 6,
            len == pow2(w_log as nat),
            len > 0,
            base == first * len,
            columns@.len() == 6,
            forall|d: int| 0 <= d < 6 ==> (#[trigger] columns@[d])@.len() == len,
            table_of(marked@, len as int),
            before.wf(),
            b.extends(&before),
            b.wires() == base + c * len,
            forall|z: spec_fn(int) -> u128| #[trigger] b.holds(z) <==> before.holds(z),
            b.honest() <==> before.honest(),
            slices@.len() == c,
            slots@.len() == c,
            forall|d: int|
                0 <= d < c ==> (#[trigger] slices@[d]).log2_len == w_log && slices@[d].first()
                    == base + d * len,
            forall|d: int, o: int|
                0 <= d < c && 0 <= o < len ==> #[trigger] b.witness()(slices@[d].first() + o)
                    == columns@[d]@[o]@,
            forall|d: int| 0 <= d < c ==> (#[trigger] slots@[d])@.len() == len,
            forall|d: int, o: int|
                0 <= d < c && 0 <= o < len ==> (#[trigger] slots@[d]@[o] is Some <==> marked@[d]@[o])
                    && (slots@[d]@[o] is Some ==> slots@[d]@[o]->0.wire == slices@[d].first() + o
                    && b.is_open(slices@[d].first() + o)),
            b.shape() == recording_step(entry.shape(), len as nat, c as nat),
        decreases 6 - c,
    {
        reveal(recording_step);
        let ghost mid = *b;
        let ghost slices0 = slices@;
        let ghost slots0 = slots@;
        assert(columns@[c as int]@.len() == len && marked@[c as int]@.len() == len);
        let wires = b.num_wires();
        proof {
            assert((first + c) * len == first * len + c * len) by (nonlinear_arith);
            assert(first + c <= first * len + c * len) by (nonlinear_arith)
                requires
                    len > 0,
                    first >= 0,
                    c >= 0,
            ;
            assert((c + 1) * len == c * len + len) by (nonlinear_arith);
        }
        let column_slots = allocate_recording_column(b, &columns[c], &marked[c]);
        slices.push(WitnessSlice { log2_len: w_log, index: first + c });
        slots.push(column_slots);
        proof {
            assert(slices@[c as int].first() == mid.wires());
            assert forall|d: int, o: int| 0 <= d < c + 1 && 0 <= o < len implies #[trigger] b.witness()(
                slices@[d].first() + o,
            ) == columns@[d]@[o]@ by {
                if d < c {
                    assert(slices@[d] == slices0[d]);
                    assert(d * len + o < c * len) by (nonlinear_arith)
                        requires
                            d + 1 <= c,
                            o < len,
                    ;
                    assert(b.witness()(slices0[d].first() + o) == mid.witness()(
                        slices0[d].first() + o,
                    ));
                }
            }
            assert forall|d: int, o: int| 0 <= d < c + 1 && 0 <= o < len implies (
            #[trigger] slots@[d]@[o] is Some <==> marked@[d]@[o]) && (slots@[d]@[o] is Some
                ==> slots@[d]@[o]->0.wire == slices@[d].first() + o && b.is_open(
                slices@[d].first() + o,
            )) by {
                if d < c {
                    assert(slots@[d] == slots0[d]);
                    assert(slices@[d] == slices0[d]);
                    if slots0[d]@[o] is Some {
                        assert(mid.is_open(slices0[d].first() + o));
                    }
                }
            }
        }
        c = c + 1;
    }
    (slices, RecordingSlots { slots })
}

/// A recorded replay: the wires of its challenges and of its data.
pub struct RecordedWires {
    pub challenge_wires: Vec<LinExpr>,
    pub data_wires: Vec<LinExpr>,
}

impl RecordedWires {
    /// Wire `i` of the replay, in the order of the cells of its recording.
    pub open spec fn form(&self, i: int) -> LinForm {
        if i < self.challenge_wires@.len() {
            self.challenge_wires@[i]@
        } else {
            self.data_wires@[i - self.challenge_wires@.len()]@
        }
    }

    /// The replay has a wire for every cell of a schedule, below `n`.
    pub open spec fn replays(&self, layout: &DuplexLayout, n: nat) -> bool {
        &&& self.challenge_wires@.len() == layout.challenges@.len()
        &&& self.data_wires@.len() == layout.n_data
        &&& forall|i: int|
            0 <= i < self.challenge_wires@.len() ==> (
            #[trigger] self.challenge_wires@[i]).bound() <= n
        &&& forall|i: int|
            0 <= i < self.data_wires@.len() ==> (#[trigger] self.data_wires@[i]).bound() <= n
    }
}

/// The cells of a recording are all different.
pub open spec fn cells_distinct(layout: &DuplexLayout, base: int) -> bool {
    block_cells(layout, base).no_duplicates()
}

/// The wire bound to a cell by a replay: that of the cell's place in the
/// recording, if it has one.
pub open spec fn bound_form(
    wires: RecordedWires,
    layout: &DuplexLayout,
    base: int,
    cell: RecordingCell,
) -> Option<LinForm> {
    let cells = block_cells(layout, base);
    if cells.contains(cell) {
        Some(wires.form(cells.index_of(cell)))
    } else {
        None
    }
}

/// The bindings of one replay as a table over the cells of the walk.
fn recording_block_bindings(
    wires: &RecordedWires,
    layout: &DuplexLayout,
    base: usize,
    len: usize,
    Ghost(n): Ghost<nat>,
) -> (r: Vec<Vec<Option<LinExpr>>>)
    requires
        block_inside(layout, base as int, len as int),
        wires.replays(layout, n),
        cells_distinct(layout, base as int),
    ensures
        table_of(r@, len as int),
        forall|c: int, o: int|
            0 <= c < 6 && 0 <= o < len ==> match bound_form(
                *wires,
                layout,
                base as int,
                RecordingCell { column: c as usize, offset: o as usize },
            ) {
                Some(form) => #[trigger] r@[c]@[o] is Some && r@[c]@[o]->0@ == form
                    && r@[c]@[o]->0.bound() <= n,
                None => r@[c]@[o] is None,
            },
{
    let cells = recording_cells(layout, base, len);
    let mut r: Vec<Vec<Option<LinExpr>>> = Vec::new();
    let mut c: usize = 0;
    while c < 6
        invariant
            c <= 6,
            r@.len() == c,
            forall|d: int| 0 <= d < c ==> (#[trigger] r@[d])@.len() == len,
            forall|d: int, o: int| 0 <= d < c && 0 <= o < len ==> #[trigger] r@[d]@[o] is None,
        decreases 6 - c,
    {
        let mut column: Vec<Option<LinExpr>> = Vec::new();
        let mut o: usize = 0;
        while o < len
            invariant
                o <= len,
                column@.len() == o,
                forall|k: int| 0 <= k < o ==> #[trigger] column@[k] is None,
            decreases len - o,
        {
            column.push(None);
            o = o + 1;
        }
        r.push(column);
        c = c + 1;
    }
    let mut i: usize = 0;
    let n_challenges = wires.challenge_wires.len();
    while i < cells.len()
        invariant
            i <= cells@.len(),
            n_challenges == wires.challenge_wires@.len(),
            cells@ == block_cells(layout, base as int),
            cells@.no_duplicates(),
            wires.replays(layout, n),
            table_of(r@, len as int),
            forall|k: int|
                0 <= k < cells@.len() ==> (#[trigger] cells@[k]).column < 6 && cells@[k].offset
                    < len,
            forall|k: int|
                0 <= k < i ==> r@[(#[trigger] cells@[k]).column as int]@[cells@[k].offset as int]
                    is Some && r@[cells@[k].column as int]@[cells@[k].offset as int]->0@
                    == wires.form(k) && r@[cells@[k].column as int]@[cells@[k].offset as int]->0.bound()
                    <= n,
            forall|c: int, o: int|
                0 <= c < 6 && 0 <= o < len && (forall|k: int|
                    0 <= k < i ==> #[trigger] cells@[k] != (RecordingCell {
                        column: c as usize,
                        offset: o as usize,
                    })) ==> #[trigger] r@[c]@[o] is None,
        decreases cells@.len() - i,
    {
        let ghost r0 = r@;
        let cell = cells[i];
        assert(cells@[i as int].column < 6 && cells@[i as int].offset < len);
        let wire = if i < n_challenges {
            assert(wires.challenge_wires@[i as int].bound() <= n);
            wires.challenge_wires[i].clone()
        } else {
            assert(wires.data_wires@[i - n_challenges].bound() <= n);
            wires.data_wires[i - n_challenges].clone()
        };
        assert(r@[cell.column as int]@.len() == len);
        r[cell.column].set(cell.offset, Some(wire));
        proof {
            assert forall|k: int| 0 <= k < i + 1 implies r@[(
            #[trigger] cells@[k]).column as int]@[cells@[k].offset as int] is Some
                && r@[cells@[k].column as int]@[cells@[k].offset as int]->0@ == wires.form(k)
                && r@[cells@[k].column as int]@[cells@[k].offset as int]->0.bound() <= n by {
                if k < i {
                    assert(cells@[k] != cells@[i as int]);
                    assert(r@[cells@[k].column as int]@[cells@[k].offset as int]
                        == r0[cells@[k].column as int]@[cells@[k].offset as int]);
                }
            }
            assert forall|c: int, o: int|
                0 <= c < 6 && 0 <= o < len && (forall|k: int|
                    0 <= k < i + 1 ==> #[trigger] cells@[k] != (RecordingCell {
                        column: c as usize,
                        offset: o as usize,
                    })) implies #[trigger] r@[c]@[o] is None by {
                assert(cells@[i as int] != (RecordingCell {
                    column: c as usize,
                    offset: o as usize,
                }));
                assert(r@[c]@[o] == r0[c]@[o]);
            }
        }
        i = i + 1;
    }
    proof {
        assert forall|c: int, o: int| 0 <= c < 6 && 0 <= o < len implies match bound_form(
            *wires,
            layout,
            base as int,
            RecordingCell { column: c as usize, offset: o as usize },
        ) {
            Some(form) => #[trigger] r@[c]@[o] is Some && r@[c]@[o]->0@ == form
                && r@[c]@[o]->0.bound() <= n,
            None => r@[c]@[o] is None,
        } by {
            let cell = RecordingCell { column: c as usize, offset: o as usize };
            if cells@.contains(cell) {
                let k = cells@.index_of(cell);
                assert(cells@[k] == cell);
            } else {
                assert forall|k: int| 0 <= k < cells@.len() implies #[trigger] cells@[k]
                    != cell by {
                    if cells@[k] == cell {
                        assert(cells@.contains(cell));
                    }
                }
            }
        }
    }
    r
}

/// The builder has only been added to: rows of deferred wires may have been
/// supplied, nothing was taken away.
pub open spec fn tightens(after: FieldR1csBuilder, before: FieldR1csBuilder) -> bool {
    &&& after.wf()
    &&& before.wires() <= after.wires()
    &&& after.gate_list() == before.gate_list()
    &&& after.flat_basis() == before.flat_basis()
    &&& agree(after.witness(), before.witness(), before.wires())
    &&& forall|z: spec_fn(int) -> u128| #[trigger] after.holds(z) ==> before.holds(z)
}

/// What a recording cell equals: the wire of its only source, or, with two
/// tiers, the wire of the selected tier. A cell that only one tier uses is
/// free while the other is selected.
pub open spec fn cell_rule(
    arms: int,
    first: Option<LinForm>,
    second: Option<LinForm>,
    sel0: LinForm,
    sel1: LinForm,
    wire: int,
    z: spec_fn(int) -> u128,
) -> bool {
    match (first, second) {
        (Some(x), Some(y)) => z(wire) == x.at(z) ^ fmul(sel1.at(z), x.at(z) ^ y.at(z)),
        (Some(x), None) => if arms == 1 {
            z(wire) == x.at(z)
        } else {
            fmul(sel0.at(z), x.at(z) ^ z(wire)) == 0
        },
        (None, Some(y)) => fmul(sel1.at(z), y.at(z) ^ z(wire)) == 0,
        (None, None) => true,
    }
}

/// With selectors that choose one tier, the cell equals the wire of the chosen
/// tier wherever that tier uses it.
pub proof fn lemma_cell_selected(
    arms: int,
    first: Option<LinForm>,
    second: Option<LinForm>,
    sel0: LinForm,
    sel1: LinForm,
    wire: int,
    z: spec_fn(int) -> u128,
)
    requires
        cell_rule(arms, first, second, sel0, sel1, wire, z),
        (sel0.at(z) == 1 && sel1.at(z) == 0) || (sel0.at(z) == 0 && sel1.at(z) == 1),
        arms == 1 ==> second is None && sel0.at(z) == 1,
    ensures
        sel0.at(z) == 1 ==> (first matches Some(x) ==> z(wire) == x.at(z)),
        sel1.at(z) == 1 ==> (second matches Some(y) ==> z(wire) == y.at(z)),
{
    let c = z(wire);
    if first is Some {
        let x = (first->0).at(z);
        lemma_fmul_unit(x ^ c);
        crate::field::lemma_fmul_comm(1, x ^ c);
        lemma_xor(x, c, 0);
        if second is Some {
            let y = (second->0).at(z);
            lemma_fmul_unit(x ^ y);
            crate::field::lemma_fmul_comm(1, x ^ y);
            lemma_xor(x, y, 0);
            lemma_xor(x, 0, 0);
            crate::field::lemma_fmul_comm(0, x ^ y);
            lemma_xor(x, x, y);
        }
    }
    if second is Some {
        let y = (second->0).at(z);
        lemma_fmul_unit(y ^ c);
        crate::field::lemma_fmul_comm(1, y ^ c);
        lemma_xor(y, c, 0);
    }
}

/// The rows of a cell that the tiers bind.
#[verifier::opaque]
pub open spec fn cell_step(
    s: Shape,
    wire: nat,
    first: Option<LinForm>,
    second: Option<LinForm>,
    selectors: Seq<LinForm>,
) -> Shape {
    let cell = wire_form(wire);
    let (t, value) = match (first, second) {
        (Some(x), Some(y)) => {
            let (t, product) = mul_step(s, selectors.last(), form_add(x, y));
            (t, form_add(x, product))
        },
        (Some(x), None) => if selectors.len() == 1 {
            (s, x)
        } else {
            let (t, product) = mul_step(s, selectors[0], form_add(x, cell));
            (t, form_add(cell, product))
        },
        (None, Some(y)) => {
            let (t, product) = mul_step(s, selectors.last(), form_add(y, cell));
            (t, form_add(cell, product))
        },
        (None, None) => (s, cell),
    };
    t.seal(wire, value, const_form(1))
}

/// Supplies the row of one recording cell.
fn bind_cell(
    b: &mut FieldR1csBuilder,
    slot: DeferredConstraintSlot,
    first: &Option<LinExpr>,
    second: &Option<LinExpr>,
    selectors: &Vec<LinExpr>,
) -> (sealed: bool)
    requires
        old(b).wf(),
        slot.wire < old(b).wires(),
        old(b).wires() <= usize::MAX,
        old(b).is_open(slot.wire as int),
        first is Some || second is Some,
        1 <= selectors@.len() <= 2,
        selectors@.len() == 1 ==> second is None,
        first matches Some(x) ==> x.bound() <= old(b).wires(),
        second matches Some(y) ==> y.bound() <= old(b).wires(),
        forall|i: int|
            0 <= i < selectors@.len() ==> (#[trigger] selectors@[i]).bound() <= old(b).wires(),
    ensures
        sealed,
        tightens(*final(b), *old(b)),
        forall|i: int|
            i != slot.wire && old(b).is_open(i) ==> #[trigger] final(b).is_open(i),
        forall|z: spec_fn(int) -> u128| #[trigger]
            final(b).holds(z) ==> cell_rule(
                selectors@.len() as int,
                opt_form(*first),
                opt_form(*second),
                selectors@[0]@,
                selectors@[selectors@.len() - 1]@,
                slot.wire as int,
                z,
            ),
        final(b).honest() <==> old(b).honest() && cell_rule(
            selectors@.len() as int,
            opt_form(*first),
            opt_form(*second),
            selectors@[0]@,
            selectors@[selectors@.len() - 1]@,
            slot.wire as int,
            old(b).witness(),
        ),
        sealed ==> final(b).shape() == cell_step(
            old(b).shape(),
            slot.wire as nat,
            opt_form(*first),
            opt_form(*second),
            forms(selectors@),
        ),
{
    reveal(cell_step);
    broadcast use group_agree;

    let ghost b0 = *b;
    let ghost w = b0.witness();
    let ghost at = slot.wire as int;
    let cell = LinExpr::from_wire(crate::circuit::Wire { index: slot.wire });
    let one = b.one();
    let arms = selectors.len();
    assert(selectors@[0].bound() <= b0.wires());
    assert(selectors@[selectors@.len() - 1].bound() <= b0.wires());
    let value = match (first, second) {
        (Some(x), Some(y)) => {
            let sum = x.add(y);
            let product = crate::trace::mul(b, &selectors[arms - 1], &sum);
            x.add(&product)
        },
        (Some(x), None) => {
            if arms == 1 {
                x.clone()
            } else {
                let sum = x.add(&cell);
                let product = crate::trace::mul(b, &selectors[0], &sum);
                cell.add(&product)
            }
        },
        (None, Some(y)) => {
            let sum = y.add(&cell);
            let product = crate::trace::mul(b, &selectors[arms - 1], &sum);
            cell.add(&product)
        },
        (None, None) => cell.clone(),
    };
    let ghost b1 = *b;
    proof {
        assert forall|z: spec_fn(int) -> u128| #[trigger] b1.holds(z) implies (z(at) == value.at(z)
            <==> cell_rule(
            selectors@.len() as int,
            opt_form(*first),
            opt_form(*second),
            selectors@[0]@,
            selectors@[selectors@.len() - 1]@,
            at,
            z,
        )) by {
            assert(value@.at(z) == value.at(z));
            assert(cell.at(z) == z(at));
            match (first, second) {
                (Some(x), Some(y)) => {},
                (Some(x), None) => {
                    let p = fmul(selectors@[0].at(z), x.at(z) ^ z(at));
                    lemma_xor(z(at), p, 0);
                    lemma_xor(z(at), 0, 0);
                },
                (None, Some(y)) => {
                    let p = fmul(selectors@[selectors@.len() - 1].at(z), y.at(z) ^ z(at));
                    lemma_xor(z(at), p, 0);
                    lemma_xor(z(at), 0, 0);
                },
                (None, None) => {},
            }
        }
        lemma_rule_agree(
            selectors@.len() as int,
            opt_form(*first),
            opt_form(*second),
            selectors@[0]@,
            selectors@[selectors@.len() - 1]@,
            at,
            b1.witness(),
            w,
            b0.wires(),
        );
        assert(b1.is_open(at));
    }
    let sealed = b.seal_deferred_constraint(slot, &value, &one);
    proof {
        assert forall|z: spec_fn(int) -> u128| #[trigger] b.holds(z) implies cell_rule(
            selectors@.len() as int,
            opt_form(*first),
            opt_form(*second),
            selectors@[0]@,
            selectors@[selectors@.len() - 1]@,
            at,
            z,
        ) by {
            lemma_fmul_unit(value.at(z));
            assert(b1.holds(z));
        }
        lemma_fmul_unit(value.at(b.witness()));
        assert(b.holds(b.witness()) <==> b1.holds(b.witness()) && b.witness()(at) == fmul(
            value.at(b.witness()),
            one.at(b.witness()),
        ));
        assert(b1.honest() <==> b0.honest());
    }
    sealed
}

pub open spec fn opt_form(e: Option<LinExpr>) -> Option<LinForm> {
    match e {
        Some(x) => Some(x@),
        None => None,
    }
}

/// The rule of a cell only reads the wires below `n`.
pub proof fn lemma_rule_agree(
    arms: int,
    first: Option<LinForm>,
    second: Option<LinForm>,
    sel0: LinForm,
    sel1: LinForm,
    wire: int,
    z: spec_fn(int) -> u128,
    w: spec_fn(int) -> u128,
    n: nat,
)
    requires
        agree(z, w, n),
        0 <= wire < n,
        sel0.bound() <= n,
        sel1.bound() <= n,
        first matches Some(x) ==> x.bound() <= n,
        second matches Some(y) ==> y.bound() <= n,
    ensures
        cell_rule(arms, first, second, sel0, sel1, wire, z) <==> cell_rule(
            arms,
            first,
            second,
            sel0,
            sel1,
            wire,
            w,
        ),
{
    broadcast use group_agree;

    assert(z(wire) == w(wire));
    assert(sel0.at(z) == sel0.at(w));
    assert(sel1.at(z) == sel1.at(w));
    if first is Some {
        assert((first->0).at(z) == (first->0).at(w));
    }
    if second is Some {
        assert((second->0).at(z) == (second->0).at(w));
    }
}

/// The wires that the tiers bind to a cell of one role.
pub struct RoleTables {
    pub first: Vec<Vec<Option<LinExpr>>>,
    pub second: Vec<Vec<Option<LinExpr>>>,
}

impl RoleTables {
    pub open spec fn first_at(&self, c: int, o: int) -> Option<LinForm> {
        opt_form(self.first@[c]@[o])
    }

    pub open spec fn second_at(&self, c: int, o: int) -> Option<LinForm> {
        opt_form(self.second@[c]@[o])
    }

    pub open spec fn bound_at(&self, c: int, o: int) -> bool {
        self.first@[c]@[o] is Some || self.second@[c]@[o] is Some
    }

    /// Tables over six columns of `len` cells; a single tier has no second
    /// source.
    pub open spec fn fits(&self, arms: int, len: int, n: nat) -> bool {
        &&& table_of(self.first@, len)
        &&& table_of(self.second@, len)
        &&& forall|c: int, o: int|
            0 <= c < 6 && 0 <= o < len ==> {
                &&& (#[trigger] self.first@[c]@[o] matches Some(x) ==> x.bound() <= n)
                &&& (self.second@[c]@[o] matches Some(y) ==> y.bound() <= n)
                &&& (arms == 1 ==> self.second@[c]@[o] is None)
            }
    }
}

/// A cell comes before another in the order of columns and slots.
pub open spec fn cell_before(c: int, o: int, to_c: int, to_o: int) -> bool {
    c < to_c || (c == to_c && o < to_o)
}

/// The rules of all bound cells before a place.
pub open spec fn rules_upto(
    tables: RoleTables,
    selectors: Seq<LinExpr>,
    slices: Seq<WitnessSlice>,
    len: int,
    to_c: int,
    to_o: int,
    z: spec_fn(int) -> u128,
) -> bool {
    forall|c: int, o: int|
        0 <= c < 6 && 0 <= o < len && cell_before(c, o, to_c, to_o) ==> #[trigger] cell_rule(
            selectors.len() as int,
            tables.first_at(c, o),
            tables.second_at(c, o),
            selectors[0]@,
            selectors[selectors.len() - 1]@,
            slices[c].first() + o,
            z,
        )
}

/// What a cell's row becomes as the walk over the cells reaches it.
spec fn progress(
    b: FieldR1csBuilder,
    before: FieldR1csBuilder,
    tables: RoleTables,
    selectors: Seq<LinExpr>,
    slices: Seq<WitnessSlice>,
    slots: RecordingSlots,
    slots0: RecordingSlots,
    len: int,
    c: int,
    o: int,
) -> bool {
    &&& tightens(b, before)
    &&& slots.open_in(b, slices, len)
    &&& forall|d: int, p: int|
        0 <= d < 6 && 0 <= p < len ==> #[trigger] slots.slots@[d]@[p] == if cell_before(d, p, c, o)
            && tables.bound_at(d, p) {
            None
        } else {
            slots0.slots@[d]@[p]
        }
    &&& forall|d: int, p: int|
        0 <= d < 6 && 0 <= p < len && cell_before(d, p, c, o) && #[trigger] tables.bound_at(d, p)
            ==> slots0.slots@[d]@[p] is Some
    &&& forall|z: spec_fn(int) -> u128| #[trigger]
        b.holds(z) ==> rules_upto(tables, selectors, slices, len, c, o, z)
    &&& (b.honest() <==> before.honest() && rules_upto(
        tables,
        selectors,
        slices,
        len,
        c,
        o,
        before.witness(),
    ))
}

/// All slices of the walk lie below `n`.
pub open spec fn columns_inside(slices: Seq<WitnessSlice>, w_log: usize, n: nat) -> bool {
    &&& six_columns(slices, w_log)
    &&& slices[0].first() + 6 * pow2(w_log as nat) <= n
}

pub proof fn lemma_cell_wire(
    slices: Seq<WitnessSlice>,
    w_log: usize,
    n: nat,
    c: int,
    o: int,
    d: int,
    p: int,
)
    requires
        columns_inside(slices, w_log, n),
        0 <= c < 6,
        0 <= d < 6,
        0 <= o < pow2(w_log as nat),
        0 <= p < pow2(w_log as nat),
    ensures
        slices[c].first() + o < n,
        slices[c].first() + o == slices[d].first() + p ==> c == d && o == p,
{
    let len = pow2(w_log as nat);
    assert(slices[c].first() == slices[0].first() + c * len);
    assert(slices[d].first() == slices[0].first() + d * len);
    assert(c * len + o < 6 * len) by (nonlinear_arith)
        requires
            c + 1 <= 6,
            o < len,
    ;
    if c < d {
        assert(c * len + o < d * len) by (nonlinear_arith)
            requires
                c + 1 <= d,
                o < len,
        ;
    }
    if d < c {
        assert(d * len + p < c * len) by (nonlinear_arith)
            requires
                d + 1 <= c,
                p < len,
        ;
    }
}

/// The rows of a cell, if a tier binds it at all.
#[verifier::opaque]
pub open spec fn role_cell_step(
    s: Shape,
    wire: nat,
    first: Option<LinForm>,
    second: Option<LinForm>,
    selectors: Seq<LinForm>,
) -> Shape {
    if first is None && second is None {
        s
    } else {
        cell_step(s, wire, first, second, selectors)
    }
}

/// The rows of the first `n` cells of one column of a role.
#[verifier::opaque]
pub open spec fn role_column_step(
    s: Shape,
    blocks: Seq<TierBlock>,
    recordings: Seq<RecordedWires>,
    selectors: Seq<LinForm>,
    slices: Seq<WitnessSlice>,
    c: int,
    n: nat,
) -> Shape
    decreases n,
{
    if n == 0 {
        s
    } else {
        role_cell_step(
            role_column_step(s, blocks, recordings, selectors, slices, c, (n - 1) as nat),
            (slices[c].first() + n - 1) as nat,
            role_form(blocks, recordings, 0, c, n - 1),
            role_form(blocks, recordings, 1, c, n - 1),
            selectors,
        )
    }
}

/// The rows of the first `n` columns of a role.
#[verifier::opaque]
pub open spec fn role_step(
    s: Shape,
    blocks: Seq<TierBlock>,
    recordings: Seq<RecordedWires>,
    selectors: Seq<LinForm>,
    slices: Seq<WitnessSlice>,
    len: nat,
    n: nat,
) -> Shape
    decreases n,
{
    if n == 0 {
        s
    } else {
        role_column_step(
            role_step(s, blocks, recordings, selectors, slices, len, (n - 1) as nat),
            blocks,
            recordings,
            selectors,
            slices,
            n - 1,
            len,
        )
    }
}

/// Binds one cell of a role, if a tier uses it.
fn bind_role_cell(
    b: &mut FieldR1csBuilder,
    tables: &RoleTables,
    selectors: &Vec<LinExpr>,
    slices: &Vec<WitnessSlice>,
    slots: &mut RecordingSlots,
    w_log: usize,
    c: usize,
    o: usize,
    Ghost(before): Ghost<FieldR1csBuilder>,
    Ghost(slots0): Ghost<RecordingSlots>,
) -> (r: bool)
    requires
        before.wf(),
        c < 6,
        o < pow2(w_log as nat),
        pow2(w_log as nat) <= usize::MAX,
        1 <= selectors@.len() <= 2,
        tables.fits(selectors@.len() as int, pow2(w_log as nat) as int, before.wires()),
        forall|i: int|
            0 <= i < selectors@.len() ==> (#[trigger] selectors@[i]).bound() <= before.wires(),
        columns_inside(slices@, w_log, before.wires()),
        progress(
            *old(b),
            before,
            *tables,
            selectors@,
            slices@,
            *old(slots),
            slots0,
            pow2(w_log as nat) as int,
            c as int,
            o as int,
        ),
    ensures
        r ==> progress(
            *final(b),
            before,
            *tables,
            selectors@,
            slices@,
            *final(slots),
            slots0,
            pow2(w_log as nat) as int,
            c as int,
            o + 1,
        ),
        r == !(tables.bound_at(c as int, o as int) && slots0.slots@[c as int]@[o as int] is None),
        tightens(*final(b), before),
        r ==> final(b).shape() == role_cell_step(
            old(b).shape(),
            (slices@[c as int].first() + o) as nat,
            tables.first_at(c as int, o as int),
            tables.second_at(c as int, o as int),
            forms(selectors@),
        ),
{
    reveal(role_cell_step);
    broadcast use group_agree;

    let ghost len = pow2(w_log as nat) as int;
    let ghost mid = *b;
    let ghost mid_slots = *slots;
    let ghost wire = slices@[c as int].first() + o;
    let ghost ci = c as int;
    let ghost oi = o as int;
    assert(tables.first@[ci]@.len() == len && tables.second@[ci]@.len() == len);
    assert(tables.first@[ci]@[oi] matches Some(x) ==> x.bound() <= before.wires());
    assert(slots.slots@[ci]@.len() == len);
    assert(mid_slots.slots@[ci]@[oi] == slots0.slots@[ci]@[oi]);
    let unbound = match (&tables.first[c][o], &tables.second[c][o]) {
        (None, None) => true,
        _ => false,
    };
    if unbound {
        proof {
            assert forall|z: spec_fn(int) -> u128| rules_upto(
                *tables,
                selectors@,
                slices@,
                len,
                ci,
                oi,
                z,
            ) == #[trigger] rules_upto(*tables, selectors@, slices@, len, ci, oi + 1, z) by {
                lemma_rules_step(*tables, selectors@, slices@, len, ci, oi, z);
            }
            assert forall|z: spec_fn(int) -> u128| #[trigger] b.holds(z) implies rules_upto(
                *tables,
                selectors@,
                slices@,
                len,
                ci,
                oi + 1,
                z,
            ) by {
                assert(rules_upto(*tables, selectors@, slices@, len, ci, oi, z));
            }
            assert forall|d: int, p: int| 0 <= d < 6 && 0 <= p < len implies #[trigger] slots.slots@[d]@[p]
                == if cell_before(d, p, ci, oi + 1) && tables.bound_at(d, p) {
                None
            } else {
                slots0.slots@[d]@[p]
            } by {}
        }
        return true;
    }
    let slot = match &slots.slots[c][o] {
        Some(slot) => DeferredConstraintSlot { wire: slot.wire },
        None => {
            return false;
        },
    };
    proof {
        lemma_cell_wire(slices@, w_log, before.wires(), ci, oi, ci, oi);
        assert(mid_slots.slots@[ci]@[oi] is Some);
    }
    let n = b.num_wires();
    let sealed = bind_cell(b, slot, &tables.first[c][o], &tables.second[c][o], selectors);
    slots.slots[c].set(o, None);
    proof {
        assert forall|d: int| 0 <= d < 6 implies (#[trigger] slots.slots@[d])@.len() == len by {
            assert(mid_slots.slots@[d]@.len() == len);
        }
        assert forall|d: int, p: int| 0 <= d < 6 && 0 <= p < len implies #[trigger] slots.slots@[d]@[p]
            == if d == ci && p == oi {
            None
        } else {
            mid_slots.slots@[d]@[p]
        } by {}
        assert forall|d: int, p: int|
            0 <= d < 6 && 0 <= p < len && #[trigger] slots.slots@[d]@[p] is Some implies slots.slots@[d]@[p]->0.wire
            == slices@[d].first() + p && b.is_open(slices@[d].first() + p) by {
            assert(mid_slots.slots@[d]@[p] is Some);
            lemma_cell_wire(slices@, w_log, before.wires(), d, p, ci, oi);
            assert(mid.is_open(slices@[d].first() + p));
        }
        assert forall|d: int, p: int| 0 <= d < 6 && 0 <= p < len implies #[trigger] slots.slots@[d]@[p]
            == if cell_before(d, p, ci, oi + 1) && tables.bound_at(d, p) {
            None
        } else {
            slots0.slots@[d]@[p]
        } by {
            assert(mid_slots.slots@[d]@[p] == if cell_before(d, p, ci, oi) && tables.bound_at(d, p) {
                None
            } else {
                slots0.slots@[d]@[p]
            });
        }
        assert forall|z: spec_fn(int) -> u128| #[trigger] b.holds(z) implies rules_upto(
            *tables,
            selectors@,
            slices@,
            len,
            ci,
            oi + 1,
            z,
        ) by {
            lemma_rules_step(*tables, selectors@, slices@, len, ci, oi, z);
            assert(mid.holds(z));
        }
        lemma_rules_step(*tables, selectors@, slices@, len, ci, oi, before.witness());
        assert(selectors@[0].bound() <= before.wires());
        assert(selectors@[selectors@.len() - 1].bound() <= before.wires());
        lemma_rule_agree(
            selectors@.len() as int,
            tables.first_at(ci, oi),
            tables.second_at(ci, oi),
            selectors@[0]@,
            selectors@[selectors@.len() - 1]@,
            wire,
            mid.witness(),
            before.witness(),
            before.wires(),
        );
    }
    true
}

/// Moving on by one cell adds that cell's rule, or nothing if it is unbound.
proof fn lemma_rules_step(
    tables: RoleTables,
    selectors: Seq<LinExpr>,
    slices: Seq<WitnessSlice>,
    len: int,
    c: int,
    o: int,
    z: spec_fn(int) -> u128,
)
    requires
        0 <= c < 6,
        0 <= o < len,
    ensures
        rules_upto(tables, selectors, slices, len, c, o + 1, z) <==> rules_upto(
            tables,
            selectors,
            slices,
            len,
            c,
            o,
            z,
        ) && cell_rule(
            selectors.len() as int,
            tables.first_at(c, o),
            tables.second_at(c, o),
            selectors[0]@,
            selectors[selectors.len() - 1]@,
            slices[c].first() + o,
            z,
        ),
{
    if rules_upto(tables, selectors, slices, len, c, o + 1, z) {
        assert(cell_before(c, o, c, o + 1));
        assert forall|d: int, p: int|
            0 <= d < 6 && 0 <= p < len && cell_before(d, p, c, o) implies #[trigger] cell_rule(
            selectors.len() as int,
            tables.first_at(d, p),
            tables.second_at(d, p),
            selectors[0]@,
            selectors[selectors.len() - 1]@,
            slices[d].first() + p,
            z,
        ) by {
            assert(cell_before(d, p, c, o + 1));
        }
    }
}

/// Two recordings of one role, one per tier: where they lie, and the wires of
/// their replays.
pub open spec fn role_fits(
    blocks: Seq<TierBlock>,
    recordings: Seq<RecordedWires>,
    len: int,
    n: nat,
) -> bool {
    forall|arm: int|
        0 <= arm < blocks.len() ==> {
            let block = #[trigger] blocks[arm];
            &&& block_inside(&block.layout, block.base as int, len)
            &&& cells_distinct(&block.layout, block.base as int)
            &&& recordings[arm].replays(&block.layout, n)
        }
}

/// The wire that tier `arm` binds to a cell of a role.
pub open spec fn role_form(
    blocks: Seq<TierBlock>,
    recordings: Seq<RecordedWires>,
    arm: int,
    c: int,
    o: int,
) -> Option<LinForm> {
    if arm < blocks.len() {
        bound_form(
            recordings[arm],
            &blocks[arm].layout,
            blocks[arm].base as int,
            RecordingCell { column: c as usize, offset: o as usize },
        )
    } else {
        None
    }
}

/// Every cell of a role follows its rule.
pub open spec fn role_rules(
    blocks: Seq<TierBlock>,
    recordings: Seq<RecordedWires>,
    selectors: Seq<LinExpr>,
    slices: Seq<WitnessSlice>,
    len: int,
    z: spec_fn(int) -> u128,
) -> bool {
    forall|c: int, o: int|
        0 <= c < 6 && 0 <= o < len ==> #[trigger] cell_rule(
            selectors.len() as int,
            role_form(blocks, recordings, 0, c, o),
            role_form(blocks, recordings, 1, c, o),
            selectors[0]@,
            selectors[selectors.len() - 1]@,
            slices[c].first() + o,
            z,
        )
}

/// Every cell that a tier binds has a deferred row.
pub open spec fn role_open(
    blocks: Seq<TierBlock>,
    recordings: Seq<RecordedWires>,
    slots: RecordingSlots,
    len: int,
) -> bool {
    forall|c: int, o: int|
        0 <= c < 6 && 0 <= o < len && (role_form(blocks, recordings, 0, c, o) is Some || role_form(
            blocks,
            recordings,
            1,
            c,
            o,
        ) is Some) ==> #[trigger] slots.slots@[c]@[o] is Some
}

/// What a role binds to a cell reads wires below `n`.
pub proof fn lemma_role_bound(
    blocks: Seq<TierBlock>,
    recordings: Seq<RecordedWires>,
    len: int,
    n: nat,
    arm: int,
    c: int,
    o: int,
)
    requires
        0 <= arm,
        role_fits(blocks, recordings, len, n),
    ensures
        role_form(blocks, recordings, arm, c, o) matches Some(x) ==> x.bound() <= n,
{
    if arm < blocks.len() {
        let layout = &blocks[arm].layout;
        let base = blocks[arm].base as int;
        let cells = block_cells(layout, base);
        let cell = RecordingCell { column: c as usize, offset: o as usize };
        assert(recordings[arm].replays(layout, n));
        if cells.contains(cell) {
            let i = cells.index_of(cell);
            assert(cells[i] == cell && 0 <= i < cells.len());
            let k = recordings[arm].challenge_wires@.len();
            if i < k {
                assert(recordings[arm].challenge_wires@[i].bound() <= n);
            } else {
                assert(recordings[arm].data_wires@[i - k].bound() <= n);
            }
        }
    }
}

fn empty_table(len: usize) -> (r: Vec<Vec<Option<LinExpr>>>)
    ensures
        table_of(r@, len as int),
        forall|c: int, o: int| 0 <= c < 6 && 0 <= o < len ==> #[trigger] r@[c]@[o] is None,
{
    let mut r: Vec<Vec<Option<LinExpr>>> = Vec::new();
    let mut c: usize = 0;
    while c < 6
        invariant
            c <= 6,
            r@.len() == c,
            forall|d: int| 0 <= d < c ==> (#[trigger] r@[d])@.len() == len,
            forall|d: int, o: int| 0 <= d < c && 0 <= o < len ==> #[trigger] r@[d]@[o] is None,
        decreases 6 - c,
    {
        let mut column: Vec<Option<LinExpr>> = Vec::new();
        let mut o: usize = 0;
        while o < len
            invariant
                o <= len,
                column@.len() == o,
                forall|k: int| 0 <= k < o ==> #[trigger] column@[k] is None,
            decreases len - o,
        {
            column.push(None);
            o = o + 1;
        }
        r.push(column);
        c = c + 1;
    }
    r
}

fn role_tables(
    blocks: &Vec<TierBlock>,
    recordings: &Vec<RecordedWires>,
    len: usize,
    Ghost(n): Ghost<nat>,
) -> (r: RoleTables)
    requires
        1 <= blocks@.len() <= 2,
        recordings@.len() == blocks@.len(),
        role_fits(blocks@, recordings@, len as int, n),
    ensures
        r.fits(blocks@.len() as int, len as int, n),
        forall|c: int, o: int|
            0 <= c < 6 && 0 <= o < len ==> #[trigger] r.first_at(c, o) == role_form(
                blocks@,
                recordings@,
                0,
                c,
                o,
            ),
        forall|c: int, o: int|
            0 <= c < 6 && 0 <= o < len ==> #[trigger] r.second_at(c, o) == role_form(
                blocks@,
                recordings@,
                1,
                c,
                o,
            ),
{
    assert(block_inside(&blocks@[0].layout, blocks@[0].base as int, len as int));
    let first = recording_block_bindings(
        &recordings[0],
        &blocks[0].layout,
        blocks[0].base,
        len,
        Ghost(n),
    );
    let second = if blocks.len() == 2 {
        assert(block_inside(&blocks@[1].layout, blocks@[1].base as int, len as int));
        recording_block_bindings(
            &recordings[1],
            &blocks[1].layout,
            blocks[1].base,
            len,
            Ghost(n),
        )
    } else {
        empty_table(len)
    };
    let r = RoleTables { first, second };
    proof {
        assert forall|c: int, o: int| 0 <= c < 6 && 0 <= o < len implies {
            &&& (#[trigger] r.first@[c]@[o] matches Some(x) ==> x.bound() <= n)
            &&& (r.second@[c]@[o] matches Some(y) ==> y.bound() <= n)
            &&& (blocks@.len() == 1 ==> r.second@[c]@[o] is None)
        } by {
            assert(first@[c]@[o] == r.first@[c]@[o]);
            assert(second@[c]@[o] == r.second@[c]@[o]);
        }
        assert forall|c: int, o: int| 0 <= c < 6 && 0 <= o < len implies #[trigger] r.first_at(c, o)
            == role_form(blocks@, recordings@, 0, c, o) by {
            assert(first@[c]@[o] == r.first@[c]@[o]);
        }
        assert forall|c: int, o: int| 0 <= c < 6 && 0 <= o < len implies #[trigger] r.second_at(
            c,
            o,
        ) == role_form(blocks@, recordings@, 1, c, o) by {
            assert(second@[c]@[o] == r.second@[c]@[o]);
        }
    }
    r
}

/// Binds one recording role shared by the possible parent tiers. The rows are
/// the same whichever tier is selected.
pub fn pin_selected_recording_role(
    b: &mut FieldR1csBuilder,
    blocks: &Vec<TierBlock>,
    recordings: &Vec<RecordedWires>,
    selectors: &Vec<LinExpr>,
    active_slot: usize,
    slices: &Vec<WitnessSlice>,
    slots: &mut RecordingSlots,
    w_log: usize,
) -> (r: Result<(), RegionSidecarError>)
    requires
        old(b).wf(),
        pow2(w_log as nat) <= usize::MAX,
        columns_inside(slices@, w_log, old(b).wires()),
        old(slots).open_in(*old(b), slices@, pow2(w_log as nat) as int),
        1 <= blocks@.len() <= 2 && recordings@.len() == blocks@.len() ==> role_fits(
            blocks@,
            recordings@,
            pow2(w_log as nat) as int,
            old(b).wires(),
        ),
        forall|i: int|
            0 <= i < selectors@.len() ==> (#[trigger] selectors@[i]).bound() <= old(b).wires(),
    ensures
        tightens(*final(b), *old(b)),
        r == if 1 <= blocks@.len() <= 2 && recordings@.len() == blocks@.len() && selectors@.len()
            == blocks@.len() && active_slot < blocks@.len() && role_open(
            blocks@,
            recordings@,
            *old(slots),
            pow2(w_log as nat) as int,
        ) {
            Ok::<(), RegionSidecarError>(())
        } else {
            Err::<(), _>(RegionSidecarError::UnsupportedVkShape)
        },
        r is Ok ==> {
            let len = pow2(w_log as nat) as int;
            &&& final(slots).open_in(*final(b), slices@, len)
            &&& forall|c: int, o: int|
                0 <= c < 6 && 0 <= o < len ==> #[trigger] final(slots).slots@[c]@[o] == if role_form(
                    blocks@,
                    recordings@,
                    0,
                    c,
                    o,
                ) is Some || role_form(blocks@, recordings@, 1, c, o) is Some {
                    None
                } else {
                    old(slots).slots@[c]@[o]
                }
            &&& forall|z: spec_fn(int) -> u128| #[trigger]
                final(b).holds(z) ==> role_rules(
                    blocks@,
                    recordings@,
                    selectors@,
                    slices@,
                    len,
                    z,
                )
            &&& (final(b).honest() <==> old(b).honest() && role_rules(
                blocks@,
                recordings@,
                selectors@,
                slices@,
                len,
                old(b).witness(),
            ))
        },
        r is Ok ==> final(b).shape() == role_step(
            old(b).shape(),
            blocks@,
            recordings@,
            forms(selectors@),
            slices@,
            pow2(w_log as nat),
            6,
        ),
{
    reveal(role_step);
    reveal(role_column_step);
    if blocks.len() < 1 || blocks.len() > 2 || recordings.len() != blocks.len() || selectors.len()
        != blocks.len() || active_slot >= blocks.len() {
        return Err(RegionSidecarError::UnsupportedVkShape);
    }
    let ghost before = *b;
    let ghost slots0 = *slots;
    let len = power_of_two(w_log);
    let tables = role_tables(blocks, recordings, len, Ghost(before.wires()));
    let mut c: usize = 0;
    while c < 6
        invariant
            c <= 6,
            len == pow2(w_log as nat),
            before.wf(),
            1 <= selectors@.len() <= 2,
            tables.fits(selectors@.len() as int, len as int, before.wires()),
            forall|i: int|
                0 <= i < selectors@.len() ==> (#[trigger] selectors@[i]).bound() <= before.wires(),
            columns_inside(slices@, w_log, before.wires()),
            progress(
                *b,
                before,
                tables,
                selectors@,
                slices@,
                *slots,
                slots0,
                len as int,
                c as int,
                0,
            ),
            before == *old(b),
            slots0 == *old(slots),
            1 <= blocks@.len() <= 2,
            recordings@.len() == blocks@.len(),
            active_slot < blocks@.len(),
            selectors@.len() == blocks@.len(),
            forall|d: int, p: int|
                0 <= d < 6 && 0 <= p < len ==> #[trigger] tables.first_at(d, p) == role_form(
                    blocks@,
                    recordings@,
                    0,
                    d,
                    p,
                ),
            forall|d: int, p: int|
                0 <= d < 6 && 0 <= p < len ==> #[trigger] tables.second_at(d, p) == role_form(
                    blocks@,
                    recordings@,
                    1,
                    d,
                    p,
                ),
            b.shape() == role_step(
                before.shape(),
                blocks@,
                recordings@,
                forms(selectors@),
                slices@,
                len as nat,
                c as nat,
            ),
        decreases 6 - c,
    {
        reveal(role_step);
        reveal(role_column_step);
        let ghost shape0 = b.shape();
        let mut o: usize = 0;
        while o < len
            invariant
                c < 6,
                o <= len,
                len == pow2(w_log as nat),
                before.wf(),
                1 <= selectors@.len() <= 2,
                tables.fits(selectors@.len() as int, len as int, before.wires()),
                forall|i: int|
                    0 <= i < selectors@.len() ==> (#[trigger] selectors@[i]).bound()
                        <= before.wires(),
                columns_inside(slices@, w_log, before.wires()),
                progress(
                    *b,
                    before,
                    tables,
                    selectors@,
                    slices@,
                    *slots,
                    slots0,
                    len as int,
                    c as int,
                    o as int,
                ),
                before == *old(b),
                slots0 == *old(slots),
                1 <= blocks@.len() <= 2,
                recordings@.len() == blocks@.len(),
                active_slot < blocks@.len(),
                selectors@.len() == blocks@.len(),
                forall|d: int, p: int|
                    0 <= d < 6 && 0 <= p < len ==> #[trigger] tables.first_at(d, p) == role_form(
                        blocks@,
                        recordings@,
                        0,
                        d,
                        p,
                    ),
                forall|d: int, p: int|
                    0 <= d < 6 && 0 <= p < len ==> #[trigger] tables.second_at(d, p) == role_form(
                        blocks@,
                        recordings@,
                        1,
                        d,
                        p,
                    ),
                b.shape() == role_column_step(
                    shape0,
                    blocks@,
                    recordings@,
                    forms(selectors@),
                    slices@,
                    c as int,
                    o as nat,
                ),
            decreases len - o,
        {
            reveal(role_column_step);
            let bound = bind_role_cell(
                b,
                &tables,
                selectors,
                slices,
                slots,
                w_log,
                c,
                o,
                Ghost(before),
                Ghost(slots0),
            );
            if !bound {
                proof {
                    let ci = c as int;
                    let oi = o as int;
                    assert(tables.first_at(ci, oi) == role_form(blocks@, recordings@, 0, ci, oi));
                    assert(tables.second_at(ci, oi) == role_form(blocks@, recordings@, 1, ci, oi));
                    assert(slots0.slots@[ci]@[oi] is None);
                }
                return Err(RegionSidecarError::UnsupportedVkShape);
            }
            o = o + 1;
        }
        proof {
            lemma_next_column(
                *b,
                before,
                tables,
                selectors@,
                slices@,
                *slots,
                slots0,
                len as int,
                c as int,
            );
        }
        c = c + 1;
    }
    proof {
        let l = len as int;
        assert forall|z: spec_fn(int) -> u128| rules_upto(
            tables,
            selectors@,
            slices@,
            l,
            6,
            0,
            z,
        ) <==> #[trigger] role_rules(blocks@, recordings@, selectors@, slices@, l, z) by {
            lemma_all_rules(tables, blocks@, recordings@, selectors@, slices@, l, z);
        }
        assert forall|z: spec_fn(int) -> u128| #[trigger] b.holds(z) implies role_rules(
            blocks@,
            recordings@,
            selectors@,
            slices@,
            l,
            z,
        ) by {
            assert(rules_upto(tables, selectors@, slices@, l, 6, 0, z));
        }
        assert(role_rules(blocks@, recordings@, selectors@, slices@, l, before.witness())
            <==> rules_upto(tables, selectors@, slices@, l, 6, 0, before.witness()));
        assert forall|d: int, p: int| 0 <= d < 6 && 0 <= p < l implies #[trigger] slots.slots@[d]@[p]
            == if role_form(blocks@, recordings@, 0, d, p) is Some || role_form(
            blocks@,
            recordings@,
            1,
            d,
            p,
        ) is Some {
            None
        } else {
            slots0.slots@[d]@[p]
        } by {
            assert(tables.first_at(d, p) == role_form(blocks@, recordings@, 0, d, p));
            assert(tables.second_at(d, p) == role_form(blocks@, recordings@, 1, d, p));
            assert(cell_before(d, p, 6, 0));
        }
        assert forall|d: int, p: int|
            0 <= d < 6 && 0 <= p < l && (role_form(blocks@, recordings@, 0, d, p) is Some
                || role_form(blocks@, recordings@, 1, d, p) is Some) implies #[trigger] slots0.slots@[d]@[p]
            is Some by {
            assert(tables.first_at(d, p) == role_form(blocks@, recordings@, 0, d, p));
            assert(tables.second_at(d, p) == role_form(blocks@, recordings@, 1, d, p));
            assert(tables.bound_at(d, p));
            assert(cell_before(d, p, 6, 0));
        }
    }
    Ok(())
}

/// The end of a column is the start of the next.
proof fn lemma_next_column(
    b: FieldR1csBuilder,
    before: FieldR1csBuilder,
    tables: RoleTables,
    selectors: Seq<LinExpr>,
    slices: Seq<WitnessSlice>,
    slots: RecordingSlots,
    slots0: RecordingSlots,
    len: int,
    c: int,
)
    requires
        progress(b, before, tables, selectors, slices, slots, slots0, len, c, len),
    ensures
        progress(b, before, tables, selectors, slices, slots, slots0, len, c + 1, 0),
{
    assert forall|z: spec_fn(int) -> u128| rules_upto(tables, selectors, slices, len, c, len, z)
        <==> #[trigger] rules_upto(tables, selectors, slices, len, c + 1, 0, z) by {
        if rules_upto(tables, selectors, slices, len, c, len, z) {
            assert forall|d: int, p: int|
                0 <= d < 6 && 0 <= p < len && cell_before(d, p, c + 1, 0) implies #[trigger] cell_rule(
                selectors.len() as int,
                tables.first_at(d, p),
                tables.second_at(d, p),
                selectors[0]@,
                selectors[selectors.len() - 1]@,
                slices[d].first() + p,
                z,
            ) by {
                assert(cell_before(d, p, c, len));
            }
        }
        if rules_upto(tables, selectors, slices, len, c + 1, 0, z) {
            assert forall|d: int, p: int|
                0 <= d < 6 && 0 <= p < len && cell_before(d, p, c, len) implies #[trigger] cell_rule(
                selectors.len() as int,
                tables.first_at(d, p),
                tables.second_at(d, p),
                selectors[0]@,
                selectors[selectors.len() - 1]@,
                slices[d].first() + p,
                z,
            ) by {
                assert(cell_before(d, p, c + 1, 0));
            }
        }
    }
    assert forall|z: spec_fn(int) -> u128| #[trigger] b.holds(z) implies rules_upto(
        tables,
        selectors,
        slices,
        len,
        c + 1,
        0,
        z,
    ) by {
        assert(rules_upto(tables, selectors, slices, len, c, len, z));
    }
    assert(rules_upto(tables, selectors, slices, len, c, len, before.witness()) <==> rules_upto(
        tables,
        selectors,
        slices,
        len,
        c + 1,
        0,
        before.witness(),
    ));
}

proof fn lemma_all_rules(
    tables: RoleTables,
    blocks: Seq<TierBlock>,
    recordings: Seq<RecordedWires>,
    selectors: Seq<LinExpr>,
    slices: Seq<WitnessSlice>,
    len: int,
    z: spec_fn(int) -> u128,
)
    requires
        forall|d: int, p: int|
            0 <= d < 6 && 0 <= p < len ==> #[trigger] tables.first_at(d, p) == role_form(
                blocks,
                recordings,
                0,
                d,
                p,
            ),
        forall|d: int, p: int|
            0 <= d < 6 && 0 <= p < len ==> #[trigger] tables.second_at(d, p) == role_form(
                blocks,
                recordings,
                1,
                d,
                p,
            ),
    ensures
        rules_upto(tables, selectors, slices, len, 6, 0, z) <==> role_rules(
            blocks,
            recordings,
            selectors,
            slices,
            len,
            z,
        ),
{
    if rules_upto(tables, selectors, slices, len, 6, 0, z) {
        assert forall|c: int, o: int| 0 <= c < 6 && 0 <= o < len implies #[trigger] cell_rule(
            selectors.len() as int,
            role_form(blocks, recordings, 0, c, o),
            role_form(blocks, recordings, 1, c, o),
            selectors[0]@,
            selectors[selectors.len() - 1]@,
            slices[c].first() + o,
            z,
        ) by {
            assert(cell_before(c, o, 6, 0));
            assert(tables.first_at(c, o) == role_form(blocks, recordings, 0, c, o));
            assert(tables.second_at(c, o) == role_form(blocks, recordings, 1, c, o));
            assert(cell_rule(
                selectors.len() as int,
                tables.first_at(c, o),
                tables.second_at(c, o),
                selectors[0]@,
                selectors[selectors.len() - 1]@,
                slices[c].first() + o,
                z,
            ));
        }
    }
    if role_rules(blocks, recordings, selectors, slices, len, z) {
        assert forall|c: int, o: int|
            0 <= c < 6 && 0 <= o < len && cell_before(c, o, 6, 0) implies #[trigger] cell_rule(
            selectors.len() as int,
            tables.first_at(c, o),
            tables.second_at(c, o),
            selectors[0]@,
            selectors[selectors.len() - 1]@,
            slices[c].first() + o,
            z,
        ) by {
            assert(tables.first_at(c, o) == role_form(blocks, recordings, 0, c, o));
            assert(tables.second_at(c, o) == role_form(blocks, recordings, 1, c, o));
            assert(cell_rule(
                selectors.len() as int,
                role_form(blocks, recordings, 0, c, o),
                role_form(blocks, recordings, 1, c, o),
                selectors[0]@,
                selectors[selectors.len() - 1]@,
                slices[c].first() + o,
                z,
            ));
        }
    }
}

} // verus!
