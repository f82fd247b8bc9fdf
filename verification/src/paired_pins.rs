//! The copies inside paired updates, cell by cell.
use crate::circuit::{const_form, group_agree, FieldR1csBuilder, LinExpr};
use crate::columns::{pin_stage2_cells, slot_cell, CellPin, WitnessSlice};
use crate::field::F128;
use crate::region_layout::TiledWalkLayout;
use crate::selected_region::{nine_columns, paired_update_base, update_base};
use crate::trace::{pin_eq, refines};
use crate::circuit::{wire_form, Shape};
use crate::trace::pin_eq_step;
use crate::columns::cells_step;
use vstd::prelude::*;

verus! {

broadcast use group_agree;

/// Two cells of the nine columns that carry the same value.
#[derive(Clone, Copy, Debug, PartialEq, Eq, Structural)]
pub struct CellCopy {
    pub column: usize,
    pub slot: usize,
    pub from_column: usize,
    pub from_slot: usize,
}

pub open spec fn copy_of(column: int, slot: int, from_column: int, from_slot: int) -> CellCopy {
    CellCopy {
        column: column as usize,
        slot: slot as usize,
        from_column: from_column as usize,
        from_slot: from_slot as usize,
    }
}

/// A copy under an assignment.
pub open spec fn copy_holds(c: CellCopy, slices: Seq<WitnessSlice>, z: spec_fn(int) -> u128) -> bool {
    z((slices[c.column as int].first() + c.slot) as int) == z(
        (slices[c.from_column as int].first() + c.from_slot) as int,
    )
}

pub open spec fn copies_hold(
    copies: Seq<CellCopy>,
    slices: Seq<WitnessSlice>,
    z: spec_fn(int) -> u128,
    n: nat,
) -> bool {
    forall|i: int| 0 <= i < n ==> copy_holds(#[trigger] copies[i], slices, z)
}

/// The copies of one level, whose four slots start at `at`: both siblings and
/// the direction along the level, the old digest into the last slot, and, above
/// the first level, the new digest of the level below.
pub open spec fn level_copies(at: int, level: int) -> Seq<CellCopy> {
    let along = seq![
        copy_of(6, at + 1, 6, at),
        copy_of(6, at + 2, 6, at + 1),
        copy_of(6, at + 3, 6, at + 2),
        copy_of(7, at + 1, 7, at),
        copy_of(7, at + 2, 7, at + 1),
        copy_of(7, at + 3, 7, at + 2),
        copy_of(8, at + 1, 8, at),
        copy_of(8, at + 2, 8, at + 1),
        copy_of(8, at + 3, 8, at + 2),
    ];
    if level > 0 {
        along + seq![
            copy_of(4, at + 3, 0, at + 1),
            copy_of(4, at + 1, 0, at - 1),
            copy_of(5, at + 3, 1, at + 1),
            copy_of(5, at + 1, 1, at - 1),
        ]
    } else {
        along + seq![copy_of(4, at + 3, 0, at + 1), copy_of(5, at + 3, 1, at + 1)]
    }
}

/// The copies of the first `n` levels of an update.
pub open spec fn update_copies(base: int, n: nat) -> Seq<CellCopy>
    decreases n,
{
    if n == 0 {
        seq![]
    } else {
        update_copies(base, (n - 1) as nat) + level_copies(base + 4 * (n - 1), n - 1)
    }
}

/// The copies of the first `n` updates of a family of one block.
pub open spec fn family_copies(base: int, n: nat) -> Seq<CellCopy>
    decreases n,
{
    if n == 0 {
        seq![]
    } else {
        family_copies(base, (n - 1) as nat) + update_copies(base + 64 * (n - 1), 16)
    }
}

/// The copies of the first `n` blocks: the local family, then the upper one.
pub open spec fn blocks_copies(
    block_slots: int,
    local_base: int,
    upper_base: int,
    local_cap: nat,
    upper_cap: nat,
    n: nat,
) -> Seq<CellCopy>
    decreases n,
{
    if n == 0 {
        seq![]
    } else {
        blocks_copies(block_slots, local_base, upper_base, local_cap, upper_cap, (n - 1) as nat)
            + family_copies(block_start(block_slots, n - 1) + local_base, local_cap)
            + family_copies(block_start(block_slots, n - 1) + upper_base, upper_cap)
    }
}

pub open spec fn block_start(block_slots: int, block: int) -> int {
    block * block_slots
}

/// Every copy lies in the columns.
pub open spec fn copies_inside(copies: Seq<CellCopy>, slots: nat) -> bool {
    forall|i: int|
        0 <= i < copies.len() ==> {
            let c = #[trigger] copies[i];
            c.column < 9 && c.from_column < 9 && c.slot < slots && c.from_slot < slots
        }
}

fn cell_copy(column: usize, slot: usize, from_column: usize, from_slot: usize) -> (r: CellCopy)
    ensures
        r == copy_of(column as int, slot as int, from_column as int, from_slot as int),
{
    CellCopy { column, slot, from_column, from_slot }
}

fn push_level(copies: &mut Vec<CellCopy>, at: usize, level: usize, Ghost(slots): Ghost<nat>)
    requires
        at + 4 <= slots <= usize::MAX,
        level > 0 ==> at > 0,
        copies_inside(old(copies)@, slots),
    ensures
        final(copies)@ == old(copies)@ + level_copies(at as int, level as int),
        copies_inside(final(copies)@, slots),
{
    let ghost before = copies@;
    copies.push(cell_copy(6, at + 1, 6, at));
    copies.push(cell_copy(6, at + 2, 6, at + 1));
    copies.push(cell_copy(6, at + 3, 6, at + 2));
    copies.push(cell_copy(7, at + 1, 7, at));
    copies.push(cell_copy(7, at + 2, 7, at + 1));
    copies.push(cell_copy(7, at + 3, 7, at + 2));
    copies.push(cell_copy(8, at + 1, 8, at));
    copies.push(cell_copy(8, at + 2, 8, at + 1));
    copies.push(cell_copy(8, at + 3, 8, at + 2));
    copies.push(cell_copy(4, at + 3, 0, at + 1));
    if level > 0 {
        copies.push(cell_copy(4, at + 1, 0, at - 1));
    }
    copies.push(cell_copy(5, at + 3, 1, at + 1));
    if level > 0 {
        copies.push(cell_copy(5, at + 1, 1, at - 1));
    }
    proof {
        assert(copies@ =~= before + level_copies(at as int, level as int));
        assert forall|i: int| 0 <= i < copies@.len() implies {
            let c = #[trigger] copies@[i];
            c.column < 9 && c.from_column < 9 && c.slot < slots && c.from_slot < slots
        } by {
            if i < before.len() {
                assert(copies@[i] == before[i]);
            }
        }
    }
}

fn push_family(copies: &mut Vec<CellCopy>, base: usize, cap: usize, Ghost(slots): Ghost<nat>)
    requires
        base + 64 * cap <= slots <= usize::MAX,
        copies_inside(old(copies)@, slots),
    ensures
        final(copies)@ == old(copies)@ + family_copies(base as int, cap as nat),
        copies_inside(final(copies)@, slots),
{
    let ghost before = copies@;
    let mut u: usize = 0;
    assert(copies@ =~= before + family_copies(base as int, 0));
    while u < cap
        invariant
            u <= cap,
            base + 64 * cap <= slots <= usize::MAX,
            copies_inside(copies@, slots),
            copies@ == before + family_copies(base as int, u as nat),
        decreases cap - u,
    {
        let ghost mid = copies@;
        let start = base + 64 * u;
        let mut level: usize = 0;
        assert(copies@ =~= mid + update_copies(start as int, 0));
        while level < 16
            invariant
                level <= 16,
                start + 64 <= slots <= usize::MAX,
                copies_inside(copies@, slots),
                copies@ == mid + update_copies(start as int, level as nat),
            decreases 16 - level,
        {
            push_level(copies, start + 4 * level, level, Ghost(slots));
            assert(copies@ =~= mid + update_copies(start as int, (level + 1) as nat));
            level = level + 1;
        }
        assert(copies@ =~= before + family_copies(base as int, (u + 1) as nat));
        u = u + 1;
    }
}

/// The rows of the first `n` copies.
#[verifier::opaque]
pub open spec fn copies_step(s: Shape, slices: Seq<WitnessSlice>, copies: Seq<CellCopy>, n: nat) -> Shape
    decreases n,
{
    if n == 0 {
        s
    } else {
        let c = copies[n - 1];
        pin_eq_step(
            copies_step(s, slices, copies, (n - 1) as nat),
            wire_form((slices[c.from_column as int].first() + c.from_slot) as nat),
            wire_form((slices[c.column as int].first() + c.slot) as nat),
        )
    }
}

/// Pins every copy.
fn pin_copies(
    b: &mut FieldR1csBuilder,
    slices: &Vec<WitnessSlice>,
    copies: &Vec<CellCopy>,
    Ghost(slots): Ghost<nat>,
)
    requires
        old(b).wf(),
        nine_columns(slices@, slots),
        forall|c: int| 0 <= c < 9 ==> (#[trigger] slices@[c]).first() + slots <= old(b).wires(),
        copies_inside(copies@, slots),
    ensures
        refines(*final(b), *old(b)),
        old(b).gate_list().len() == 0 ==> final(b).wires() == old(b).wires() + copies@.len(),
        forall|z: spec_fn(int) -> u128| #[trigger]
            final(b).holds(z) && old(b).live(z) ==> copies_hold(
                copies@,
                slices@,
                z,
                copies@.len(),
            ),
        old(b).live(old(b).witness()) ==> (final(b).honest() <==> old(b).honest() && copies_hold(
            copies@,
            slices@,
            old(b).witness(),
            copies@.len(),
        )),
        final(b).shape() == copies_step(old(b).shape(), slices@, copies@, copies@.len()),
{
    reveal(copies_step);
    let ghost before = *b;
    let ghost w = b.witness();
    let mut i: usize = 0;
    while i < copies.len()
        invariant
            i <= copies@.len(),
            before.wf(),
            w == before.witness(),
            refines(*b, before),
            nine_columns(slices@, slots),
            forall|c: int|
                0 <= c < 9 ==> (#[trigger] slices@[c]).first() + slots <= before.wires(),
            copies_inside(copies@, slots),
            before.gate_list().len() == 0 ==> b.wires() == before.wires() + i,
            forall|z: spec_fn(int) -> u128| #[trigger]
                b.holds(z) && before.live(z) ==> copies_hold(copies@, slices@, z, i as nat),
            before.live(w) ==> (b.honest() <==> before.honest() && copies_hold(
                copies@,
                slices@,
                w,
                i as nat,
            )),
            b.shape() == copies_step(before.shape(), slices@, copies@, i as nat),
        decreases copies@.len() - i,
    {
        reveal(copies_step);
        let ghost start = *b;
        let c = copies[i];
        assert(copies@[i as int].column < 9);
        assert(slices@[c.column as int].first() + slots <= before.wires());
        assert(slices@[c.from_column as int].first() + slots <= before.wires());
        let to = slot_cell(&slices[c.column], c.slot);
        let from = slot_cell(&slices[c.from_column], c.from_slot);
        pin_eq(b, &from, &to);
        proof {
            assert forall|z: spec_fn(int) -> u128| #[trigger]
                b.holds(z) && before.live(z) implies copies_hold(
                copies@,
                slices@,
                z,
                (i + 1) as nat,
            ) by {
                assert(start.holds(z) && start.live(z));
                assert(copy_holds(c, slices@, z));
            }
            if before.live(w) {
                assert(to@.at(start.witness()) == to@.at(w));
                assert(from@.at(start.witness()) == from@.at(w));
                assert(copies_hold(copies@, slices@, w, (i + 1) as nat) <==> copies_hold(
                    copies@,
                    slices@,
                    w,
                    i as nat,
                ) && copy_holds(c, slices@, w)) by {
                    if copies_hold(copies@, slices@, w, (i + 1) as nat) {
                        assert(copy_holds(copies@[i as int], slices@, w));
                    }
                }
            }
        }
        i = i + 1;
    }
}

/// Both families of every block lie inside the walk.
pub open spec fn families_inside(
    layout: &TiledWalkLayout,
    local_base: int,
    upper_base: int,
    local_cap: int,
    upper_cap: int,
) -> bool {
    &&& layout.block_slots > 0
    &&& local_base + 64 * local_cap <= layout.block_slots
    &&& upper_base + 64 * upper_cap <= layout.block_slots
}

/// Pins the copies inside every update of every block.
pub fn pin_paired_consistency_cells(
    b: &mut FieldR1csBuilder,
    slices: &Vec<WitnessSlice>,
    layout: &TiledWalkLayout,
    local_base: usize,
    upper_base: usize,
    local_cap: usize,
    upper_cap: usize,
)
    requires
        old(b).wf(),
        nine_columns(slices@, layout.slots as nat),
        forall|c: int|
            0 <= c < 9 ==> (#[trigger] slices@[c]).first() + layout.slots <= old(b).wires(),
        families_inside(
            layout,
            local_base as int,
            upper_base as int,
            local_cap as int,
            upper_cap as int,
        ),
    ensures
        refines(*final(b), *old(b)),
        ({
            let copies = blocks_copies(
                layout.block_slots as int,
                local_base as int,
                upper_base as int,
                local_cap as nat,
                upper_cap as nat,
                (layout.slots / layout.block_slots) as nat,
            );
            &&& (old(b).gate_list().len() == 0 ==> final(b).wires() == old(b).wires()
                + copies.len())
            &&& forall|z: spec_fn(int) -> u128| #[trigger]
                final(b).holds(z) && old(b).live(z) ==> copies_hold(
                    copies,
                    slices@,
                    z,
                    copies.len(),
                )
            &&& (old(b).live(old(b).witness()) ==> (final(b).honest() <==> old(b).honest()
                && copies_hold(copies, slices@, old(b).witness(), copies.len())))
        }),
        ({
            let copies = blocks_copies(
                layout.block_slots as int,
                local_base as int,
                upper_base as int,
                local_cap as nat,
                upper_cap as nat,
                (layout.slots / layout.block_slots) as nat,
            );
            final(b).shape() == copies_step(old(b).shape(), slices@, copies, copies.len())
        }),
{
    let blocks = layout.slots / layout.block_slots;
    let size = layout.block_slots;
    let ghost slots = layout.slots as nat;
    let mut copies: Vec<CellCopy> = Vec::new();
    let mut block: usize = 0;
    let mut start: usize = 0;
    proof {
        vstd::arithmetic::div_mod::lemma_fundamental_div_mod(slots as int, size as int);
        assert(copies@ =~= blocks_copies(
            size as int,
            local_base as int,
            upper_base as int,
            local_cap as nat,
            upper_cap as nat,
            0,
        ));
    }
    while block < blocks
        invariant
            block <= blocks,
            size == layout.block_slots,
            size > 0,
            slots == layout.slots,
            size * blocks <= slots,
            start == block_start(size as int, block as int),
            start <= slots,
            local_base + 64 * local_cap <= size,
            upper_base + 64 * upper_cap <= size,
            copies_inside(copies@, slots),
            copies@ == blocks_copies(
                size as int,
                local_base as int,
                upper_base as int,
                local_cap as nat,
                upper_cap as nat,
                block as nat,
            ),
        decreases blocks - block,
    {
        proof {
            assert(start + size == (block + 1) * size && (block + 1) * size <= size * blocks)
                by (nonlinear_arith)
                requires
                    start == block * size,
                    block + 1 <= blocks,
                    size > 0,
            ;
        }
        push_family(&mut copies, start + local_base, local_cap, Ghost(slots));
        push_family(&mut copies, start + upper_base, upper_cap, Ghost(slots));
        proof {
            assert(copies@ =~= blocks_copies(
                size as int,
                local_base as int,
                upper_base as int,
                local_cap as nat,
                upper_cap as nat,
                (block + 1) as nat,
            ));
        }
        start = start + size;
        block = block + 1;
    }
    pin_copies(b, slices, &copies, Ghost(slots));
}

// ---------------------------------------------------------------------------
// The updates past the capacity of the class.
// ---------------------------------------------------------------------------
/// The cells of the canonical update of no state: nine columns of 64 cells.
pub open spec fn ghost_update(ghost_cells: Seq<Vec<F128>>) -> bool {
    &&& ghost_cells.len() == 9
    &&& forall|c: int| 0 <= c < 9 ==> (#[trigger] ghost_cells[c])@.len() == 64
}

/// The update at `base` is the canonical one.
pub open spec fn is_ghost(
    slices: Seq<WitnessSlice>,
    ghost_cells: Seq<Vec<F128>>,
    base: int,
    z: spec_fn(int) -> u128,
) -> bool {
    forall|c: int, o: int|
        0 <= c < 9 && 0 <= o < 64 ==> z((slices[c].first() + base + o) as int)
            == #[trigger] ghost_cells[c]@[o]@
}

/// A pin of one cell to one value.
pub open spec fn value_pin(pin: CellPin, column: int, slot: int, value: F128) -> bool {
    &&& pin.column == column
    &&& pin.slot == slot
    &&& pin.wire@ == const_form(value@)
}

/// Pins one update to the canonical one.
fn push_ghost_pins(
    pins: &mut Vec<CellPin>,
    ghost_cells: &Vec<Vec<F128>>,
    base: usize,
    Ghost(slices): Ghost<Seq<WitnessSlice>>,
    Ghost(n): Ghost<nat>,
    Ghost(slots): Ghost<nat>,
)
    requires
        ghost_update(ghost_cells@),
        base + 64 <= slots <= usize::MAX,
        nine_columns(slices, slots),
        forall|c: int| 0 <= c < 9 ==> (#[trigger] slices[c]).first() + slots <= n,
        crate::columns::pins_bounded(old(pins)@, slices, n),
    ensures
        crate::columns::pins_bounded(final(pins)@, slices, n),
        final(pins)@.len() == old(pins)@.len() + 576,
        forall|z: spec_fn(int) -> u128| #[trigger]
            crate::columns::pins_hold(final(pins)@, slices, z, final(pins)@.len()) <==> (
            crate::columns::pins_hold(old(pins)@, slices, z, old(pins)@.len()) && is_ghost(
                slices,
                ghost_cells@,
                base as int,
                z,
            )),
        forall|i: int| 0 <= i < old(pins)@.len() ==> final(pins)@[i] == #[trigger] old(pins)@[i],
        forall|k: int, o: int|
            #![trigger ghost_cells@[k]@[o]]
            0 <= k < 9 && 0 <= o < 64 ==> value_pin(
                final(pins)@[old(pins)@.len() + 64 * k + o],
                k,
                base + o,
                ghost_cells@[k]@[o],
            ),
{
    let ghost before = pins@;
    let mut c: usize = 0;
    while c < 9
        invariant
            c <= 9,
            ghost_update(ghost_cells@),
            base + 64 <= slots <= usize::MAX,
            nine_columns(slices, slots),
            forall|k: int| 0 <= k < 9 ==> (#[trigger] slices[k]).first() + slots <= n,
            crate::columns::pins_bounded(pins@, slices, n),
            pins@.len() == before.len() + 64 * c,
            forall|i: int| 0 <= i < before.len() ==> pins@[i] == #[trigger] before[i],
            forall|k: int, o: int|
                #![trigger ghost_cells@[k]@[o]]
                0 <= k < c && 0 <= o < 64 ==> value_pin(pins@[before.len() + 64 * k + o], k, base + o, ghost_cells@[k]@[o]),
        decreases 9 - c,
    {
        let ghost mid = pins@;
        let mut o: usize = 0;
        assert(ghost_cells@[c as int]@.len() == 64);
        while o < 64
            invariant
                o <= 64,
                c < 9,
                ghost_update(ghost_cells@),
                ghost_cells@[c as int]@.len() == 64,
                base + 64 <= slots <= usize::MAX,
                nine_columns(slices, slots),
                forall|k: int| 0 <= k < 9 ==> (#[trigger] slices[k]).first() + slots <= n,
                crate::columns::pins_bounded(pins@, slices, n),
                pins@.len() == mid.len() + o,
                forall|i: int| 0 <= i < mid.len() ==> pins@[i] == #[trigger] mid[i],
                forall|k: int|
                    #![trigger ghost_cells@[c as int]@[k]]
                    0 <= k < o ==> value_pin(pins@[mid.len() + k], c as int, base + k, ghost_cells@[c as int]@[k]),
            decreases 64 - o,
        {
            let ghost last = pins@;
            let value = ghost_cells[c][o];
            assert(slices[c as int].first() + slots <= n);
            pins.push(CellPin { column: c, slot: base + o, wire: LinExpr::constant(value) });
            proof {
                assert forall|i: int| 0 <= i < pins@.len() implies ({
                    let pin = #[trigger] pins@[i];
                    &&& pin.wire.bound() <= n
                    &&& pin.column < slices.len()
                    &&& slices[pin.column as int].first() + pin.slot < n
                    &&& slices[pin.column as int].size() <= usize::MAX
                }) by {
                    if i < last.len() {
                        assert(pins@[i] == last[i]);
                    }
                }
                assert forall|i: int| 0 <= i < mid.len() implies pins@[i] == #[trigger] mid[i] by {
                    assert(last[i] == mid[i]);
                }
                assert forall|k: int|
                    #![trigger ghost_cells@[c as int]@[k]]
                    0 <= k < o + 1 implies value_pin(pins@[mid.len() + k], c as int, base + k, ghost_cells@[c as int]@[k]) by {
                    if k < o {
                        assert(pins@[mid.len() + k] == last[mid.len() + k]);
                    } else {
                        assert(value == ghost_cells@[c as int]@[k]);
                    }
                }
            }
            o = o + 1;
        }
        proof {
            assert forall|i: int| 0 <= i < before.len() implies pins@[i] == #[trigger] before[i] by {
                assert(pins@[i] == mid[i]);
            }
            assert forall|k: int, q: int|
                #![trigger ghost_cells@[k]@[q]]
                0 <= k < c + 1 && 0 <= q < 64 implies value_pin(pins@[before.len() + 64 * k + q], k, base + q, ghost_cells@[k]@[q]) by {
                if k < c {
                    let at = before.len() + 64 * k + q;
                    assert(at < mid.len());
                    assert(pins@[at] == mid[at]);
                } else {
                    assert(ghost_cells@[c as int]@[q] == ghost_cells@[k]@[q]);
                    assert(value_pin(pins@[mid.len() + q], c as int, base + q, ghost_cells@[k]@[q]));
                }
            }
        }
        c = c + 1;
    }
    proof {
        assert forall|z: spec_fn(int) -> u128| #[trigger]
            crate::columns::pins_hold(pins@, slices, z, pins@.len()) <==> (
        crate::columns::pins_hold(before, slices, z, before.len()) && is_ghost(
            slices,
            ghost_cells@,
            base as int,
            z,
        )) by {
            if crate::columns::pins_hold(pins@, slices, z, pins@.len()) {
                assert forall|i: int| 0 <= i < before.len() implies crate::columns::pin_holds(
                    #[trigger] before[i],
                    slices,
                    z,
                ) by {
                    assert(pins@[i] == before[i]);
                    assert(crate::columns::pin_holds(pins@[i], slices, z));
                }
                assert forall|k: int, o: int| 0 <= k < 9 && 0 <= o < 64 implies z(
                    (slices[k].first() + base + o) as int,
                ) == #[trigger] ghost_cells@[k]@[o]@ by {
                    let pin = pins@[before.len() + 64 * k + o];
                    assert(crate::columns::pin_holds(pin, slices, z));
                    crate::circuit::lemma_forms(ghost_cells@[k]@[o]@, 0, z);
                }
            }
            if crate::columns::pins_hold(before, slices, z, before.len()) && is_ghost(
                slices,
                ghost_cells@,
                base as int,
                z,
            ) {
                assert forall|i: int| 0 <= i < pins@.len() implies crate::columns::pin_holds(
                    #[trigger] pins@[i],
                    slices,
                    z,
                ) by {
                    if i < before.len() {
                        assert(pins@[i] == before[i]);
                    } else {
                        let k = (i - before.len()) / 64;
                        let o = (i - before.len()) % 64;
                        assert(0 <= k < 9 && 0 <= o < 64 && i == before.len() + 64 * k + o);
                        assert(z((slices[k].first() + base + o) as int) == ghost_cells@[k]@[o]@);
                        crate::circuit::lemma_forms(ghost_cells@[k]@[o]@, 0, z);
                    }
                }
            }
        }
    }
}

/// The updates of a family from the class capacity up to the tiled capacity are
/// canonical.
pub open spec fn overhang_ghost(
    slices: Seq<WitnessSlice>,
    ghost_cells: Seq<Vec<F128>>,
    layout: &TiledWalkLayout,
    family_base: int,
    cap: int,
    from: int,
    to: int,
    z: spec_fn(int) -> u128,
) -> bool {
    forall|o: int|
        from <= o < to ==> is_ghost(
            slices,
            ghost_cells,
            #[trigger] update_base(layout, family_base, cap, o),
            z,
        )
}

/// The pins of the updates past the capacity: every cell of every update is
/// held to the ghost's.
pub open spec fn overhang_pins(
    pins: Seq<CellPin>,
    ghost_cells: Seq<Vec<F128>>,
    layout: &TiledWalkLayout,
    family_base: int,
    cap_per_block: int,
    from: int,
    to: int,
) -> bool {
    &&& pins.len() == 576 * (to - from)
    &&& forall|p: int, k: int, o: int|
        #![trigger update_base(layout, family_base, cap_per_block, p), ghost_cells[k]@[o]]
        from <= p < to && 0 <= k < 9 && 0 <= o < 64 ==> value_pin(
            pins[576 * (p - from) + 64 * k + o],
            k,
            update_base(layout, family_base, cap_per_block, p) + o,
            ghost_cells[k]@[o],
        )
}

/// Pins the updates of one family past the class capacity to the canonical one,
/// at 576 rows an update.
pub fn pin_paired_overhang_ghost_cells(
    b: &mut FieldR1csBuilder,
    slices: &Vec<WitnessSlice>,
    layout: &TiledWalkLayout,
    family_base: usize,
    cap_per_block: usize,
    capacity: usize,
    tiled_capacity: usize,
    ghost_cells: &Vec<Vec<F128>>,
)
    requires
        old(b).wf(),
        nine_columns(slices@, layout.slots as nat),
        forall|c: int|
            0 <= c < 9 ==> (#[trigger] slices@[c]).first() + layout.slots <= old(b).wires(),
        ghost_update(ghost_cells@),
        capacity <= tiled_capacity,
        capacity < tiled_capacity ==> cap_per_block > 0,
        forall|o: int|
            capacity <= o < tiled_capacity ==> 0 <= #[trigger] update_base(
                layout,
                family_base as int,
                cap_per_block as int,
                o,
            ) && update_base(layout, family_base as int, cap_per_block as int, o) + 64
                <= layout.slots,
    ensures
        refines(*final(b), *old(b)),
        old(b).gate_list().len() == 0 ==> final(b).wires() == old(b).wires() + 576 * (
        tiled_capacity - capacity),
        forall|z: spec_fn(int) -> u128| #[trigger]
            final(b).holds(z) && old(b).live(z) ==> overhang_ghost(
                slices@,
                ghost_cells@,
                layout,
                family_base as int,
                cap_per_block as int,
                capacity as int,
                tiled_capacity as int,
                z,
            ),
        old(b).live(old(b).witness()) ==> (final(b).honest() <==> old(b).honest()
            && overhang_ghost(
            slices@,
            ghost_cells@,
            layout,
            family_base as int,
            cap_per_block as int,
            capacity as int,
            tiled_capacity as int,
            old(b).witness(),
        )),
        exists|pins: Seq<CellPin>|
            #[trigger] overhang_pins(
                pins,
                ghost_cells@,
                layout,
                family_base as int,
                cap_per_block as int,
                capacity as int,
                tiled_capacity as int,
            ) && final(b).shape() == cells_step(old(b).shape(), slices@, pins, pins.len()),
{
    let ghost n = b.wires();
    let mut pins: Vec<CellPin> = Vec::new();
    let mut o: usize = capacity;
    while o < tiled_capacity
        invariant
            capacity <= o <= tiled_capacity,
            nine_columns(slices@, layout.slots as nat),
            forall|c: int| 0 <= c < 9 ==> (#[trigger] slices@[c]).first() + layout.slots <= n,
            ghost_update(ghost_cells@),
            capacity < tiled_capacity ==> cap_per_block > 0,
            forall|k: int|
                capacity <= k < tiled_capacity ==> 0 <= #[trigger] update_base(
                    layout,
                    family_base as int,
                    cap_per_block as int,
                    k,
                ) && update_base(layout, family_base as int, cap_per_block as int, k) + 64
                    <= layout.slots,
            crate::columns::pins_bounded(pins@, slices@, n),
            pins@.len() == 576 * (o - capacity),
            forall|z: spec_fn(int) -> u128| #[trigger]
                crate::columns::pins_hold(pins@, slices@, z, pins@.len()) <==> overhang_ghost(
                    slices@,
                    ghost_cells@,
                    layout,
                    family_base as int,
                    cap_per_block as int,
                    capacity as int,
                    o as int,
                    z,
                ),
            overhang_pins(
                pins@,
                ghost_cells@,
                layout,
                family_base as int,
                cap_per_block as int,
                capacity as int,
                o as int,
            ),
        decreases tiled_capacity - o,
    {
        let ghost pins0 = pins@;
        let ghost before = pins@;
        let ghost at = update_base(layout, family_base as int, cap_per_block as int, o as int);
        let base = paired_update_base(layout, family_base, cap_per_block, o);
        push_ghost_pins(
            &mut pins,
            ghost_cells,
            base,
            Ghost(slices@),
            Ghost(n),
            Ghost(layout.slots as nat),
        );
        proof {
            assert forall|z: spec_fn(int) -> u128| #[trigger]
                crate::columns::pins_hold(pins@, slices@, z, pins@.len()) <==> overhang_ghost(
                slices@,
                ghost_cells@,
                layout,
                family_base as int,
                cap_per_block as int,
                capacity as int,
                o + 1,
                z,
            ) by {
                assert(crate::columns::pins_hold(before, slices@, z, before.len())
                    <==> overhang_ghost(
                    slices@,
                    ghost_cells@,
                    layout,
                    family_base as int,
                    cap_per_block as int,
                    capacity as int,
                    o as int,
                    z,
                ));
                if overhang_ghost(
                    slices@,
                    ghost_cells@,
                    layout,
                    family_base as int,
                    cap_per_block as int,
                    capacity as int,
                    o + 1,
                    z,
                ) {
                    assert(is_ghost(slices@, ghost_cells@, at, z));
                }
            }
        }
        o = o + 1;
        assert forall|p: int, k: int, j: int|
            #![trigger update_base(layout, family_base as int, cap_per_block as int, p), ghost_cells@[k]@[j]]
            capacity <= p < o && 0 <= k < 9 && 0 <= j < 64 implies value_pin(
            pins@[576 * (p - capacity) + 64 * k + j],
            k,
            update_base(layout, family_base as int, cap_per_block as int, p) + j,
            ghost_cells@[k]@[j],
        ) by {
            let at = 576 * (p - capacity) + 64 * k + j;
            if p < o - 1 {
                assert(0 <= at < pins0.len());
                assert(pins@[at] == pins0[at]);
            } else {
                assert(at == pins0.len() + 64 * k + j);
            }
        }
    }
    pin_stage2_cells(b, slices, &pins);
}

} // verus!
