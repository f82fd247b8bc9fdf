//! The selected authorization region: the shape checks that come before any
//! wire is allocated, the allocation of its six column families, and the
//! handoff of its paired exact-state cells.
use crate::circuit::{group_agree, wire_form, LinExpr, LinForm};
use crate::columns::{slot_cell, WitnessSlice};
use crate::duplex_union::DuplexUnion;
use crate::dyadic::checked_power_of_two;
use crate::field::{is_bit, F128};
use crate::meta_pins::WirePair;
use crate::meta_region::{PAIRED_UPDATE_DEPTH, PAIRED_UPDATE_SLOTS_PER_LEVEL};
use crate::region_layout::{SelectedZkBlockGeometry, TiledWalkLayout};
use crate::tx_root::TxRootRegionData;
use vstd::arithmetic::power2::pow2;
use vstd::prelude::*;

verus! {

broadcast use group_agree;

/// Why a region is refused. Nothing has been allocated then.
#[derive(Clone, Copy, Debug, PartialEq, Eq, Structural)]
pub enum SelectedZkAuthPcsRegionAllocationError {
    AuthorizationShape,
    ExactStateShape,
    TxRootShape,
    SpineShape,
}

/// The columns of one walk: committed columns and endpoint states.
pub struct RawWalk {
    pub committed: Vec<Vec<F128>>,
    pub s0: Vec<Vec<F128>>,
    pub s_out: Vec<Vec<F128>>,
}

/// The authorization half of a region, before its columns have wires.
pub struct SelectedZkAuthorizationRegionDraft {
    pub owner: DuplexUnion,
    pub main: DuplexUnion,
    pub wallet_a: RawWalk,
    pub wallet_b: RawWalk,
    pub overflow_a: RawWalk,
    pub overflow_b: RawWalk,
    pub changed_committed_columns: usize,
    pub committed_cells: usize,
}

/// All columns have `2^w_log` cells.
pub open spec fn all_of_length(columns: Seq<Vec<F128>>, w_log: usize) -> bool {
    forall|c: int|
        0 <= c < columns.len() ==> (#[trigger] columns[c])@.len() == pow2(w_log as nat)
}

/// All cells are bits.
pub open spec fn all_cells_bits(column: Seq<F128>) -> bool {
    forall|i: int| 0 <= i < column.len() ==> is_bit((#[trigger] column[i])@)
}

/// A walk of exactly `columns` columns of `2^w_log` cells.
pub open spec fn exact_raw_walk(walk: RawWalk, columns: int, w_log: int) -> bool {
    &&& walk.committed@.len() == columns
    &&& walk.s0@.len() == 4
    &&& walk.s_out@.len() == 4
    &&& all_of_length(walk.committed@, w_log as usize)
    &&& all_of_length(walk.s0@, w_log as usize)
    &&& all_of_length(walk.s_out@, w_log as usize)
}

/// A union of exactly one channel per tile and no recordings.
pub open spec fn exact_duplex(
    union: DuplexUnion,
    w_log: usize,
    block_log: usize,
    auth_tiles: usize,
) -> bool {
    &&& union.w_log == w_log
    &&& union.block_log == block_log
    &&& union.columns.tracks@.len() == 14
    &&& all_of_length(union.columns.tracks@, w_log)
    &&& union.challenges@.len() == auth_tiles
    &&& union.rec_blocks@.len() == 0
    &&& union.rec_refs@.len() == 0
    &&& union.rec_challenges@.len() == 0
}

/// The authorization draft has exactly the shape of its class.
pub open spec fn authorization_fits(
    draft: SelectedZkAuthorizationRegionDraft,
    g: SelectedZkBlockGeometry,
) -> bool {
    &&& draft.changed_committed_columns == 27
    &&& draft.committed_cells == 6 * pow2(g.wallet_a_w_log as nat) + 9 * pow2(
        g.wallet_b_w_log as nat,
    ) + 6 * pow2(g.owner_w_log as nat) + 6 * pow2(g.main_w_log as nat)
    &&& exact_duplex(draft.owner, g.owner_w_log, 7, g.auth_tiles)
    &&& exact_duplex(draft.main, g.main_w_log, 8, g.auth_tiles)
    &&& exact_raw_walk(draft.wallet_a, 6, g.wallet_a_w_log as int)
    &&& exact_raw_walk(draft.wallet_b, 9, g.wallet_b_w_log as int)
    &&& exact_raw_walk(draft.overflow_a, 6, g.tx_log + 5)
    &&& exact_raw_walk(draft.overflow_b, 9, g.tx_log + 4)
    &&& all_cells_bits(draft.wallet_b.committed@[8]@)
    &&& all_cells_bits(draft.overflow_b.committed@[8]@)
}

fn have_length(columns: &Vec<Vec<F128>>, w_log: usize) -> (r: bool)
    ensures
        r == all_of_length(columns@, w_log),
{
    let want = checked_power_of_two(w_log);
    let mut c: usize = 0;
    while c < columns.len()
        invariant
            c <= columns@.len(),
            want matches Some(v) ==> v == pow2(w_log as nat),
            want is None <==> pow2(w_log as nat) > usize::MAX,
            forall|k: int| 0 <= k < c ==> (#[trigger] columns@[k])@.len() == pow2(w_log as nat),
        decreases columns@.len() - c,
    {
        let len = columns[c].len();
        let good = match want {
            Some(v) => len == v,
            None => false,
        };
        if !good {
            assert(columns@[c as int]@.len() != pow2(w_log as nat));
            return false;
        }
        c = c + 1;
    }
    true
}

fn are_bits(column: &Vec<F128>) -> (r: bool)
    ensures
        r == all_cells_bits(column@),
{
    let mut i: usize = 0;
    while i < column.len()
        invariant
            i <= column@.len(),
            forall|k: int| 0 <= k < i ==> is_bit((#[trigger] column@[k])@),
        decreases column@.len() - i,
    {
        if column[i].bits != 0 && column[i].bits != 1 {
            assert(!is_bit(column@[i as int]@));
            return false;
        }
        i = i + 1;
    }
    true
}

fn is_exact_raw_walk(walk: &RawWalk, columns: usize, w_log: usize) -> (r: bool)
    ensures
        r == exact_raw_walk(*walk, columns as int, w_log as int),
{
    walk.committed.len() == columns && walk.s0.len() == 4 && walk.s_out.len() == 4 && have_length(
        &walk.committed,
        w_log,
    ) && have_length(&walk.s0, w_log) && have_length(&walk.s_out, w_log)
}

fn is_exact_duplex(
    union: &DuplexUnion,
    w_log: usize,
    block_log: usize,
    auth_tiles: usize,
) -> (r: bool)
    ensures
        r == exact_duplex(*union, w_log, block_log, auth_tiles),
{
    union.w_log == w_log && union.block_log == block_log && union.columns.tracks.len() == 14
        && have_length(&union.columns.tracks, w_log) && union.challenges.len() == auth_tiles
        && union.rec_blocks.len() == 0 && union.rec_refs.len() == 0 && union.rec_challenges.len()
        == 0
}

/// Checks the authorization draft against the geometry of its class; `class`
/// is the geometry of the class with as many tiles as the draft's owner
/// channels, if there is one.
pub fn preflight_selected_zk_authorization_draft(
    draft: &SelectedZkAuthorizationRegionDraft,
    class: Option<SelectedZkBlockGeometry>,
) -> (r: Result<SelectedZkBlockGeometry, SelectedZkAuthPcsRegionAllocationError>)
    requires
        class matches Some(g) ==> g.tx_log + 5 <= usize::MAX,
    ensures
        match class {
            Some(g) => if authorization_fits(*draft, g) {
                r == Ok::<_, SelectedZkAuthPcsRegionAllocationError>(g)
            } else {
                r == Err::<SelectedZkBlockGeometry, _>(
                    SelectedZkAuthPcsRegionAllocationError::AuthorizationShape,
                )
            },
            None => r == Err::<SelectedZkBlockGeometry, _>(
                SelectedZkAuthPcsRegionAllocationError::AuthorizationShape,
            ),
        },
{
    let g = match class {
        Some(g) => g,
        None => {
            return Err(SelectedZkAuthPcsRegionAllocationError::AuthorizationShape);
        },
    };
    let shaped = draft.changed_committed_columns == 27 && is_exact_duplex(
        &draft.owner,
        g.owner_w_log,
        7,
        g.auth_tiles,
    ) && is_exact_duplex(&draft.main, g.main_w_log, 8, g.auth_tiles) && is_exact_raw_walk(
        &draft.wallet_a,
        6,
        g.wallet_a_w_log,
    ) && is_exact_raw_walk(&draft.wallet_b, 9, g.wallet_b_w_log) && is_exact_raw_walk(
        &draft.overflow_a,
        6,
        g.tx_log + 5,
    ) && is_exact_raw_walk(&draft.overflow_b, 9, g.tx_log + 4);
    if !shaped {
        return Err(SelectedZkAuthPcsRegionAllocationError::AuthorizationShape);
    }
    let ghost owner_track = draft.owner.columns.tracks@[0];
    let ghost main_track = draft.main.columns.tracks@[0];
    let wallet_a_len = draft.wallet_a.committed[0].len();
    let wallet_b_len = draft.wallet_b.committed[0].len();
    let owner_len = draft.owner.columns.tracks[0].len();
    let main_len = draft.main.columns.tracks[0].len();
    let cells: u128 = 6 * (wallet_a_len as u128) + 9 * (wallet_b_len as u128) + 6 * (
    owner_len as u128) + 6 * (main_len as u128);
    if draft.committed_cells as u128 == cells && are_bits(&draft.wallet_b.committed[8])
        && are_bits(&draft.overflow_b.committed[8]) {
        Ok(g)
    } else {
        Err(SelectedZkAuthPcsRegionAllocationError::AuthorizationShape)
    }
}

/// The paired exact-state updates of a block: how many there are, how many
/// the class holds, and the active depth of the upper tree.
#[derive(Clone, Copy, Debug, PartialEq, Eq, Structural)]
pub struct ExactStatePairedShape {
    pub local_updates: usize,
    pub upper_updates: usize,
    pub local_update_count: usize,
    pub upper_update_count: usize,
    pub touched_capacity: usize,
    pub segment_capacity: usize,
    pub active_upper_depth: usize,
}

/// The exact-state input has the shape of a class.
pub open spec fn exact_state_fits(
    leaves: nat,
    paired: ExactStatePairedShape,
    g: SelectedZkBlockGeometry,
) -> bool {
    &&& leaves == 2 * g.touched_capacity
    &&& paired.touched_capacity == g.touched_capacity
    &&& paired.segment_capacity == g.segment_capacity
    &&& paired.local_updates == paired.local_update_count
    &&& paired.upper_updates == paired.upper_update_count
    &&& paired.local_update_count <= paired.touched_capacity
    &&& paired.upper_update_count <= paired.segment_capacity
    &&& 8 <= paired.active_upper_depth <= 16
}

/// The transaction-root input is that of the universal tree of 256 leaves.
pub open spec fn tx_root_fits(t: &TxRootRegionData) -> bool {
    &&& t.depth == 8
    &&& t.paths@.len() == 256
    &&& forall|j: int|
        0 <= j < t.paths@.len() ==> (#[trigger] t.paths@[j]).siblings@.len() == t.depth
    &&& (t.rim@.len() == 0 || t.rim@.len() == t.depth)
}

/// Checks the metadata inputs against a class: exact state first, then the
/// transaction root, then the spines.
pub fn preflight_selected_zk_meta_inputs(
    leaves: usize,
    paired: ExactStatePairedShape,
    t: &TxRootRegionData,
    instances: usize,
    g: SelectedZkBlockGeometry,
) -> (r: Result<(), SelectedZkAuthPcsRegionAllocationError>)
    ensures
        r == if !exact_state_fits(leaves as nat, paired, g) {
            Err::<(), _>(SelectedZkAuthPcsRegionAllocationError::ExactStateShape)
        } else if !tx_root_fits(t) {
            Err::<(), _>(SelectedZkAuthPcsRegionAllocationError::TxRootShape)
        } else if instances != g.tier + 1 {
            Err::<(), _>(SelectedZkAuthPcsRegionAllocationError::SpineShape)
        } else {
            Ok::<(), SelectedZkAuthPcsRegionAllocationError>(())
        },
{
    if leaves as u128 != 2 * (g.touched_capacity as u128) || paired.touched_capacity
        != g.touched_capacity || paired.segment_capacity != g.segment_capacity
        || paired.local_updates != paired.local_update_count || paired.upper_updates
        != paired.upper_update_count || paired.local_update_count > paired.touched_capacity
        || paired.upper_update_count > paired.segment_capacity || paired.active_upper_depth < 8
        || paired.active_upper_depth > PAIRED_UPDATE_DEPTH {
        return Err(SelectedZkAuthPcsRegionAllocationError::ExactStateShape);
    }
    if t.depth != 8 || t.paths.len() != 256 || !(t.rim.len() == 0 || t.rim.len() == t.depth) {
        return Err(SelectedZkAuthPcsRegionAllocationError::TxRootShape);
    }
    let mut j: usize = 0;
    while j < t.paths.len()
        invariant
            j <= t.paths@.len(),
            exact_state_fits(leaves as nat, paired, g),
            forall|k: int| 0 <= k < j ==> (#[trigger] t.paths@[k]).siblings@.len() == t.depth,
        decreases t.paths@.len() - j,
    {
        if t.paths[j].siblings.len() != t.depth {
            assert(t.paths@[j as int].siblings@.len() != t.depth);
            return Err(SelectedZkAuthPcsRegionAllocationError::TxRootShape);
        }
        j = j + 1;
    }
    if g.tier == usize::MAX || instances != g.tier + 1 {
        return Err(SelectedZkAuthPcsRegionAllocationError::SpineShape);
    }
    Ok(())
}

/// First slot of paired update `ordinal` of a family.
pub open spec fn update_base(
    layout: &TiledWalkLayout,
    family_base: int,
    cap: int,
    ordinal: int,
) -> int {
    (ordinal / cap) * layout.block_slots + family_base + (ordinal % cap) * 64
}

/// First slot of paired update `ordinal` of a family.
pub fn paired_update_base(
    layout: &TiledWalkLayout,
    family_base: usize,
    cap_per_block: usize,
    ordinal: usize,
) -> (r: usize)
    requires
        cap_per_block > 0,
        update_base(layout, family_base as int, cap_per_block as int, ordinal as int) + 64
            <= layout.slots,
    ensures
        r == update_base(layout, family_base as int, cap_per_block as int, ordinal as int),
{
    let block = ordinal / cap_per_block;
    let within = ordinal % cap_per_block;
    proof {
        assert(block * layout.block_slots >= 0) by (nonlinear_arith);
    }
    block * layout.block_slots + family_base + within * crate::meta_region::PAIRED_UPDATE_STRIDE
}

/// The slots of an update that carry the old and the new root of one depth.
#[derive(Clone, Copy, Debug, PartialEq, Eq, Structural)]
pub struct RootSlots {
    pub before: usize,
    pub after: usize,
}

/// The cells of one local update: both entries, both roots and the direction
/// of every level.
pub struct PairedLocalExactStateCells {
    pub old_entry: WirePair,
    pub new_entry: WirePair,
    pub old_root: WirePair,
    pub new_root: WirePair,
    pub directions: Vec<LinExpr>,
}

/// The cells of one upper update, with the roots of every depth.
pub struct PairedUpperExactStateCells {
    pub old_entry: WirePair,
    pub new_entry: WirePair,
    pub old_roots: Vec<WirePair>,
    pub new_roots: Vec<WirePair>,
    pub directions: Vec<LinExpr>,
}

/// The cells of all paired updates up to the class capacities.
pub struct PairedExactStateCells {
    pub local: Vec<PairedLocalExactStateCells>,
    pub upper: Vec<PairedUpperExactStateCells>,
}

/// The wire of the cell at `slot` of a column.
pub open spec fn cell_form(slice: WitnessSlice, slot: int) -> LinForm {
    wire_form((slice.first() + slot) as nat)
}

/// The pair of cells at `slot` of two neighbouring columns.
pub open spec fn pair_at(pair: WirePair, slices: Seq<WitnessSlice>, column: int, slot: int) -> bool {
    &&& pair.a@ == cell_form(slices[column], slot)
    &&& pair.b@ == cell_form(slices[column + 1], slot)
}

/// The direction cells of the update at `base`, one per level.
pub open spec fn directions_at(
    directions: Seq<LinExpr>,
    slices: Seq<WitnessSlice>,
    base: int,
) -> bool {
    &&& directions.len() == 16
    &&& forall|l: int|
        0 <= l < 16 ==> (#[trigger] directions[l])@ == cell_form(slices[8], base + 4 * l)
}

pub open spec fn local_cells_at(
    cells: PairedLocalExactStateCells,
    slices: Seq<WitnessSlice>,
    roots: Seq<RootSlots>,
    base: int,
) -> bool {
    &&& pair_at(cells.old_entry, slices, 4, base)
    &&& pair_at(cells.new_entry, slices, 4, base + 2)
    &&& pair_at(cells.old_root, slices, 0, base + roots[15].before)
    &&& pair_at(cells.new_root, slices, 0, base + roots[15].after)
    &&& directions_at(cells.directions@, slices, base)
}

pub open spec fn upper_cells_at(
    cells: PairedUpperExactStateCells,
    slices: Seq<WitnessSlice>,
    roots: Seq<RootSlots>,
    base: int,
) -> bool {
    &&& pair_at(cells.old_entry, slices, 4, base)
    &&& pair_at(cells.new_entry, slices, 4, base + 2)
    &&& cells.old_roots@.len() == 16
    &&& cells.new_roots@.len() == 16
    &&& forall|l: int|
        0 <= l < 16 ==> pair_at(
            #[trigger] cells.old_roots@[l],
            slices,
            0,
            base + roots[l].before,
        )
    &&& forall|l: int|
        0 <= l < 16 ==> pair_at(
            #[trigger] cells.new_roots@[l],
            slices,
            0,
            base + roots[l].after,
        )
    &&& directions_at(cells.directions@, slices, base)
}

/// Nine columns that hold a walk of `slots` slots.
pub open spec fn nine_columns(slices: Seq<WitnessSlice>, slots: nat) -> bool {
    &&& slices.len() == 9
    &&& forall|c: int|
        0 <= c < 9 ==> (#[trigger] slices[c]).first() + slots < usize::MAX && slices[c].size()
            <= usize::MAX
}

/// Sixteen root slots, inside an update.
pub open spec fn root_slots_fit(roots: Seq<RootSlots>) -> bool {
    &&& roots.len() == 16
    &&& forall|l: int| 0 <= l < 16 ==> (#[trigger] roots[l]).before < 64 && roots[l].after < 64
}

fn cell_pair(
    slices: &Vec<WitnessSlice>,
    column: usize,
    slot: usize,
    Ghost(slots): Ghost<nat>,
) -> (r: WirePair)
    requires
        nine_columns(slices@, slots),
        column + 1 < 9,
        slot < slots,
    ensures
        pair_at(r, slices@, column as int, slot as int),
{
    assert(slices@[column as int].first() + slots < usize::MAX);
    assert(slices@[column + 1].first() + slots < usize::MAX);
    WirePair {
        a: slot_cell(&slices[column], slot),
        b: slot_cell(&slices[column + 1], slot),
    }
}

fn direction_cells(slices: &Vec<WitnessSlice>, base: usize, Ghost(slots): Ghost<nat>) -> (r: Vec<
    LinExpr,
>)
    requires
        nine_columns(slices@, slots),
        base + 64 <= slots,
        slots <= usize::MAX,
    ensures
        directions_at(r@, slices@, base as int),
{
    let mut r: Vec<LinExpr> = Vec::new();
    let mut l: usize = 0;
    while l < PAIRED_UPDATE_DEPTH
        invariant
            l <= 16,
            nine_columns(slices@, slots),
            base + 64 <= slots,
            slots <= usize::MAX,
            r@.len() == l,
            forall|k: int|
                0 <= k < l ==> (#[trigger] r@[k])@ == cell_form(slices@[8], base + 4 * k),
        decreases 16 - l,
    {
        assert(slices@[8].first() + slots < usize::MAX);
        r.push(slot_cell(&slices[8], base + l * PAIRED_UPDATE_SLOTS_PER_LEVEL));
        l = l + 1;
    }
    r
}

fn upper_cells(
    slices: &Vec<WitnessSlice>,
    roots: &Vec<RootSlots>,
    base: usize,
    Ghost(slots): Ghost<nat>,
) -> (r: PairedUpperExactStateCells)
    requires
        nine_columns(slices@, slots),
        root_slots_fit(roots@),
        base + 64 <= slots,
        slots <= usize::MAX,
    ensures
        upper_cells_at(r, slices@, roots@, base as int),
{
    let mut old_roots: Vec<WirePair> = Vec::new();
    let mut new_roots: Vec<WirePair> = Vec::new();
    let mut l: usize = 0;
    while l < PAIRED_UPDATE_DEPTH
        invariant
            l <= 16,
            nine_columns(slices@, slots),
            root_slots_fit(roots@),
            base + 64 <= slots,
            slots <= usize::MAX,
            old_roots@.len() == l,
            new_roots@.len() == l,
            forall|k: int|
                0 <= k < l ==> pair_at(
                    #[trigger] old_roots@[k],
                    slices@,
                    0,
                    base + roots@[k].before,
                ),
            forall|k: int|
                0 <= k < l ==> pair_at(
                    #[trigger] new_roots@[k],
                    slices@,
                    0,
                    base + roots@[k].after,
                ),
        decreases 16 - l,
    {
        assert(roots@[l as int].before < 64 && roots@[l as int].after < 64);
        old_roots.push(cell_pair(slices, 0, base + roots[l].before, Ghost(slots)));
        new_roots.push(cell_pair(slices, 0, base + roots[l].after, Ghost(slots)));
        l = l + 1;
    }
    PairedUpperExactStateCells {
        old_entry: cell_pair(slices, 4, base, Ghost(slots)),
        new_entry: cell_pair(slices, 4, base + 2, Ghost(slots)),
        old_roots,
        new_roots,
        directions: direction_cells(slices, base, Ghost(slots)),
    }
}

/// Reads the cells of all paired updates off the second walk's columns;
/// `roots` tells which slots of an update carry the roots of every depth.
pub fn paired_exact_state_cells(
    slices: &Vec<WitnessSlice>,
    layout: &TiledWalkLayout,
    local_base: usize,
    upper_base: usize,
    local_cap: usize,
    upper_cap: usize,
    touched_capacity: usize,
    segment_capacity: usize,
    roots: &Vec<RootSlots>,
) -> (r: PairedExactStateCells)
    requires
        nine_columns(slices@, layout.slots as nat),
        root_slots_fit(roots@),
        touched_capacity > 0 ==> local_cap > 0,
        segment_capacity > 0 ==> upper_cap > 0,
        forall|o: int|
            0 <= o < touched_capacity ==> #[trigger] update_base(
                layout,
                local_base as int,
                local_cap as int,
                o,
            ) + 64 <= layout.slots,
        forall|o: int|
            0 <= o < segment_capacity ==> #[trigger] update_base(
                layout,
                upper_base as int,
                upper_cap as int,
                o,
            ) + 64 <= layout.slots,
    ensures
        r.local@.len() == touched_capacity,
        r.upper@.len() == segment_capacity,
        forall|o: int|
            0 <= o < touched_capacity ==> local_cells_at(
                #[trigger] r.local@[o],
                slices@,
                roots@,
                update_base(layout, local_base as int, local_cap as int, o),
            ),
        forall|o: int|
            0 <= o < segment_capacity ==> upper_cells_at(
                #[trigger] r.upper@[o],
                slices@,
                roots@,
                update_base(layout, upper_base as int, upper_cap as int, o),
            ),
{
    let ghost slots = layout.slots as nat;
    let mut local: Vec<PairedLocalExactStateCells> = Vec::new();
    let mut o: usize = 0;
    while o < touched_capacity
        invariant
            o <= touched_capacity,
            slots == layout.slots,
            nine_columns(slices@, slots),
            root_slots_fit(roots@),
            touched_capacity > 0 ==> local_cap > 0,
            forall|k: int|
                0 <= k < touched_capacity ==> #[trigger] update_base(
                    layout,
                    local_base as int,
                    local_cap as int,
                    k,
                ) + 64 <= layout.slots,
            local@.len() == o,
            forall|k: int|
                0 <= k < o ==> local_cells_at(
                    #[trigger] local@[k],
                    slices@,
                    roots@,
                    update_base(layout, local_base as int, local_cap as int, k),
                ),
        decreases touched_capacity - o,
    {
        assert(update_base(layout, local_base as int, local_cap as int, o as int) + 64
            <= layout.slots);
        let base = paired_update_base(layout, local_base, local_cap, o);
        assert(roots@[15].before < 64 && roots@[15].after < 64);
        local.push(
            PairedLocalExactStateCells {
                old_entry: cell_pair(slices, 4, base, Ghost(slots)),
                new_entry: cell_pair(slices, 4, base + 2, Ghost(slots)),
                old_root: cell_pair(slices, 0, base + roots[15].before, Ghost(slots)),
                new_root: cell_pair(slices, 0, base + roots[15].after, Ghost(slots)),
                directions: direction_cells(slices, base, Ghost(slots)),
            },
        );
        o = o + 1;
    }
    let mut upper: Vec<PairedUpperExactStateCells> = Vec::new();
    let mut o: usize = 0;
    while o < segment_capacity
        invariant
            o <= segment_capacity,
            slots == layout.slots,
            nine_columns(slices@, slots),
            root_slots_fit(roots@),
            segment_capacity > 0 ==> upper_cap > 0,
            forall|k: int|
                0 <= k < segment_capacity ==> #[trigger] update_base(
                    layout,
                    upper_base as int,
                    upper_cap as int,
                    k,
                ) + 64 <= layout.slots,
            upper@.len() == o,
            forall|k: int|
                0 <= k < o ==> upper_cells_at(
                    #[trigger] upper@[k],
                    slices@,
                    roots@,
                    update_base(layout, upper_base as int, upper_cap as int, k),
                ),
        decreases segment_capacity - o,
    {
        assert(update_base(layout, upper_base as int, upper_cap as int, o as int) + 64
            <= layout.slots);
        let base = paired_update_base(layout, upper_base, upper_cap, o);
        upper.push(upper_cells(slices, roots, base, Ghost(slots)));
        o = o + 1;
    }
    PairedExactStateCells { local, upper }
}

} // verus!
