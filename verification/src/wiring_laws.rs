//! What the wirings of the walks say, slot by slot.
//!
//! A wiring weighs, for the permutation of one slot, what each of its four lanes
//! takes. The laws give the value of a wiring where the cells that it reads are
//! given: which cell a lane takes on which kind of slot.
use crate::field::{fmul, lemma_fmul_assoc, lemma_fmul_distrib, lemma_fmul_unit, lemma_xor};
use crate::merkle_shapes::{
    cell_sum, ff_chain_shape, ff_walk_shape, lemma_cells, lemma_ff_chain, lemma_ff_walk,
    lemma_paired_consistency, lemma_part, lemma_weighed_append, paired_consistency_shape,
    paired_walk_shape, path_walk_shape, shape_term, weighed, zero_weights, MerkleFamilies,
    PairedMerkleUpdateRefs, ShapeTerm,
};
use crate::merkle_shapes::{
    consistencies, ff_chains, ff_walks, paired_walks, path_walks, FfFamily, PairedFamily,
    PathFamily,
};
use crate::merkle_terms::{FfMerkleFamilyRefs, MerkleFamilyRefs};
use crate::relation_terms::{
    lane_weights, lemma_sum_append, pattern_lanes, power, sponge_lanes, sum_at, tail_lanes,
    tree_lanes, weighted, carry_lanes, lane_weight, refs_fit, single_lanes, ColRef, LaneTerm, MdsTable, SourceTreeRefs,
    SplitDuplexTailRefs, SpongeLeafRefs,
};
use crate::duplex_union::DuplexFamilyRefs;
use crate::spine_union::SpineUnionSpec;
use crate::union_terms::{
    duplex_views, leaf_lanes, multi_views, sets_views, tails_lanes, union_lanes,
};
use vstd::prelude::*;

verus! {

/// Zeros, ones and doubled values in sums and products.
pub(crate) proof fn lemma_plain()
    ensures
        forall|x: u128| #[trigger] (x ^ 0) == x,
        forall|x: u128| #[trigger] (0 ^ x) == x,
        forall|x: u128| #[trigger] (x ^ x) == 0,
        forall|x: u128, y: u128| #[trigger] ((x ^ y) ^ y) == x,
        forall|x: u128| #[trigger] fmul(1, x) == x,
        forall|x: u128| #[trigger] fmul(0, x) == 0,
        forall|x: u128| #[trigger] fmul(x, 1) == x,
        forall|x: u128| #[trigger] fmul(x, 0) == 0,
{
    assert forall|x: u128| #[trigger] (x ^ 0) == x by {
        lemma_xor(x, 0, 0);
    }
    assert forall|x: u128| #[trigger] (0 ^ x) == x by {
        lemma_xor(x, 0, 0);
    }
    assert forall|x: u128| #[trigger] (x ^ x) == 0 by {
        lemma_xor(x, x, 0);
    }
    assert forall|x: u128, y: u128| #[trigger] ((x ^ y) ^ y) == x by {
        lemma_xor(x, y, 0);
    }
    assert forall|x: u128| #[trigger] fmul(1, x) == x by {
        lemma_fmul_unit(x);
    }
    assert forall|x: u128| #[trigger] fmul(0, x) == 0 by {
        lemma_fmul_unit(x);
    }
    assert forall|x: u128| #[trigger] fmul(x, 1) == x by {
        lemma_fmul_unit(x);
    }
    assert forall|x: u128| #[trigger] fmul(x, 0) == 0 by {
        lemma_fmul_unit(x);
    }
}

/// Four runs of terms, one lane each.
proof fn lemma_runs(
    all: Seq<ShapeTerm>,
    m: Seq<u128>,
    a: int,
    b: int,
    c: int,
    cell: spec_fn(ColRef) -> u128,
)
    requires
        0 <= a <= b <= c <= all.len(),
        forall|i: int| 0 <= i < a ==> (#[trigger] all[i]).weight == 0,
        forall|i: int| a <= i < b ==> (#[trigger] all[i]).weight == 1,
        forall|i: int| b <= i < c ==> (#[trigger] all[i]).weight == 2,
        forall|i: int| c <= i < all.len() ==> (#[trigger] all[i]).weight == 3,
    ensures
        sum_at(weighed(all, m), cell) == ((fmul(
            m[0],
            cell_sum(all.subrange(0, a), cell, a as nat),
        ) ^ fmul(m[1], cell_sum(all.subrange(a, b), cell, (b - a) as nat))) ^ fmul(
            m[2],
            cell_sum(all.subrange(b, c), cell, (c - b) as nat),
        )) ^ fmul(
            m[3],
            cell_sum(all.subrange(c, all.len() as int), cell, (all.len() - c) as nat),
        ),
{
    lemma_plain();
    lemma_part(all, m, 0, a, 0, cell);
    lemma_part(all, m, a, b, 1, cell);
    lemma_part(all, m, b, c, 2, cell);
    lemma_part(all, m, c, all.len() as int, 3, cell);
    assert(all.subrange(0, all.len() as int) =~= all);
    assert(weighed(all.subrange(0, 0), m) =~= seq![]);
}

/// The first slot of a path of two permutations a node takes the entry where the
/// direction is zero, the sibling where it is one, over the initial capacity.
pub proof fn lemma_path_even_start(
    refs: MerkleFamilyRefs,
    region: usize,
    m: Seq<u128>,
    cell: spec_fn(ColRef) -> u128,
)
    requires
        m.len() == 4,
        cell(ColRef::Fixed(region)) == 1,
        cell(ColRef::Fixed(refs.even)) == 1,
        cell(ColRef::Fixed(refs.evenstart)) == 1,
        cell(ColRef::Fixed(refs.evenns)) == 0,
        cell(ColRef::Fixed(refs.odd)) == 0,
        cell(ColRef::Fixed(refs.oddstart)) == 0,
        cell(ColRef::Fixed(refs.oddns)) == 0,
        cell(ColRef::Committed(refs.d)) == 0 || cell(ColRef::Committed(refs.d)) == 1,
    ensures
        sum_at(weighed(path_walk_shape(refs, region), m), cell) == ((fmul(m[0], {
            if cell(ColRef::Committed(refs.d)) == 1 {
                cell(ColRef::Committed(refs.sib[0]))
            } else {
                cell(ColRef::Committed(refs.e[0]))
            }
        }) ^ fmul(m[1], {
            if cell(ColRef::Committed(refs.d)) == 1 {
                cell(ColRef::Committed(refs.sib[1]))
            } else {
                cell(ColRef::Committed(refs.e[1]))
            }
        })) ^ fmul(
            m[2],
            cell(ColRef::Fixed(refs.iv[0])),
        )) ^ fmul(m[3], cell(ColRef::Fixed(refs.iv[1]))),
{
    let all = path_walk_shape(refs, region);
    lemma_runs(all, m, 10, 20, 23, cell);
    lemma_plain();
    let lane0 = all.subrange(0, 10);
    reveal_with_fuel(cell_sum, 11);
    lemma_cells(lane0[0].factors, cell);
    lemma_cells(lane0[1].factors, cell);
    lemma_cells(lane0[2].factors, cell);
    lemma_cells(lane0[3].factors, cell);
    lemma_cells(lane0[4].factors, cell);
    lemma_cells(lane0[5].factors, cell);
    lemma_cells(lane0[6].factors, cell);
    lemma_cells(lane0[7].factors, cell);
    lemma_cells(lane0[8].factors, cell);
    lemma_cells(lane0[9].factors, cell);
    let lane1 = all.subrange(10, 20);
    lemma_cells(lane1[0].factors, cell);
    lemma_cells(lane1[1].factors, cell);
    lemma_cells(lane1[2].factors, cell);
    lemma_cells(lane1[3].factors, cell);
    lemma_cells(lane1[4].factors, cell);
    lemma_cells(lane1[5].factors, cell);
    lemma_cells(lane1[6].factors, cell);
    lemma_cells(lane1[7].factors, cell);
    lemma_cells(lane1[8].factors, cell);
    lemma_cells(lane1[9].factors, cell);
    let lane2 = all.subrange(20, 23);
    lemma_cells(lane2[0].factors, cell);
    lemma_cells(lane2[1].factors, cell);
    lemma_cells(lane2[2].factors, cell);
    let lane3 = all.subrange(23, 26);
    lemma_cells(lane3[0].factors, cell);
    lemma_cells(lane3[1].factors, cell);
    lemma_cells(lane3[2].factors, cell);
}

/// The even slot of a later node takes the digest of the slot before where the
/// direction is zero, the sibling where it is one, over the initial capacity.
pub proof fn lemma_path_even_next(
    refs: MerkleFamilyRefs,
    region: usize,
    m: Seq<u128>,
    cell: spec_fn(ColRef) -> u128,
)
    requires
        m.len() == 4,
        cell(ColRef::Fixed(region)) == 1,
        cell(ColRef::Fixed(refs.even)) == 1,
        cell(ColRef::Fixed(refs.evenstart)) == 0,
        cell(ColRef::Fixed(refs.evenns)) == 1,
        cell(ColRef::Fixed(refs.odd)) == 0,
        cell(ColRef::Fixed(refs.oddstart)) == 0,
        cell(ColRef::Fixed(refs.oddns)) == 0,
        cell(ColRef::Committed(refs.d)) == 0 || cell(ColRef::Committed(refs.d)) == 1,
    ensures
        sum_at(weighed(path_walk_shape(refs, region), m), cell) == ((fmul(m[0], {
            if cell(ColRef::Committed(refs.d)) == 1 {
                cell(ColRef::Committed(refs.sib[0]))
            } else {
                cell(ColRef::CommittedShift(refs.c[0]))
            }
        }) ^ fmul(m[1], {
            if cell(ColRef::Committed(refs.d)) == 1 {
                cell(ColRef::Committed(refs.sib[1]))
            } else {
                cell(ColRef::CommittedShift(refs.c[1]))
            }
        })) ^ fmul(
            m[2],
            cell(ColRef::Fixed(refs.iv[0])),
        )) ^ fmul(m[3], cell(ColRef::Fixed(refs.iv[1]))),
{
    let all = path_walk_shape(refs, region);
    lemma_runs(all, m, 10, 20, 23, cell);
    lemma_plain();
    let lane0 = all.subrange(0, 10);
    reveal_with_fuel(cell_sum, 11);
    lemma_cells(lane0[0].factors, cell);
    lemma_cells(lane0[1].factors, cell);
    lemma_cells(lane0[2].factors, cell);
    lemma_cells(lane0[3].factors, cell);
    lemma_cells(lane0[4].factors, cell);
    lemma_cells(lane0[5].factors, cell);
    lemma_cells(lane0[6].factors, cell);
    lemma_cells(lane0[7].factors, cell);
    lemma_cells(lane0[8].factors, cell);
    lemma_cells(lane0[9].factors, cell);
    let lane1 = all.subrange(10, 20);
    lemma_cells(lane1[0].factors, cell);
    lemma_cells(lane1[1].factors, cell);
    lemma_cells(lane1[2].factors, cell);
    lemma_cells(lane1[3].factors, cell);
    lemma_cells(lane1[4].factors, cell);
    lemma_cells(lane1[5].factors, cell);
    lemma_cells(lane1[6].factors, cell);
    lemma_cells(lane1[7].factors, cell);
    lemma_cells(lane1[8].factors, cell);
    lemma_cells(lane1[9].factors, cell);
    let lane2 = all.subrange(20, 23);
    lemma_cells(lane2[0].factors, cell);
    lemma_cells(lane2[1].factors, cell);
    lemma_cells(lane2[2].factors, cell);
    let lane3 = all.subrange(23, 26);
    lemma_cells(lane3[0].factors, cell);
    lemma_cells(lane3[1].factors, cell);
    lemma_cells(lane3[2].factors, cell);
}

/// The odd slot of the first node adds to the state of the slot before the other
/// child: the entry of that slot where its direction is one, its sibling where it is
/// zero.
pub proof fn lemma_path_odd_start(
    refs: MerkleFamilyRefs,
    region: usize,
    m: Seq<u128>,
    cell: spec_fn(ColRef) -> u128,
)
    requires
        m.len() == 4,
        cell(ColRef::Fixed(region)) == 1,
        cell(ColRef::Fixed(refs.even)) == 0,
        cell(ColRef::Fixed(refs.evenstart)) == 0,
        cell(ColRef::Fixed(refs.evenns)) == 0,
        cell(ColRef::Fixed(refs.odd)) == 1,
        cell(ColRef::Fixed(refs.oddstart)) == 1,
        cell(ColRef::Fixed(refs.oddns)) == 0,
        cell(ColRef::CommittedShift(refs.d)) == 0 || cell(ColRef::CommittedShift(refs.d)) == 1,
    ensures
        sum_at(weighed(path_walk_shape(refs, region), m), cell) == ((fmul(m[0], cell(ColRef::CommittedShift(refs.c[0])) ^ (if cell(ColRef::CommittedShift(refs.d)) == 1 {
                cell(ColRef::CommittedShift(refs.e[0]))
            } else {
                cell(ColRef::CommittedShift(refs.sib[0]))
            })) ^ fmul(m[1], cell(ColRef::CommittedShift(refs.c[1])) ^ (if cell(ColRef::CommittedShift(refs.d)) == 1 {
                cell(ColRef::CommittedShift(refs.e[1]))
            } else {
                cell(ColRef::CommittedShift(refs.sib[1]))
            }))) ^ fmul(
            m[2],
            cell(ColRef::CommittedShift(refs.c[2])) ^ cell(ColRef::Fixed(refs.iv[0])),
        )) ^ fmul(m[3], cell(ColRef::CommittedShift(refs.c[3])) ^ cell(ColRef::Fixed(refs.iv[1]))),
{
    let all = path_walk_shape(refs, region);
    lemma_runs(all, m, 10, 20, 23, cell);
    lemma_plain();
    let lane0 = all.subrange(0, 10);
    reveal_with_fuel(cell_sum, 11);
    lemma_cells(lane0[0].factors, cell);
    lemma_cells(lane0[1].factors, cell);
    lemma_cells(lane0[2].factors, cell);
    lemma_cells(lane0[3].factors, cell);
    lemma_cells(lane0[4].factors, cell);
    lemma_cells(lane0[5].factors, cell);
    lemma_cells(lane0[6].factors, cell);
    lemma_cells(lane0[7].factors, cell);
    lemma_cells(lane0[8].factors, cell);
    lemma_cells(lane0[9].factors, cell);
    let lane1 = all.subrange(10, 20);
    lemma_cells(lane1[0].factors, cell);
    lemma_cells(lane1[1].factors, cell);
    lemma_cells(lane1[2].factors, cell);
    lemma_cells(lane1[3].factors, cell);
    lemma_cells(lane1[4].factors, cell);
    lemma_cells(lane1[5].factors, cell);
    lemma_cells(lane1[6].factors, cell);
    lemma_cells(lane1[7].factors, cell);
    lemma_cells(lane1[8].factors, cell);
    lemma_cells(lane1[9].factors, cell);
    let lane2 = all.subrange(20, 23);
    lemma_cells(lane2[0].factors, cell);
    lemma_cells(lane2[1].factors, cell);
    lemma_cells(lane2[2].factors, cell);
    let lane3 = all.subrange(23, 26);
    lemma_cells(lane3[0].factors, cell);
    lemma_cells(lane3[1].factors, cell);
    lemma_cells(lane3[2].factors, cell);
}

/// The odd slot of a later node adds to the state of the slot before the other
/// child: the digest two slots back where the direction of the slot before is one,
/// its sibling where it is zero.
pub proof fn lemma_path_odd_next(
    refs: MerkleFamilyRefs,
    region: usize,
    m: Seq<u128>,
    cell: spec_fn(ColRef) -> u128,
)
    requires
        m.len() == 4,
        cell(ColRef::Fixed(region)) == 1,
        cell(ColRef::Fixed(refs.even)) == 0,
        cell(ColRef::Fixed(refs.evenstart)) == 0,
        cell(ColRef::Fixed(refs.evenns)) == 0,
        cell(ColRef::Fixed(refs.odd)) == 1,
        cell(ColRef::Fixed(refs.oddstart)) == 0,
        cell(ColRef::Fixed(refs.oddns)) == 1,
        cell(ColRef::CommittedShift(refs.d)) == 0 || cell(ColRef::CommittedShift(refs.d)) == 1,
    ensures
        sum_at(weighed(path_walk_shape(refs, region), m), cell) == ((fmul(m[0], cell(ColRef::CommittedShift(refs.c[0])) ^ (if cell(ColRef::CommittedShift(refs.d)) == 1 {
                cell(ColRef::CommittedShift2(refs.c[0]))
            } else {
                cell(ColRef::CommittedShift(refs.sib[0]))
            })) ^ fmul(m[1], cell(ColRef::CommittedShift(refs.c[1])) ^ (if cell(ColRef::CommittedShift(refs.d)) == 1 {
                cell(ColRef::CommittedShift2(refs.c[1]))
            } else {
                cell(ColRef::CommittedShift(refs.sib[1]))
            }))) ^ fmul(
            m[2],
            cell(ColRef::CommittedShift(refs.c[2])) ^ cell(ColRef::Fixed(refs.iv[0])),
        )) ^ fmul(m[3], cell(ColRef::CommittedShift(refs.c[3])) ^ cell(ColRef::Fixed(refs.iv[1]))),
{
    let all = path_walk_shape(refs, region);
    lemma_runs(all, m, 10, 20, 23, cell);
    lemma_plain();
    let lane0 = all.subrange(0, 10);
    reveal_with_fuel(cell_sum, 11);
    lemma_cells(lane0[0].factors, cell);
    lemma_cells(lane0[1].factors, cell);
    lemma_cells(lane0[2].factors, cell);
    lemma_cells(lane0[3].factors, cell);
    lemma_cells(lane0[4].factors, cell);
    lemma_cells(lane0[5].factors, cell);
    lemma_cells(lane0[6].factors, cell);
    lemma_cells(lane0[7].factors, cell);
    lemma_cells(lane0[8].factors, cell);
    lemma_cells(lane0[9].factors, cell);
    let lane1 = all.subrange(10, 20);
    lemma_cells(lane1[0].factors, cell);
    lemma_cells(lane1[1].factors, cell);
    lemma_cells(lane1[2].factors, cell);
    lemma_cells(lane1[3].factors, cell);
    lemma_cells(lane1[4].factors, cell);
    lemma_cells(lane1[5].factors, cell);
    lemma_cells(lane1[6].factors, cell);
    lemma_cells(lane1[7].factors, cell);
    lemma_cells(lane1[8].factors, cell);
    lemma_cells(lane1[9].factors, cell);
    let lane2 = all.subrange(20, 23);
    lemma_cells(lane2[0].factors, cell);
    lemma_cells(lane2[1].factors, cell);
    lemma_cells(lane2[2].factors, cell);
    let lane3 = all.subrange(23, 26);
    lemma_cells(lane3[0].factors, cell);
    lemma_cells(lane3[1].factors, cell);
    lemma_cells(lane3[2].factors, cell);
}

/// A slot of the region that is on no path carries the state of the slot before.
pub proof fn lemma_path_idle(
    refs: MerkleFamilyRefs,
    region: usize,
    m: Seq<u128>,
    cell: spec_fn(ColRef) -> u128,
)
    requires
        m.len() == 4,
        cell(ColRef::Fixed(region)) == 1,
        cell(ColRef::Fixed(refs.even)) == 0,
        cell(ColRef::Fixed(refs.evenstart)) == 0,
        cell(ColRef::Fixed(refs.evenns)) == 0,
        cell(ColRef::Fixed(refs.odd)) == 0,
        cell(ColRef::Fixed(refs.oddstart)) == 0,
        cell(ColRef::Fixed(refs.oddns)) == 0,
    ensures
        sum_at(weighed(path_walk_shape(refs, region), m), cell) == ((fmul(m[0], cell(ColRef::CommittedShift(refs.c[0]))) ^ fmul(m[1], cell(ColRef::CommittedShift(refs.c[1])))) ^ fmul(
            m[2],
            cell(ColRef::CommittedShift(refs.c[2])) ^ cell(ColRef::Fixed(refs.iv[0])),
        )) ^ fmul(m[3], cell(ColRef::CommittedShift(refs.c[3])) ^ cell(ColRef::Fixed(refs.iv[1]))),
{
    let all = path_walk_shape(refs, region);
    lemma_runs(all, m, 10, 20, 23, cell);
    lemma_plain();
    let lane0 = all.subrange(0, 10);
    reveal_with_fuel(cell_sum, 11);
    lemma_cells(lane0[0].factors, cell);
    lemma_cells(lane0[1].factors, cell);
    lemma_cells(lane0[2].factors, cell);
    lemma_cells(lane0[3].factors, cell);
    lemma_cells(lane0[4].factors, cell);
    lemma_cells(lane0[5].factors, cell);
    lemma_cells(lane0[6].factors, cell);
    lemma_cells(lane0[7].factors, cell);
    lemma_cells(lane0[8].factors, cell);
    lemma_cells(lane0[9].factors, cell);
    let lane1 = all.subrange(10, 20);
    lemma_cells(lane1[0].factors, cell);
    lemma_cells(lane1[1].factors, cell);
    lemma_cells(lane1[2].factors, cell);
    lemma_cells(lane1[3].factors, cell);
    lemma_cells(lane1[4].factors, cell);
    lemma_cells(lane1[5].factors, cell);
    lemma_cells(lane1[6].factors, cell);
    lemma_cells(lane1[7].factors, cell);
    lemma_cells(lane1[8].factors, cell);
    lemma_cells(lane1[9].factors, cell);
    let lane2 = all.subrange(20, 23);
    lemma_cells(lane2[0].factors, cell);
    lemma_cells(lane2[1].factors, cell);
    lemma_cells(lane2[2].factors, cell);
    let lane3 = all.subrange(23, 26);
    lemma_cells(lane3[0].factors, cell);
    lemma_cells(lane3[1].factors, cell);
    lemma_cells(lane3[2].factors, cell);
}

/// Outside its region a family of paths says nothing but its capacity.
pub proof fn lemma_path_outside(
    refs: MerkleFamilyRefs,
    region: usize,
    m: Seq<u128>,
    cell: spec_fn(ColRef) -> u128,
)
    requires
        m.len() == 4,
        cell(ColRef::Fixed(region)) == 0,
        cell(ColRef::Fixed(refs.even)) == 0,
        cell(ColRef::Fixed(refs.evenstart)) == 0,
        cell(ColRef::Fixed(refs.evenns)) == 0,
        cell(ColRef::Fixed(refs.odd)) == 0,
        cell(ColRef::Fixed(refs.oddstart)) == 0,
        cell(ColRef::Fixed(refs.oddns)) == 0,
    ensures
        sum_at(weighed(path_walk_shape(refs, region), m), cell) == ((fmul(m[0], 0) ^ fmul(m[1], 0)) ^ fmul(
            m[2],
            cell(ColRef::Fixed(refs.iv[0])),
        )) ^ fmul(m[3], cell(ColRef::Fixed(refs.iv[1]))),
{
    let all = path_walk_shape(refs, region);
    lemma_runs(all, m, 10, 20, 23, cell);
    lemma_plain();
    let lane0 = all.subrange(0, 10);
    reveal_with_fuel(cell_sum, 11);
    lemma_cells(lane0[0].factors, cell);
    lemma_cells(lane0[1].factors, cell);
    lemma_cells(lane0[2].factors, cell);
    lemma_cells(lane0[3].factors, cell);
    lemma_cells(lane0[4].factors, cell);
    lemma_cells(lane0[5].factors, cell);
    lemma_cells(lane0[6].factors, cell);
    lemma_cells(lane0[7].factors, cell);
    lemma_cells(lane0[8].factors, cell);
    lemma_cells(lane0[9].factors, cell);
    let lane1 = all.subrange(10, 20);
    lemma_cells(lane1[0].factors, cell);
    lemma_cells(lane1[1].factors, cell);
    lemma_cells(lane1[2].factors, cell);
    lemma_cells(lane1[3].factors, cell);
    lemma_cells(lane1[4].factors, cell);
    lemma_cells(lane1[5].factors, cell);
    lemma_cells(lane1[6].factors, cell);
    lemma_cells(lane1[7].factors, cell);
    lemma_cells(lane1[8].factors, cell);
    lemma_cells(lane1[9].factors, cell);
    let lane2 = all.subrange(20, 23);
    lemma_cells(lane2[0].factors, cell);
    lemma_cells(lane2[1].factors, cell);
    lemma_cells(lane2[2].factors, cell);
    let lane3 = all.subrange(23, 26);
    lemma_cells(lane3[0].factors, cell);
    lemma_cells(lane3[1].factors, cell);
    lemma_cells(lane3[2].factors, cell);
}

/// The first slot of a paired path takes the entry where the direction is zero, the
/// sibling where it is one, over the initial capacity.
pub proof fn lemma_paired_even_start(
    refs: PairedMerkleUpdateRefs,
    region: usize,
    m: Seq<u128>,
    cell: spec_fn(ColRef) -> u128,
)
    requires
        m.len() == 4,
        cell(ColRef::Fixed(region)) == 1,
        cell(ColRef::Fixed(refs.even)) == 1,
        cell(ColRef::Fixed(refs.even_start)) == 1,
        cell(ColRef::Fixed(refs.even_nonstart)) == 0,
        cell(ColRef::Fixed(refs.odd)) == 0,
        cell(ColRef::Fixed(refs.odd_start)) == 0,
        cell(ColRef::Fixed(refs.odd_nonstart)) == 0,
        cell(ColRef::Committed(refs.d)) == 0 || cell(ColRef::Committed(refs.d)) == 1,
    ensures
        sum_at(weighed(paired_walk_shape(refs, region), m), cell) == ((fmul(m[0], {
            if cell(ColRef::Committed(refs.d)) == 1 {
                cell(ColRef::Committed(refs.sib[0]))
            } else {
                cell(ColRef::Committed(refs.e[0]))
            }
        }) ^ fmul(m[1], {
            if cell(ColRef::Committed(refs.d)) == 1 {
                cell(ColRef::Committed(refs.sib[1]))
            } else {
                cell(ColRef::Committed(refs.e[1]))
            }
        })) ^ fmul(
            m[2],
            cell(ColRef::Fixed(refs.iv[0])),
        )) ^ fmul(m[3], cell(ColRef::Fixed(refs.iv[1]))),
{
    let all = paired_walk_shape(refs, region);
    lemma_runs(all, m, 11, 22, 25, cell);
    lemma_plain();
    let lane0 = all.subrange(0, 11);
    reveal_with_fuel(cell_sum, 12);
    lemma_cells(lane0[0].factors, cell);
    lemma_cells(lane0[1].factors, cell);
    lemma_cells(lane0[2].factors, cell);
    lemma_cells(lane0[3].factors, cell);
    lemma_cells(lane0[4].factors, cell);
    lemma_cells(lane0[5].factors, cell);
    lemma_cells(lane0[6].factors, cell);
    lemma_cells(lane0[7].factors, cell);
    lemma_cells(lane0[8].factors, cell);
    lemma_cells(lane0[9].factors, cell);
    lemma_cells(lane0[10].factors, cell);
    let lane1 = all.subrange(11, 22);
    lemma_cells(lane1[0].factors, cell);
    lemma_cells(lane1[1].factors, cell);
    lemma_cells(lane1[2].factors, cell);
    lemma_cells(lane1[3].factors, cell);
    lemma_cells(lane1[4].factors, cell);
    lemma_cells(lane1[5].factors, cell);
    lemma_cells(lane1[6].factors, cell);
    lemma_cells(lane1[7].factors, cell);
    lemma_cells(lane1[8].factors, cell);
    lemma_cells(lane1[9].factors, cell);
    lemma_cells(lane1[10].factors, cell);
    let lane2 = all.subrange(22, 25);
    lemma_cells(lane2[0].factors, cell);
    lemma_cells(lane2[1].factors, cell);
    lemma_cells(lane2[2].factors, cell);
    let lane3 = all.subrange(25, 28);
    lemma_cells(lane3[0].factors, cell);
    lemma_cells(lane3[1].factors, cell);
    lemma_cells(lane3[2].factors, cell);
}

/// The even slot of a later level takes the digest that the slot before bridges where
/// the direction is zero, the sibling where it is one, over the initial capacity.
pub proof fn lemma_paired_even_next(
    refs: PairedMerkleUpdateRefs,
    region: usize,
    m: Seq<u128>,
    cell: spec_fn(ColRef) -> u128,
)
    requires
        m.len() == 4,
        cell(ColRef::Fixed(region)) == 1,
        cell(ColRef::Fixed(refs.even)) == 1,
        cell(ColRef::Fixed(refs.even_start)) == 0,
        cell(ColRef::Fixed(refs.even_nonstart)) == 1,
        cell(ColRef::Fixed(refs.odd)) == 0,
        cell(ColRef::Fixed(refs.odd_start)) == 0,
        cell(ColRef::Fixed(refs.odd_nonstart)) == 0,
        cell(ColRef::Committed(refs.d)) == 0 || cell(ColRef::Committed(refs.d)) == 1,
    ensures
        sum_at(weighed(paired_walk_shape(refs, region), m), cell) == ((fmul(m[0], {
            if cell(ColRef::Committed(refs.d)) == 1 {
                cell(ColRef::Committed(refs.sib[0]))
            } else {
                cell(ColRef::CommittedShift(refs.e[0]))
            }
        }) ^ fmul(m[1], {
            if cell(ColRef::Committed(refs.d)) == 1 {
                cell(ColRef::Committed(refs.sib[1]))
            } else {
                cell(ColRef::CommittedShift(refs.e[1]))
            }
        })) ^ fmul(
            m[2],
            cell(ColRef::Fixed(refs.iv[0])),
        )) ^ fmul(m[3], cell(ColRef::Fixed(refs.iv[1]))),
{
    let all = paired_walk_shape(refs, region);
    lemma_runs(all, m, 11, 22, 25, cell);
    lemma_plain();
    let lane0 = all.subrange(0, 11);
    reveal_with_fuel(cell_sum, 12);
    lemma_cells(lane0[0].factors, cell);
    lemma_cells(lane0[1].factors, cell);
    lemma_cells(lane0[2].factors, cell);
    lemma_cells(lane0[3].factors, cell);
    lemma_cells(lane0[4].factors, cell);
    lemma_cells(lane0[5].factors, cell);
    lemma_cells(lane0[6].factors, cell);
    lemma_cells(lane0[7].factors, cell);
    lemma_cells(lane0[8].factors, cell);
    lemma_cells(lane0[9].factors, cell);
    lemma_cells(lane0[10].factors, cell);
    let lane1 = all.subrange(11, 22);
    lemma_cells(lane1[0].factors, cell);
    lemma_cells(lane1[1].factors, cell);
    lemma_cells(lane1[2].factors, cell);
    lemma_cells(lane1[3].factors, cell);
    lemma_cells(lane1[4].factors, cell);
    lemma_cells(lane1[5].factors, cell);
    lemma_cells(lane1[6].factors, cell);
    lemma_cells(lane1[7].factors, cell);
    lemma_cells(lane1[8].factors, cell);
    lemma_cells(lane1[9].factors, cell);
    lemma_cells(lane1[10].factors, cell);
    let lane2 = all.subrange(22, 25);
    lemma_cells(lane2[0].factors, cell);
    lemma_cells(lane2[1].factors, cell);
    lemma_cells(lane2[2].factors, cell);
    let lane3 = all.subrange(25, 28);
    lemma_cells(lane3[0].factors, cell);
    lemma_cells(lane3[1].factors, cell);
    lemma_cells(lane3[2].factors, cell);
}

/// The odd slot of the first level adds to the state of the slot before the other
/// child: the entry of that slot where its direction is one, its sibling where it is
/// zero.
pub proof fn lemma_paired_odd_start(
    refs: PairedMerkleUpdateRefs,
    region: usize,
    m: Seq<u128>,
    cell: spec_fn(ColRef) -> u128,
)
    requires
        m.len() == 4,
        cell(ColRef::Fixed(region)) == 1,
        cell(ColRef::Fixed(refs.even)) == 0,
        cell(ColRef::Fixed(refs.even_start)) == 0,
        cell(ColRef::Fixed(refs.even_nonstart)) == 0,
        cell(ColRef::Fixed(refs.odd)) == 1,
        cell(ColRef::Fixed(refs.odd_start)) == 1,
        cell(ColRef::Fixed(refs.odd_nonstart)) == 0,
        cell(ColRef::CommittedShift(refs.d)) == 0 || cell(ColRef::CommittedShift(refs.d)) == 1,
    ensures
        sum_at(weighed(paired_walk_shape(refs, region), m), cell) == ((fmul(m[0], cell(ColRef::CommittedShift(refs.c[0])) ^ (if cell(ColRef::CommittedShift(refs.d)) == 1 {
                cell(ColRef::CommittedShift(refs.e[0]))
            } else {
                cell(ColRef::CommittedShift(refs.sib[0]))
            })) ^ fmul(m[1], cell(ColRef::CommittedShift(refs.c[1])) ^ (if cell(ColRef::CommittedShift(refs.d)) == 1 {
                cell(ColRef::CommittedShift(refs.e[1]))
            } else {
                cell(ColRef::CommittedShift(refs.sib[1]))
            }))) ^ fmul(
            m[2],
            cell(ColRef::CommittedShift(refs.c[2])) ^ cell(ColRef::Fixed(refs.iv[0])),
        )) ^ fmul(m[3], cell(ColRef::CommittedShift(refs.c[3])) ^ cell(ColRef::Fixed(refs.iv[1]))),
{
    let all = paired_walk_shape(refs, region);
    lemma_runs(all, m, 11, 22, 25, cell);
    lemma_plain();
    let lane0 = all.subrange(0, 11);
    reveal_with_fuel(cell_sum, 12);
    lemma_cells(lane0[0].factors, cell);
    lemma_cells(lane0[1].factors, cell);
    lemma_cells(lane0[2].factors, cell);
    lemma_cells(lane0[3].factors, cell);
    lemma_cells(lane0[4].factors, cell);
    lemma_cells(lane0[5].factors, cell);
    lemma_cells(lane0[6].factors, cell);
    lemma_cells(lane0[7].factors, cell);
    lemma_cells(lane0[8].factors, cell);
    lemma_cells(lane0[9].factors, cell);
    lemma_cells(lane0[10].factors, cell);
    let lane1 = all.subrange(11, 22);
    lemma_cells(lane1[0].factors, cell);
    lemma_cells(lane1[1].factors, cell);
    lemma_cells(lane1[2].factors, cell);
    lemma_cells(lane1[3].factors, cell);
    lemma_cells(lane1[4].factors, cell);
    lemma_cells(lane1[5].factors, cell);
    lemma_cells(lane1[6].factors, cell);
    lemma_cells(lane1[7].factors, cell);
    lemma_cells(lane1[8].factors, cell);
    lemma_cells(lane1[9].factors, cell);
    lemma_cells(lane1[10].factors, cell);
    let lane2 = all.subrange(22, 25);
    lemma_cells(lane2[0].factors, cell);
    lemma_cells(lane2[1].factors, cell);
    lemma_cells(lane2[2].factors, cell);
    let lane3 = all.subrange(25, 28);
    lemma_cells(lane3[0].factors, cell);
    lemma_cells(lane3[1].factors, cell);
    lemma_cells(lane3[2].factors, cell);
}

/// The odd slot of a later level adds to the state of the slot before the other
/// child: the digest bridged two slots back where the direction of the slot before is
/// one, its sibling where it is zero.
pub proof fn lemma_paired_odd_next(
    refs: PairedMerkleUpdateRefs,
    region: usize,
    m: Seq<u128>,
    cell: spec_fn(ColRef) -> u128,
)
    requires
        m.len() == 4,
        cell(ColRef::Fixed(region)) == 1,
        cell(ColRef::Fixed(refs.even)) == 0,
        cell(ColRef::Fixed(refs.even_start)) == 0,
        cell(ColRef::Fixed(refs.even_nonstart)) == 0,
        cell(ColRef::Fixed(refs.odd)) == 1,
        cell(ColRef::Fixed(refs.odd_start)) == 0,
        cell(ColRef::Fixed(refs.odd_nonstart)) == 1,
        cell(ColRef::CommittedShift(refs.d)) == 0 || cell(ColRef::CommittedShift(refs.d)) == 1,
    ensures
        sum_at(weighed(paired_walk_shape(refs, region), m), cell) == ((fmul(m[0], cell(ColRef::CommittedShift(refs.c[0])) ^ (if cell(ColRef::CommittedShift(refs.d)) == 1 {
                cell(ColRef::CommittedShift2(refs.e[0]))
            } else {
                cell(ColRef::CommittedShift(refs.sib[0]))
            })) ^ fmul(m[1], cell(ColRef::CommittedShift(refs.c[1])) ^ (if cell(ColRef::CommittedShift(refs.d)) == 1 {
                cell(ColRef::CommittedShift2(refs.e[1]))
            } else {
                cell(ColRef::CommittedShift(refs.sib[1]))
            }))) ^ fmul(
            m[2],
            cell(ColRef::CommittedShift(refs.c[2])) ^ cell(ColRef::Fixed(refs.iv[0])),
        )) ^ fmul(m[3], cell(ColRef::CommittedShift(refs.c[3])) ^ cell(ColRef::Fixed(refs.iv[1]))),
{
    let all = paired_walk_shape(refs, region);
    lemma_runs(all, m, 11, 22, 25, cell);
    lemma_plain();
    let lane0 = all.subrange(0, 11);
    reveal_with_fuel(cell_sum, 12);
    lemma_cells(lane0[0].factors, cell);
    lemma_cells(lane0[1].factors, cell);
    lemma_cells(lane0[2].factors, cell);
    lemma_cells(lane0[3].factors, cell);
    lemma_cells(lane0[4].factors, cell);
    lemma_cells(lane0[5].factors, cell);
    lemma_cells(lane0[6].factors, cell);
    lemma_cells(lane0[7].factors, cell);
    lemma_cells(lane0[8].factors, cell);
    lemma_cells(lane0[9].factors, cell);
    lemma_cells(lane0[10].factors, cell);
    let lane1 = all.subrange(11, 22);
    lemma_cells(lane1[0].factors, cell);
    lemma_cells(lane1[1].factors, cell);
    lemma_cells(lane1[2].factors, cell);
    lemma_cells(lane1[3].factors, cell);
    lemma_cells(lane1[4].factors, cell);
    lemma_cells(lane1[5].factors, cell);
    lemma_cells(lane1[6].factors, cell);
    lemma_cells(lane1[7].factors, cell);
    lemma_cells(lane1[8].factors, cell);
    lemma_cells(lane1[9].factors, cell);
    lemma_cells(lane1[10].factors, cell);
    let lane2 = all.subrange(22, 25);
    lemma_cells(lane2[0].factors, cell);
    lemma_cells(lane2[1].factors, cell);
    lemma_cells(lane2[2].factors, cell);
    let lane3 = all.subrange(25, 28);
    lemma_cells(lane3[0].factors, cell);
    lemma_cells(lane3[1].factors, cell);
    lemma_cells(lane3[2].factors, cell);
}

/// A slot of the region that is on no paired path carries the state of the slot
/// before.
pub proof fn lemma_paired_idle(
    refs: PairedMerkleUpdateRefs,
    region: usize,
    m: Seq<u128>,
    cell: spec_fn(ColRef) -> u128,
)
    requires
        m.len() == 4,
        cell(ColRef::Fixed(region)) == 1,
        cell(ColRef::Fixed(refs.even)) == 0,
        cell(ColRef::Fixed(refs.even_start)) == 0,
        cell(ColRef::Fixed(refs.even_nonstart)) == 0,
        cell(ColRef::Fixed(refs.odd)) == 0,
        cell(ColRef::Fixed(refs.odd_start)) == 0,
        cell(ColRef::Fixed(refs.odd_nonstart)) == 0,
    ensures
        sum_at(weighed(paired_walk_shape(refs, region), m), cell) == ((fmul(m[0], cell(ColRef::CommittedShift(refs.c[0]))) ^ fmul(m[1], cell(ColRef::CommittedShift(refs.c[1])))) ^ fmul(
            m[2],
            cell(ColRef::CommittedShift(refs.c[2])) ^ cell(ColRef::Fixed(refs.iv[0])),
        )) ^ fmul(m[3], cell(ColRef::CommittedShift(refs.c[3])) ^ cell(ColRef::Fixed(refs.iv[1]))),
{
    let all = paired_walk_shape(refs, region);
    lemma_runs(all, m, 11, 22, 25, cell);
    lemma_plain();
    let lane0 = all.subrange(0, 11);
    reveal_with_fuel(cell_sum, 12);
    lemma_cells(lane0[0].factors, cell);
    lemma_cells(lane0[1].factors, cell);
    lemma_cells(lane0[2].factors, cell);
    lemma_cells(lane0[3].factors, cell);
    lemma_cells(lane0[4].factors, cell);
    lemma_cells(lane0[5].factors, cell);
    lemma_cells(lane0[6].factors, cell);
    lemma_cells(lane0[7].factors, cell);
    lemma_cells(lane0[8].factors, cell);
    lemma_cells(lane0[9].factors, cell);
    lemma_cells(lane0[10].factors, cell);
    let lane1 = all.subrange(11, 22);
    lemma_cells(lane1[0].factors, cell);
    lemma_cells(lane1[1].factors, cell);
    lemma_cells(lane1[2].factors, cell);
    lemma_cells(lane1[3].factors, cell);
    lemma_cells(lane1[4].factors, cell);
    lemma_cells(lane1[5].factors, cell);
    lemma_cells(lane1[6].factors, cell);
    lemma_cells(lane1[7].factors, cell);
    lemma_cells(lane1[8].factors, cell);
    lemma_cells(lane1[9].factors, cell);
    lemma_cells(lane1[10].factors, cell);
    let lane2 = all.subrange(22, 25);
    lemma_cells(lane2[0].factors, cell);
    lemma_cells(lane2[1].factors, cell);
    lemma_cells(lane2[2].factors, cell);
    let lane3 = all.subrange(25, 28);
    lemma_cells(lane3[0].factors, cell);
    lemma_cells(lane3[1].factors, cell);
    lemma_cells(lane3[2].factors, cell);
}

/// Outside its region a paired family says nothing but its capacity.
pub proof fn lemma_paired_outside(
    refs: PairedMerkleUpdateRefs,
    region: usize,
    m: Seq<u128>,
    cell: spec_fn(ColRef) -> u128,
)
    requires
        m.len() == 4,
        cell(ColRef::Fixed(region)) == 0,
        cell(ColRef::Fixed(refs.even)) == 0,
        cell(ColRef::Fixed(refs.even_start)) == 0,
        cell(ColRef::Fixed(refs.even_nonstart)) == 0,
        cell(ColRef::Fixed(refs.odd)) == 0,
        cell(ColRef::Fixed(refs.odd_start)) == 0,
        cell(ColRef::Fixed(refs.odd_nonstart)) == 0,
    ensures
        sum_at(weighed(paired_walk_shape(refs, region), m), cell) == ((fmul(m[0], 0) ^ fmul(m[1], 0)) ^ fmul(
            m[2],
            cell(ColRef::Fixed(refs.iv[0])),
        )) ^ fmul(m[3], cell(ColRef::Fixed(refs.iv[1]))),
{
    let all = paired_walk_shape(refs, region);
    lemma_runs(all, m, 11, 22, 25, cell);
    lemma_plain();
    let lane0 = all.subrange(0, 11);
    reveal_with_fuel(cell_sum, 12);
    lemma_cells(lane0[0].factors, cell);
    lemma_cells(lane0[1].factors, cell);
    lemma_cells(lane0[2].factors, cell);
    lemma_cells(lane0[3].factors, cell);
    lemma_cells(lane0[4].factors, cell);
    lemma_cells(lane0[5].factors, cell);
    lemma_cells(lane0[6].factors, cell);
    lemma_cells(lane0[7].factors, cell);
    lemma_cells(lane0[8].factors, cell);
    lemma_cells(lane0[9].factors, cell);
    lemma_cells(lane0[10].factors, cell);
    let lane1 = all.subrange(11, 22);
    lemma_cells(lane1[0].factors, cell);
    lemma_cells(lane1[1].factors, cell);
    lemma_cells(lane1[2].factors, cell);
    lemma_cells(lane1[3].factors, cell);
    lemma_cells(lane1[4].factors, cell);
    lemma_cells(lane1[5].factors, cell);
    lemma_cells(lane1[6].factors, cell);
    lemma_cells(lane1[7].factors, cell);
    lemma_cells(lane1[8].factors, cell);
    lemma_cells(lane1[9].factors, cell);
    lemma_cells(lane1[10].factors, cell);
    let lane2 = all.subrange(22, 25);
    lemma_cells(lane2[0].factors, cell);
    lemma_cells(lane2[1].factors, cell);
    lemma_cells(lane2[2].factors, cell);
    let lane3 = all.subrange(25, 28);
    lemma_cells(lane3[0].factors, cell);
    lemma_cells(lane3[1].factors, cell);
    lemma_cells(lane3[2].factors, cell);
}

/// A node slot of a feed-forward family takes both children in the order of its
/// direction: the carried digest first where it is zero, the sibling first where it
/// is one. The second child stands on the initial capacity.
pub proof fn lemma_ff_node(
    refs: FfMerkleFamilyRefs,
    region: usize,
    m: Seq<u128>,
    cell: spec_fn(ColRef) -> u128,
)
    requires
        m.len() == 4,
        cell(ColRef::Fixed(region)) == 1,
        cell(ColRef::Fixed(refs.node)) == 1,
        cell(ColRef::Committed(refs.d)) == 0 || cell(ColRef::Committed(refs.d)) == 1,
    ensures
        sum_at(weighed(ff_walk_shape(refs, region), m), cell) == ((fmul(m[0], {
            if cell(ColRef::Committed(refs.d)) == 1 {
                cell(ColRef::Committed(refs.sib[0]))
            } else {
                cell(ColRef::Committed(refs.cr[0]))
            }
        }) ^ fmul(m[1], {
            if cell(ColRef::Committed(refs.d)) == 1 {
                cell(ColRef::Committed(refs.sib[1]))
            } else {
                cell(ColRef::Committed(refs.cr[1]))
            }
        })) ^ fmul(
            m[2],
            (if cell(ColRef::Committed(refs.d)) == 1 {
                cell(ColRef::Committed(refs.cr[0]))
            } else {
                cell(ColRef::Committed(refs.sib[0]))
            }) ^ cell(ColRef::Fixed(refs.iv[0])),
        )) ^ fmul(m[3], (if cell(ColRef::Committed(refs.d)) == 1 {
                cell(ColRef::Committed(refs.cr[1]))
            } else {
                cell(ColRef::Committed(refs.sib[1]))
            }) ^ cell(ColRef::Fixed(refs.iv[1]))),
{
    lemma_ff_walk(refs, region, m, cell);
    lemma_plain();
    let d = cell(ColRef::Committed(refs.d));
    assert forall|i: int| 0 <= i < 2 implies {
        let carried = cell(ColRef::Committed(#[trigger] refs.cr[i]));
        let sibling = cell(ColRef::Committed(refs.sib[i]));
        &&& carried ^ (carried ^ sibling) == sibling
        &&& sibling ^ (carried ^ sibling) == carried
    } by {
        let carried = cell(ColRef::Committed(refs.cr[i]));
        let sibling = cell(ColRef::Committed(refs.sib[i]));
        lemma_xor(carried, sibling, 0);
        lemma_xor(sibling, carried, 0);
    }
    assert forall|j: int| 0 <= j < 4 implies {
        let carry = cell(ColRef::CommittedShift(#[trigger] refs.c[j]));
        forall|x: u128| carry ^ #[trigger] (carry ^ x) == x
    } by {
        let carry = cell(ColRef::CommittedShift(refs.c[j]));
        assert forall|x: u128| carry ^ #[trigger] (carry ^ x) == x by {
            lemma_xor(carry, x, 0);
        }
    }
    assert(refs.cr[0] == refs.cr[0] && refs.cr[1] == refs.cr[1]);
    assert(refs.c[0] == refs.c[0] && refs.c[1] == refs.c[1] && refs.c[2] == refs.c[2] && refs.c[3]
        == refs.c[3]);
}

/// A slot of the region that is no node carries the state of the slot before.
pub proof fn lemma_ff_idle(
    refs: FfMerkleFamilyRefs,
    region: usize,
    m: Seq<u128>,
    cell: spec_fn(ColRef) -> u128,
)
    requires
        m.len() == 4,
        cell(ColRef::Fixed(region)) == 1,
        cell(ColRef::Fixed(refs.node)) == 0,
    ensures
        sum_at(weighed(ff_walk_shape(refs, region), m), cell) == ((fmul(m[0], cell(ColRef::CommittedShift(refs.c[0]))) ^ fmul(m[1], cell(ColRef::CommittedShift(refs.c[1])))) ^ fmul(
            m[2],
            cell(ColRef::CommittedShift(refs.c[2])) ^ cell(ColRef::Fixed(refs.iv[0])),
        )) ^ fmul(m[3], cell(ColRef::CommittedShift(refs.c[3])) ^ cell(ColRef::Fixed(refs.iv[1]))),
{
    lemma_ff_walk(refs, region, m, cell);
    lemma_plain();
    let d = cell(ColRef::Committed(refs.d));
    assert forall|i: int| 0 <= i < 2 implies {
        let carried = cell(ColRef::Committed(#[trigger] refs.cr[i]));
        let sibling = cell(ColRef::Committed(refs.sib[i]));
        &&& carried ^ (carried ^ sibling) == sibling
        &&& sibling ^ (carried ^ sibling) == carried
    } by {
        let carried = cell(ColRef::Committed(refs.cr[i]));
        let sibling = cell(ColRef::Committed(refs.sib[i]));
        lemma_xor(carried, sibling, 0);
        lemma_xor(sibling, carried, 0);
    }
    assert forall|j: int| 0 <= j < 4 implies {
        let carry = cell(ColRef::CommittedShift(#[trigger] refs.c[j]));
        forall|x: u128| carry ^ #[trigger] (carry ^ x) == x
    } by {
        let carry = cell(ColRef::CommittedShift(refs.c[j]));
        assert forall|x: u128| carry ^ #[trigger] (carry ^ x) == x by {
            lemma_xor(carry, x, 0);
        }
    }
    assert(refs.cr[0] == refs.cr[0] && refs.cr[1] == refs.cr[1]);
    assert(refs.c[0] == refs.c[0] && refs.c[1] == refs.c[1] && refs.c[2] == refs.c[2] && refs.c[3]
        == refs.c[3]);
}

/// A chained slot of a feed-forward family carries, in both lanes, the digest that
/// the slot before feeds forward: its state and the child that its direction put
/// first. Under a challenge the two differences have its first two powers.
pub proof fn lemma_ff_chained(
    refs: FfMerkleFamilyRefs,
    lambda: u128,
    cell: spec_fn(ColRef) -> u128,
)
    requires
        cell(ColRef::Fixed(refs.nodens)) == 1,
        cell(ColRef::CommittedShift(refs.d)) == 0 || cell(ColRef::CommittedShift(refs.d)) == 1,
    ensures
        sum_at(weighed(ff_chain_shape(refs), zero_weights(lambda)), cell) == fmul(
            lambda,
            cell(ColRef::Committed(refs.cr[0])) ^ (cell(ColRef::CommittedShift(refs.c[0])) ^ (
            if cell(ColRef::CommittedShift(refs.d)) == 1 {
                cell(ColRef::CommittedShift(refs.sib[0]))
            } else {
                cell(ColRef::CommittedShift(refs.cr[0]))
            })),
        ) ^ fmul(
            fmul(lambda, lambda),
            cell(ColRef::Committed(refs.cr[1])) ^ (cell(ColRef::CommittedShift(refs.c[1])) ^ (
            if cell(ColRef::CommittedShift(refs.d)) == 1 {
                cell(ColRef::CommittedShift(refs.sib[1]))
            } else {
                cell(ColRef::CommittedShift(refs.cr[1]))
            })),
        ),
{
    lemma_ff_chain(refs, zero_weights(lambda), cell);
    lemma_plain();
    reveal_with_fuel(power, 3);
    assert forall|i: int| 0 <= i < 2 implies {
        let c = cell(ColRef::CommittedShift(#[trigger] refs.c[i]));
        let carried = cell(ColRef::CommittedShift(refs.cr[i]));
        let sibling = cell(ColRef::CommittedShift(refs.sib[i]));
        (c ^ carried) ^ (carried ^ sibling) == c ^ sibling
    } by {
        let c = cell(ColRef::CommittedShift(refs.c[i]));
        let carried = cell(ColRef::CommittedShift(refs.cr[i]));
        let sibling = cell(ColRef::CommittedShift(refs.sib[i]));
        lemma_xor(c, carried, carried ^ sibling);
        lemma_xor(carried, sibling, 0);
    }
    assert(refs.c[0] == refs.c[0] && refs.c[1] == refs.c[1]);
}

/// Off the chained slots the chain says nothing.
pub proof fn lemma_ff_unchained(
    refs: FfMerkleFamilyRefs,
    lambda: u128,
    cell: spec_fn(ColRef) -> u128,
)
    requires
        cell(ColRef::Fixed(refs.nodens)) == 0,
    ensures
        sum_at(weighed(ff_chain_shape(refs), zero_weights(lambda)), cell) == 0,
{
    lemma_ff_chain(refs, zero_weights(lambda), cell);
    lemma_plain();
}

/// The six equations of a paired update, under the powers of a challenge from zero
/// on: on an old even slot the direction is a bit, a bridge carries the digest two
/// slots back, a copied slot repeats both siblings and the direction of the slot
/// before.
pub proof fn lemma_paired_equations(
    refs: PairedMerkleUpdateRefs,
    lambda: u128,
    cell: spec_fn(ColRef) -> u128,
)
    ensures
        ({
            let bit = fmul(
                cell(ColRef::Fixed(refs.old_even)),
                fmul(cell(ColRef::Committed(refs.d)), cell(ColRef::Committed(refs.d))) ^ cell(
                    ColRef::Committed(refs.d),
                ),
            );
            let bridge = |i: int|
                fmul(
                    cell(ColRef::Fixed(refs.bridge)),
                    cell(ColRef::Committed(refs.e[i])) ^ cell(
                        ColRef::CommittedShift2(refs.c[i]),
                    ),
                );
            let sibling = |i: int|
                fmul(
                    cell(ColRef::Fixed(refs.copy_step)),
                    cell(ColRef::Committed(refs.sib[i])) ^ cell(
                        ColRef::CommittedShift(refs.sib[i]),
                    ),
                );
            let turn = fmul(
                cell(ColRef::Fixed(refs.copy_step)),
                cell(ColRef::Committed(refs.d)) ^ cell(ColRef::CommittedShift(refs.d)),
            );
            let l2 = fmul(lambda, lambda);
            let l3 = fmul(l2, lambda);
            let l4 = fmul(l3, lambda);
            let l5 = fmul(l4, lambda);
            sum_at(weighed(paired_consistency_shape(refs), zero_weights(lambda)), cell) == ((((bit
                ^ fmul(lambda, bridge(0))) ^ fmul(l2, bridge(1))) ^ fmul(l3, sibling(0))) ^ fmul(
                l4,
                sibling(1),
            )) ^ fmul(l5, turn)
        }),
{
    lemma_paired_consistency(refs, zero_weights(lambda), cell);
    lemma_plain();
    reveal_with_fuel(power, 6);
}

proof fn lemma_sums(x: Seq<ShapeTerm>, y: Seq<ShapeTerm>, m: Seq<u128>, cell: spec_fn(ColRef) -> u128)
    ensures
        sum_at(weighed(x + y, m), cell) == sum_at(weighed(x, m), cell) ^ sum_at(
            weighed(y, m),
            cell,
        ),
{
    lemma_weighed_append(x, y, m);
    lemma_sum_append(weighed(x, m), weighed(y, m), cell);
}

pub(crate) proof fn lemma_insert(a: u128, b: u128, c: u128, x: u128)
    ensures
        ((a ^ x) ^ b) ^ c == ((a ^ b) ^ c) ^ x,
        (a ^ (b ^ x)) ^ c == ((a ^ b) ^ c) ^ x,
        (a ^ b) ^ (c ^ x) == ((a ^ b) ^ c) ^ x,
        (a ^ x) ^ b == (a ^ b) ^ x,
        a ^ (b ^ x) == (a ^ b) ^ x,
{
    assert(((a ^ x) ^ b) ^ c == ((a ^ b) ^ c) ^ x && (a ^ (b ^ x)) ^ c == ((a ^ b) ^ c) ^ x && (a
        ^ b) ^ (c ^ x) == ((a ^ b) ^ c) ^ x && (a ^ x) ^ b == (a ^ b) ^ x && a ^ (b ^ x) == (a ^ b)
        ^ x) by (bit_vector);
}

proof fn lemma_walk_parts(f: MerkleFamilies, m: Seq<u128>, cell: spec_fn(ColRef) -> u128)
    ensures
        sum_at(weighed(f.walk_shape(), m), cell) == (sum_at(
            weighed(ff_walks(f.ff@, f.ff@.len()), m),
            cell,
        ) ^ sum_at(weighed(path_walks(f.paths@, f.paths@.len()), m), cell)) ^ sum_at(
            weighed(paired_walks(f.paired@, f.paired@.len()), m),
            cell,
        ),
        sum_at(weighed(f.zero_shape(), m), cell) == sum_at(
            weighed(ff_chains(f.ff@, f.ff@.len()), m),
            cell,
        ) ^ sum_at(weighed(consistencies(f.paired@, f.paired@.len()), m), cell),
{
    let x = ff_walks(f.ff@, f.ff@.len());
    let y = path_walks(f.paths@, f.paths@.len());
    let z = paired_walks(f.paired@, f.paired@.len());
    lemma_sums(x, y, m, cell);
    lemma_sums(x + y, z, m, cell);
    lemma_sums(
        ff_chains(f.ff@, f.ff@.len()),
        consistencies(f.paired@, f.paired@.len()),
        m,
        cell,
    );
}

/// Without families a Merkle walk has no wiring and no vanishing relation.
pub proof fn lemma_merkle_none(f: MerkleFamilies, m: Seq<u128>, cell: spec_fn(ColRef) -> u128)
    requires
        f.ff@.len() == 0,
        f.paths@.len() == 0,
        f.paired@.len() == 0,
    ensures
        sum_at(weighed(f.walk_shape(), m), cell) == 0,
        sum_at(weighed(f.zero_shape(), m), cell) == 0,
{
    assert(weighed(f.walk_shape(), m) =~= seq![]);
    assert(weighed(f.zero_shape(), m) =~= seq![]);
}

proof fn lemma_ff_walks_prefix(x: Seq<FfFamily>, y: Seq<FfFamily>, n: nat)
    requires
        n <= x.len(),
        n <= y.len(),
        forall|i: int| 0 <= i < n ==> x[i] == y[i],
    ensures
        ff_walks(x, n) == ff_walks(y, n),
    decreases n,
{
    if n > 0 {
        lemma_ff_walks_prefix(x, y, (n - 1) as nat);
    }
}

proof fn lemma_path_walks_prefix(x: Seq<PathFamily>, y: Seq<PathFamily>, n: nat)
    requires
        n <= x.len(),
        n <= y.len(),
        forall|i: int| 0 <= i < n ==> x[i] == y[i],
    ensures
        path_walks(x, n) == path_walks(y, n),
    decreases n,
{
    if n > 0 {
        lemma_path_walks_prefix(x, y, (n - 1) as nat);
    }
}

proof fn lemma_paired_walks_prefix(x: Seq<PairedFamily>, y: Seq<PairedFamily>, n: nat)
    requires
        n <= x.len(),
        n <= y.len(),
        forall|i: int| 0 <= i < n ==> x[i] == y[i],
    ensures
        paired_walks(x, n) == paired_walks(y, n),
    decreases n,
{
    if n > 0 {
        lemma_paired_walks_prefix(x, y, (n - 1) as nat);
    }
}

proof fn lemma_ff_chains_prefix(x: Seq<FfFamily>, y: Seq<FfFamily>, n: nat)
    requires
        n <= x.len(),
        n <= y.len(),
        forall|i: int| 0 <= i < n ==> x[i] == y[i],
    ensures
        ff_chains(x, n) == ff_chains(y, n),
    decreases n,
{
    if n > 0 {
        lemma_ff_chains_prefix(x, y, (n - 1) as nat);
    }
}

proof fn lemma_consistencies_prefix(x: Seq<PairedFamily>, y: Seq<PairedFamily>, n: nat)
    requires
        n <= x.len(),
        n <= y.len(),
        forall|i: int| 0 <= i < n ==> x[i] == y[i],
    ensures
        consistencies(x, n) == consistencies(y, n),
    decreases n,
{
    if n > 0 {
        lemma_consistencies_prefix(x, y, (n - 1) as nat);
    }
}

/// A feed-forward family more adds its own wiring and its own chain, and changes no
/// other family.
pub proof fn lemma_ff_family_adds(
    f: MerkleFamilies,
    g: MerkleFamilies,
    x: FfFamily,
    m: Seq<u128>,
    cell: spec_fn(ColRef) -> u128,
)
    requires
        g.ff@ == f.ff@.push(x),
        g.paths@ == f.paths@,
        g.paired@ == f.paired@,
    ensures
        sum_at(weighed(g.walk_shape(), m), cell) == sum_at(weighed(f.walk_shape(), m), cell)
            ^ sum_at(weighed(ff_walk_shape(x.refs, x.region), m), cell),
        sum_at(weighed(g.zero_shape(), m), cell) == sum_at(weighed(f.zero_shape(), m), cell)
            ^ sum_at(weighed(ff_chain_shape(x.refs), m), cell),
{
    lemma_walk_parts(f, m, cell);
    lemma_walk_parts(g, m, cell);
    lemma_ff_walks_prefix(f.ff@, g.ff@, f.ff@.len());
    lemma_sums(ff_walks(f.ff@, f.ff@.len()), ff_walk_shape(x.refs, x.region), m, cell);
    lemma_ff_chains_prefix(f.ff@, g.ff@, f.ff@.len());
    lemma_sums(ff_chains(f.ff@, f.ff@.len()), ff_chain_shape(x.refs), m, cell);
    let a = sum_at(weighed(ff_walks(f.ff@, f.ff@.len()), m), cell);
    let b = sum_at(weighed(path_walks(f.paths@, f.paths@.len()), m), cell);
    let c = sum_at(weighed(paired_walks(f.paired@, f.paired@.len()), m), cell);
    lemma_insert(a, b, c, sum_at(weighed(ff_walk_shape(x.refs, x.region), m), cell));
    let p = sum_at(weighed(ff_chains(f.ff@, f.ff@.len()), m), cell);
    let q = sum_at(weighed(consistencies(f.paired@, f.paired@.len()), m), cell);
    lemma_insert(p, q, 0, sum_at(weighed(ff_chain_shape(x.refs), m), cell));
}

/// A family of two permutations a node more adds its own wiring.
pub proof fn lemma_path_family_adds(
    f: MerkleFamilies,
    g: MerkleFamilies,
    x: PathFamily,
    m: Seq<u128>,
    cell: spec_fn(ColRef) -> u128,
)
    requires
        g.paths@ == f.paths@.push(x),
        g.ff@ == f.ff@,
        g.paired@ == f.paired@,
    ensures
        sum_at(weighed(g.walk_shape(), m), cell) == sum_at(weighed(f.walk_shape(), m), cell)
            ^ sum_at(weighed(path_walk_shape(x.refs, x.region), m), cell),
        sum_at(weighed(g.zero_shape(), m), cell) == sum_at(weighed(f.zero_shape(), m), cell),
{
    lemma_walk_parts(f, m, cell);
    lemma_walk_parts(g, m, cell);
    lemma_path_walks_prefix(f.paths@, g.paths@, f.paths@.len());
    lemma_sums(path_walks(f.paths@, f.paths@.len()), path_walk_shape(x.refs, x.region), m, cell);
    let a = sum_at(weighed(ff_walks(f.ff@, f.ff@.len()), m), cell);
    let b = sum_at(weighed(path_walks(f.paths@, f.paths@.len()), m), cell);
    let c = sum_at(weighed(paired_walks(f.paired@, f.paired@.len()), m), cell);
    lemma_insert(a, b, c, sum_at(weighed(path_walk_shape(x.refs, x.region), m), cell));
    let p = sum_at(weighed(ff_chains(f.ff@, f.ff@.len()), m), cell);
    let q = sum_at(weighed(consistencies(f.paired@, f.paired@.len()), m), cell);
}

/// A paired update more adds its own wiring and its own equations.
pub proof fn lemma_paired_family_adds(
    f: MerkleFamilies,
    g: MerkleFamilies,
    x: PairedFamily,
    m: Seq<u128>,
    cell: spec_fn(ColRef) -> u128,
)
    requires
        g.paired@ == f.paired@.push(x),
        g.ff@ == f.ff@,
        g.paths@ == f.paths@,
    ensures
        sum_at(weighed(g.walk_shape(), m), cell) == sum_at(weighed(f.walk_shape(), m), cell)
            ^ sum_at(weighed(paired_walk_shape(x.refs, x.region), m), cell),
        sum_at(weighed(g.zero_shape(), m), cell) == sum_at(weighed(f.zero_shape(), m), cell)
            ^ sum_at(weighed(paired_consistency_shape(x.refs), m), cell),
{
    lemma_walk_parts(f, m, cell);
    lemma_walk_parts(g, m, cell);
    lemma_paired_walks_prefix(f.paired@, g.paired@, f.paired@.len());
    lemma_sums(paired_walks(f.paired@, f.paired@.len()), paired_walk_shape(x.refs, x.region), m, cell);
    lemma_consistencies_prefix(f.paired@, g.paired@, f.paired@.len());
    lemma_sums(consistencies(f.paired@, f.paired@.len()), paired_consistency_shape(x.refs), m, cell);
    let a = sum_at(weighed(ff_walks(f.ff@, f.ff@.len()), m), cell);
    let b = sum_at(weighed(path_walks(f.paths@, f.paths@.len()), m), cell);
    let c = sum_at(weighed(paired_walks(f.paired@, f.paired@.len()), m), cell);
    lemma_insert(a, b, c, sum_at(weighed(paired_walk_shape(x.refs, x.region), m), cell));
    let p = sum_at(weighed(ff_chains(f.ff@, f.ff@.len()), m), cell);
    let q = sum_at(weighed(consistencies(f.paired@, f.paired@.len()), m), cell);
    lemma_insert(p, q, 0, sum_at(weighed(paired_consistency_shape(x.refs), m), cell));
}

spec fn shape_of(ts: Seq<LaneTerm>) -> Seq<ShapeTerm> {
    Seq::new(ts.len(), |i: int| shape_term(ts[i].lane as int, ts[i].factors()))
}

proof fn lemma_shape_of(ts: Seq<LaneTerm>, m: Seq<u128>)
    ensures
        weighted(ts, m) == weighed(shape_of(ts), m),
{
    assert(weighted(ts, m) =~= weighed(shape_of(ts), m));
}

/// What the lanes of a sponge slot take: the rate lanes each its own input inside the
/// region, the capacity lanes each its own initial value, and every lane its own
/// state of the slot before where the sponge carries.
pub proof fn lemma_sponge_value(refs: SpongeLeafRefs, region: usize, m: Seq<u128>, cell: spec_fn(ColRef) -> u128)
    requires
        m.len() == 4,
    ensures
        sum_at(weighted(sponge_lanes(refs, region as int), m), cell) == ((fmul(m[0], fmul(cell(ColRef::Fixed(region)), cell(ColRef::Committed(refs.in_[0]))) ^ fmul(cell(ColRef::Fixed(refs.odd)), cell(ColRef::CommittedShift(refs.c[0])))) ^ fmul(m[1], fmul(cell(ColRef::Fixed(region)), cell(ColRef::Committed(refs.in_[1]))) ^ fmul(cell(ColRef::Fixed(refs.odd)), cell(ColRef::CommittedShift(refs.c[1]))))) ^ fmul(
            m[2],
            cell(ColRef::Fixed(refs.iv[0])) ^ fmul(cell(ColRef::Fixed(refs.odd)), cell(ColRef::CommittedShift(refs.c[2]))),
        )) ^ fmul(m[3], cell(ColRef::Fixed(refs.iv[1])) ^ fmul(cell(ColRef::Fixed(refs.odd)), cell(ColRef::CommittedShift(refs.c[3])))),
{
    let all = shape_of(sponge_lanes(refs, region as int));
    lemma_shape_of(sponge_lanes(refs, region as int), m);
    lemma_runs(all, m, 2, 4, 6, cell);
    lemma_plain();
    reveal_with_fuel(cell_sum, 6);
    let lane0 = all.subrange(0, 2);
    lemma_cells(lane0[0].factors, cell);
    lemma_cells(lane0[1].factors, cell);
    let lane1 = all.subrange(2, 4);
    lemma_cells(lane1[0].factors, cell);
    lemma_cells(lane1[1].factors, cell);
    let lane2 = all.subrange(4, 6);
    lemma_cells(lane2[0].factors, cell);
    lemma_cells(lane2[1].factors, cell);
    let lane3 = all.subrange(6, 8);
    lemma_cells(lane3[0].factors, cell);
    lemma_cells(lane3[1].factors, cell);
}

/// What the lanes of a relocated transcript take: the rate lanes each its own data
/// inside the region, its own constant and its own carry; the capacity lanes of the
/// first permutation the two data cells of the slot before, later ones their carry.
pub proof fn lemma_tail_value(refs: SplitDuplexTailRefs, m: Seq<u128>, cell: spec_fn(ColRef) -> u128)
    requires
        m.len() == 4,
    ensures
        sum_at(weighted(tail_lanes(refs), m), cell) == ((fmul(m[0], (fmul(cell(ColRef::Fixed(refs.region)), cell(ColRef::Committed(refs.a[0]))) ^ cell(ColRef::Fixed(refs.consts[0]))) ^ fmul(cell(ColRef::Fixed(refs.carry)), cell(ColRef::CommittedShift(refs.c[0])))) ^ fmul(m[1], (fmul(cell(ColRef::Fixed(refs.region)), cell(ColRef::Committed(refs.a[1]))) ^ cell(ColRef::Fixed(refs.consts[1]))) ^ fmul(cell(ColRef::Fixed(refs.carry)), cell(ColRef::CommittedShift(refs.c[1]))))) ^ fmul(
            m[2],
            fmul(cell(ColRef::Fixed(refs.first)), cell(ColRef::CommittedShift(refs.a[0]))) ^ fmul(cell(ColRef::Fixed(refs.carry)), cell(ColRef::CommittedShift(refs.c[2]))),
        )) ^ fmul(m[3], fmul(cell(ColRef::Fixed(refs.first)), cell(ColRef::CommittedShift(refs.a[1]))) ^ fmul(cell(ColRef::Fixed(refs.carry)), cell(ColRef::CommittedShift(refs.c[3])))),
{
    let all = shape_of(tail_lanes(refs));
    lemma_shape_of(tail_lanes(refs), m);
    lemma_runs(all, m, 3, 6, 8, cell);
    lemma_plain();
    reveal_with_fuel(cell_sum, 6);
    let lane0 = all.subrange(0, 3);
    lemma_cells(lane0[0].factors, cell);
    lemma_cells(lane0[1].factors, cell);
    lemma_cells(lane0[2].factors, cell);
    let lane1 = all.subrange(3, 6);
    lemma_cells(lane1[0].factors, cell);
    lemma_cells(lane1[1].factors, cell);
    lemma_cells(lane1[2].factors, cell);
    let lane2 = all.subrange(6, 8);
    lemma_cells(lane2[0].factors, cell);
    lemma_cells(lane2[1].factors, cell);
    let lane3 = all.subrange(8, 10);
    lemma_cells(lane3[0].factors, cell);
    lemma_cells(lane3[1].factors, cell);
}

/// What the lanes of a source-tree slot take: a child on both slots of an inner node,
/// the leaf word on the odd slot of a leaf, the state of the slot before on the odd
/// slot of an inner node, and the initial capacity.
pub proof fn lemma_tree_value(refs: SourceTreeRefs, m: Seq<u128>, cell: spec_fn(ColRef) -> u128)
    requires
        m.len() == 4,
    ensures
        sum_at(weighted(tree_lanes(refs), m), cell) == ((fmul(m[0], ((fmul(cell(ColRef::Fixed(refs.even_int)), cell(ColRef::Committed(refs.kid[0]))) ^ fmul(cell(ColRef::Fixed(refs.odd_int)), cell(ColRef::Committed(refs.kid[0])))) ^ fmul(cell(ColRef::Fixed(refs.odd_int)), cell(ColRef::CommittedShift(refs.c[0])))) ^ fmul(cell(ColRef::Fixed(refs.leafodd)), cell(ColRef::Committed(refs.code[0])))) ^ fmul(m[1], ((fmul(cell(ColRef::Fixed(refs.even_int)), cell(ColRef::Committed(refs.kid[1]))) ^ fmul(cell(ColRef::Fixed(refs.odd_int)), cell(ColRef::Committed(refs.kid[1])))) ^ fmul(cell(ColRef::Fixed(refs.odd_int)), cell(ColRef::CommittedShift(refs.c[1])))) ^ fmul(cell(ColRef::Fixed(refs.leafodd)), cell(ColRef::Committed(refs.code[1]))))) ^ fmul(
            m[2],
            cell(ColRef::Fixed(refs.iv[0])) ^ fmul(cell(ColRef::Fixed(refs.odd_int)), cell(ColRef::CommittedShift(refs.c[2]))),
        )) ^ fmul(m[3], cell(ColRef::Fixed(refs.iv[1])) ^ fmul(cell(ColRef::Fixed(refs.odd_int)), cell(ColRef::CommittedShift(refs.c[3])))),
{
    let all = shape_of(tree_lanes(refs));
    lemma_shape_of(tree_lanes(refs), m);
    lemma_runs(all, m, 4, 8, 10, cell);
    lemma_plain();
    reveal_with_fuel(cell_sum, 6);
    let lane0 = all.subrange(0, 4);
    lemma_cells(lane0[0].factors, cell);
    lemma_cells(lane0[1].factors, cell);
    lemma_cells(lane0[2].factors, cell);
    lemma_cells(lane0[3].factors, cell);
    let lane1 = all.subrange(4, 8);
    lemma_cells(lane1[0].factors, cell);
    lemma_cells(lane1[1].factors, cell);
    lemma_cells(lane1[2].factors, cell);
    lemma_cells(lane1[3].factors, cell);
    let lane2 = all.subrange(8, 10);
    lemma_cells(lane2[0].factors, cell);
    lemma_cells(lane2[1].factors, cell);
    let lane3 = all.subrange(10, 12);
    lemma_cells(lane3[0].factors, cell);
    lemma_cells(lane3[1].factors, cell);
}

/// What a duplex family adds to the lanes of a slot: a start takes the carry away, a
/// selected rate lane absorbs its own data cell, and every lane its own constant.
pub proof fn lemma_pattern_value(refs: DuplexFamilyRefs, m: Seq<u128>, cell: spec_fn(ColRef) -> u128)
    requires
        m.len() == 4,
        refs_fit(refs),
    ensures
        sum_at(weighted(pattern_lanes(refs), m), cell) == ((fmul(m[0], (fmul(cell(ColRef::Fixed(refs.start)), cell(ColRef::CommittedShift(refs.c))) ^ fmul(cell(ColRef::Fixed(refs.abs)), cell(ColRef::Committed(refs.a)))) ^ cell(ColRef::Fixed(refs.consts))) ^ fmul(m[1], (fmul(cell(ColRef::Fixed(refs.start)), cell(ColRef::CommittedShift((refs.c + 1) as usize))) ^ fmul(cell(ColRef::Fixed((refs.abs + 1) as usize)), cell(ColRef::Committed((refs.a + 1) as usize)))) ^ cell(ColRef::Fixed((refs.consts + 1) as usize)))) ^ fmul(
            m[2],
            fmul(cell(ColRef::Fixed(refs.start)), cell(ColRef::CommittedShift((refs.c + 2) as usize))) ^ cell(ColRef::Fixed((refs.consts + 2) as usize)),
        )) ^ fmul(m[3], fmul(cell(ColRef::Fixed(refs.start)), cell(ColRef::CommittedShift((refs.c + 3) as usize))) ^ cell(ColRef::Fixed((refs.consts + 3) as usize))),
{
    let all = shape_of(pattern_lanes(refs));
    lemma_shape_of(pattern_lanes(refs), m);
    lemma_runs(all, m, 3, 6, 8, cell);
    lemma_plain();
    reveal_with_fuel(cell_sum, 6);
    let lane0 = all.subrange(0, 3);
    lemma_cells(lane0[0].factors, cell);
    lemma_cells(lane0[1].factors, cell);
    lemma_cells(lane0[2].factors, cell);
    let lane1 = all.subrange(3, 6);
    lemma_cells(lane1[0].factors, cell);
    lemma_cells(lane1[1].factors, cell);
    lemma_cells(lane1[2].factors, cell);
    let lane2 = all.subrange(6, 8);
    lemma_cells(lane2[0].factors, cell);
    lemma_cells(lane2[1].factors, cell);
    let lane3 = all.subrange(8, 10);
    lemma_cells(lane3[0].factors, cell);
    lemma_cells(lane3[1].factors, cell);
}

/// Every lane of a duplex walk carries its own state of the slot before.
pub proof fn lemma_carry_value(refs: DuplexFamilyRefs, m: Seq<u128>, cell: spec_fn(ColRef) -> u128)
    requires
        m.len() == 4,
        refs_fit(refs),
    ensures
        sum_at(weighted(carry_lanes(refs), m), cell) == ((fmul(m[0], cell(ColRef::CommittedShift(refs.c))) ^ fmul(m[1], cell(ColRef::CommittedShift((refs.c + 1) as usize)))) ^ fmul(
            m[2],
            cell(ColRef::CommittedShift((refs.c + 2) as usize)),
        )) ^ fmul(m[3], cell(ColRef::CommittedShift((refs.c + 3) as usize))),
{
    let all = shape_of(carry_lanes(refs));
    lemma_shape_of(carry_lanes(refs), m);
    lemma_runs(all, m, 1, 2, 3, cell);
    lemma_plain();
    reveal_with_fuel(cell_sum, 6);
    let lane0 = all.subrange(0, 1);
    lemma_cells(lane0[0].factors, cell);
    let lane1 = all.subrange(1, 2);
    lemma_cells(lane1[0].factors, cell);
    let lane2 = all.subrange(2, 3);
    lemma_cells(lane2[0].factors, cell);
    let lane3 = all.subrange(3, 4);
    lemma_cells(lane3[0].factors, cell);
}

/// What the lanes of a lone duplex family take: the state of the slot before, which a
/// start takes away, a selected data cell in a rate lane, and a constant.
pub proof fn lemma_single_value(refs: DuplexFamilyRefs, m: Seq<u128>, cell: spec_fn(ColRef) -> u128)
    requires
        m.len() == 4,
        refs_fit(refs),
    ensures
        sum_at(weighted(single_lanes(refs), m), cell) == ((fmul(m[0], ((cell(ColRef::CommittedShift(refs.c)) ^ fmul(cell(ColRef::Fixed(refs.start)), cell(ColRef::CommittedShift(refs.c)))) ^ fmul(cell(ColRef::Fixed(refs.abs)), cell(ColRef::Committed(refs.a)))) ^ cell(ColRef::Fixed(refs.consts))) ^ fmul(m[1], ((cell(ColRef::CommittedShift((refs.c + 1) as usize)) ^ fmul(cell(ColRef::Fixed(refs.start)), cell(ColRef::CommittedShift((refs.c + 1) as usize)))) ^ fmul(cell(ColRef::Fixed((refs.abs + 1) as usize)), cell(ColRef::Committed((refs.a + 1) as usize)))) ^ cell(ColRef::Fixed((refs.consts + 1) as usize)))) ^ fmul(
            m[2],
            (cell(ColRef::CommittedShift((refs.c + 2) as usize)) ^ fmul(cell(ColRef::Fixed(refs.start)), cell(ColRef::CommittedShift((refs.c + 2) as usize)))) ^ cell(ColRef::Fixed((refs.consts + 2) as usize)),
        )) ^ fmul(m[3], (cell(ColRef::CommittedShift((refs.c + 3) as usize)) ^ fmul(cell(ColRef::Fixed(refs.start)), cell(ColRef::CommittedShift((refs.c + 3) as usize)))) ^ cell(ColRef::Fixed((refs.consts + 3) as usize))),
{
    let all = shape_of(single_lanes(refs));
    lemma_shape_of(single_lanes(refs), m);
    lemma_runs(all, m, 4, 8, 11, cell);
    lemma_plain();
    reveal_with_fuel(cell_sum, 6);
    let lane0 = all.subrange(0, 4);
    lemma_cells(lane0[0].factors, cell);
    lemma_cells(lane0[1].factors, cell);
    lemma_cells(lane0[2].factors, cell);
    lemma_cells(lane0[3].factors, cell);
    let lane1 = all.subrange(4, 8);
    lemma_cells(lane1[0].factors, cell);
    lemma_cells(lane1[1].factors, cell);
    lemma_cells(lane1[2].factors, cell);
    lemma_cells(lane1[3].factors, cell);
    let lane2 = all.subrange(8, 11);
    lemma_cells(lane2[0].factors, cell);
    lemma_cells(lane2[1].factors, cell);
    lemma_cells(lane2[2].factors, cell);
    let lane3 = all.subrange(11, 14);
    lemma_cells(lane3[0].factors, cell);
    lemma_cells(lane3[1].factors, cell);
    lemma_cells(lane3[2].factors, cell);
}

proof fn lemma_lane_sums(
    x: Seq<LaneTerm>,
    y: Seq<LaneTerm>,
    m: Seq<u128>,
    cell: spec_fn(ColRef) -> u128,
)
    ensures
        sum_at(weighted(x + y, m), cell) == sum_at(weighted(x, m), cell) ^ sum_at(
            weighted(y, m),
            cell,
        ),
{
    assert(weighted(x + y, m) =~= weighted(x, m) + weighted(y, m));
    lemma_sum_append(weighted(x, m), weighted(y, m), cell);
}

proof fn lemma_leaf_lanes_prefix(
    x: Seq<(SpongeLeafRefs, usize)>,
    y: Seq<(SpongeLeafRefs, usize)>,
    n: nat,
)
    requires
        n <= x.len(),
        n <= y.len(),
        forall|i: int| 0 <= i < n ==> x[i] == y[i],
    ensures
        leaf_lanes(x, n) == leaf_lanes(y, n),
    decreases n,
{
    if n > 0 {
        lemma_leaf_lanes_prefix(x, y, (n - 1) as nat);
    }
}

proof fn lemma_tails_lanes_prefix(
    x: Seq<SplitDuplexTailRefs>,
    y: Seq<SplitDuplexTailRefs>,
    n: nat,
)
    requires
        n <= x.len(),
        n <= y.len(),
        forall|i: int| 0 <= i < n ==> x[i] == y[i],
    ensures
        tails_lanes(x, n) == tails_lanes(y, n),
    decreases n,
{
    if n > 0 {
        lemma_tails_lanes_prefix(x, y, (n - 1) as nat);
    }
}

/// The parts of the leaf walk, each under the weights.
proof fn lemma_leaf_parts(
    leafs: Seq<(SpongeLeafRefs, usize)>,
    tails: Seq<SplitDuplexTailRefs>,
    es: Option<(SpongeLeafRefs, usize)>,
    spine: Option<SpineUnionSpec>,
    m: Seq<u128>,
    cell: spec_fn(ColRef) -> u128,
)
    ensures
        sum_at(weighted(union_lanes(leafs, tails, es, spine), m), cell) == ((sum_at(
            weighted(leaf_lanes(leafs, leafs.len()), m),
            cell,
        ) ^ sum_at(weighted(tails_lanes(tails, tails.len()), m), cell)) ^ (match es {
            Some(f) => sum_at(weighted(sponge_lanes(f.0, f.1 as int), m), cell),
            None => 0,
        })) ^ (match spine {
            Some(sp) => sum_at(weighted(tree_lanes(sp.tree_refs), m), cell) ^ sum_at(
                weighted(sponge_lanes(sp.wrap_refs, sp.wrap_region as int), m),
                cell,
            ),
            None => 0,
        }),
{
    let a = leaf_lanes(leafs, leafs.len());
    let b = tails_lanes(tails, tails.len());
    let own = match es {
        Some(f) => sponge_lanes(f.0, f.1 as int),
        None => seq![],
    };
    let body = match spine {
        Some(sp) => tree_lanes(sp.tree_refs) + sponge_lanes(sp.wrap_refs, sp.wrap_region as int),
        None => seq![],
    };
    lemma_lane_sums(a, b, m, cell);
    lemma_lane_sums(a + b, own, m, cell);
    lemma_lane_sums(a + b + own, body, m, cell);
    if es is None {
        assert(weighted(own, m) =~= seq![]);
    }
    match spine {
        Some(sp) => {
            lemma_lane_sums(
                tree_lanes(sp.tree_refs),
                sponge_lanes(sp.wrap_refs, sp.wrap_region as int),
                m,
                cell,
            );
        },
        None => {
            assert(weighted(body, m) =~= seq![]);
        },
    }
}

/// A leaf walk without families has no wiring.
pub proof fn lemma_leaf_none(m: Seq<u128>, cell: spec_fn(ColRef) -> u128)
    ensures
        sum_at(weighted(union_lanes(seq![], seq![], None, None), m), cell) == 0,
{
    assert(weighted(union_lanes(seq![], seq![], None, None), m) =~= seq![]);
}

/// A sponge family more adds its own wiring to the leaf walk, and changes no other
/// family.
pub proof fn lemma_leaf_family_adds(
    leafs: Seq<(SpongeLeafRefs, usize)>,
    x: (SpongeLeafRefs, usize),
    tails: Seq<SplitDuplexTailRefs>,
    es: Option<(SpongeLeafRefs, usize)>,
    spine: Option<SpineUnionSpec>,
    m: Seq<u128>,
    cell: spec_fn(ColRef) -> u128,
)
    ensures
        sum_at(weighted(union_lanes(leafs.push(x), tails, es, spine), m), cell) == sum_at(
            weighted(union_lanes(leafs, tails, es, spine), m),
            cell,
        ) ^ sum_at(weighted(sponge_lanes(x.0, x.1 as int), m), cell),
{
    lemma_leaf_parts(leafs, tails, es, spine, m, cell);
    lemma_leaf_parts(leafs.push(x), tails, es, spine, m, cell);
    lemma_leaf_lanes_prefix(leafs, leafs.push(x), leafs.len());
    lemma_lane_sums(
        leaf_lanes(leafs, leafs.len()),
        sponge_lanes(x.0, x.1 as int),
        m,
        cell,
    );
    lemma_part_more(
        sum_at(weighted(leaf_lanes(leafs, leafs.len()), m), cell),
        sum_at(weighted(tails_lanes(tails, tails.len()), m), cell),
        match es {
            Some(f) => sum_at(weighted(sponge_lanes(f.0, f.1 as int), m), cell),
            None => 0,
        },
        match spine {
            Some(sp) => sum_at(weighted(tree_lanes(sp.tree_refs), m), cell) ^ sum_at(
                weighted(sponge_lanes(sp.wrap_refs, sp.wrap_region as int), m),
                cell,
            ),
            None => 0,
        },
        sum_at(weighted(sponge_lanes(x.0, x.1 as int), m), cell),
    );
}

/// A relocated transcript more adds its own wiring to the leaf walk.
pub proof fn lemma_tail_family_adds(
    leafs: Seq<(SpongeLeafRefs, usize)>,
    tails: Seq<SplitDuplexTailRefs>,
    x: SplitDuplexTailRefs,
    es: Option<(SpongeLeafRefs, usize)>,
    spine: Option<SpineUnionSpec>,
    m: Seq<u128>,
    cell: spec_fn(ColRef) -> u128,
)
    ensures
        sum_at(weighted(union_lanes(leafs, tails.push(x), es, spine), m), cell) == sum_at(
            weighted(union_lanes(leafs, tails, es, spine), m),
            cell,
        ) ^ sum_at(weighted(tail_lanes(x), m), cell),
{
    lemma_leaf_parts(leafs, tails, es, spine, m, cell);
    lemma_leaf_parts(leafs, tails.push(x), es, spine, m, cell);
    lemma_tails_lanes_prefix(tails, tails.push(x), tails.len());
    lemma_lane_sums(tails_lanes(tails, tails.len()), tail_lanes(x), m, cell);
    lemma_part_more(
        sum_at(weighted(leaf_lanes(leafs, leafs.len()), m), cell),
        sum_at(weighted(tails_lanes(tails, tails.len()), m), cell),
        match es {
            Some(f) => sum_at(weighted(sponge_lanes(f.0, f.1 as int), m), cell),
            None => 0,
        },
        match spine {
            Some(sp) => sum_at(weighted(tree_lanes(sp.tree_refs), m), cell) ^ sum_at(
                weighted(sponge_lanes(sp.wrap_refs, sp.wrap_region as int), m),
                cell,
            ),
            None => 0,
        },
        sum_at(weighted(tail_lanes(x), m), cell),
    );
}

/// The exact-state sponge adds its own wiring to the leaf walk.
pub proof fn lemma_exact_state_adds(
    leafs: Seq<(SpongeLeafRefs, usize)>,
    tails: Seq<SplitDuplexTailRefs>,
    x: (SpongeLeafRefs, usize),
    spine: Option<SpineUnionSpec>,
    m: Seq<u128>,
    cell: spec_fn(ColRef) -> u128,
)
    ensures
        sum_at(weighted(union_lanes(leafs, tails, Some(x), spine), m), cell) == sum_at(
            weighted(union_lanes(leafs, tails, None, spine), m),
            cell,
        ) ^ sum_at(weighted(sponge_lanes(x.0, x.1 as int), m), cell),
{
    lemma_leaf_parts(leafs, tails, None, spine, m, cell);
    lemma_leaf_parts(leafs, tails, Some(x), spine, m, cell);
    lemma_plain();
    lemma_part_more(
        sum_at(weighted(leaf_lanes(leafs, leafs.len()), m), cell),
        sum_at(weighted(tails_lanes(tails, tails.len()), m), cell),
        0,
        match spine {
            Some(sp) => sum_at(weighted(tree_lanes(sp.tree_refs), m), cell) ^ sum_at(
                weighted(sponge_lanes(sp.wrap_refs, sp.wrap_region as int), m),
                cell,
            ),
            None => 0,
        },
        sum_at(weighted(sponge_lanes(x.0, x.1 as int), m), cell),
    );
}

/// The spine adds the wiring of its tree and of its wrap to the leaf walk.
pub proof fn lemma_spine_adds(
    leafs: Seq<(SpongeLeafRefs, usize)>,
    tails: Seq<SplitDuplexTailRefs>,
    es: Option<(SpongeLeafRefs, usize)>,
    x: SpineUnionSpec,
    m: Seq<u128>,
    cell: spec_fn(ColRef) -> u128,
)
    ensures
        sum_at(weighted(union_lanes(leafs, tails, es, Some(x)), m), cell) == sum_at(
            weighted(union_lanes(leafs, tails, es, None), m),
            cell,
        ) ^ (sum_at(weighted(tree_lanes(x.tree_refs), m), cell) ^ sum_at(
            weighted(sponge_lanes(x.wrap_refs, x.wrap_region as int), m),
            cell,
        )),
{
    lemma_leaf_parts(leafs, tails, es, None, m, cell);
    lemma_leaf_parts(leafs, tails, es, Some(x), m, cell);
    lemma_plain();
}

proof fn lemma_part_more(a: u128, b: u128, c: u128, d: u128, x: u128)
    ensures
        (((a ^ x) ^ b) ^ c) ^ d == (((a ^ b) ^ c) ^ d) ^ x,
        ((a ^ (b ^ x)) ^ c) ^ d == (((a ^ b) ^ c) ^ d) ^ x,
        ((a ^ b) ^ (c ^ x)) ^ d == (((a ^ b) ^ c) ^ d) ^ x,
{
    assert((((a ^ x) ^ b) ^ c) ^ d == (((a ^ b) ^ c) ^ d) ^ x && ((a ^ (b ^ x)) ^ c) ^ d == (((a
        ^ b) ^ c) ^ d) ^ x && ((a ^ b) ^ (c ^ x)) ^ d == (((a ^ b) ^ c) ^ d) ^ x) by (bit_vector);
}

/// The weights of the lanes mix: what four lanes take, each under its weight, is the
/// image of the four under the mixing matrix, row by row under the powers of the
/// challenge from one on.
pub proof fn lemma_weights_mix(mds: MdsTable, alpha: u128, x: Seq<u128>)
    requires
        x.len() == 4,
    ensures
        ({
            let m = lane_weights(mds, alpha);
            let row = |e: int|
                ((fmul(mds.entries@[4 * e]@, x[0]) ^ fmul(mds.entries@[4 * e + 1]@, x[1])) ^ fmul(
                    mds.entries@[4 * e + 2]@,
                    x[2],
                )) ^ fmul(mds.entries@[4 * e + 3]@, x[3]);
            let a2 = fmul(alpha, alpha);
            let a3 = fmul(a2, alpha);
            let a4 = fmul(a3, alpha);
            ((fmul(m[0], x[0]) ^ fmul(m[1], x[1])) ^ fmul(m[2], x[2])) ^ fmul(m[3], x[3]) == ((
            fmul(alpha, row(0)) ^ fmul(a2, row(1))) ^ fmul(a3, row(2))) ^ fmul(a4, row(3))
        }),
{
    lemma_plain();
    reveal_with_fuel(power, 5);
    reveal_with_fuel(lane_weight, 5);
    let a2 = fmul(alpha, alpha);
    let a3 = fmul(a2, alpha);
    let a4 = fmul(a3, alpha);
    let m = lane_weights(mds, alpha);
    let p = |e: int, j: int| fmul(mds.entries@[4 * e + j]@, x[j]);
    let q = |e: int, j: int|
        fmul(
            if e == 0 {
                alpha
            } else if e == 1 {
                a2
            } else if e == 2 {
                a3
            } else {
                a4
            },
            p(e, j),
        );
    assert forall|j: int| 0 <= j < 4 implies fmul(#[trigger] m[j], x[j]) == ((q(0, j) ^ q(1, j))
        ^ q(2, j)) ^ q(3, j) by {
        let e0 = mds.entry(0, j);
        let e1 = mds.entry(1, j);
        let e2 = mds.entry(2, j);
        let e3 = mds.entry(3, j);
        let (b0, b1, b2, b3) = (fmul(alpha, e0), fmul(a2, e1), fmul(a3, e2), fmul(a4, e3));
        assert(m[j] == ((b0 ^ b1) ^ b2) ^ b3);
        lemma_fmul_distrib((b0 ^ b1) ^ b2, b3, x[j]);
        lemma_fmul_distrib(b0 ^ b1, b2, x[j]);
        lemma_fmul_distrib(b0, b1, x[j]);
        lemma_fmul_assoc(alpha, e0, x[j]);
        lemma_fmul_assoc(a2, e1, x[j]);
        lemma_fmul_assoc(a3, e2, x[j]);
        lemma_fmul_assoc(a4, e3, x[j]);
    }
    assert forall|a: u128, e: int| #[trigger] fmul(
        a,
        ((p(e, 0) ^ p(e, 1)) ^ p(e, 2)) ^ p(e, 3),
    ) == ((fmul(a, p(e, 0)) ^ fmul(a, p(e, 1))) ^ fmul(a, p(e, 2))) ^ fmul(a, p(e, 3)) by {
        lemma_fmul_distrib((p(e, 0) ^ p(e, 1)) ^ p(e, 2), p(e, 3), a);
        lemma_fmul_distrib(p(e, 0) ^ p(e, 1), p(e, 2), a);
        lemma_fmul_distrib(p(e, 0), p(e, 1), a);
    }
    assert(m[0] == m[0] && m[1] == m[1] && m[2] == m[2] && m[3] == m[3]);
    assert(fmul(alpha, ((p(0, 0) ^ p(0, 1)) ^ p(0, 2)) ^ p(0, 3)) == ((q(0, 0) ^ q(0, 1)) ^ q(0, 2))
        ^ q(0, 3));
    assert(fmul(a2, ((p(1, 0) ^ p(1, 1)) ^ p(1, 2)) ^ p(1, 3)) == ((q(1, 0) ^ q(1, 1)) ^ q(1, 2))
        ^ q(1, 3));
    assert(fmul(a3, ((p(2, 0) ^ p(2, 1)) ^ p(2, 2)) ^ p(2, 3)) == ((q(2, 0) ^ q(2, 1)) ^ q(2, 2))
        ^ q(2, 3));
    assert(fmul(a4, ((p(3, 0) ^ p(3, 1)) ^ p(3, 2)) ^ p(3, 3)) == ((q(3, 0) ^ q(3, 1)) ^ q(3, 2))
        ^ q(3, 3));
    lemma_transpose(
        q(0, 0),
        q(1, 0),
        q(2, 0),
        q(3, 0),
        q(0, 1),
        q(1, 1),
        q(2, 1),
        q(3, 1),
        q(0, 2),
        q(1, 2),
        q(2, 2),
        q(3, 2),
        q(0, 3),
        q(1, 3),
        q(2, 3),
        q(3, 3),
    );
}

proof fn lemma_transpose(
    a0: u128,
    a1: u128,
    a2: u128,
    a3: u128,
    b0: u128,
    b1: u128,
    b2: u128,
    b3: u128,
    c0: u128,
    c1: u128,
    c2: u128,
    c3: u128,
    d0: u128,
    d1: u128,
    d2: u128,
    d3: u128,
)
    ensures
        (((((a0 ^ a1) ^ a2) ^ a3) ^ (((b0 ^ b1) ^ b2) ^ b3)) ^ (((c0 ^ c1) ^ c2) ^ c3)) ^ (((d0
            ^ d1) ^ d2) ^ d3) == (((((a0 ^ b0) ^ c0) ^ d0) ^ (((a1 ^ b1) ^ c1) ^ d1)) ^ (((a2
            ^ b2) ^ c2) ^ d2)) ^ (((a3 ^ b3) ^ c3) ^ d3),
{
    assert((((((a0 ^ a1) ^ a2) ^ a3) ^ (((b0 ^ b1) ^ b2) ^ b3)) ^ (((c0 ^ c1) ^ c2) ^ c3)) ^ (((d0
        ^ d1) ^ d2) ^ d3) == (((((a0 ^ b0) ^ c0) ^ d0) ^ (((a1 ^ b1) ^ c1) ^ d1)) ^ (((a2 ^ b2)
        ^ c2) ^ d2)) ^ (((a3 ^ b3) ^ c3) ^ d3)) by (bit_vector);
}

proof fn lemma_sets_prefix(
    x: Seq<DuplexFamilyRefs>,
    y: Seq<DuplexFamilyRefs>,
    m: Seq<u128>,
    n: nat,
)
    requires
        n <= x.len(),
        n <= y.len(),
        forall|i: int| 0 <= i < n ==> x[i] == y[i],
    ensures
        sets_views(x, m, n) == sets_views(y, m, n),
    decreases n,
{
    if n > 0 {
        lemma_sets_prefix(x, y, m, (n - 1) as nat);
    }
}

/// A duplex family more adds its own patterns to shared columns, and no carry.
pub proof fn lemma_duplex_family_adds(
    sets: Seq<DuplexFamilyRefs>,
    x: DuplexFamilyRefs,
    m: Seq<u128>,
    cell: spec_fn(ColRef) -> u128,
)
    requires
        sets.len() > 0,
    ensures
        sum_at(multi_views(sets.push(x), m), cell) == sum_at(multi_views(sets, m), cell) ^ sum_at(
            weighted(pattern_lanes(x), m),
            cell,
        ),
{
    let carry = weighted(carry_lanes(sets[0]), m);
    let more = sets.push(x);
    lemma_sets_prefix(sets, more, m, sets.len());
    lemma_sum_append(carry, sets_views(sets, m, sets.len()), cell);
    lemma_sum_append(carry, sets_views(more, m, more.len()), cell);
    lemma_sum_append(
        sets_views(sets, m, sets.len()),
        weighted(pattern_lanes(x), m),
        cell,
    );
    lemma_insert(
        sum_at(carry, cell),
        sum_at(sets_views(sets, m, sets.len()), cell),
        0,
        sum_at(weighted(pattern_lanes(x), m), cell),
    );
}

/// One duplex family is the same relation alone and as the only one of several: its
/// carries and its patterns.
pub proof fn lemma_duplex_alone(
    refs: DuplexFamilyRefs,
    m: Seq<u128>,
    cell: spec_fn(ColRef) -> u128,
)
    requires
        m.len() == 4,
        refs_fit(refs),
    ensures
        sum_at(multi_views(seq![refs], m), cell) == sum_at(weighted(carry_lanes(refs), m), cell)
            ^ sum_at(weighted(pattern_lanes(refs), m), cell),
        sum_at(weighted(single_lanes(refs), m), cell) == sum_at(multi_views(seq![refs], m), cell),
        sum_at(duplex_views(refs, seq![], m), cell) == sum_at(multi_views(seq![refs], m), cell),
{
    let one = seq![refs];
    let carry = weighted(carry_lanes(refs), m);
    reveal_with_fuel(sets_views, 2);
    assert(sets_views(one, m, 1) =~= weighted(pattern_lanes(refs), m));
    lemma_sum_append(carry, weighted(pattern_lanes(refs), m), cell);
    lemma_single_value(refs, m, cell);
    lemma_carry_value(refs, m, cell);
    lemma_pattern_value(refs, m, cell);
    let c = |j: int| cell(ColRef::CommittedShift((refs.c + j) as usize));
    let s = |j: int| fmul(cell(ColRef::Fixed(refs.start)), c(j));
    let a = |j: int|
        fmul(
            cell(ColRef::Fixed((refs.abs + j) as usize)),
            cell(ColRef::Committed((refs.a + j) as usize)),
        );
    let k = |j: int| cell(ColRef::Fixed((refs.consts + j) as usize));
    let p0 = (s(0) ^ a(0)) ^ k(0);
    let p1 = (s(1) ^ a(1)) ^ k(1);
    let p2 = s(2) ^ k(2);
    let p3 = s(3) ^ k(3);
    lemma_xor(c(0) ^ s(0), a(0), k(0));
    lemma_xor(c(0), s(0), a(0) ^ k(0));
    lemma_xor(s(0), a(0), k(0));
    lemma_xor(c(1) ^ s(1), a(1), k(1));
    lemma_xor(c(1), s(1), a(1) ^ k(1));
    lemma_xor(s(1), a(1), k(1));
    lemma_xor(c(2), s(2), k(2));
    lemma_xor(c(3), s(3), k(3));
    lemma_fmul_distrib(c(0), p0, m[0]);
    lemma_fmul_distrib(c(1), p1, m[1]);
    lemma_fmul_distrib(c(2), p2, m[2]);
    lemma_fmul_distrib(c(3), p3, m[3]);
    lemma_pairs_of_four(
        fmul(m[0], c(0)),
        fmul(m[1], c(1)),
        fmul(m[2], c(2)),
        fmul(m[3], c(3)),
        fmul(m[0], p0),
        fmul(m[1], p1),
        fmul(m[2], p2),
        fmul(m[3], p3),
    );
}

proof fn lemma_pairs_of_four(
    a: u128,
    b: u128,
    c: u128,
    d: u128,
    p: u128,
    q: u128,
    r: u128,
    s: u128,
)
    ensures
        (((a ^ b) ^ c) ^ d) ^ (((p ^ q) ^ r) ^ s) == (((a ^ p) ^ (b ^ q)) ^ (c ^ r)) ^ (d ^ s),
{
    assert((((a ^ b) ^ c) ^ d) ^ (((p ^ q) ^ r) ^ s) == (((a ^ p) ^ (b ^ q)) ^ (c ^ r)) ^ (d ^ s))
        by (bit_vector);
}

/// Recordings share the columns of the family they follow: each adds its own patterns.
pub proof fn lemma_recordings_share(
    refs: DuplexFamilyRefs,
    recs: Seq<DuplexFamilyRefs>,
    x: DuplexFamilyRefs,
    m: Seq<u128>,
    cell: spec_fn(ColRef) -> u128,
)
    requires
        m.len() == 4,
        refs_fit(refs),
    ensures
        sum_at(duplex_views(refs, recs.push(x), m), cell) == sum_at(
            duplex_views(refs, recs, m),
            cell,
        ) ^ sum_at(weighted(pattern_lanes(x), m), cell),
{
    let sets = seq![refs] + recs;
    assert(seq![refs] + recs.push(x) =~= sets.push(x));
    lemma_duplex_family_adds(sets, x, m, cell);
    if recs.len() == 0 {
        assert(sets =~= seq![refs]);
        lemma_duplex_alone(refs, m, cell);
        assert(recs =~= seq![]);
    }
}

} // verus!
