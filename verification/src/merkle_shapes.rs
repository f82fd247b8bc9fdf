//! The wirings of the Merkle families, as terms with weights.
use crate::circuit::{group_agree, FieldR1csBuilder, LinExpr};
use crate::field::{fmul, lemma_fmul_distrib, lemma_fmul_unit, lemma_xor, F128};
use crate::merkle_terms::{FfMerkleFamilyRefs, MerkleFamilyRefs};
use crate::meta_region::STATE_SIZE;
use crate::mle_trace::{all_below, values_at};
use crate::relation_terms::{
    cells_at, duplex_mds_weights, lane_weights, lemma_sum_append, mds_alpha_weights, power, sum_at,
    term_views, trace_views, weight_values, ColRef, MdsTable, RelationTerm, RelationTermTrace,
    TermView,
};
use crate::trace::refines;
use crate::circuit::{const_form, forms, LinForm, Shape};
use crate::relation_terms::powers_step;
use crate::trace::mul_step;
use vstd::prelude::*;

verus! {

broadcast use group_agree;

/// The columns and patterns of a paired update.
#[derive(Clone, Copy, Debug)]
pub struct PairedMerkleUpdateRefs {
    pub e: [usize; 2],
    pub sib: [usize; 2],
    pub d: usize,
    pub c: [usize; 4],
    pub old_even: usize,
    pub bridge: usize,
    pub copy_step: usize,
    pub even: usize,
    pub even_start: usize,
    pub even_nonstart: usize,
    pub odd: usize,
    pub odd_start: usize,
    pub odd_nonstart: usize,
    pub iv: [usize; 2],
}

/// A product of cells and the weight that it takes as its coefficient.
pub struct WeightedTerm {
    pub weight: usize,
    pub factors: Vec<ColRef>,
}

pub struct ShapeTerm {
    pub weight: int,
    pub factors: Seq<ColRef>,
}

pub open spec fn shape_term(weight: int, factors: Seq<ColRef>) -> ShapeTerm {
    ShapeTerm { weight, factors }
}

impl WeightedTerm {
    pub open spec fn view(&self) -> ShapeTerm {
        shape_term(self.weight as int, self.factors@)
    }
}

pub open spec fn shape_views(ts: Seq<WeightedTerm>) -> Seq<ShapeTerm> {
    Seq::new(ts.len(), |i: int| ts[i].view())
}

/// All weights are among the first `n`.
pub open spec fn weights_below(ts: Seq<WeightedTerm>, n: nat) -> bool {
    forall|i: int| 0 <= i < ts.len() ==> (#[trigger] ts[i]).weight < n
}

/// The terms under weights.
pub open spec fn weighed(ts: Seq<ShapeTerm>, w: Seq<u128>) -> Seq<TermView> {
    Seq::new(ts.len(), |i: int| TermView { coeff: w[ts[i].weight], factors: ts[i].factors })
}

fn weighted_term(weight: usize, factors: Vec<ColRef>) -> (r: WeightedTerm)
    ensures
        r.view() == shape_term(weight as int, factors@),
        r.weight == weight,
{
    WeightedTerm { weight, factors }
}

fn cells_1(a: ColRef) -> (r: Vec<ColRef>)
    ensures
        r@ == seq![a],
{
    let mut r: Vec<ColRef> = Vec::new();
    r.push(a);
    assert(r@ =~= seq![a]);
    r
}

fn cells_2(a: ColRef, c: ColRef) -> (r: Vec<ColRef>)
    ensures
        r@ == seq![a, c],
{
    let mut r: Vec<ColRef> = Vec::new();
    r.push(a);
    r.push(c);
    assert(r@ =~= seq![a, c]);
    r
}

fn cells_3(a: ColRef, c: ColRef, d: ColRef) -> (r: Vec<ColRef>)
    ensures
        r@ == seq![a, c, d],
{
    let mut r: Vec<ColRef> = Vec::new();
    r.push(a);
    r.push(c);
    r.push(d);
    assert(r@ =~= seq![a, c, d]);
    r
}

/// The chain of a feed-forward family: in each lane the carried value is the
/// digest that the slot before feeds forward. Lane `i` has weight `i`.
pub open spec fn ff_chain_shape(refs: FfMerkleFamilyRefs) -> Seq<ShapeTerm> {
    seq![
        shape_term(0, seq![ColRef::Fixed(refs.nodens), ColRef::Committed(refs.cr[0])]),
        shape_term(0, seq![ColRef::Fixed(refs.nodens), ColRef::CommittedShift(refs.c[0])]),
        shape_term(0, seq![ColRef::Fixed(refs.nodens), ColRef::CommittedShift(refs.cr[0])]),
        shape_term(0, seq![ColRef::Fixed(refs.nodens), ColRef::CommittedShift(refs.d), ColRef::CommittedShift(refs.cr[0])]),
        shape_term(0, seq![ColRef::Fixed(refs.nodens), ColRef::CommittedShift(refs.d), ColRef::CommittedShift(refs.sib[0])]),
        shape_term(1, seq![ColRef::Fixed(refs.nodens), ColRef::Committed(refs.cr[1])]),
        shape_term(1, seq![ColRef::Fixed(refs.nodens), ColRef::CommittedShift(refs.c[1])]),
        shape_term(1, seq![ColRef::Fixed(refs.nodens), ColRef::CommittedShift(refs.cr[1])]),
        shape_term(1, seq![ColRef::Fixed(refs.nodens), ColRef::CommittedShift(refs.d), ColRef::CommittedShift(refs.cr[1])]),
        shape_term(1, seq![ColRef::Fixed(refs.nodens), ColRef::CommittedShift(refs.d), ColRef::CommittedShift(refs.sib[1])]),
    ]
}

fn ff_chain_terms(refs: &FfMerkleFamilyRefs) -> (r: Vec<WeightedTerm>)
    ensures
        shape_views(r@) == ff_chain_shape(*refs),
        weights_below(r@, 2),
{
    let mut r: Vec<WeightedTerm> = Vec::new();
    r.push(weighted_term(0, cells_2(ColRef::Fixed(refs.nodens), ColRef::Committed(refs.cr[0]))));
    r.push(weighted_term(0, cells_2(ColRef::Fixed(refs.nodens), ColRef::CommittedShift(refs.c[0]))));
    r.push(weighted_term(0, cells_2(ColRef::Fixed(refs.nodens), ColRef::CommittedShift(refs.cr[0]))));
    r.push(weighted_term(0, cells_3(ColRef::Fixed(refs.nodens), ColRef::CommittedShift(refs.d), ColRef::CommittedShift(refs.cr[0]))));
    r.push(weighted_term(0, cells_3(ColRef::Fixed(refs.nodens), ColRef::CommittedShift(refs.d), ColRef::CommittedShift(refs.sib[0]))));
    r.push(weighted_term(1, cells_2(ColRef::Fixed(refs.nodens), ColRef::Committed(refs.cr[1]))));
    r.push(weighted_term(1, cells_2(ColRef::Fixed(refs.nodens), ColRef::CommittedShift(refs.c[1]))));
    r.push(weighted_term(1, cells_2(ColRef::Fixed(refs.nodens), ColRef::CommittedShift(refs.cr[1]))));
    r.push(weighted_term(1, cells_3(ColRef::Fixed(refs.nodens), ColRef::CommittedShift(refs.d), ColRef::CommittedShift(refs.cr[1]))));
    r.push(weighted_term(1, cells_3(ColRef::Fixed(refs.nodens), ColRef::CommittedShift(refs.d), ColRef::CommittedShift(refs.sib[1]))));
    assert(shape_views(r@) =~= ff_chain_shape(*refs));
    r
}

/// The consistency of a paired update: its directions are bits, its bridges
/// carry the digests two slots back, its siblings and directions are copied
/// along a level. Equation `k` has weight `2 + k`.
pub open spec fn paired_consistency_shape(refs: PairedMerkleUpdateRefs) -> Seq<ShapeTerm> {
    seq![
        shape_term(2, seq![ColRef::Fixed(refs.old_even), ColRef::Committed(refs.d), ColRef::Committed(refs.d)]),
        shape_term(2, seq![ColRef::Fixed(refs.old_even), ColRef::Committed(refs.d)]),
        shape_term(3, seq![ColRef::Fixed(refs.bridge), ColRef::Committed(refs.e[0])]),
        shape_term(3, seq![ColRef::Fixed(refs.bridge), ColRef::CommittedShift2(refs.c[0])]),
        shape_term(4, seq![ColRef::Fixed(refs.bridge), ColRef::Committed(refs.e[1])]),
        shape_term(4, seq![ColRef::Fixed(refs.bridge), ColRef::CommittedShift2(refs.c[1])]),
        shape_term(5, seq![ColRef::Fixed(refs.copy_step), ColRef::Committed(refs.sib[0])]),
        shape_term(5, seq![ColRef::Fixed(refs.copy_step), ColRef::CommittedShift(refs.sib[0])]),
        shape_term(6, seq![ColRef::Fixed(refs.copy_step), ColRef::Committed(refs.sib[1])]),
        shape_term(6, seq![ColRef::Fixed(refs.copy_step), ColRef::CommittedShift(refs.sib[1])]),
        shape_term(7, seq![ColRef::Fixed(refs.copy_step), ColRef::Committed(refs.d)]),
        shape_term(7, seq![ColRef::Fixed(refs.copy_step), ColRef::CommittedShift(refs.d)]),
    ]
}

fn paired_consistency_terms(refs: &PairedMerkleUpdateRefs) -> (r: Vec<WeightedTerm>)
    ensures
        shape_views(r@) == paired_consistency_shape(*refs),
        weights_below(r@, 8),
{
    let mut r: Vec<WeightedTerm> = Vec::new();
    r.push(weighted_term(2, cells_3(ColRef::Fixed(refs.old_even), ColRef::Committed(refs.d), ColRef::Committed(refs.d))));
    r.push(weighted_term(2, cells_2(ColRef::Fixed(refs.old_even), ColRef::Committed(refs.d))));
    r.push(weighted_term(3, cells_2(ColRef::Fixed(refs.bridge), ColRef::Committed(refs.e[0]))));
    r.push(weighted_term(3, cells_2(ColRef::Fixed(refs.bridge), ColRef::CommittedShift2(refs.c[0]))));
    r.push(weighted_term(4, cells_2(ColRef::Fixed(refs.bridge), ColRef::Committed(refs.e[1]))));
    r.push(weighted_term(4, cells_2(ColRef::Fixed(refs.bridge), ColRef::CommittedShift2(refs.c[1]))));
    r.push(weighted_term(5, cells_2(ColRef::Fixed(refs.copy_step), ColRef::Committed(refs.sib[0]))));
    r.push(weighted_term(5, cells_2(ColRef::Fixed(refs.copy_step), ColRef::CommittedShift(refs.sib[0]))));
    r.push(weighted_term(6, cells_2(ColRef::Fixed(refs.copy_step), ColRef::Committed(refs.sib[1]))));
    r.push(weighted_term(6, cells_2(ColRef::Fixed(refs.copy_step), ColRef::CommittedShift(refs.sib[1]))));
    r.push(weighted_term(7, cells_2(ColRef::Fixed(refs.copy_step), ColRef::Committed(refs.d))));
    r.push(weighted_term(7, cells_2(ColRef::Fixed(refs.copy_step), ColRef::CommittedShift(refs.d))));
    assert(shape_views(r@) =~= paired_consistency_shape(*refs));
    r
}

/// The wiring of a feed-forward family: a slot carries, and a node slot takes
/// its two children in the order of its direction instead.
pub open spec fn ff_walk_shape(refs: FfMerkleFamilyRefs, region: usize) -> Seq<ShapeTerm> {
    seq![
        shape_term(0, seq![ColRef::Fixed(region), ColRef::CommittedShift(refs.c[0])]),
        shape_term(1, seq![ColRef::Fixed(region), ColRef::CommittedShift(refs.c[1])]),
        shape_term(2, seq![ColRef::Fixed(region), ColRef::CommittedShift(refs.c[2])]),
        shape_term(3, seq![ColRef::Fixed(region), ColRef::CommittedShift(refs.c[3])]),
        shape_term(0, seq![ColRef::Fixed(refs.node), ColRef::CommittedShift(refs.c[0])]),
        shape_term(0, seq![ColRef::Fixed(refs.node), ColRef::Committed(refs.cr[0])]),
        shape_term(0, seq![ColRef::Fixed(refs.node), ColRef::Committed(refs.d), ColRef::Committed(refs.cr[0])]),
        shape_term(0, seq![ColRef::Fixed(refs.node), ColRef::Committed(refs.d), ColRef::Committed(refs.sib[0])]),
        shape_term(2, seq![ColRef::Fixed(refs.node), ColRef::CommittedShift(refs.c[2])]),
        shape_term(2, seq![ColRef::Fixed(refs.node), ColRef::Committed(refs.sib[0])]),
        shape_term(2, seq![ColRef::Fixed(refs.node), ColRef::Committed(refs.d), ColRef::Committed(refs.cr[0])]),
        shape_term(2, seq![ColRef::Fixed(refs.node), ColRef::Committed(refs.d), ColRef::Committed(refs.sib[0])]),
        shape_term(2, seq![ColRef::Fixed(refs.iv[0])]),
        shape_term(1, seq![ColRef::Fixed(refs.node), ColRef::CommittedShift(refs.c[1])]),
        shape_term(1, seq![ColRef::Fixed(refs.node), ColRef::Committed(refs.cr[1])]),
        shape_term(1, seq![ColRef::Fixed(refs.node), ColRef::Committed(refs.d), ColRef::Committed(refs.cr[1])]),
        shape_term(1, seq![ColRef::Fixed(refs.node), ColRef::Committed(refs.d), ColRef::Committed(refs.sib[1])]),
        shape_term(3, seq![ColRef::Fixed(refs.node), ColRef::CommittedShift(refs.c[3])]),
        shape_term(3, seq![ColRef::Fixed(refs.node), ColRef::Committed(refs.sib[1])]),
        shape_term(3, seq![ColRef::Fixed(refs.node), ColRef::Committed(refs.d), ColRef::Committed(refs.cr[1])]),
        shape_term(3, seq![ColRef::Fixed(refs.node), ColRef::Committed(refs.d), ColRef::Committed(refs.sib[1])]),
        shape_term(3, seq![ColRef::Fixed(refs.iv[1])]),
    ]
}

fn ff_walk_terms(refs: &FfMerkleFamilyRefs, region: usize) -> (r: Vec<WeightedTerm>)
    ensures
        shape_views(r@) == ff_walk_shape(*refs, region),
        weights_below(r@, 4),
{
    let mut r: Vec<WeightedTerm> = Vec::new();
    r.push(weighted_term(0, cells_2(ColRef::Fixed(region), ColRef::CommittedShift(refs.c[0]))));
    r.push(weighted_term(1, cells_2(ColRef::Fixed(region), ColRef::CommittedShift(refs.c[1]))));
    r.push(weighted_term(2, cells_2(ColRef::Fixed(region), ColRef::CommittedShift(refs.c[2]))));
    r.push(weighted_term(3, cells_2(ColRef::Fixed(region), ColRef::CommittedShift(refs.c[3]))));
    r.push(weighted_term(0, cells_2(ColRef::Fixed(refs.node), ColRef::CommittedShift(refs.c[0]))));
    r.push(weighted_term(0, cells_2(ColRef::Fixed(refs.node), ColRef::Committed(refs.cr[0]))));
    r.push(weighted_term(0, cells_3(ColRef::Fixed(refs.node), ColRef::Committed(refs.d), ColRef::Committed(refs.cr[0]))));
    r.push(weighted_term(0, cells_3(ColRef::Fixed(refs.node), ColRef::Committed(refs.d), ColRef::Committed(refs.sib[0]))));
    r.push(weighted_term(2, cells_2(ColRef::Fixed(refs.node), ColRef::CommittedShift(refs.c[2]))));
    r.push(weighted_term(2, cells_2(ColRef::Fixed(refs.node), ColRef::Committed(refs.sib[0]))));
    r.push(weighted_term(2, cells_3(ColRef::Fixed(refs.node), ColRef::Committed(refs.d), ColRef::Committed(refs.cr[0]))));
    r.push(weighted_term(2, cells_3(ColRef::Fixed(refs.node), ColRef::Committed(refs.d), ColRef::Committed(refs.sib[0]))));
    r.push(weighted_term(2, cells_1(ColRef::Fixed(refs.iv[0]))));
    r.push(weighted_term(1, cells_2(ColRef::Fixed(refs.node), ColRef::CommittedShift(refs.c[1]))));
    r.push(weighted_term(1, cells_2(ColRef::Fixed(refs.node), ColRef::Committed(refs.cr[1]))));
    r.push(weighted_term(1, cells_3(ColRef::Fixed(refs.node), ColRef::Committed(refs.d), ColRef::Committed(refs.cr[1]))));
    r.push(weighted_term(1, cells_3(ColRef::Fixed(refs.node), ColRef::Committed(refs.d), ColRef::Committed(refs.sib[1]))));
    r.push(weighted_term(3, cells_2(ColRef::Fixed(refs.node), ColRef::CommittedShift(refs.c[3]))));
    r.push(weighted_term(3, cells_2(ColRef::Fixed(refs.node), ColRef::Committed(refs.sib[1]))));
    r.push(weighted_term(3, cells_3(ColRef::Fixed(refs.node), ColRef::Committed(refs.d), ColRef::Committed(refs.cr[1]))));
    r.push(weighted_term(3, cells_3(ColRef::Fixed(refs.node), ColRef::Committed(refs.d), ColRef::Committed(refs.sib[1]))));
    r.push(weighted_term(3, cells_1(ColRef::Fixed(refs.iv[1]))));
    assert(shape_views(r@) =~= ff_walk_shape(*refs, region));
    r
}

/// The wiring of a family of two permutations a node: the even slot takes the
/// child that the direction puts first, the odd slot the other.
pub open spec fn path_walk_shape(refs: MerkleFamilyRefs, region: usize) -> Seq<ShapeTerm> {
    seq![
        shape_term(0, seq![ColRef::Fixed(region), ColRef::CommittedShift(refs.c[0])]),
        shape_term(0, seq![ColRef::Fixed(refs.evenstart), ColRef::CommittedShift(refs.c[0])]),
        shape_term(0, seq![ColRef::Fixed(refs.evenns), ColRef::Committed(refs.d), ColRef::CommittedShift(refs.c[0])]),
        shape_term(0, seq![ColRef::Fixed(refs.even), ColRef::Committed(refs.d), ColRef::Committed(refs.sib[0])]),
        shape_term(0, seq![ColRef::Fixed(refs.evenstart), ColRef::Committed(refs.e[0])]),
        shape_term(0, seq![ColRef::Fixed(refs.evenstart), ColRef::Committed(refs.d), ColRef::Committed(refs.e[0])]),
        shape_term(0, seq![ColRef::Fixed(refs.odd), ColRef::CommittedShift(refs.sib[0])]),
        shape_term(0, seq![ColRef::Fixed(refs.odd), ColRef::CommittedShift(refs.d), ColRef::CommittedShift(refs.sib[0])]),
        shape_term(0, seq![ColRef::Fixed(refs.oddns), ColRef::CommittedShift(refs.d), ColRef::CommittedShift2(refs.c[0])]),
        shape_term(0, seq![ColRef::Fixed(refs.oddstart), ColRef::CommittedShift(refs.d), ColRef::CommittedShift(refs.e[0])]),
        shape_term(1, seq![ColRef::Fixed(region), ColRef::CommittedShift(refs.c[1])]),
        shape_term(1, seq![ColRef::Fixed(refs.evenstart), ColRef::CommittedShift(refs.c[1])]),
        shape_term(1, seq![ColRef::Fixed(refs.evenns), ColRef::Committed(refs.d), ColRef::CommittedShift(refs.c[1])]),
        shape_term(1, seq![ColRef::Fixed(refs.even), ColRef::Committed(refs.d), ColRef::Committed(refs.sib[1])]),
        shape_term(1, seq![ColRef::Fixed(refs.evenstart), ColRef::Committed(refs.e[1])]),
        shape_term(1, seq![ColRef::Fixed(refs.evenstart), ColRef::Committed(refs.d), ColRef::Committed(refs.e[1])]),
        shape_term(1, seq![ColRef::Fixed(refs.odd), ColRef::CommittedShift(refs.sib[1])]),
        shape_term(1, seq![ColRef::Fixed(refs.odd), ColRef::CommittedShift(refs.d), ColRef::CommittedShift(refs.sib[1])]),
        shape_term(1, seq![ColRef::Fixed(refs.oddns), ColRef::CommittedShift(refs.d), ColRef::CommittedShift2(refs.c[1])]),
        shape_term(1, seq![ColRef::Fixed(refs.oddstart), ColRef::CommittedShift(refs.d), ColRef::CommittedShift(refs.e[1])]),
        shape_term(2, seq![ColRef::Fixed(region), ColRef::CommittedShift(refs.c[2])]),
        shape_term(2, seq![ColRef::Fixed(refs.even), ColRef::CommittedShift(refs.c[2])]),
        shape_term(2, seq![ColRef::Fixed(refs.iv[0])]),
        shape_term(3, seq![ColRef::Fixed(region), ColRef::CommittedShift(refs.c[3])]),
        shape_term(3, seq![ColRef::Fixed(refs.even), ColRef::CommittedShift(refs.c[3])]),
        shape_term(3, seq![ColRef::Fixed(refs.iv[1])]),
    ]
}

fn path_walk_terms(refs: &MerkleFamilyRefs, region: usize) -> (r: Vec<WeightedTerm>)
    ensures
        shape_views(r@) == path_walk_shape(*refs, region),
        weights_below(r@, 4),
{
    let mut r: Vec<WeightedTerm> = Vec::new();
    r.push(weighted_term(0, cells_2(ColRef::Fixed(region), ColRef::CommittedShift(refs.c[0]))));
    r.push(weighted_term(0, cells_2(ColRef::Fixed(refs.evenstart), ColRef::CommittedShift(refs.c[0]))));
    r.push(weighted_term(0, cells_3(ColRef::Fixed(refs.evenns), ColRef::Committed(refs.d), ColRef::CommittedShift(refs.c[0]))));
    r.push(weighted_term(0, cells_3(ColRef::Fixed(refs.even), ColRef::Committed(refs.d), ColRef::Committed(refs.sib[0]))));
    r.push(weighted_term(0, cells_2(ColRef::Fixed(refs.evenstart), ColRef::Committed(refs.e[0]))));
    r.push(weighted_term(0, cells_3(ColRef::Fixed(refs.evenstart), ColRef::Committed(refs.d), ColRef::Committed(refs.e[0]))));
    r.push(weighted_term(0, cells_2(ColRef::Fixed(refs.odd), ColRef::CommittedShift(refs.sib[0]))));
    r.push(weighted_term(0, cells_3(ColRef::Fixed(refs.odd), ColRef::CommittedShift(refs.d), ColRef::CommittedShift(refs.sib[0]))));
    r.push(weighted_term(0, cells_3(ColRef::Fixed(refs.oddns), ColRef::CommittedShift(refs.d), ColRef::CommittedShift2(refs.c[0]))));
    r.push(weighted_term(0, cells_3(ColRef::Fixed(refs.oddstart), ColRef::CommittedShift(refs.d), ColRef::CommittedShift(refs.e[0]))));
    r.push(weighted_term(1, cells_2(ColRef::Fixed(region), ColRef::CommittedShift(refs.c[1]))));
    r.push(weighted_term(1, cells_2(ColRef::Fixed(refs.evenstart), ColRef::CommittedShift(refs.c[1]))));
    r.push(weighted_term(1, cells_3(ColRef::Fixed(refs.evenns), ColRef::Committed(refs.d), ColRef::CommittedShift(refs.c[1]))));
    r.push(weighted_term(1, cells_3(ColRef::Fixed(refs.even), ColRef::Committed(refs.d), ColRef::Committed(refs.sib[1]))));
    r.push(weighted_term(1, cells_2(ColRef::Fixed(refs.evenstart), ColRef::Committed(refs.e[1]))));
    r.push(weighted_term(1, cells_3(ColRef::Fixed(refs.evenstart), ColRef::Committed(refs.d), ColRef::Committed(refs.e[1]))));
    r.push(weighted_term(1, cells_2(ColRef::Fixed(refs.odd), ColRef::CommittedShift(refs.sib[1]))));
    r.push(weighted_term(1, cells_3(ColRef::Fixed(refs.odd), ColRef::CommittedShift(refs.d), ColRef::CommittedShift(refs.sib[1]))));
    r.push(weighted_term(1, cells_3(ColRef::Fixed(refs.oddns), ColRef::CommittedShift(refs.d), ColRef::CommittedShift2(refs.c[1]))));
    r.push(weighted_term(1, cells_3(ColRef::Fixed(refs.oddstart), ColRef::CommittedShift(refs.d), ColRef::CommittedShift(refs.e[1]))));
    r.push(weighted_term(2, cells_2(ColRef::Fixed(region), ColRef::CommittedShift(refs.c[2]))));
    r.push(weighted_term(2, cells_2(ColRef::Fixed(refs.even), ColRef::CommittedShift(refs.c[2]))));
    r.push(weighted_term(2, cells_1(ColRef::Fixed(refs.iv[0]))));
    r.push(weighted_term(3, cells_2(ColRef::Fixed(region), ColRef::CommittedShift(refs.c[3]))));
    r.push(weighted_term(3, cells_2(ColRef::Fixed(refs.even), ColRef::CommittedShift(refs.c[3]))));
    r.push(weighted_term(3, cells_1(ColRef::Fixed(refs.iv[1]))));
    assert(shape_views(r@) =~= path_walk_shape(*refs, region));
    r
}

/// The wiring of a paired update: the old and the new path of an update share
/// their siblings and directions.
pub open spec fn paired_walk_shape(refs: PairedMerkleUpdateRefs, region: usize) -> Seq<ShapeTerm> {
    seq![
        shape_term(0, seq![ColRef::Fixed(region), ColRef::CommittedShift(refs.c[0])]),
        shape_term(0, seq![ColRef::Fixed(refs.even), ColRef::CommittedShift(refs.c[0])]),
        shape_term(0, seq![ColRef::Fixed(refs.even_start), ColRef::Committed(refs.e[0])]),
        shape_term(0, seq![ColRef::Fixed(refs.even_start), ColRef::Committed(refs.d), ColRef::Committed(refs.e[0])]),
        shape_term(0, seq![ColRef::Fixed(refs.even_nonstart), ColRef::CommittedShift(refs.e[0])]),
        shape_term(0, seq![ColRef::Fixed(refs.even_nonstart), ColRef::Committed(refs.d), ColRef::CommittedShift(refs.e[0])]),
        shape_term(0, seq![ColRef::Fixed(refs.even), ColRef::Committed(refs.d), ColRef::Committed(refs.sib[0])]),
        shape_term(0, seq![ColRef::Fixed(refs.odd), ColRef::CommittedShift(refs.sib[0])]),
        shape_term(0, seq![ColRef::Fixed(refs.odd), ColRef::CommittedShift(refs.d), ColRef::CommittedShift(refs.sib[0])]),
        shape_term(0, seq![ColRef::Fixed(refs.odd_start), ColRef::CommittedShift(refs.d), ColRef::CommittedShift(refs.e[0])]),
        shape_term(0, seq![ColRef::Fixed(refs.odd_nonstart), ColRef::CommittedShift(refs.d), ColRef::CommittedShift2(refs.e[0])]),
        shape_term(1, seq![ColRef::Fixed(region), ColRef::CommittedShift(refs.c[1])]),
        shape_term(1, seq![ColRef::Fixed(refs.even), ColRef::CommittedShift(refs.c[1])]),
        shape_term(1, seq![ColRef::Fixed(refs.even_start), ColRef::Committed(refs.e[1])]),
        shape_term(1, seq![ColRef::Fixed(refs.even_start), ColRef::Committed(refs.d), ColRef::Committed(refs.e[1])]),
        shape_term(1, seq![ColRef::Fixed(refs.even_nonstart), ColRef::CommittedShift(refs.e[1])]),
        shape_term(1, seq![ColRef::Fixed(refs.even_nonstart), ColRef::Committed(refs.d), ColRef::CommittedShift(refs.e[1])]),
        shape_term(1, seq![ColRef::Fixed(refs.even), ColRef::Committed(refs.d), ColRef::Committed(refs.sib[1])]),
        shape_term(1, seq![ColRef::Fixed(refs.odd), ColRef::CommittedShift(refs.sib[1])]),
        shape_term(1, seq![ColRef::Fixed(refs.odd), ColRef::CommittedShift(refs.d), ColRef::CommittedShift(refs.sib[1])]),
        shape_term(1, seq![ColRef::Fixed(refs.odd_start), ColRef::CommittedShift(refs.d), ColRef::CommittedShift(refs.e[1])]),
        shape_term(1, seq![ColRef::Fixed(refs.odd_nonstart), ColRef::CommittedShift(refs.d), ColRef::CommittedShift2(refs.e[1])]),
        shape_term(2, seq![ColRef::Fixed(region), ColRef::CommittedShift(refs.c[2])]),
        shape_term(2, seq![ColRef::Fixed(refs.even), ColRef::CommittedShift(refs.c[2])]),
        shape_term(2, seq![ColRef::Fixed(refs.iv[0])]),
        shape_term(3, seq![ColRef::Fixed(region), ColRef::CommittedShift(refs.c[3])]),
        shape_term(3, seq![ColRef::Fixed(refs.even), ColRef::CommittedShift(refs.c[3])]),
        shape_term(3, seq![ColRef::Fixed(refs.iv[1])]),
    ]
}

fn paired_walk_terms(refs: &PairedMerkleUpdateRefs, region: usize) -> (r: Vec<WeightedTerm>)
    ensures
        shape_views(r@) == paired_walk_shape(*refs, region),
        weights_below(r@, 4),
{
    let mut r: Vec<WeightedTerm> = Vec::new();
    r.push(weighted_term(0, cells_2(ColRef::Fixed(region), ColRef::CommittedShift(refs.c[0]))));
    r.push(weighted_term(0, cells_2(ColRef::Fixed(refs.even), ColRef::CommittedShift(refs.c[0]))));
    r.push(weighted_term(0, cells_2(ColRef::Fixed(refs.even_start), ColRef::Committed(refs.e[0]))));
    r.push(weighted_term(0, cells_3(ColRef::Fixed(refs.even_start), ColRef::Committed(refs.d), ColRef::Committed(refs.e[0]))));
    r.push(weighted_term(0, cells_2(ColRef::Fixed(refs.even_nonstart), ColRef::CommittedShift(refs.e[0]))));
    r.push(weighted_term(0, cells_3(ColRef::Fixed(refs.even_nonstart), ColRef::Committed(refs.d), ColRef::CommittedShift(refs.e[0]))));
    r.push(weighted_term(0, cells_3(ColRef::Fixed(refs.even), ColRef::Committed(refs.d), ColRef::Committed(refs.sib[0]))));
    r.push(weighted_term(0, cells_2(ColRef::Fixed(refs.odd), ColRef::CommittedShift(refs.sib[0]))));
    r.push(weighted_term(0, cells_3(ColRef::Fixed(refs.odd), ColRef::CommittedShift(refs.d), ColRef::CommittedShift(refs.sib[0]))));
    r.push(weighted_term(0, cells_3(ColRef::Fixed(refs.odd_start), ColRef::CommittedShift(refs.d), ColRef::CommittedShift(refs.e[0]))));
    r.push(weighted_term(0, cells_3(ColRef::Fixed(refs.odd_nonstart), ColRef::CommittedShift(refs.d), ColRef::CommittedShift2(refs.e[0]))));
    r.push(weighted_term(1, cells_2(ColRef::Fixed(region), ColRef::CommittedShift(refs.c[1]))));
    r.push(weighted_term(1, cells_2(ColRef::Fixed(refs.even), ColRef::CommittedShift(refs.c[1]))));
    r.push(weighted_term(1, cells_2(ColRef::Fixed(refs.even_start), ColRef::Committed(refs.e[1]))));
    r.push(weighted_term(1, cells_3(ColRef::Fixed(refs.even_start), ColRef::Committed(refs.d), ColRef::Committed(refs.e[1]))));
    r.push(weighted_term(1, cells_2(ColRef::Fixed(refs.even_nonstart), ColRef::CommittedShift(refs.e[1]))));
    r.push(weighted_term(1, cells_3(ColRef::Fixed(refs.even_nonstart), ColRef::Committed(refs.d), ColRef::CommittedShift(refs.e[1]))));
    r.push(weighted_term(1, cells_3(ColRef::Fixed(refs.even), ColRef::Committed(refs.d), ColRef::Committed(refs.sib[1]))));
    r.push(weighted_term(1, cells_2(ColRef::Fixed(refs.odd), ColRef::CommittedShift(refs.sib[1]))));
    r.push(weighted_term(1, cells_3(ColRef::Fixed(refs.odd), ColRef::CommittedShift(refs.d), ColRef::CommittedShift(refs.sib[1]))));
    r.push(weighted_term(1, cells_3(ColRef::Fixed(refs.odd_start), ColRef::CommittedShift(refs.d), ColRef::CommittedShift(refs.e[1]))));
    r.push(weighted_term(1, cells_3(ColRef::Fixed(refs.odd_nonstart), ColRef::CommittedShift(refs.d), ColRef::CommittedShift2(refs.e[1]))));
    r.push(weighted_term(2, cells_2(ColRef::Fixed(region), ColRef::CommittedShift(refs.c[2]))));
    r.push(weighted_term(2, cells_2(ColRef::Fixed(refs.even), ColRef::CommittedShift(refs.c[2]))));
    r.push(weighted_term(2, cells_1(ColRef::Fixed(refs.iv[0]))));
    r.push(weighted_term(3, cells_2(ColRef::Fixed(region), ColRef::CommittedShift(refs.c[3]))));
    r.push(weighted_term(3, cells_2(ColRef::Fixed(refs.even), ColRef::CommittedShift(refs.c[3]))));
    r.push(weighted_term(3, cells_1(ColRef::Fixed(refs.iv[1]))));
    assert(shape_views(r@) =~= paired_walk_shape(*refs, region));
    r
}

/// The terms of a family under values.
fn weigh_values(ts: Vec<WeightedTerm>, w: &Vec<F128>, r: &mut Vec<RelationTerm>)
    requires
        weights_below(ts@, w@.len()),
    ensures
        term_views(final(r)@) == term_views(old(r)@) + weighed(
            shape_views(ts@),
            weight_values(w@),
        ),
{
    let ghost head = term_views(r@);
    let ghost views = shape_views(ts@);
    let mut i: usize = 0;
    assert(term_views(r@) =~= head + weighed(views, weight_values(w@)).take(0));
    while i < ts.len()
        invariant
            i <= ts@.len(),
            weights_below(ts@, w@.len()),
            views == shape_views(ts@),
            term_views(r@) == head + weighed(views, weight_values(w@)).take(i as int),
        decreases ts@.len() - i,
    {
        assert(ts@[i as int].weight < w@.len());
        let factors = copy_cells(&ts[i].factors);
        let ghost r0 = r@;
        r.push(RelationTerm { coeff: w[ts[i].weight], factors });
        proof {
            let all = weighed(views, weight_values(w@));
            assert(all.take(i + 1) =~= all.take(i as int).push(all[i as int]));
            assert(term_views(r@) =~= term_views(r0).push(all[i as int]));
            assert(term_views(r@) =~= head + all.take(i + 1));
        }
        i = i + 1;
    }
    assert(weighed(views, weight_values(w@)).take(ts@.len() as int) =~= weighed(
        views,
        weight_values(w@),
    ));
}

fn copy_cells(cells: &Vec<ColRef>) -> (r: Vec<ColRef>)
    ensures
        r@ == cells@,
{
    let mut r: Vec<ColRef> = Vec::new();
    let mut i: usize = 0;
    while i < cells.len()
        invariant
            i <= cells@.len(),
            r@ == cells@.take(i as int),
        decreases cells@.len() - i,
    {
        r.push(cells[i]);
        assert(cells@.take(i + 1) =~= cells@.take(i as int).push(cells@[i as int]));
        i = i + 1;
    }
    assert(r@ =~= cells@);
    r
}

/// A list of terms only reads wires below `n`.
pub open spec fn coeffs_below(ts: Seq<RelationTermTrace>, n: nat) -> bool {
    forall|i: int| 0 <= i < ts.len() ==> (#[trigger] ts[i]).coeff.bound() <= n
}

/// The terms of a family under expressions.
fn weigh_exprs(ts: Vec<WeightedTerm>, w: &Vec<LinExpr>, r: &mut Vec<RelationTermTrace>)
    requires
        weights_below(ts@, w@.len()),
    ensures
        forall|z: spec_fn(int) -> u128| #[trigger]
            trace_views(final(r)@, z) == trace_views(old(r)@, z) + weighed(
                shape_views(ts@),
                values_at(w@, z),
            ),
        forall|n: nat|
            all_below(w@, n) && coeffs_below(old(r)@, n) ==> #[trigger] coeffs_below(
                final(r)@,
                n,
            ),
{
    let ghost r0 = r@;
    let ghost views = shape_views(ts@);
    let mut i: usize = 0;
    proof {
        assert forall|z: spec_fn(int) -> u128| #[trigger] trace_views(r@, z) == trace_views(r0, z)
            + weighed(views, values_at(w@, z)).take(0) by {
            assert(trace_views(r@, z) =~= trace_views(r0, z) + weighed(
                views,
                values_at(w@, z),
            ).take(0));
        }
    }
    while i < ts.len()
        invariant
            i <= ts@.len(),
            weights_below(ts@, w@.len()),
            views == shape_views(ts@),
            forall|z: spec_fn(int) -> u128| #[trigger]
                trace_views(r@, z) == trace_views(r0, z) + weighed(views, values_at(w@, z)).take(
                    i as int,
                ),
            forall|n: nat|
                all_below(w@, n) && coeffs_below(r0, n) ==> #[trigger] coeffs_below(r@, n),
        decreases ts@.len() - i,
    {
        assert(ts@[i as int].weight < w@.len());
        let ghost mid = r@;
        let factors = copy_cells(&ts[i].factors);
        let coeff = w[ts[i].weight].clone();
        r.push(RelationTermTrace { coeff, factors });
        proof {
            assert forall|z: spec_fn(int) -> u128| #[trigger] trace_views(r@, z) == trace_views(
                r0,
                z,
            ) + weighed(views, values_at(w@, z)).take(i + 1) by {
                let all = weighed(views, values_at(w@, z));
                assert(trace_views(mid, z) == trace_views(r0, z) + all.take(i as int));
                assert(all.take(i + 1) =~= all.take(i as int).push(all[i as int]));
                assert(values_at(w@, z)[ts@[i as int].weight as int]
                    == w@[ts@[i as int].weight as int].at(z));
                assert(trace_views(r@, z) =~= trace_views(mid, z).push(all[i as int]));
                assert(trace_views(r@, z) =~= trace_views(r0, z) + all.take(i + 1));
            }
            assert forall|n: nat| all_below(w@, n) && coeffs_below(r0, n) implies #[trigger] coeffs_below(
                r@,
                n,
            ) by {
                assert(coeffs_below(mid, n));
                assert(w@[ts@[i as int].weight as int].bound() <= n);
                assert forall|k: int| 0 <= k < r@.len() implies (#[trigger] r@[k]).coeff.bound()
                    <= n by {
                    if k < mid.len() {
                        assert(r@[k] == mid[k]);
                    }
                }
            }
        }
        i = i + 1;
    }
    proof {
        assert forall|z: spec_fn(int) -> u128| #[trigger] trace_views(r@, z) == trace_views(r0, z)
            + weighed(views, values_at(w@, z)) by {
            assert(weighed(views, values_at(w@, z)).take(ts@.len() as int) =~= weighed(
                views,
                values_at(w@, z),
            ));
        }
    }
}

// ---------------------------------------------------------------------------
// The two relations of the walk.
// ---------------------------------------------------------------------------
pub(crate) proof fn lemma_weighed_append(x: Seq<ShapeTerm>, y: Seq<ShapeTerm>, w: Seq<u128>)
    ensures
        weighed(x + y, w) == weighed(x, w) + weighed(y, w),
{
    assert(weighed(x + y, w) =~= weighed(x, w) + weighed(y, w));
}

/// A feed-forward family and its region.
#[derive(Clone, Copy, Debug)]
pub struct FfFamily {
    pub refs: FfMerkleFamilyRefs,
    pub region: usize,
}

/// A family of two permutations a node and its region.
#[derive(Clone, Copy, Debug)]
pub struct PathFamily {
    pub refs: MerkleFamilyRefs,
    pub region: usize,
}

/// A paired update family and its region.
#[derive(Clone, Copy, Debug)]
pub struct PairedFamily {
    pub refs: PairedMerkleUpdateRefs,
    pub region: usize,
}

/// The families of a Merkle walk, by kind.
pub struct MerkleFamilies {
    pub ff: Vec<FfFamily>,
    pub paths: Vec<PathFamily>,
    pub paired: Vec<PairedFamily>,
}

/// The chains of the first `n` feed-forward families.
pub open spec fn ff_chains(list: Seq<FfFamily>, n: nat) -> Seq<ShapeTerm>
    decreases n,
{
    if n == 0 {
        seq![]
    } else {
        ff_chains(list, (n - 1) as nat) + ff_chain_shape(list[n - 1].refs)
    }
}

fn push_ff_chains_values(list: &Vec<FfFamily>, w: &Vec<F128>, r: &mut Vec<RelationTerm>)
    requires
        w@.len() == 8,
    ensures
        term_views(final(r)@) == term_views(old(r)@) + weighed(
            ff_chains(list@, list@.len()),
            weight_values(w@),
        ),
{
    let ghost head = term_views(r@);
    let mut i: usize = 0;
    assert(term_views(r@) =~= head + weighed(ff_chains(list@, 0), weight_values(w@)));
    while i < list.len()
        invariant
            i <= list@.len(),
            w@.len() == 8,
            term_views(r@) == head + weighed(ff_chains(list@, i as nat), weight_values(w@)),
        decreases list@.len() - i,
    {
        let ts = ff_chain_terms(&list[i].refs);
        proof {
            lemma_weighed_append(
                ff_chains(list@, i as nat),
                shape_views(ts@),
                weight_values(w@),
            );
        }
        weigh_values(ts, w, r);
        assert(term_views(r@) =~= head + weighed(
            ff_chains(list@, (i + 1) as nat),
            weight_values(w@),
        ));
        i = i + 1;
    }
}

fn push_ff_chains_exprs(list: &Vec<FfFamily>, w: &Vec<LinExpr>, r: &mut Vec<RelationTermTrace>)
    requires
        w@.len() == 8,
    ensures
        forall|z: spec_fn(int) -> u128| #[trigger]
            trace_views(final(r)@, z) == trace_views(old(r)@, z) + weighed(
                ff_chains(list@, list@.len()),
                values_at(w@, z),
            ),
        forall|n: nat|
            all_below(w@, n) && coeffs_below(old(r)@, n) ==> #[trigger] coeffs_below(
                final(r)@,
                n,
            ),
{
    let ghost r0 = r@;
    let mut i: usize = 0;
    proof {
        assert forall|z: spec_fn(int) -> u128| #[trigger] trace_views(r@, z) == trace_views(r0, z)
            + weighed(ff_chains(list@, 0), values_at(w@, z)) by {
            assert(trace_views(r@, z) =~= trace_views(r0, z) + weighed(
                ff_chains(list@, 0),
                values_at(w@, z),
            ));
        }
    }
    while i < list.len()
        invariant
            i <= list@.len(),
            w@.len() == 8,
            forall|z: spec_fn(int) -> u128| #[trigger]
                trace_views(r@, z) == trace_views(r0, z) + weighed(
                    ff_chains(list@, i as nat),
                    values_at(w@, z),
                ),
            forall|n: nat|
                all_below(w@, n) && coeffs_below(r0, n) ==> #[trigger] coeffs_below(r@, n),
        decreases list@.len() - i,
    {
        let ghost mid = r@;
        let ts = ff_chain_terms(&list[i].refs);
        let ghost more = shape_views(ts@);
        weigh_exprs(ts, w, r);
        proof {
            assert forall|z: spec_fn(int) -> u128| #[trigger] trace_views(r@, z) == trace_views(
                r0,
                z,
            ) + weighed(ff_chains(list@, (i + 1) as nat), values_at(w@, z)) by {
                assert(trace_views(mid, z) == trace_views(r0, z) + weighed(
                    ff_chains(list@, i as nat),
                    values_at(w@, z),
                ));
                lemma_weighed_append(ff_chains(list@, i as nat), more, values_at(w@, z));
                assert(trace_views(r@, z) =~= trace_views(r0, z) + weighed(
                    ff_chains(list@, (i + 1) as nat),
                    values_at(w@, z),
                ));
            }
            assert forall|n: nat| all_below(w@, n) && coeffs_below(r0, n) implies #[trigger] coeffs_below(
                r@,
                n,
            ) by {
                assert(coeffs_below(mid, n));
            }
        }
        i = i + 1;
    }
}

/// The consistency of the first `n` paired updates.
pub open spec fn consistencies(list: Seq<PairedFamily>, n: nat) -> Seq<ShapeTerm>
    decreases n,
{
    if n == 0 {
        seq![]
    } else {
        consistencies(list, (n - 1) as nat) + paired_consistency_shape(list[n - 1].refs)
    }
}

fn push_consistencies_values(list: &Vec<PairedFamily>, w: &Vec<F128>, r: &mut Vec<RelationTerm>)
    requires
        w@.len() == 8,
    ensures
        term_views(final(r)@) == term_views(old(r)@) + weighed(
            consistencies(list@, list@.len()),
            weight_values(w@),
        ),
{
    let ghost head = term_views(r@);
    let mut i: usize = 0;
    assert(term_views(r@) =~= head + weighed(consistencies(list@, 0), weight_values(w@)));
    while i < list.len()
        invariant
            i <= list@.len(),
            w@.len() == 8,
            term_views(r@) == head + weighed(consistencies(list@, i as nat), weight_values(w@)),
        decreases list@.len() - i,
    {
        let ts = paired_consistency_terms(&list[i].refs);
        proof {
            lemma_weighed_append(
                consistencies(list@, i as nat),
                shape_views(ts@),
                weight_values(w@),
            );
        }
        weigh_values(ts, w, r);
        assert(term_views(r@) =~= head + weighed(
            consistencies(list@, (i + 1) as nat),
            weight_values(w@),
        ));
        i = i + 1;
    }
}

fn push_consistencies_exprs(list: &Vec<PairedFamily>, w: &Vec<LinExpr>, r: &mut Vec<RelationTermTrace>)
    requires
        w@.len() == 8,
    ensures
        forall|z: spec_fn(int) -> u128| #[trigger]
            trace_views(final(r)@, z) == trace_views(old(r)@, z) + weighed(
                consistencies(list@, list@.len()),
                values_at(w@, z),
            ),
        forall|n: nat|
            all_below(w@, n) && coeffs_below(old(r)@, n) ==> #[trigger] coeffs_below(
                final(r)@,
                n,
            ),
{
    let ghost r0 = r@;
    let mut i: usize = 0;
    proof {
        assert forall|z: spec_fn(int) -> u128| #[trigger] trace_views(r@, z) == trace_views(r0, z)
            + weighed(consistencies(list@, 0), values_at(w@, z)) by {
            assert(trace_views(r@, z) =~= trace_views(r0, z) + weighed(
                consistencies(list@, 0),
                values_at(w@, z),
            ));
        }
    }
    while i < list.len()
        invariant
            i <= list@.len(),
            w@.len() == 8,
            forall|z: spec_fn(int) -> u128| #[trigger]
                trace_views(r@, z) == trace_views(r0, z) + weighed(
                    consistencies(list@, i as nat),
                    values_at(w@, z),
                ),
            forall|n: nat|
                all_below(w@, n) && coeffs_below(r0, n) ==> #[trigger] coeffs_below(r@, n),
        decreases list@.len() - i,
    {
        let ghost mid = r@;
        let ts = paired_consistency_terms(&list[i].refs);
        let ghost more = shape_views(ts@);
        weigh_exprs(ts, w, r);
        proof {
            assert forall|z: spec_fn(int) -> u128| #[trigger] trace_views(r@, z) == trace_views(
                r0,
                z,
            ) + weighed(consistencies(list@, (i + 1) as nat), values_at(w@, z)) by {
                assert(trace_views(mid, z) == trace_views(r0, z) + weighed(
                    consistencies(list@, i as nat),
                    values_at(w@, z),
                ));
                lemma_weighed_append(consistencies(list@, i as nat), more, values_at(w@, z));
                assert(trace_views(r@, z) =~= trace_views(r0, z) + weighed(
                    consistencies(list@, (i + 1) as nat),
                    values_at(w@, z),
                ));
            }
            assert forall|n: nat| all_below(w@, n) && coeffs_below(r0, n) implies #[trigger] coeffs_below(
                r@,
                n,
            ) by {
                assert(coeffs_below(mid, n));
            }
        }
        i = i + 1;
    }
}

/// The wiring of the first `n` feed-forward families.
pub open spec fn ff_walks(list: Seq<FfFamily>, n: nat) -> Seq<ShapeTerm>
    decreases n,
{
    if n == 0 {
        seq![]
    } else {
        ff_walks(list, (n - 1) as nat) + ff_walk_shape(list[n - 1].refs, list[n - 1].region)
    }
}

fn push_ff_walks_values(list: &Vec<FfFamily>, w: &Vec<F128>, r: &mut Vec<RelationTerm>)
    requires
        w@.len() == 4,
    ensures
        term_views(final(r)@) == term_views(old(r)@) + weighed(
            ff_walks(list@, list@.len()),
            weight_values(w@),
        ),
{
    let ghost head = term_views(r@);
    let mut i: usize = 0;
    assert(term_views(r@) =~= head + weighed(ff_walks(list@, 0), weight_values(w@)));
    while i < list.len()
        invariant
            i <= list@.len(),
            w@.len() == 4,
            term_views(r@) == head + weighed(ff_walks(list@, i as nat), weight_values(w@)),
        decreases list@.len() - i,
    {
        let ts = ff_walk_terms(&list[i].refs, list[i].region);
        proof {
            lemma_weighed_append(
                ff_walks(list@, i as nat),
                shape_views(ts@),
                weight_values(w@),
            );
        }
        weigh_values(ts, w, r);
        assert(term_views(r@) =~= head + weighed(
            ff_walks(list@, (i + 1) as nat),
            weight_values(w@),
        ));
        i = i + 1;
    }
}

fn push_ff_walks_exprs(list: &Vec<FfFamily>, w: &Vec<LinExpr>, r: &mut Vec<RelationTermTrace>)
    requires
        w@.len() == 4,
    ensures
        forall|z: spec_fn(int) -> u128| #[trigger]
            trace_views(final(r)@, z) == trace_views(old(r)@, z) + weighed(
                ff_walks(list@, list@.len()),
                values_at(w@, z),
            ),
        forall|n: nat|
            all_below(w@, n) && coeffs_below(old(r)@, n) ==> #[trigger] coeffs_below(
                final(r)@,
                n,
            ),
{
    let ghost r0 = r@;
    let mut i: usize = 0;
    proof {
        assert forall|z: spec_fn(int) -> u128| #[trigger] trace_views(r@, z) == trace_views(r0, z)
            + weighed(ff_walks(list@, 0), values_at(w@, z)) by {
            assert(trace_views(r@, z) =~= trace_views(r0, z) + weighed(
                ff_walks(list@, 0),
                values_at(w@, z),
            ));
        }
    }
    while i < list.len()
        invariant
            i <= list@.len(),
            w@.len() == 4,
            forall|z: spec_fn(int) -> u128| #[trigger]
                trace_views(r@, z) == trace_views(r0, z) + weighed(
                    ff_walks(list@, i as nat),
                    values_at(w@, z),
                ),
            forall|n: nat|
                all_below(w@, n) && coeffs_below(r0, n) ==> #[trigger] coeffs_below(r@, n),
        decreases list@.len() - i,
    {
        let ghost mid = r@;
        let ts = ff_walk_terms(&list[i].refs, list[i].region);
        let ghost more = shape_views(ts@);
        weigh_exprs(ts, w, r);
        proof {
            assert forall|z: spec_fn(int) -> u128| #[trigger] trace_views(r@, z) == trace_views(
                r0,
                z,
            ) + weighed(ff_walks(list@, (i + 1) as nat), values_at(w@, z)) by {
                assert(trace_views(mid, z) == trace_views(r0, z) + weighed(
                    ff_walks(list@, i as nat),
                    values_at(w@, z),
                ));
                lemma_weighed_append(ff_walks(list@, i as nat), more, values_at(w@, z));
                assert(trace_views(r@, z) =~= trace_views(r0, z) + weighed(
                    ff_walks(list@, (i + 1) as nat),
                    values_at(w@, z),
                ));
            }
            assert forall|n: nat| all_below(w@, n) && coeffs_below(r0, n) implies #[trigger] coeffs_below(
                r@,
                n,
            ) by {
                assert(coeffs_below(mid, n));
            }
        }
        i = i + 1;
    }
}

/// The wiring of the first `n` families of two permutations a node.
pub open spec fn path_walks(list: Seq<PathFamily>, n: nat) -> Seq<ShapeTerm>
    decreases n,
{
    if n == 0 {
        seq![]
    } else {
        path_walks(list, (n - 1) as nat) + path_walk_shape(list[n - 1].refs, list[n - 1].region)
    }
}

fn push_path_walks_values(list: &Vec<PathFamily>, w: &Vec<F128>, r: &mut Vec<RelationTerm>)
    requires
        w@.len() == 4,
    ensures
        term_views(final(r)@) == term_views(old(r)@) + weighed(
            path_walks(list@, list@.len()),
            weight_values(w@),
        ),
{
    let ghost head = term_views(r@);
    let mut i: usize = 0;
    assert(term_views(r@) =~= head + weighed(path_walks(list@, 0), weight_values(w@)));
    while i < list.len()
        invariant
            i <= list@.len(),
            w@.len() == 4,
            term_views(r@) == head + weighed(path_walks(list@, i as nat), weight_values(w@)),
        decreases list@.len() - i,
    {
        let ts = path_walk_terms(&list[i].refs, list[i].region);
        proof {
            lemma_weighed_append(
                path_walks(list@, i as nat),
                shape_views(ts@),
                weight_values(w@),
            );
        }
        weigh_values(ts, w, r);
        assert(term_views(r@) =~= head + weighed(
            path_walks(list@, (i + 1) as nat),
            weight_values(w@),
        ));
        i = i + 1;
    }
}

fn push_path_walks_exprs(list: &Vec<PathFamily>, w: &Vec<LinExpr>, r: &mut Vec<RelationTermTrace>)
    requires
        w@.len() == 4,
    ensures
        forall|z: spec_fn(int) -> u128| #[trigger]
            trace_views(final(r)@, z) == trace_views(old(r)@, z) + weighed(
                path_walks(list@, list@.len()),
                values_at(w@, z),
            ),
        forall|n: nat|
            all_below(w@, n) && coeffs_below(old(r)@, n) ==> #[trigger] coeffs_below(
                final(r)@,
                n,
            ),
{
    let ghost r0 = r@;
    let mut i: usize = 0;
    proof {
        assert forall|z: spec_fn(int) -> u128| #[trigger] trace_views(r@, z) == trace_views(r0, z)
            + weighed(path_walks(list@, 0), values_at(w@, z)) by {
            assert(trace_views(r@, z) =~= trace_views(r0, z) + weighed(
                path_walks(list@, 0),
                values_at(w@, z),
            ));
        }
    }
    while i < list.len()
        invariant
            i <= list@.len(),
            w@.len() == 4,
            forall|z: spec_fn(int) -> u128| #[trigger]
                trace_views(r@, z) == trace_views(r0, z) + weighed(
                    path_walks(list@, i as nat),
                    values_at(w@, z),
                ),
            forall|n: nat|
                all_below(w@, n) && coeffs_below(r0, n) ==> #[trigger] coeffs_below(r@, n),
        decreases list@.len() - i,
    {
        let ghost mid = r@;
        let ts = path_walk_terms(&list[i].refs, list[i].region);
        let ghost more = shape_views(ts@);
        weigh_exprs(ts, w, r);
        proof {
            assert forall|z: spec_fn(int) -> u128| #[trigger] trace_views(r@, z) == trace_views(
                r0,
                z,
            ) + weighed(path_walks(list@, (i + 1) as nat), values_at(w@, z)) by {
                assert(trace_views(mid, z) == trace_views(r0, z) + weighed(
                    path_walks(list@, i as nat),
                    values_at(w@, z),
                ));
                lemma_weighed_append(path_walks(list@, i as nat), more, values_at(w@, z));
                assert(trace_views(r@, z) =~= trace_views(r0, z) + weighed(
                    path_walks(list@, (i + 1) as nat),
                    values_at(w@, z),
                ));
            }
            assert forall|n: nat| all_below(w@, n) && coeffs_below(r0, n) implies #[trigger] coeffs_below(
                r@,
                n,
            ) by {
                assert(coeffs_below(mid, n));
            }
        }
        i = i + 1;
    }
}

/// The wiring of the first `n` paired updates.
pub open spec fn paired_walks(list: Seq<PairedFamily>, n: nat) -> Seq<ShapeTerm>
    decreases n,
{
    if n == 0 {
        seq![]
    } else {
        paired_walks(list, (n - 1) as nat) + paired_walk_shape(list[n - 1].refs, list[n - 1].region)
    }
}

fn push_paired_walks_values(list: &Vec<PairedFamily>, w: &Vec<F128>, r: &mut Vec<RelationTerm>)
    requires
        w@.len() == 4,
    ensures
        term_views(final(r)@) == term_views(old(r)@) + weighed(
            paired_walks(list@, list@.len()),
            weight_values(w@),
        ),
{
    let ghost head = term_views(r@);
    let mut i: usize = 0;
    assert(term_views(r@) =~= head + weighed(paired_walks(list@, 0), weight_values(w@)));
    while i < list.len()
        invariant
            i <= list@.len(),
            w@.len() == 4,
            term_views(r@) == head + weighed(paired_walks(list@, i as nat), weight_values(w@)),
        decreases list@.len() - i,
    {
        let ts = paired_walk_terms(&list[i].refs, list[i].region);
        proof {
            lemma_weighed_append(
                paired_walks(list@, i as nat),
                shape_views(ts@),
                weight_values(w@),
            );
        }
        weigh_values(ts, w, r);
        assert(term_views(r@) =~= head + weighed(
            paired_walks(list@, (i + 1) as nat),
            weight_values(w@),
        ));
        i = i + 1;
    }
}

fn push_paired_walks_exprs(list: &Vec<PairedFamily>, w: &Vec<LinExpr>, r: &mut Vec<RelationTermTrace>)
    requires
        w@.len() == 4,
    ensures
        forall|z: spec_fn(int) -> u128| #[trigger]
            trace_views(final(r)@, z) == trace_views(old(r)@, z) + weighed(
                paired_walks(list@, list@.len()),
                values_at(w@, z),
            ),
        forall|n: nat|
            all_below(w@, n) && coeffs_below(old(r)@, n) ==> #[trigger] coeffs_below(
                final(r)@,
                n,
            ),
{
    let ghost r0 = r@;
    let mut i: usize = 0;
    proof {
        assert forall|z: spec_fn(int) -> u128| #[trigger] trace_views(r@, z) == trace_views(r0, z)
            + weighed(paired_walks(list@, 0), values_at(w@, z)) by {
            assert(trace_views(r@, z) =~= trace_views(r0, z) + weighed(
                paired_walks(list@, 0),
                values_at(w@, z),
            ));
        }
    }
    while i < list.len()
        invariant
            i <= list@.len(),
            w@.len() == 4,
            forall|z: spec_fn(int) -> u128| #[trigger]
                trace_views(r@, z) == trace_views(r0, z) + weighed(
                    paired_walks(list@, i as nat),
                    values_at(w@, z),
                ),
            forall|n: nat|
                all_below(w@, n) && coeffs_below(r0, n) ==> #[trigger] coeffs_below(r@, n),
        decreases list@.len() - i,
    {
        let ghost mid = r@;
        let ts = paired_walk_terms(&list[i].refs, list[i].region);
        let ghost more = shape_views(ts@);
        weigh_exprs(ts, w, r);
        proof {
            assert forall|z: spec_fn(int) -> u128| #[trigger] trace_views(r@, z) == trace_views(
                r0,
                z,
            ) + weighed(paired_walks(list@, (i + 1) as nat), values_at(w@, z)) by {
                assert(trace_views(mid, z) == trace_views(r0, z) + weighed(
                    paired_walks(list@, i as nat),
                    values_at(w@, z),
                ));
                lemma_weighed_append(paired_walks(list@, i as nat), more, values_at(w@, z));
                assert(trace_views(r@, z) =~= trace_views(r0, z) + weighed(
                    paired_walks(list@, (i + 1) as nat),
                    values_at(w@, z),
                ));
            }
            assert forall|n: nat| all_below(w@, n) && coeffs_below(r0, n) implies #[trigger] coeffs_below(
                r@,
                n,
            ) by {
                assert(coeffs_below(mid, n));
            }
        }
        i = i + 1;
    }
}

impl MerkleFamilies {
    /// What vanishes on every slot, beside the directions of the paths.
    pub open spec fn zero_shape(&self) -> Seq<ShapeTerm> {
        ff_chains(self.ff@, self.ff@.len()) + consistencies(self.paired@, self.paired@.len())
    }

    /// The wiring of the walk.
    pub open spec fn walk_shape(&self) -> Seq<ShapeTerm> {
        ff_walks(self.ff@, self.ff@.len()) + path_walks(self.paths@, self.paths@.len())
            + paired_walks(self.paired@, self.paired@.len())
    }
}

/// The weights of the vanishing relation: the first two powers for the chains,
/// the powers from zero to five for the consistency.
pub open spec fn zero_weights(lambda: u128) -> Seq<u128> {
    seq![
        power(lambda, 1),
        power(lambda, 2),
        power(lambda, 0),
        power(lambda, 1),
        power(lambda, 2),
        power(lambda, 3),
        power(lambda, 4),
        power(lambda, 5),
    ]
}

/// The vanishing relation: the directions of the paths, which the host states,
/// then the chains, then the consistency.
pub fn union_zero_terms(booleanity: Vec<RelationTerm>, f: &MerkleFamilies, lambda: F128) -> (r: Vec<
    RelationTerm,
>)
    ensures
        term_views(r@) == term_views(booleanity@) + weighed(f.zero_shape(), zero_weights(lambda@)),
{
    let ghost head = term_views(booleanity@);
    let l2 = lambda.times(lambda);
    let l3 = l2.times(lambda);
    let l4 = l3.times(lambda);
    let l5 = l4.times(lambda);
    let mut w: Vec<F128> = Vec::new();
    w.push(lambda);
    w.push(l2);
    w.push(F128::one());
    w.push(lambda);
    w.push(l2);
    w.push(l3);
    w.push(l4);
    w.push(l5);
    proof {
        reveal_with_fuel(power, 6);
        lemma_fmul_unit(lambda@);
        assert(weight_values(w@) =~= zero_weights(lambda@));
        lemma_weighed_append(
            ff_chains(f.ff@, f.ff@.len()),
            consistencies(f.paired@, f.paired@.len()),
            weight_values(w@),
        );
    }
    let mut r = booleanity;
    push_ff_chains_values(&f.ff, &w, &mut r);
    push_consistencies_values(&f.paired, &w, &mut r);
    assert(term_views(r@) =~= head + weighed(f.zero_shape(), zero_weights(lambda@)));
    r
}

/// The wiring of the walk under a challenge.
pub fn union_sub_terms_native(mds: &MdsTable, f: &MerkleFamilies, alpha: F128) -> (r: Vec<
    RelationTerm,
>)
    ensures
        term_views(r@) == weighed(f.walk_shape(), lane_weights(*mds, alpha@)),
{
    let m = duplex_mds_weights(mds, alpha);
    assert(weight_values(m@).len() == STATE_SIZE);
    let ghost w = weight_values(m@);
    let mut r: Vec<RelationTerm> = Vec::new();
    assert(term_views(r@) =~= seq![]);
    push_ff_walks_values(&f.ff, &m, &mut r);
    push_path_walks_values(&f.paths, &m, &mut r);
    push_paired_walks_values(&f.paired, &m, &mut r);
    proof {
        let x = ff_walks(f.ff@, f.ff@.len());
        let y = path_walks(f.paths@, f.paths@.len());
        let z = paired_walks(f.paired@, f.paired@.len());
        lemma_weighed_append(x, y, w);
        lemma_weighed_append(x + y, z, w);
        assert(term_views(r@) =~= weighed(f.walk_shape(), w));
    }
    r
}

/// The wiring of the walk as rows, with the powers of the challenge.
pub fn union_sub_terms_trace(
    b: &mut FieldR1csBuilder,
    mds: &MdsTable,
    f: &MerkleFamilies,
    alpha: &LinExpr,
) -> (r: (Vec<RelationTermTrace>, Vec<LinExpr>))
    requires
        old(b).wf(),
        alpha.bound() <= old(b).wires(),
    ensures
        refines(*final(b), *old(b)),
        final(b).honest() <==> old(b).honest(),
        coeffs_below(r.0@, final(b).wires()),
        r.1@.len() == STATE_SIZE,
        all_below(r.1@, final(b).wires()),
        forall|z: spec_fn(int) -> u128| #[trigger]
            final(b).holds(z) ==> trace_views(r.0@, z) == weighed(
                f.walk_shape(),
                lane_weights(*mds, alpha.at(z)),
            ) && forall|k: int|
                0 <= k < STATE_SIZE ==> #[trigger] r.1@[k].at(z) == power(
                    alpha.at(z),
                    (k + 1) as nat,
                ),
        trace_views(r.0@, final(b).witness()) == weighed(
            f.walk_shape(),
            lane_weights(*mds, alpha.at(old(b).witness())),
        ),
        powers_step(old(b).shape(), alpha@, 4) == (final(b).shape(), forms(r.1@)),
{
    let (m, ap) = mds_alpha_weights(b, mds, alpha);
    let mut r: Vec<RelationTermTrace> = Vec::new();
    assert(coeffs_below(r@, b.wires()));
    push_ff_walks_exprs(&f.ff, &m, &mut r);
    let ghost r1 = r@;
    push_path_walks_exprs(&f.paths, &m, &mut r);
    let ghost r2 = r@;
    push_paired_walks_exprs(&f.paired, &m, &mut r);
    proof {
        assert forall|z: spec_fn(int) -> u128| #[trigger] trace_views(r@, z) == weighed(
            f.walk_shape(),
            values_at(m@, z),
        ) by {
            let x = ff_walks(f.ff@, f.ff@.len());
            let y = path_walks(f.paths@, f.paths@.len());
            let t = paired_walks(f.paired@, f.paired@.len());
            let w = values_at(m@, z);
            lemma_weighed_append(x, y, w);
            lemma_weighed_append(x + y, t, w);
            assert(trace_views(r1, z) =~= weighed(x, w));
            assert(trace_views(r2, z) =~= weighed(x, w) + weighed(y, w));
            assert(trace_views(r@, z) =~= weighed(f.walk_shape(), w));
        }
        assert(trace_views(r@, b.witness()) == weighed(
            f.walk_shape(),
            values_at(m@, b.witness()),
        ));
        assert(coeffs_below(r1, b.wires()));
        assert(coeffs_below(r2, b.wires()));
    }
    (r, ap)
}

/// The rows of the powers of a form from one on, up to `n` of them.
#[verifier::opaque]
pub open spec fn ones_powers_step(s: Shape, lambda: LinForm, n: nat) -> (Shape, Seq<LinForm>)
    decreases n,
{
    if n <= 1 {
        (s, Seq::empty().push(const_form(1)))
    } else {
        let (t, powers) = ones_powers_step(s, lambda, (n - 1) as nat);
        let (u, next) = mul_step(t, powers.last(), lambda);
        (u, powers.push(next))
    }
}

/// The rows of the weights of the zero relations, and the weights.
#[verifier::opaque]
pub open spec fn zero_weights_step(s: Shape, lambda: LinForm) -> (Shape, Seq<LinForm>) {
    let (t, square) = mul_step(s, lambda, lambda);
    let (u, powers) = ones_powers_step(t, lambda, 6);
    (u, Seq::empty().push(lambda).push(square) + powers)
}

/// The weights of the vanishing relation as rows.
fn zero_weights_trace(b: &mut FieldR1csBuilder, lambda: &LinExpr) -> (w: Vec<LinExpr>)
    requires
        old(b).wf(),
        lambda.bound() <= old(b).wires(),
    ensures
        refines(*final(b), *old(b)),
        final(b).honest() <==> old(b).honest(),
        w@.len() == 8,
        all_below(w@, final(b).wires()),
        forall|z: spec_fn(int) -> u128| #[trigger]
            final(b).holds(z) ==> values_at(w@, z) == zero_weights(lambda.at(z)),
        values_at(w@, final(b).witness()) == zero_weights(lambda.at(old(b).witness())),
        zero_weights_step(old(b).shape(), lambda@) == (final(b).shape(), forms(w@)),
{
    reveal(ones_powers_step);
    reveal(zero_weights_step);
    assert(forms(Seq::<LinExpr>::empty()) =~= Seq::empty());
    let ghost b0 = *b;
    let ghost v = b0.witness();
    let square = crate::trace::mul(b, lambda, lambda);
    let ghost shape1 = b.shape();
    let mut powers: Vec<LinExpr> = Vec::new();
    powers.push(LinExpr::one());
    let mut k: usize = 1;
    proof {
        assert forall|z: spec_fn(int) -> u128| #[trigger] powers@[0].at(z) == power(
            lambda.at(z),
            0,
        ) by {}
        assert(lambda@.at(b.witness()) == lambda@.at(v));
    }
    let ghost b1 = *b;
    while k < 6
        invariant
            1 <= k <= 6,
            b0.wf(),
            b1.wf(),
            v == b0.witness(),
            lambda.bound() <= b0.wires(),
            refines(b1, b0),
            refines(*b, b1),
            b.honest() <==> b0.honest(),
            powers@.len() == k,
            all_below(powers@, b.wires()),
            forall|z: spec_fn(int) -> u128, i: int|
                b.holds(z) && 0 <= i < k ==> #[trigger] powers@[i].at(z) == power(
                    lambda.at(z),
                    i as nat,
                ),
            forall|i: int|
                0 <= i < k ==> #[trigger] powers@[i].at(b.witness()) == power(
                    lambda.at(v),
                    i as nat,
                ),
            ones_powers_step(shape1, lambda@, k as nat) == (b.shape(), forms(powers@)),
        decreases 6 - k,
    {
        reveal(ones_powers_step);
        let ghost mid = *b;
        let ghost powers0 = powers@;
        assert(powers@[k - 1].bound() <= b.wires());
        assert(lambda@.at(mid.witness()) == lambda@.at(v));
        assert(powers@[k - 1].at(mid.witness()) == power(lambda.at(v), (k - 1) as nat));
        let next = crate::trace::mul(b, &powers[k - 1], lambda);
        powers.push(next);
        proof {
            assert forall|z: spec_fn(int) -> u128, i: int| b.holds(z) && 0 <= i < k + 1 implies #[trigger] powers@[i].at(
                z,
            ) == power(lambda.at(z), i as nat) by {
                assert(mid.holds(z));
                assert(powers0[k - 1].at(z) == power(lambda.at(z), (k - 1) as nat));
                if i < k {
                    assert(powers@[i] == powers0[i]);
                }
            }
            assert forall|i: int| 0 <= i < k + 1 implies #[trigger] powers@[i].at(b.witness())
                == power(lambda.at(v), i as nat) by {
                if i < k {
                    assert(powers@[i] == powers0[i]);
                    assert(powers0[i].bound() <= mid.wires());
                    assert(powers0[i]@.at(b.witness()) == powers0[i]@.at(mid.witness()));
                    assert(powers0[i].at(mid.witness()) == power(lambda.at(v), i as nat));
                }
            }
        }
        k = k + 1;
    }
    let mut w: Vec<LinExpr> = Vec::new();
    w.push(lambda.clone());
    w.push(square);
    let ghost power_forms = forms(powers@);
    let ghost first = forms(w@);
    w.append(&mut powers);
    assert(forms(w@) =~= first + power_forms);
    proof {
        assert forall|z: spec_fn(int) -> u128| #[trigger] b.holds(z) implies values_at(w@, z)
            == zero_weights(lambda.at(z)) by {
            assert(b1.holds(z));
            let l = lambda.at(z);
            assert(power(l, 0) == 1);
            lemma_fmul_unit(l);
            assert(power(l, 1) == l);
            assert(power(l, 2) == fmul(l, l));
            assert forall|i: int| 0 <= i < 8 implies values_at(w@, z)[i] == zero_weights(l)[i] by {
                if i >= 2 {
                    assert(w@[i].at(z) == power(l, (i - 2) as nat));
                }
            }
            assert(values_at(w@, z) =~= zero_weights(l));
        }
        let l = lambda.at(v);
        assert(power(l, 0) == 1);
        lemma_fmul_unit(l);
        assert(power(l, 1) == l);
        assert(power(l, 2) == fmul(l, l));
        assert(square@.at(b.witness()) == square@.at(b1.witness()));
        assert(lambda@.at(b.witness()) == lambda@.at(v));
        assert forall|i: int| 0 <= i < 8 implies values_at(w@, b.witness())[i] == zero_weights(
            l,
        )[i] by {
            if i >= 2 {
                assert(w@[i].at(b.witness()) == power(l, (i - 2) as nat));
            }
        }
        assert(values_at(w@, b.witness()) =~= zero_weights(l));
        assert forall|i: int| 0 <= i < w@.len() implies (#[trigger] w@[i]).bound()
            <= b.wires() by {}
    }
    w
}

/// Fixed terms as terms whose coefficients are constant expressions.
fn constant_terms(terms: &Vec<RelationTerm>) -> (r: Vec<RelationTermTrace>)
    ensures
        coeffs_below(r@, 0),
        forall|z: spec_fn(int) -> u128| #[trigger] trace_views(r@, z) == term_views(terms@),
{
    let mut r: Vec<RelationTermTrace> = Vec::new();
    let mut i: usize = 0;
    while i < terms.len()
        invariant
            i <= terms@.len(),
            r@.len() == i,
            coeffs_below(r@, 0),
            forall|k: int, z: spec_fn(int) -> u128|
                0 <= k < i ==> #[trigger] r@[k].at(z) == terms@[k].view(),
        decreases terms@.len() - i,
    {
        let ghost r0 = r@;
        let factors = copy_cells(&terms[i].factors);
        r.push(RelationTermTrace { coeff: LinExpr::constant(terms[i].coeff), factors });
        proof {
            assert forall|k: int, z: spec_fn(int) -> u128| 0 <= k < i + 1 implies #[trigger] r@[k].at(
                z,
            ) == terms@[k].view() by {
                if k < i {
                    assert(r@[k] == r0[k]);
                }
            }
        }
        i = i + 1;
    }
    proof {
        assert forall|z: spec_fn(int) -> u128| #[trigger] trace_views(r@, z) == term_views(
            terms@,
        ) by {
            assert(trace_views(r@, z) =~= term_views(terms@));
        }
    }
    r
}

/// The vanishing relation as rows.
pub fn union_zero_terms_trace(
    b: &mut FieldR1csBuilder,
    booleanity: &Vec<RelationTerm>,
    f: &MerkleFamilies,
    lambda: &LinExpr,
) -> (r: Vec<RelationTermTrace>)
    requires
        old(b).wf(),
        lambda.bound() <= old(b).wires(),
    ensures
        refines(*final(b), *old(b)),
        final(b).honest() <==> old(b).honest(),
        coeffs_below(r@, final(b).wires()),
        forall|z: spec_fn(int) -> u128| #[trigger]
            final(b).holds(z) ==> trace_views(r@, z) == term_views(booleanity@) + weighed(
                f.zero_shape(),
                zero_weights(lambda.at(z)),
            ),
        trace_views(r@, final(b).witness()) == term_views(booleanity@) + weighed(
            f.zero_shape(),
            zero_weights(lambda.at(old(b).witness())),
        ),
        final(b).shape() == zero_weights_step(old(b).shape(), lambda@).0,
{
    let mut r = constant_terms(booleanity);
    let ghost r0 = r@;
    let w = zero_weights_trace(b, lambda);
    assert(coeffs_below(r@, b.wires()));
    push_ff_chains_exprs(&f.ff, &w, &mut r);
    let ghost r1 = r@;
    push_consistencies_exprs(&f.paired, &w, &mut r);
    proof {
        assert(coeffs_below(r1, b.wires()));
        assert forall|z: spec_fn(int) -> u128| #[trigger] trace_views(r@, z) == term_views(
            booleanity@,
        ) + weighed(f.zero_shape(), values_at(w@, z)) by {
            let x = ff_chains(f.ff@, f.ff@.len());
            let y = consistencies(f.paired@, f.paired@.len());
            let v = values_at(w@, z);
            assert(trace_views(r0, z) == term_views(booleanity@));
            assert(trace_views(r1, z) == trace_views(r0, z) + weighed(x, v));
            lemma_weighed_append(x, y, v);
            assert(trace_views(r@, z) =~= term_views(booleanity@) + weighed(f.zero_shape(), v));
        }
        assert(trace_views(r@, b.witness()) == term_views(booleanity@) + weighed(
            f.zero_shape(),
            values_at(w@, b.witness()),
        ));
    }
    r
}

// ---------------------------------------------------------------------------
// What the wirings say.
// ---------------------------------------------------------------------------
/// The sum of the products of the first `n` terms, without weights.
pub open spec fn cell_sum(ts: Seq<ShapeTerm>, cell: spec_fn(ColRef) -> u128, n: nat) -> u128
    decreases n,
{
    if n == 0 {
        0
    } else {
        cell_sum(ts, cell, (n - 1) as nat) ^ cells_at(
            ts[n - 1].factors,
            cell,
            ts[n - 1].factors.len(),
        )
    }
}

/// Terms of one weight are that weight times the sum of their products.
proof fn lemma_run(
    ts: Seq<ShapeTerm>,
    w: Seq<u128>,
    k: int,
    cell: spec_fn(ColRef) -> u128,
    n: nat,
)
    requires
        n <= ts.len(),
        forall|i: int| 0 <= i < ts.len() ==> (#[trigger] ts[i]).weight == k,
    ensures
        sum_at(weighed(ts, w).take(n as int), cell) == fmul(w[k], cell_sum(ts, cell, n)),
    decreases n,
{
    if n == 0 {
        lemma_fmul_unit(w[k]);
    } else {
        let m = (n - 1) as nat;
        lemma_run(ts, w, k, cell, m);
        let all = weighed(ts, w);
        assert(all.take(n as int).drop_last() =~= all.take(m as int));
        assert(all.take(n as int).last() == all[m as int]);
        assert(ts[m as int].weight == k);
        let p = cells_at(ts[m as int].factors, cell, ts[m as int].factors.len());
        lemma_fmul_distrib(cell_sum(ts, cell, m), p, w[k]);
    }
}

/// A product of two or of three cells.
pub(crate) proof fn lemma_cells(factors: Seq<ColRef>, cell: spec_fn(ColRef) -> u128)
    ensures
        factors.len() == 1 ==> cells_at(factors, cell, 1) == cell(factors[0]),
        factors.len() == 2 ==> cells_at(factors, cell, 2) == fmul(
            cell(factors[0]),
            cell(factors[1]),
        ),
        factors.len() == 3 ==> cells_at(factors, cell, 3) == fmul(
            fmul(cell(factors[0]), cell(factors[1])),
            cell(factors[2]),
        ),
{
    reveal_with_fuel(cells_at, 4);
    if factors.len() > 0 {
        lemma_fmul_unit(cell(factors[0]));
    }
}

/// The digest that the slot before feeds forward in a lane.
pub open spec fn fed_forward(refs: FfMerkleFamilyRefs, i: int, cell: spec_fn(ColRef) -> u128) -> u128 {
    let carried = cell(ColRef::CommittedShift(refs.cr[i]));
    let sibling = cell(ColRef::CommittedShift(refs.sib[i]));
    (cell(ColRef::CommittedShift(refs.c[i])) ^ carried) ^ fmul(
        cell(ColRef::CommittedShift(refs.d)),
        carried ^ sibling,
    )
}

/// The chain relation of a feed-forward family vanishes, lane by lane, exactly
/// where a chained slot carries what the slot before feeds forward: it is the
/// sum of the two differences, each under its power of the challenge and the
/// pattern of chained slots.
pub proof fn lemma_ff_chain(
    refs: FfMerkleFamilyRefs,
    w: Seq<u128>,
    cell: spec_fn(ColRef) -> u128,
)
    requires
        w.len() == 8,
    ensures
        sum_at(weighed(ff_chain_shape(refs), w), cell) == fmul(
            w[0],
            fmul(
                cell(ColRef::Fixed(refs.nodens)),
                cell(ColRef::Committed(refs.cr[0])) ^ fed_forward(refs, 0, cell),
            ),
        ) ^ fmul(
            w[1],
            fmul(
                cell(ColRef::Fixed(refs.nodens)),
                cell(ColRef::Committed(refs.cr[1])) ^ fed_forward(refs, 1, cell),
            ),
        ),
{
    let all = ff_chain_shape(refs);
    let first = all.subrange(0, 5);
    let second = all.subrange(5, 10);
    assert(all =~= first + second);
    lemma_weighed_append(first, second, w);
    lemma_sum_append(weighed(first, w), weighed(second, w), cell);
    lemma_run(first, w, 0, cell, 5);
    lemma_run(second, w, 1, cell, 5);
    assert(weighed(first, w).take(5) =~= weighed(first, w));
    assert(weighed(second, w).take(5) =~= weighed(second, w));
    lemma_ff_lane(refs, first, 0, cell);
    lemma_ff_lane(refs, second, 1, cell);
}

proof fn lemma_ff_lane(
    refs: FfMerkleFamilyRefs,
    ts: Seq<ShapeTerm>,
    i: int,
    cell: spec_fn(ColRef) -> u128,
)
    requires
        0 <= i < 2,
        ts.len() == 5,
        ts[0].factors == seq![ColRef::Fixed(refs.nodens), ColRef::Committed(refs.cr[i])],
        ts[1].factors == seq![ColRef::Fixed(refs.nodens), ColRef::CommittedShift(refs.c[i])],
        ts[2].factors == seq![ColRef::Fixed(refs.nodens), ColRef::CommittedShift(refs.cr[i])],
        ts[3].factors == seq![
            ColRef::Fixed(refs.nodens),
            ColRef::CommittedShift(refs.d),
            ColRef::CommittedShift(refs.cr[i]),
        ],
        ts[4].factors == seq![
            ColRef::Fixed(refs.nodens),
            ColRef::CommittedShift(refs.d),
            ColRef::CommittedShift(refs.sib[i]),
        ],
    ensures
        cell_sum(ts, cell, 5) == fmul(
            cell(ColRef::Fixed(refs.nodens)),
            cell(ColRef::Committed(refs.cr[i])) ^ fed_forward(refs, i, cell),
        ),
{
    let n = cell(ColRef::Fixed(refs.nodens));
    let x = cell(ColRef::Committed(refs.cr[i]));
    let c = cell(ColRef::CommittedShift(refs.c[i]));
    let y = cell(ColRef::CommittedShift(refs.cr[i]));
    let d = cell(ColRef::CommittedShift(refs.d));
    let s = cell(ColRef::CommittedShift(refs.sib[i]));
    reveal_with_fuel(cell_sum, 6);
    assert forall|k: int| 0 <= k < 5 implies cells_at(
        #[trigger] ts[k].factors,
        cell,
        ts[k].factors.len(),
    ) == (if k == 0 {
        fmul(n, x)
    } else if k == 1 {
        fmul(n, c)
    } else if k == 2 {
        fmul(n, y)
    } else if k == 3 {
        fmul(fmul(n, d), y)
    } else {
        fmul(fmul(n, d), s)
    }) by {
        lemma_cells(ts[k].factors, cell);
    }
    crate::field::lemma_fmul_assoc(n, d, y);
    crate::field::lemma_fmul_assoc(n, d, s);
    lemma_fmul_distrib(y, s, d);
    lemma_fmul_distrib(fmul(d, y), fmul(d, s), n);
    lemma_fmul_distrib(c, y, n);
    lemma_fmul_distrib(c ^ y, fmul(d, y ^ s), n);
    lemma_fmul_distrib(x, (c ^ y) ^ fmul(d, y ^ s), n);
    let (a0, a1, a2, a3, a4) = (
        fmul(n, x),
        fmul(n, c),
        fmul(n, y),
        fmul(n, fmul(d, y)),
        fmul(n, fmul(d, s)),
    );
    lemma_xor(a0, a1, a2);
    lemma_xor(a0, a1 ^ a2, a3);
    lemma_xor(a0 ^ (a1 ^ a2), a3, a4);
    lemma_xor(a0, a1 ^ a2, a3 ^ a4);
    lemma_xor(0, a0, 0);
    lemma_xor(a0, 0, 0);
}

/// Two terms of one weight whose first cell they share.
proof fn lemma_equation(
    ts: Seq<ShapeTerm>,
    w: Seq<u128>,
    k: int,
    gate: ColRef,
    left: u128,
    right: u128,
    cell: spec_fn(ColRef) -> u128,
)
    requires
        ts.len() == 2,
        ts[0].weight == k && ts[1].weight == k,
        cells_at(ts[0].factors, cell, ts[0].factors.len()) == fmul(cell(gate), left),
        cells_at(ts[1].factors, cell, ts[1].factors.len()) == fmul(cell(gate), right),
    ensures
        sum_at(weighed(ts, w), cell) == fmul(w[k], fmul(cell(gate), left ^ right)),
{
    lemma_run(ts, w, k, cell, 2);
    assert(weighed(ts, w).take(2) =~= weighed(ts, w));
    reveal_with_fuel(cell_sum, 3);
    lemma_fmul_distrib(left, right, cell(gate));
    lemma_xor(0, fmul(cell(gate), left), 0);
    lemma_xor(fmul(cell(gate), left), 0, 0);
}

/// Equation `k` of the consistency of a paired update: what its two sides
/// differ by, under the pattern of the slots that it is about.
pub open spec fn paired_equation(
    refs: PairedMerkleUpdateRefs,
    k: int,
    cell: spec_fn(ColRef) -> u128,
) -> u128 {
    let d = cell(ColRef::Committed(refs.d));
    if k == 0 {
        fmul(cell(ColRef::Fixed(refs.old_even)), fmul(d, d) ^ d)
    } else if k <= 2 {
        fmul(
            cell(ColRef::Fixed(refs.bridge)),
            cell(ColRef::Committed(refs.e[k - 1])) ^ cell(
                ColRef::CommittedShift2(refs.c[k - 1]),
            ),
        )
    } else if k <= 4 {
        fmul(
            cell(ColRef::Fixed(refs.copy_step)),
            cell(ColRef::Committed(refs.sib[k - 3])) ^ cell(
                ColRef::CommittedShift(refs.sib[k - 3]),
            ),
        )
    } else {
        fmul(
            cell(ColRef::Fixed(refs.copy_step)),
            d ^ cell(ColRef::CommittedShift(refs.d)),
        )
    }
}

/// The consistency of a paired update is the sum of its six equations, each
/// under its power of the challenge: its directions are bits, its bridges carry
/// the digests two slots back, its siblings and directions are copies.
pub proof fn lemma_paired_consistency(
    refs: PairedMerkleUpdateRefs,
    w: Seq<u128>,
    cell: spec_fn(ColRef) -> u128,
)
    requires
        w.len() == 8,
    ensures
        sum_at(weighed(paired_consistency_shape(refs), w), cell) == ((((fmul(
            w[2],
            paired_equation(refs, 0, cell),
        ) ^ fmul(w[3], paired_equation(refs, 1, cell))) ^ fmul(
            w[4],
            paired_equation(refs, 2, cell),
        )) ^ fmul(w[5], paired_equation(refs, 3, cell))) ^ fmul(
            w[6],
            paired_equation(refs, 4, cell),
        )) ^ fmul(w[7], paired_equation(refs, 5, cell)),
{
    let all = paired_consistency_shape(refs);
    let d = cell(ColRef::Committed(refs.d));
    assert forall|k: int| 0 <= k < 6 implies sum_at(
        weighed(#[trigger] all.subrange(2 * k, 2 * k + 2), w),
        cell,
    ) == fmul(w[2 + k], paired_equation(refs, k, cell)) by {
        let ts = all.subrange(2 * k, 2 * k + 2);
        lemma_cells(ts[0].factors, cell);
        lemma_cells(ts[1].factors, cell);
        if k == 0 {
            crate::field::lemma_fmul_assoc(cell(ColRef::Fixed(refs.old_even)), d, d);
            lemma_equation(ts, w, 2, ColRef::Fixed(refs.old_even), fmul(d, d), d, cell);
        } else if k <= 2 {
            lemma_equation(
                ts,
                w,
                2 + k,
                ColRef::Fixed(refs.bridge),
                cell(ColRef::Committed(refs.e[k - 1])),
                cell(ColRef::CommittedShift2(refs.c[k - 1])),
                cell,
            );
        } else if k <= 4 {
            lemma_equation(
                ts,
                w,
                2 + k,
                ColRef::Fixed(refs.copy_step),
                cell(ColRef::Committed(refs.sib[k - 3])),
                cell(ColRef::CommittedShift(refs.sib[k - 3])),
                cell,
            );
        } else {
            lemma_equation(
                ts,
                w,
                7,
                ColRef::Fixed(refs.copy_step),
                d,
                cell(ColRef::CommittedShift(refs.d)),
                cell,
            );
        }
    }
    lemma_split(all, w, 2, cell);
    lemma_split(all, w, 4, cell);
    lemma_split(all, w, 6, cell);
    lemma_split(all, w, 8, cell);
    lemma_split(all, w, 10, cell);
    assert(all.subrange(0, 12) =~= all);
    let (k0, k1, k2, k3, k4, k5) = (0int, 1int, 2int, 3int, 4int, 5int);
    assert(sum_at(weighed(all.subrange(2 * k0, 2 * k0 + 2), w), cell) == fmul(
        w[2],
        paired_equation(refs, 0, cell),
    ));
    assert(sum_at(weighed(all.subrange(2 * k1, 2 * k1 + 2), w), cell) == fmul(
        w[3],
        paired_equation(refs, 1, cell),
    ));
    assert(sum_at(weighed(all.subrange(2 * k2, 2 * k2 + 2), w), cell) == fmul(
        w[4],
        paired_equation(refs, 2, cell),
    ));
    assert(sum_at(weighed(all.subrange(2 * k3, 2 * k3 + 2), w), cell) == fmul(
        w[5],
        paired_equation(refs, 3, cell),
    ));
    assert(sum_at(weighed(all.subrange(2 * k4, 2 * k4 + 2), w), cell) == fmul(
        w[6],
        paired_equation(refs, 4, cell),
    ));
    assert(sum_at(weighed(all.subrange(2 * k5, 2 * k5 + 2), w), cell) == fmul(
        w[7],
        paired_equation(refs, 5, cell),
    ));
}

/// A prefix that is two terms longer.
proof fn lemma_split(ts: Seq<ShapeTerm>, w: Seq<u128>, at: int, cell: spec_fn(ColRef) -> u128)
    requires
        0 <= at,
        at + 2 <= ts.len(),
    ensures
        sum_at(weighed(ts.subrange(0, at + 2), w), cell) == sum_at(
            weighed(ts.subrange(0, at), w),
            cell,
        ) ^ sum_at(weighed(ts.subrange(at, at + 2), w), cell),
{
    assert(ts.subrange(0, at + 2) =~= ts.subrange(0, at) + ts.subrange(at, at + 2));
    lemma_weighed_append(ts.subrange(0, at), ts.subrange(at, at + 2), w);
    lemma_sum_append(
        weighed(ts.subrange(0, at), w),
        weighed(ts.subrange(at, at + 2), w),
        cell,
    );
}

/// The child that a node slot of a feed-forward family takes in a lane: the
/// carried digest first where the direction is zero, the sibling first where it
/// is one.
pub open spec fn ff_child(refs: FfMerkleFamilyRefs, j: int, cell: spec_fn(ColRef) -> u128) -> u128 {
    let i = if j < 2 {
        j
    } else {
        j - 2
    };
    let carried = cell(ColRef::Committed(refs.cr[i]));
    let sibling = cell(ColRef::Committed(refs.sib[i]));
    let swap = fmul(cell(ColRef::Committed(refs.d)), carried ^ sibling);
    if j < 2 {
        carried ^ swap
    } else {
        sibling ^ swap
    }
}

/// What the permutation of a slot takes in a lane: the carry inside the region,
/// which a node slot replaces by a child, and the initial capacity.
pub open spec fn ff_input(
    refs: FfMerkleFamilyRefs,
    region: usize,
    j: int,
    cell: spec_fn(ColRef) -> u128,
) -> u128 {
    let carry = cell(ColRef::CommittedShift(refs.c[j]));
    let wired = fmul(cell(ColRef::Fixed(region)), carry) ^ fmul(
        cell(ColRef::Fixed(refs.node)),
        carry ^ ff_child(refs, j, cell),
    );
    if j < 2 {
        wired
    } else {
        wired ^ cell(ColRef::Fixed(refs.iv[j - 2]))
    }
}

pub(crate) proof fn lemma_part(
    ts: Seq<ShapeTerm>,
    w: Seq<u128>,
    from: int,
    to: int,
    k: int,
    cell: spec_fn(ColRef) -> u128,
)
    requires
        0 <= from <= to <= ts.len(),
        forall|i: int| from <= i < to ==> (#[trigger] ts[i]).weight == k,
    ensures
        sum_at(weighed(ts.subrange(0, to), w), cell) == sum_at(
            weighed(ts.subrange(0, from), w),
            cell,
        ) ^ fmul(w[k], cell_sum(ts.subrange(from, to), cell, (to - from) as nat)),
{
    let part = ts.subrange(from, to);
    assert(ts.subrange(0, to) =~= ts.subrange(0, from) + part);
    lemma_weighed_append(ts.subrange(0, from), part, w);
    lemma_sum_append(weighed(ts.subrange(0, from), w), weighed(part, w), cell);
    lemma_run(part, w, k, cell, (to - from) as nat);
    assert(weighed(part, w).take(to - from) =~= weighed(part, w));
}

/// The four terms of a rate lane of a node slot.
proof fn lemma_ff_rate(
    refs: FfMerkleFamilyRefs,
    ts: Seq<ShapeTerm>,
    i: int,
    cell: spec_fn(ColRef) -> u128,
)
    requires
        0 <= i < 2,
        ts.len() == 4,
        ts[0].factors == seq![ColRef::Fixed(refs.node), ColRef::CommittedShift(refs.c[i])],
        ts[1].factors == seq![ColRef::Fixed(refs.node), ColRef::Committed(refs.cr[i])],
        ts[2].factors == seq![
            ColRef::Fixed(refs.node),
            ColRef::Committed(refs.d),
            ColRef::Committed(refs.cr[i]),
        ],
        ts[3].factors == seq![
            ColRef::Fixed(refs.node),
            ColRef::Committed(refs.d),
            ColRef::Committed(refs.sib[i]),
        ],
    ensures
        cell_sum(ts, cell, 4) == fmul(
            cell(ColRef::Fixed(refs.node)),
            cell(ColRef::CommittedShift(refs.c[i])) ^ ff_child(refs, i, cell),
        ),
{
    reveal_with_fuel(cell_sum, 5);
    lemma_cells(ts[0].factors, cell);
    lemma_cells(ts[1].factors, cell);
    lemma_cells(ts[2].factors, cell);
    lemma_cells(ts[3].factors, cell);
    let x = cell(ColRef::Committed(refs.cr[i]));
    lemma_node_sum(
        cell(ColRef::Fixed(refs.node)),
        cell(ColRef::CommittedShift(refs.c[i])),
        x,
        cell(ColRef::Committed(refs.d)),
        x,
        cell(ColRef::Committed(refs.sib[i])),
    );
}

/// The five terms of a capacity lane of a node slot.
proof fn lemma_ff_capacity(
    refs: FfMerkleFamilyRefs,
    ts: Seq<ShapeTerm>,
    i: int,
    cell: spec_fn(ColRef) -> u128,
)
    requires
        0 <= i < 2,
        ts.len() == 5,
        ts[0].factors == seq![ColRef::Fixed(refs.node), ColRef::CommittedShift(refs.c[2 + i])],
        ts[1].factors == seq![ColRef::Fixed(refs.node), ColRef::Committed(refs.sib[i])],
        ts[2].factors == seq![
            ColRef::Fixed(refs.node),
            ColRef::Committed(refs.d),
            ColRef::Committed(refs.cr[i]),
        ],
        ts[3].factors == seq![
            ColRef::Fixed(refs.node),
            ColRef::Committed(refs.d),
            ColRef::Committed(refs.sib[i]),
        ],
        ts[4].factors == seq![ColRef::Fixed(refs.iv[i])],
    ensures
        cell_sum(ts, cell, 5) == fmul(
            cell(ColRef::Fixed(refs.node)),
            cell(ColRef::CommittedShift(refs.c[2 + i])) ^ ff_child(refs, 2 + i, cell),
        ) ^ cell(ColRef::Fixed(refs.iv[i])),
{
    reveal_with_fuel(cell_sum, 6);
    lemma_cells(ts[0].factors, cell);
    lemma_cells(ts[1].factors, cell);
    lemma_cells(ts[2].factors, cell);
    lemma_cells(ts[3].factors, cell);
    lemma_cells(ts[4].factors, cell);
    let s = cell(ColRef::Committed(refs.sib[i]));
    lemma_node_sum(
        cell(ColRef::Fixed(refs.node)),
        cell(ColRef::CommittedShift(refs.c[2 + i])),
        s,
        cell(ColRef::Committed(refs.d)),
        cell(ColRef::Committed(refs.cr[i])),
        s,
    );
}

proof fn lemma_node_sum(n: u128, c: u128, own: u128, d: u128, x: u128, s: u128)
    ensures
        (((0 ^ fmul(n, c)) ^ fmul(n, own)) ^ fmul(fmul(n, d), x)) ^ fmul(fmul(n, d), s) == fmul(
            n,
            c ^ (own ^ fmul(d, x ^ s)),
        ),
{
    crate::field::lemma_fmul_assoc(n, d, x);
    crate::field::lemma_fmul_assoc(n, d, s);
    lemma_fmul_distrib(x, s, d);
    lemma_fmul_distrib(fmul(d, x), fmul(d, s), n);
    lemma_fmul_distrib(own, fmul(d, x ^ s), n);
    lemma_fmul_distrib(c, own ^ fmul(d, x ^ s), n);
    let (a, o, p, q) = (fmul(n, c), fmul(n, own), fmul(n, fmul(d, x)), fmul(n, fmul(d, s)));
    lemma_xor(0, a, 0);
    lemma_xor(a, 0, 0);
    lemma_xor(a ^ o, p, q);
    lemma_xor(a, o, p ^ q);
}

/// The wiring of a feed-forward family is the sum of what the four lanes take,
/// each under its weight.
pub proof fn lemma_ff_walk(
    refs: FfMerkleFamilyRefs,
    region: usize,
    m: Seq<u128>,
    cell: spec_fn(ColRef) -> u128,
)
    requires
        m.len() == STATE_SIZE,
    ensures
        sum_at(weighed(ff_walk_shape(refs, region), m), cell) == ((fmul(
            m[0],
            ff_input(refs, region, 0, cell),
        ) ^ fmul(m[1], ff_input(refs, region, 1, cell))) ^ fmul(
            m[2],
            ff_input(refs, region, 2, cell),
        )) ^ fmul(m[3], ff_input(refs, region, 3, cell)),
{
    let all = ff_walk_shape(refs, region);
    let g = cell(ColRef::Fixed(region));
    assert forall|j: int| 0 <= j < 4 implies cell_sum(
        #[trigger] all.subrange(j, j + 1),
        cell,
        1,
    ) == fmul(g, cell(ColRef::CommittedShift(refs.c[j]))) by {
        let ts = all.subrange(j, j + 1);
        lemma_cells(ts[0].factors, cell);
        reveal_with_fuel(cell_sum, 2);
        lemma_xor(0, fmul(g, cell(ColRef::CommittedShift(refs.c[j]))), 0);
        lemma_xor(fmul(g, cell(ColRef::CommittedShift(refs.c[j]))), 0, 0);
    }
    let (j0, j1, j2, j3) = (0int, 1int, 2int, 3int);
    let base = |j: int| cell_sum(all.subrange(j, j + 1), cell, 1);
    lemma_part(all, m, 0, 1, 0, cell);
    lemma_part(all, m, 1, 2, 1, cell);
    lemma_part(all, m, 2, 3, 2, cell);
    lemma_part(all, m, 3, 4, 3, cell);
    lemma_part(all, m, 4, 8, 0, cell);
    lemma_part(all, m, 8, 13, 2, cell);
    lemma_part(all, m, 13, 17, 1, cell);
    lemma_part(all, m, 17, 22, 3, cell);
    lemma_ff_rate(refs, all.subrange(4, 8), 0, cell);
    lemma_ff_capacity(refs, all.subrange(8, 13), 0, cell);
    lemma_ff_rate(refs, all.subrange(13, 17), 1, cell);
    lemma_ff_capacity(refs, all.subrange(17, 22), 1, cell);
    assert(all.subrange(0, 22) =~= all);
    assert(weighed(all.subrange(0, 0), m) =~= seq![]);
    assert(base(j0) == fmul(g, cell(ColRef::CommittedShift(refs.c[0]))));
    assert(base(j1) == fmul(g, cell(ColRef::CommittedShift(refs.c[1]))));
    assert(base(j2) == fmul(g, cell(ColRef::CommittedShift(refs.c[2]))));
    assert(base(j3) == fmul(g, cell(ColRef::CommittedShift(refs.c[3]))));
    let p0 = cell_sum(all.subrange(4, 8), cell, 4);
    let p2 = cell_sum(all.subrange(8, 13), cell, 5);
    let p1 = cell_sum(all.subrange(13, 17), cell, 4);
    let p3 = cell_sum(all.subrange(17, 22), cell, 5);
    lemma_fmul_distrib(base(j0), p0, m[0]);
    lemma_fmul_distrib(base(j1), p1, m[1]);
    lemma_fmul_distrib(base(j2), p2, m[2]);
    lemma_fmul_distrib(base(j3), p3, m[3]);
    let n = cell(ColRef::Fixed(refs.node));
    lemma_xor(
        base(j2),
        fmul(n, cell(ColRef::CommittedShift(refs.c[2])) ^ ff_child(refs, 2, cell)),
        cell(ColRef::Fixed(refs.iv[0])),
    );
    lemma_xor(
        base(j3),
        fmul(n, cell(ColRef::CommittedShift(refs.c[3])) ^ ff_child(refs, 3, cell)),
        cell(ColRef::Fixed(refs.iv[1])),
    );
    lemma_eight(
        fmul(m[0], base(j0)),
        fmul(m[1], base(j1)),
        fmul(m[2], base(j2)),
        fmul(m[3], base(j3)),
        fmul(m[0], p0),
        fmul(m[2], p2),
        fmul(m[1], p1),
        fmul(m[3], p3),
    );
}

proof fn lemma_eight(
    a0: u128,
    a1: u128,
    a2: u128,
    a3: u128,
    q0: u128,
    q2: u128,
    q1: u128,
    q3: u128,
)
    ensures
        (((((((0 ^ a0) ^ a1) ^ a2) ^ a3) ^ q0) ^ q2) ^ q1) ^ q3 == (((a0 ^ q0) ^ (a1 ^ q1)) ^ (a2
            ^ q2)) ^ (a3 ^ q3),
{
    assert((((((((0 ^ a0) ^ a1) ^ a2) ^ a3) ^ q0) ^ q2) ^ q1) ^ q3 == (((a0 ^ q0) ^ (a1 ^ q1)) ^ (
    a2 ^ q2)) ^ (a3 ^ q3)) by (bit_vector);
}

} // verus!
