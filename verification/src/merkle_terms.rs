//! The relations of the Merkle walk.
//!
//! The terms of a family are the host's. Here they are gated by the region of
//! the family and brought into the order of the transcript.
use crate::field::{fmul, lemma_fmul_assoc, lemma_fmul_comm, lemma_fmul_unit, F128};
use crate::meta_region::STATE_SIZE;
use crate::relation_terms::{
    cells_at, gated_cell, lanes_ok, shifted, term_at, term_views, weigh, weight_values, weighted,
    ColRef, LaneTerm, RelationTerm, TermView,
};
use crate::union_terms::append_terms;
use vstd::prelude::*;

verus! {

/// The columns and patterns of a feed-forward Merkle family.
#[derive(Clone, Copy, Debug)]
pub struct FfMerkleFamilyRefs {
    pub cr: [usize; 2],
    pub sib: [usize; 2],
    pub d: usize,
    pub c: [usize; 4],
    pub node: usize,
    pub nodens: usize,
    pub start: usize,
    pub iv: [usize; 2],
}

/// The columns and patterns of a Merkle family of two permutations a node.
#[derive(Clone, Copy, Debug)]
pub struct MerkleFamilyRefs {
    pub e: [usize; 2],
    pub sib: [usize; 2],
    pub d: usize,
    pub c: [usize; 4],
    pub even: usize,
    pub evenns: usize,
    pub evenstart: usize,
    pub odd: usize,
    pub oddns: usize,
    pub oddstart: usize,
    pub iv: [usize; 2],
}

/// A family of the shared nine-column Merkle table `C0..C3, E0, E1, SIB0,
/// SIB1, D`. Only the patterns vary. A paired update names its eleven
/// patterns by the first.
#[derive(Clone, Copy, Debug)]
pub enum MerkleProtocolFamily {
    FeedForward { refs: FfMerkleFamilyRefs, region: usize },
    TwoPermutation { refs: MerkleFamilyRefs, region: usize },
    PairedUpdate { fixed: usize, region: usize },
}

/// The kinds of family, in the order in which the transcript reads them where
/// the relation is that of the walk.
#[derive(Clone, Copy, Debug, PartialEq, Eq, Structural)]
pub enum FamilyKind {
    FeedForward,
    TwoPermutation,
    PairedUpdate,
}

impl MerkleProtocolFamily {
    pub open spec fn kind_of(self) -> FamilyKind {
        match self {
            MerkleProtocolFamily::FeedForward { .. } => FamilyKind::FeedForward,
            MerkleProtocolFamily::TwoPermutation { .. } => FamilyKind::TwoPermutation,
            MerkleProtocolFamily::PairedUpdate { .. } => FamilyKind::PairedUpdate,
        }
    }

    pub open spec fn region_of(self) -> usize {
        match self {
            MerkleProtocolFamily::FeedForward { region, .. } => region,
            MerkleProtocolFamily::TwoPermutation { region, .. } => region,
            MerkleProtocolFamily::PairedUpdate { region, .. } => region,
        }
    }

    pub fn kind(&self) -> (r: FamilyKind)
        ensures
            r == self.kind_of(),
    {
        match self {
            MerkleProtocolFamily::FeedForward { .. } => FamilyKind::FeedForward,
            MerkleProtocolFamily::TwoPermutation { .. } => FamilyKind::TwoPermutation,
            MerkleProtocolFamily::PairedUpdate { .. } => FamilyKind::PairedUpdate,
        }
    }

    pub fn region(&self) -> (r: usize)
        ensures
            r == self.region_of(),
    {
        match self {
            MerkleProtocolFamily::FeedForward { region, .. } => *region,
            MerkleProtocolFamily::TwoPermutation { region, .. } => *region,
            MerkleProtocolFamily::PairedUpdate { region, .. } => *region,
        }
    }

    /// A feed-forward family whose six patterns start at `fixed_base`.
    pub fn feed_forward(fixed_base: usize) -> (r: MerkleProtocolFamily)
        requires
            fixed_base + 5 <= usize::MAX,
        ensures
            r.kind_of() == FamilyKind::FeedForward,
            r.region_of() == fixed_base + 5,
            r matches MerkleProtocolFamily::FeedForward { refs, .. } ==> {
                &&& refs.cr@ == seq![4usize, 5]
                &&& refs.sib@ == seq![6usize, 7]
                &&& refs.d == 8
                &&& refs.c@ == seq![0usize, 1, 2, 3]
                &&& refs.node == fixed_base
                &&& refs.nodens == fixed_base + 1
                &&& refs.start == fixed_base + 2
                &&& refs.iv@ == seq![(fixed_base + 3) as usize, (fixed_base + 4) as usize]
            },
    {
        let refs = FfMerkleFamilyRefs {
            cr: [4, 5],
            sib: [6, 7],
            d: 8,
            c: [0, 1, 2, 3],
            node: fixed_base,
            nodens: fixed_base + 1,
            start: fixed_base + 2,
            iv: [fixed_base + 3, fixed_base + 4],
        };
        proof {
            assert(refs.cr@ =~= seq![4usize, 5]);
            assert(refs.sib@ =~= seq![6usize, 7]);
            assert(refs.c@ =~= seq![0usize, 1, 2, 3]);
            assert(refs.iv@ =~= seq![(fixed_base + 3) as usize, (fixed_base + 4) as usize]);
        }
        MerkleProtocolFamily::FeedForward { refs, region: fixed_base + 5 }
    }

    /// A family of two permutations a node whose nine patterns start at
    /// `fixed_base`.
    pub fn two_permutation(fixed_base: usize) -> (r: MerkleProtocolFamily)
        requires
            fixed_base + 8 <= usize::MAX,
        ensures
            r.kind_of() == FamilyKind::TwoPermutation,
            r.region_of() == fixed_base + 8,
            r matches MerkleProtocolFamily::TwoPermutation { refs, .. } ==> {
                &&& refs.e@ == seq![4usize, 5]
                &&& refs.sib@ == seq![6usize, 7]
                &&& refs.d == 8
                &&& refs.c@ == seq![0usize, 1, 2, 3]
                &&& refs.even == fixed_base
                &&& refs.evenns == fixed_base + 1
                &&& refs.evenstart == fixed_base + 2
                &&& refs.odd == fixed_base + 3
                &&& refs.oddns == fixed_base + 4
                &&& refs.oddstart == fixed_base + 5
                &&& refs.iv@ == seq![(fixed_base + 6) as usize, (fixed_base + 7) as usize]
            },
    {
        let refs = MerkleFamilyRefs {
            e: [4, 5],
            sib: [6, 7],
            d: 8,
            c: [0, 1, 2, 3],
            even: fixed_base,
            evenns: fixed_base + 1,
            evenstart: fixed_base + 2,
            odd: fixed_base + 3,
            oddns: fixed_base + 4,
            oddstart: fixed_base + 5,
            iv: [fixed_base + 6, fixed_base + 7],
        };
        proof {
            assert(refs.e@ =~= seq![4usize, 5]);
            assert(refs.sib@ =~= seq![6usize, 7]);
            assert(refs.c@ =~= seq![0usize, 1, 2, 3]);
            assert(refs.iv@ =~= seq![(fixed_base + 6) as usize, (fixed_base + 7) as usize]);
        }
        MerkleProtocolFamily::TwoPermutation { refs, region: fixed_base + 8 }
    }

    /// A paired update whose twelve patterns start at `fixed_base`.
    pub fn paired_update(fixed_base: usize) -> (r: MerkleProtocolFamily)
        requires
            fixed_base + 11 <= usize::MAX,
        ensures
            r.kind_of() == FamilyKind::PairedUpdate,
            r.region_of() == fixed_base + 11,
            r matches MerkleProtocolFamily::PairedUpdate { fixed, .. } ==> fixed == fixed_base,
    {
        MerkleProtocolFamily::PairedUpdate { fixed: fixed_base, region: fixed_base + 11 }
    }
}

/// A term reads a fixed pattern.
pub open spec fn reads_fixed(factors: Seq<ColRef>) -> bool {
    exists|i: int| 0 <= i < factors.len() && #[trigger] factors[i] is Fixed
}

/// A term with the pattern of a region in front, unless it has one of its own.
pub open spec fn gate_view(t: TermView, region: usize) -> TermView {
    if reads_fixed(t.factors) {
        t
    } else {
        TermView { coeff: t.coeff, factors: seq![ColRef::Fixed(region)] + t.factors }
    }
}

pub open spec fn gate_views(ts: Seq<TermView>, region: usize) -> Seq<TermView> {
    Seq::new(ts.len(), |i: int| gate_view(ts[i], region))
}

/// A gated term is the term times its region, or the term itself where it has
/// a gate.
pub proof fn lemma_gate_value(t: TermView, region: usize, cell: spec_fn(ColRef) -> u128)
    ensures
        term_at(gate_view(t, region), cell) == if reads_fixed(t.factors) {
            term_at(t, cell)
        } else {
            fmul(cell(ColRef::Fixed(region)), term_at(t, cell))
        },
{
    if !reads_fixed(t.factors) {
        let g = cell(ColRef::Fixed(region));
        let n = t.factors.len();
        lemma_gate_cells(t.factors, region, cell, n);
        let p = cells_at(t.factors, cell, n);
        lemma_fmul_assoc(t.coeff, g, p);
        lemma_fmul_comm(t.coeff, g);
        lemma_fmul_assoc(g, t.coeff, p);
    }
}

proof fn lemma_gate_cells(
    factors: Seq<ColRef>,
    region: usize,
    cell: spec_fn(ColRef) -> u128,
    n: nat,
)
    requires
        n <= factors.len(),
    ensures
        cells_at(seq![ColRef::Fixed(region)] + factors, cell, n + 1) == fmul(
            cell(ColRef::Fixed(region)),
            cells_at(factors, cell, n),
        ),
    decreases n,
{
    let all = seq![ColRef::Fixed(region)] + factors;
    let g = cell(ColRef::Fixed(region));
    if n == 0 {
        assert(all[0] == ColRef::Fixed(region));
        assert(cells_at(all, cell, 0) == 1);
        lemma_fmul_unit(g);
    } else {
        lemma_gate_cells(factors, region, cell, (n - 1) as nat);
        assert(all[n as int] == factors[n - 1]);
        lemma_fmul_assoc(g, cells_at(factors, cell, (n - 1) as nat), cell(factors[n - 1]));
    }
}

/// A term with the pattern of a region in front.
fn gate_term(t: &RelationTerm, region: usize) -> (r: RelationTerm)
    ensures
        r.view() == gate_view(t.view(), region),
{
    let mut found = false;
    let mut i: usize = 0;
    while i < t.factors.len()
        invariant
            i <= t.factors@.len(),
            found <==> exists|k: int| 0 <= k < i && #[trigger] t.factors@[k] is Fixed,
        decreases t.factors@.len() - i,
    {
        if let ColRef::Fixed(_) = t.factors[i] {
            found = true;
            assert(t.factors@[i as int] is Fixed);
        }
        i = i + 1;
    }
    let mut factors: Vec<ColRef> = Vec::new();
    if !found {
        factors.push(ColRef::Fixed(region));
    }
    let ghost head = factors@;
    let mut k: usize = 0;
    assert(factors@ =~= head + t.factors@.take(0));
    while k < t.factors.len()
        invariant
            k <= t.factors@.len(),
            factors@ == head + t.factors@.take(k as int),
        decreases t.factors@.len() - k,
    {
        factors.push(t.factors[k]);
        assert(t.factors@.take(k + 1) =~= t.factors@.take(k as int).push(t.factors@[k as int]));
        assert(factors@ =~= head + t.factors@.take(k + 1));
        k = k + 1;
    }
    assert(t.factors@.take(t.factors@.len() as int) =~= t.factors@);
    assert(factors@ =~= gate_view(t.view(), region).factors);
    RelationTerm { coeff: t.coeff, factors }
}

/// A copy of a term.
fn copy_term(t: &RelationTerm) -> (r: RelationTerm)
    ensures
        r.view() == t.view(),
{
    let mut factors: Vec<ColRef> = Vec::new();
    let mut k: usize = 0;
    while k < t.factors.len()
        invariant
            k <= t.factors@.len(),
            factors@ == t.factors@.take(k as int),
        decreases t.factors@.len() - k,
    {
        factors.push(t.factors[k]);
        assert(t.factors@.take(k + 1) =~= t.factors@.take(k as int).push(t.factors@[k as int]));
        k = k + 1;
    }
    assert(factors@ =~= t.factors@);
    RelationTerm { coeff: t.coeff, factors }
}

/// Terms, each with the pattern of a region in front unless it has its own.
pub fn gate_open_terms(terms: &Vec<RelationTerm>, region: usize) -> (r: Vec<RelationTerm>)
    ensures
        term_views(r@) == gate_views(term_views(terms@), region),
{
    let mut r: Vec<RelationTerm> = Vec::new();
    let mut i: usize = 0;
    while i < terms.len()
        invariant
            i <= terms@.len(),
            r@.len() == i,
            forall|k: int|
                0 <= k < i ==> (#[trigger] r@[k]).view() == gate_view(terms@[k].view(), region),
        decreases terms@.len() - i,
    {
        let t = gate_term(&terms[i], region);
        r.push(t);
        i = i + 1;
    }
    assert(term_views(r@) =~= gate_views(term_views(terms@), region));
    r
}

fn copy_terms(terms: &Vec<RelationTerm>) -> (r: Vec<RelationTerm>)
    ensures
        term_views(r@) == term_views(terms@),
{
    let mut r: Vec<RelationTerm> = Vec::new();
    let mut i: usize = 0;
    while i < terms.len()
        invariant
            i <= terms@.len(),
            r@.len() == i,
            forall|k: int| 0 <= k < i ==> (#[trigger] r@[k]).view() == terms@[k].view(),
        decreases terms@.len() - i,
    {
        let t = copy_term(&terms[i]);
        r.push(t);
        i = i + 1;
    }
    assert(term_views(r@) =~= term_views(terms@));
    r
}

/// The terms of the families of one kind among the first `n`, in order.
pub open spec fn kind_zero_views(
    families: Seq<MerkleProtocolFamily>,
    own: Seq<Vec<RelationTerm>>,
    kind: FamilyKind,
    n: nat,
) -> Seq<TermView>
    decreases n,
{
    if n == 0 {
        seq![]
    } else {
        let before = kind_zero_views(families, own, kind, (n - 1) as nat);
        if families[n - 1].kind_of() == kind {
            before + term_views(own[n - 1]@)
        } else {
            before
        }
    }
}

/// The relation that vanishes on every slot: first the families of two
/// permutations, then those that feed forward, then the paired updates,
/// whatever the order of their patterns.
pub open spec fn zero_views(
    families: Seq<MerkleProtocolFamily>,
    own: Seq<Vec<RelationTerm>>,
) -> Seq<TermView> {
    let n = families.len();
    kind_zero_views(families, own, FamilyKind::TwoPermutation, n) + kind_zero_views(
        families,
        own,
        FamilyKind::FeedForward,
        n,
    ) + kind_zero_views(families, own, FamilyKind::PairedUpdate, n)
}

fn push_kind_zero(
    r: &mut Vec<RelationTerm>,
    families: &Vec<MerkleProtocolFamily>,
    own: &Vec<Vec<RelationTerm>>,
    kind: FamilyKind,
)
    requires
        own@.len() == families@.len(),
    ensures
        term_views(final(r)@) == term_views(old(r)@) + kind_zero_views(
            families@,
            own@,
            kind,
            families@.len(),
        ),
{
    let ghost head = term_views(r@);
    let mut i: usize = 0;
    assert(term_views(r@) =~= head + kind_zero_views(families@, own@, kind, 0));
    while i < families.len()
        invariant
            i <= families@.len(),
            own@.len() == families@.len(),
            term_views(r@) == head + kind_zero_views(families@, own@, kind, i as nat),
        decreases families@.len() - i,
    {
        if families[i].kind() == kind {
            let more = copy_terms(&own[i]);
            append_terms(r, more);
        }
        assert(term_views(r@) =~= head + kind_zero_views(families@, own@, kind, (i + 1) as nat));
        i = i + 1;
    }
}

/// The relation that vanishes on every slot, from the terms of each family.
pub fn merkle_protocol_zero_terms(
    families: &Vec<MerkleProtocolFamily>,
    own: &Vec<Vec<RelationTerm>>,
) -> (r: Vec<RelationTerm>)
    requires
        own@.len() == families@.len(),
    ensures
        term_views(r@) == zero_views(families@, own@),
{
    let mut r: Vec<RelationTerm> = Vec::new();
    push_kind_zero(&mut r, families, own, FamilyKind::TwoPermutation);
    push_kind_zero(&mut r, families, own, FamilyKind::FeedForward);
    push_kind_zero(&mut r, families, own, FamilyKind::PairedUpdate);
    assert(term_views(r@) =~= zero_views(families@, own@));
    r
}

/// The carries of a feed-forward family, under its region.
pub open spec fn ff_carry_lanes(c: Seq<usize>, region: usize) -> Seq<LaneTerm> {
    Seq::new(
        STATE_SIZE as nat,
        |lane: int| gated_cell(lane, region as int, shifted(c[lane] as int)),
    )
}

/// What a family adds to the relation of the walk: a feed-forward family its
/// carries and its terms, another its terms under its region.
pub open spec fn family_views(
    family: MerkleProtocolFamily,
    own: Seq<TermView>,
    m: Seq<u128>,
) -> Seq<TermView> {
    match family {
        MerkleProtocolFamily::FeedForward { refs, region } => weighted(
            ff_carry_lanes(refs.c@, region),
            m,
        ) + own,
        MerkleProtocolFamily::TwoPermutation { region, .. } => gate_views(own, region),
        MerkleProtocolFamily::PairedUpdate { region, .. } => gate_views(own, region),
    }
}

pub open spec fn kind_walk_views(
    families: Seq<MerkleProtocolFamily>,
    own: Seq<Vec<RelationTerm>>,
    m: Seq<u128>,
    kind: FamilyKind,
    n: nat,
) -> Seq<TermView>
    decreases n,
{
    if n == 0 {
        seq![]
    } else {
        let before = kind_walk_views(families, own, m, kind, (n - 1) as nat);
        if families[n - 1].kind_of() == kind {
            before + family_views(families[n - 1], term_views(own[n - 1]@), m)
        } else {
            before
        }
    }
}

/// The relation of the walk: first the families that feed forward, then those
/// of two permutations, then the paired updates.
pub open spec fn walk_views(
    families: Seq<MerkleProtocolFamily>,
    own: Seq<Vec<RelationTerm>>,
    m: Seq<u128>,
) -> Seq<TermView> {
    let n = families.len();
    kind_walk_views(families, own, m, FamilyKind::FeedForward, n) + kind_walk_views(
        families,
        own,
        m,
        FamilyKind::TwoPermutation,
        n,
    ) + kind_walk_views(families, own, m, FamilyKind::PairedUpdate, n)
}

fn family_terms(family: &MerkleProtocolFamily, own: &Vec<RelationTerm>, m: &Vec<F128>) -> (r: Vec<
    RelationTerm,
>)
    requires
        m@.len() == STATE_SIZE,
    ensures
        term_views(r@) == family_views(*family, term_views(own@), weight_values(m@)),
{
    match family {
        MerkleProtocolFamily::FeedForward { refs, region } => {
            let mut lanes: Vec<LaneTerm> = Vec::new();
            let mut lane: usize = 0;
            while lane < STATE_SIZE
                invariant
                    lane <= STATE_SIZE,
                    lanes@.len() == lane,
                    forall|k: int|
                        0 <= k < lane ==> #[trigger] lanes@[k] == ff_carry_lanes(
                            refs.c@,
                            *region,
                        )[k],
                decreases STATE_SIZE - lane,
            {
                let column = refs.c[lane];
                lanes.push(
                    LaneTerm {
                        lane,
                        gate: Some(*region),
                        column: Some(ColRef::CommittedShift(column)),
                    },
                );
                lane = lane + 1;
            }
            assert(lanes@ =~= ff_carry_lanes(refs.c@, *region));
            assert(lanes_ok(lanes@)) by {
                assert forall|k: int| 0 <= k < lanes@.len() implies (#[trigger] lanes@[k]).lane
                    < STATE_SIZE by {
                    assert(lanes@[k] == ff_carry_lanes(refs.c@, *region)[k]);
                }
            }
            let mut r = weigh(&lanes, m);
            let more = copy_terms(own);
            append_terms(&mut r, more);
            r
        },
        MerkleProtocolFamily::TwoPermutation { region, .. } => gate_open_terms(own, *region),
        MerkleProtocolFamily::PairedUpdate { region, .. } => gate_open_terms(own, *region),
    }
}

fn push_kind_walk(
    r: &mut Vec<RelationTerm>,
    families: &Vec<MerkleProtocolFamily>,
    own: &Vec<Vec<RelationTerm>>,
    m: &Vec<F128>,
    kind: FamilyKind,
)
    requires
        own@.len() == families@.len(),
        m@.len() == STATE_SIZE,
    ensures
        term_views(final(r)@) == term_views(old(r)@) + kind_walk_views(
            families@,
            own@,
            weight_values(m@),
            kind,
            families@.len(),
        ),
{
    let ghost head = term_views(r@);
    let ghost w = weight_values(m@);
    let mut i: usize = 0;
    assert(term_views(r@) =~= head + kind_walk_views(families@, own@, w, kind, 0));
    while i < families.len()
        invariant
            i <= families@.len(),
            own@.len() == families@.len(),
            m@.len() == STATE_SIZE,
            w == weight_values(m@),
            term_views(r@) == head + kind_walk_views(families@, own@, w, kind, i as nat),
        decreases families@.len() - i,
    {
        if families[i].kind() == kind {
            let more = family_terms(&families[i], &own[i], m);
            append_terms(r, more);
        }
        assert(term_views(r@) =~= head + kind_walk_views(
            families@,
            own@,
            w,
            kind,
            (i + 1) as nat,
        ));
        i = i + 1;
    }
}

/// The relation of the walk, from the terms of each family and the weights of
/// the lanes.
pub fn merkle_protocol_substitution_terms(
    families: &Vec<MerkleProtocolFamily>,
    own: &Vec<Vec<RelationTerm>>,
    m: &Vec<F128>,
) -> (r: Vec<RelationTerm>)
    requires
        own@.len() == families@.len(),
        m@.len() == STATE_SIZE,
    ensures
        term_views(r@) == walk_views(families@, own@, weight_values(m@)),
{
    let mut r: Vec<RelationTerm> = Vec::new();
    push_kind_walk(&mut r, families, own, m, FamilyKind::FeedForward);
    push_kind_walk(&mut r, families, own, m, FamilyKind::TwoPermutation);
    push_kind_walk(&mut r, families, own, m, FamilyKind::PairedUpdate);
    assert(term_views(r@) =~= walk_views(families@, own@, weight_values(m@)));
    r
}

} // verus!
