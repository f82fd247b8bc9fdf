//! What the relations of the protocol walks are made of, family by family.
use crate::duplex_union::DuplexFamilyRefs;
use crate::field::{
    fmul, is_bit, lemma_fmul_assoc, lemma_fmul_comm, lemma_fmul_distrib, lemma_fmul_unit,
};
use crate::merkle_terms::{
    family_views, ff_carry_lanes, gate_view, gate_views, kind_walk_views, kind_zero_views,
    lemma_gate_value, walk_views, zero_views, FamilyKind, MerkleProtocolFamily,
};
use crate::relation_terms::{
    carry_lanes, cells_at, lemma_sum_append, pattern_lanes, sum_at, term_at, term_views, weighted,
    ColRef, RelationTerm, TermView,
};
use crate::union_terms::{
    all_fit, arm, differs, lemma_selected_arm, multi_views, pairs_views, scaled, selected_views,
};
use crate::wiring_laws::{lemma_insert, lemma_plain};
use vstd::prelude::*;

verus! {

proof fn lemma_zero_prefix(
    f: Seq<MerkleProtocolFamily>,
    g: Seq<MerkleProtocolFamily>,
    x: Seq<Vec<RelationTerm>>,
    y: Seq<Vec<RelationTerm>>,
    kind: FamilyKind,
    n: nat,
)
    requires
        n <= f.len(),
        n <= g.len(),
        n <= x.len(),
        n <= y.len(),
        forall|i: int| 0 <= i < n ==> f[i] == g[i] && x[i] == y[i],
    ensures
        kind_zero_views(f, x, kind, n) == kind_zero_views(g, y, kind, n),
    decreases n,
{
    if n > 0 {
        lemma_zero_prefix(f, g, x, y, kind, (n - 1) as nat);
    }
}

proof fn lemma_walk_prefix(
    f: Seq<MerkleProtocolFamily>,
    g: Seq<MerkleProtocolFamily>,
    x: Seq<Vec<RelationTerm>>,
    y: Seq<Vec<RelationTerm>>,
    m: Seq<u128>,
    kind: FamilyKind,
    n: nat,
)
    requires
        n <= f.len(),
        n <= g.len(),
        n <= x.len(),
        n <= y.len(),
        forall|i: int| 0 <= i < n ==> f[i] == g[i] && x[i] == y[i],
    ensures
        kind_walk_views(f, x, m, kind, n) == kind_walk_views(g, y, m, kind, n),
    decreases n,
{
    if n > 0 {
        lemma_walk_prefix(f, g, x, y, m, kind, (n - 1) as nat);
    }
}

/// No families, no relation.
pub proof fn lemma_protocol_none(m: Seq<u128>, cell: spec_fn(ColRef) -> u128)
    ensures
        sum_at(zero_views(seq![], seq![]), cell) == 0,
        sum_at(walk_views(seq![], seq![], m), cell) == 0,
{
    assert(zero_views(seq![], seq![]) =~= seq![]);
    assert(walk_views(seq![], seq![], m) =~= seq![]);
}

/// A family more adds its own terms to the relation that vanishes on every slot, whatever
/// its kind.
pub proof fn lemma_zero_adds(
    families: Seq<MerkleProtocolFamily>,
    own: Seq<Vec<RelationTerm>>,
    f: MerkleProtocolFamily,
    x: Vec<RelationTerm>,
    cell: spec_fn(ColRef) -> u128,
)
    requires
        families.len() == own.len(),
    ensures
        sum_at(zero_views(families.push(f), own.push(x)), cell) == sum_at(
            zero_views(families, own),
            cell,
        ) ^ sum_at(term_views(x@), cell),
{
    let n = families.len();
    let fs = families.push(f);
    let xs = own.push(x);
    let k0 = FamilyKind::TwoPermutation;
    let k1 = FamilyKind::FeedForward;
    let k2 = FamilyKind::PairedUpdate;
    lemma_zero_prefix(families, fs, own, xs, k0, n);
    lemma_zero_prefix(families, fs, own, xs, k1, n);
    lemma_zero_prefix(families, fs, own, xs, k2, n);
    let a = kind_zero_views(families, own, k0, n);
    let b = kind_zero_views(families, own, k1, n);
    let c = kind_zero_views(families, own, k2, n);
    let t = term_views(x@);
    lemma_three(a, b, c, cell);
    lemma_three(
        kind_zero_views(fs, xs, k0, n + 1),
        kind_zero_views(fs, xs, k1, n + 1),
        kind_zero_views(fs, xs, k2, n + 1),
        cell,
    );
    lemma_sum_append(a, t, cell);
    lemma_sum_append(b, t, cell);
    lemma_sum_append(c, t, cell);
    lemma_insert(sum_at(a, cell), sum_at(b, cell), sum_at(c, cell), sum_at(t, cell));
}

proof fn lemma_three(
    a: Seq<TermView>,
    b: Seq<TermView>,
    c: Seq<TermView>,
    cell: spec_fn(ColRef) -> u128,
)
    ensures
        sum_at(a + b + c, cell) == (sum_at(a, cell) ^ sum_at(b, cell)) ^ sum_at(c, cell),
{
    lemma_sum_append(a, b, cell);
    lemma_sum_append(a + b, c, cell);
}

proof fn lemma_walk_adds(
    families: Seq<MerkleProtocolFamily>,
    own: Seq<Vec<RelationTerm>>,
    f: MerkleProtocolFamily,
    x: Vec<RelationTerm>,
    m: Seq<u128>,
    cell: spec_fn(ColRef) -> u128,
)
    requires
        families.len() == own.len(),
    ensures
        sum_at(walk_views(families.push(f), own.push(x), m), cell) == sum_at(
            walk_views(families, own, m),
            cell,
        ) ^ sum_at(family_views(f, term_views(x@), m), cell),
{
    let n = families.len();
    let fs = families.push(f);
    let xs = own.push(x);
    let k0 = FamilyKind::FeedForward;
    let k1 = FamilyKind::TwoPermutation;
    let k2 = FamilyKind::PairedUpdate;
    lemma_walk_prefix(families, fs, own, xs, m, k0, n);
    lemma_walk_prefix(families, fs, own, xs, m, k1, n);
    lemma_walk_prefix(families, fs, own, xs, m, k2, n);
    let a = kind_walk_views(families, own, m, k0, n);
    let b = kind_walk_views(families, own, m, k1, n);
    let c = kind_walk_views(families, own, m, k2, n);
    let t = family_views(f, term_views(x@), m);
    lemma_three(a, b, c, cell);
    lemma_three(
        kind_walk_views(fs, xs, m, k0, n + 1),
        kind_walk_views(fs, xs, m, k1, n + 1),
        kind_walk_views(fs, xs, m, k2, n + 1),
        cell,
    );
    lemma_sum_append(a, t, cell);
    lemma_sum_append(b, t, cell);
    lemma_sum_append(c, t, cell);
    lemma_insert(sum_at(a, cell), sum_at(b, cell), sum_at(c, cell), sum_at(t, cell));
}

/// A feed-forward family adds to the walk its own terms and, inside its region, the state
/// that it carries, lane by lane under the weights.
pub proof fn lemma_walk_adds_feed_forward(
    families: Seq<MerkleProtocolFamily>,
    own: Seq<Vec<RelationTerm>>,
    f: MerkleProtocolFamily,
    x: Vec<RelationTerm>,
    m: Seq<u128>,
    cell: spec_fn(ColRef) -> u128,
)
    requires
        families.len() == own.len(),
        f is FeedForward,
        f->FeedForward_refs.c@.len() == 4,
        m.len() == 4,
    ensures
        ({
            let c = |lane: int| cell(ColRef::CommittedShift(f->FeedForward_refs.c@[lane]));
            sum_at(walk_views(families.push(f), own.push(x), m), cell) == (sum_at(
                walk_views(families, own, m),
                cell,
            ) ^ fmul(
                cell(ColRef::Fixed(f->FeedForward_region)),
                ((fmul(m[0], c(0)) ^ fmul(m[1], c(1))) ^ fmul(m[2], c(2))) ^ fmul(m[3], c(3)),
            )) ^ sum_at(term_views(x@), cell)
        }),
{
    lemma_walk_adds(families, own, f, x, m, cell);
    lemma_plain();
    let refs = f->FeedForward_refs;
    let region = f->FeedForward_region;
    let lanes = weighted(ff_carry_lanes(refs.c@, region), m);
    lemma_sum_append(lanes, term_views(x@), cell);
    let g = cell(ColRef::Fixed(region));
    let c = |lane: int| cell(ColRef::CommittedShift(refs.c@[lane]));
    assert forall|l: int| 0 <= l < 4 implies term_at(#[trigger] lanes[l], cell) == fmul(
        g,
        fmul(m[l], c(l)),
    ) by {
        let t = lanes[l];
        assert(t.factors =~= seq![ColRef::Fixed(region), ColRef::CommittedShift(refs.c@[l])]);
        reveal_with_fuel(cells_at, 3);
        lemma_fmul_assoc(m[l], g, c(l));
        lemma_fmul_comm(m[l], g);
        lemma_fmul_assoc(g, m[l], c(l));
    }
    lemma_four_terms(lanes, cell);
    let y = |l: int| fmul(m[l], c(l));
    lemma_fmul_distrib((y(0) ^ y(1)) ^ y(2), y(3), g);
    lemma_fmul_distrib(y(0) ^ y(1), y(2), g);
    lemma_fmul_distrib(y(0), y(1), g);
    crate::field::lemma_xor(
        sum_at(walk_views(families, own, m), cell),
        sum_at(lanes, cell),
        sum_at(term_views(x@), cell),
    );
}

proof fn lemma_four_terms(ts: Seq<TermView>, cell: spec_fn(ColRef) -> u128)
    requires
        ts.len() == 4,
    ensures
        sum_at(ts, cell) == ((term_at(ts[0], cell) ^ term_at(ts[1], cell)) ^ term_at(ts[2], cell))
            ^ term_at(ts[3], cell),
{
    lemma_plain();
    let t3 = ts.drop_last();
    let t2 = t3.drop_last();
    let t1 = t2.drop_last();
    let t0 = t1.drop_last();
    assert(t0 =~= seq![]);
    reveal_with_fuel(sum_at, 5);
    assert(t1.last() == ts[0] && t2.last() == ts[1] && t3.last() == ts[2] && ts.last() == ts[3]);
}

/// A family of another kind adds to the walk its own terms inside its region: a term that
/// reads a pattern already is added as it is, and any other under the pattern of the
/// region.
pub proof fn lemma_walk_adds_gated(
    families: Seq<MerkleProtocolFamily>,
    own: Seq<Vec<RelationTerm>>,
    f: MerkleProtocolFamily,
    x: Vec<RelationTerm>,
    m: Seq<u128>,
    cell: spec_fn(ColRef) -> u128,
    region: usize,
)
    requires
        families.len() == own.len(),
        match f {
            MerkleProtocolFamily::FeedForward { .. } => false,
            MerkleProtocolFamily::TwoPermutation { refs, region: r } => r == region,
            MerkleProtocolFamily::PairedUpdate { fixed, region: r } => r == region,
        },
    ensures
        sum_at(walk_views(families.push(f), own.push(x), m), cell) == sum_at(
            walk_views(families, own, m),
            cell,
        ) ^ sum_at(gate_views(term_views(x@), region), cell),
{
    lemma_walk_adds(families, own, f, x, m, cell);
}

/// Under the pattern of a region a term that reads no pattern is multiplied by it, and a
/// term that reads one is left alone.
pub proof fn lemma_gated_adds(
    ts: Seq<TermView>,
    t: TermView,
    region: usize,
    cell: spec_fn(ColRef) -> u128,
)
    ensures
        sum_at(gate_views(seq![], region), cell) == 0,
        sum_at(gate_views(ts.push(t), region), cell) == sum_at(gate_views(ts, region), cell) ^ if (
        exists|i: int| 0 <= i < t.factors.len() && #[trigger] t.factors[i] is Fixed) {
            term_at(t, cell)
        } else {
            fmul(cell(ColRef::Fixed(region)), term_at(t, cell))
        },
{
    let all = gate_views(ts.push(t), region);
    assert(gate_views(seq![], region) =~= seq![]);
    assert(all.drop_last() =~= gate_views(ts, region));
    assert(all.last() == gate_view(t, region));
    lemma_gate_value(t, region, cell);
}

/// A selected relation follows its selector: for zero it is the relation of the base
/// families, for one that of the families whose patterns differ from them by the stored
/// differences.
pub proof fn lemma_selector_follows(
    sets: Seq<DuplexFamilyRefs>,
    others: Seq<DuplexFamilyRefs>,
    m: Seq<u128>,
    s: u128,
    cell: spec_fn(ColRef) -> u128,
)
    requires
        m.len() == 4,
        is_bit(s),
        0 < others.len(),
        sets.len() == 2 * others.len(),
        all_fit(sets),
        all_fit(others),
        forall|i: int|
            0 <= i < others.len() ==> differs(
                sets[2 * i],
                #[trigger] others[i],
                sets[2 * i + 1],
                cell,
            ),
    ensures
        s == 0 ==> sum_at(selected_views(sets, m, s), cell) == sum_at(
            multi_views(Seq::new(others.len(), |i: int| sets[2 * i]), m),
            cell,
        ),
        s == 1 ==> sum_at(selected_views(sets, m, s), cell) == sum_at(multi_views(others, m), cell),
{
    lemma_selected_arm(sets, others, m, s, cell);
    if s == 0 {
        assert(arm(sets, others, s) =~= Seq::new(others.len(), |i: int| sets[2 * i]));
    } else {
        assert(arm(sets, others, s) =~= others);
    }
}

proof fn lemma_scaled(
    lanes: Seq<crate::relation_terms::LaneTerm>,
    m: Seq<u128>,
    s: u128,
    cell: spec_fn(ColRef) -> u128,
)
    requires
        m.len() == 4,
        crate::relation_terms::lanes_ok(lanes),
    ensures
        sum_at(weighted(lanes, scaled(m, s)), cell) == fmul(s, sum_at(weighted(lanes, m), cell)),
    decreases lanes.len(),
{
    let x = weighted(lanes, scaled(m, s));
    let y = weighted(lanes, m);
    if lanes.len() == 0 {
        lemma_fmul_unit(s);
    } else {
        let rest = lanes.drop_last();
        lemma_scaled(rest, m, s, cell);
        assert(x.drop_last() =~= weighted(rest, scaled(m, s)));
        assert(y.drop_last() =~= weighted(rest, m));
        let w = m[lanes.last().lane as int];
        assert(lanes[lanes.len() - 1].lane < 4);
        let p = cells_at(y.last().factors, cell, y.last().factors.len());
        lemma_fmul_comm(w, s);
        lemma_fmul_assoc(s, w, p);
        lemma_fmul_distrib(sum_at(y.drop_last(), cell), term_at(y.last(), cell), s);
    }
}

/// A pair more adds to a selected relation the patterns of its base and, multiplied by the
/// selector, those of its difference.
pub proof fn lemma_selected_adds(
    sets: Seq<DuplexFamilyRefs>,
    base: DuplexFamilyRefs,
    delta: DuplexFamilyRefs,
    m: Seq<u128>,
    s: u128,
    cell: spec_fn(ColRef) -> u128,
)
    requires
        m.len() == 4,
        sets.len() > 0,
        sets.len() % 2 == 0,
    ensures
        sum_at(selected_views(sets.push(base).push(delta), m, s), cell) == (sum_at(
            selected_views(sets, m, s),
            cell,
        ) ^ sum_at(weighted(pattern_lanes(base), m), cell)) ^ fmul(
            s,
            sum_at(weighted(pattern_lanes(delta), m), cell),
        ),
{
    let all = sets.push(base).push(delta);
    let n = sets.len() / 2;
    lemma_pairs_prefix(sets, all, m, s, n);
    let carry = weighted(carry_lanes(sets[0]), m);
    let before = pairs_views(sets, m, s, n);
    let x = weighted(pattern_lanes(base), m);
    let y = weighted(pattern_lanes(delta), scaled(m, s));
    assert(all.len() / 2 == n + 1);
    assert(pairs_views(all, m, s, n + 1) == before + x + y);
    lemma_sum_append(carry, before, cell);
    lemma_sum_append(carry, before + x + y, cell);
    lemma_sum_append(before, x, cell);
    lemma_sum_append(before + x, y, cell);
    lemma_scaled(pattern_lanes(delta), m, s, cell);
    crate::field::lemma_xor(sum_at(carry, cell), sum_at(before + x, cell), sum_at(y, cell));
    crate::field::lemma_xor(sum_at(carry, cell), sum_at(before, cell), sum_at(x, cell));
}

proof fn lemma_pairs_prefix(
    x: Seq<DuplexFamilyRefs>,
    y: Seq<DuplexFamilyRefs>,
    m: Seq<u128>,
    s: u128,
    n: nat,
)
    requires
        2 * n <= x.len(),
        2 * n <= y.len(),
        forall|i: int| 0 <= i < 2 * n ==> x[i] == y[i],
    ensures
        pairs_views(x, m, s, n) == pairs_views(y, m, s, n),
    decreases n,
{
    if n > 0 {
        lemma_pairs_prefix(x, y, m, s, (n - 1) as nat);
    }
}

} // verus!
