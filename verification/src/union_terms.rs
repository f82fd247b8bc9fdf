//! The substitution relations of the leaf, Merkle and duplex walks.
use crate::circuit::{group_agree, FieldR1csBuilder, LinExpr};
use crate::duplex_union::DuplexFamilyRefs;
use crate::field::{
    fmul, is_bit, lemma_fmul_distrib, lemma_fmul_unit, lemma_xor, lemma_xor_swap, F128,
};
use crate::meta_region::STATE_SIZE;
use crate::mle_trace::{all_below, values_at};
use crate::relation_terms::{
    carry_lanes, carry_terms, cells_at, duplex_mds_weights, lane_weights, lanes_ok,
    lemma_sum_append, mds_alpha_weights, pattern_lanes, pattern_terms, power, refs_fit,
    single_lanes, single_terms, sponge_lanes, sponge_terms, sum_at, tail_lanes, tail_terms, term_at,
    term_views, trace_views, tree_lanes, tree_terms, weigh, weigh_trace, weight_values, weighted,
    ColRef, LaneTerm, MdsTable, RelationTerm, RelationTermTrace, SplitDuplexTailRefs,
    SpongeLeafRefs, TermView,
};
use crate::spine_union::SpineUnionSpec;
use crate::trace::refines;
use crate::circuit::forms;
use crate::relation_terms::powers_step;
use vstd::prelude::*;

verus! {

broadcast use group_agree;

// ---------------------------------------------------------------------------
// The leaf walk.
// ---------------------------------------------------------------------------
/// The first `n` sponge families.
pub open spec fn leaf_lanes(leafs: Seq<(SpongeLeafRefs, usize)>, n: nat) -> Seq<LaneTerm>
    decreases n,
{
    if n == 0 {
        seq![]
    } else {
        leaf_lanes(leafs, (n - 1) as nat) + sponge_lanes(leafs[n - 1].0, leafs[n - 1].1 as int)
    }
}

/// The first `n` transcript suffixes.
pub open spec fn tails_lanes(tails: Seq<SplitDuplexTailRefs>, n: nat) -> Seq<LaneTerm>
    decreases n,
{
    if n == 0 {
        seq![]
    } else {
        tails_lanes(tails, (n - 1) as nat) + tail_lanes(tails[n - 1])
    }
}

/// The substitution relation of the leaf walk: its sponge families, its
/// transcript suffixes, the exact-state sponge, then the spine tree and wrap.
pub open spec fn union_lanes(
    leafs: Seq<(SpongeLeafRefs, usize)>,
    tails: Seq<SplitDuplexTailRefs>,
    es_sponge: Option<(SpongeLeafRefs, usize)>,
    spine: Option<SpineUnionSpec>,
) -> Seq<LaneTerm> {
    let own = match es_sponge {
        Some(family) => sponge_lanes(family.0, family.1 as int),
        None => seq![],
    };
    let body = match spine {
        Some(sp) => tree_lanes(sp.tree_refs) + sponge_lanes(sp.wrap_refs, sp.wrap_region as int),
        None => seq![],
    };
    leaf_lanes(leafs, leafs.len()) + tails_lanes(tails, tails.len()) + own + body
}

fn append(r: &mut Vec<LaneTerm>, mut more: Vec<LaneTerm>)
    requires
        lanes_ok(old(r)@),
        lanes_ok(more@),
    ensures
        final(r)@ == old(r)@ + more@,
        lanes_ok(final(r)@),
{
    let ghost r0 = r@;
    let ghost m0 = more@;
    r.append(&mut more);
    assert forall|i: int| 0 <= i < r@.len() implies (#[trigger] r@[i]).lane < STATE_SIZE by {
        if i < r0.len() {
            assert(r@[i] == r0[i]);
        } else {
            assert(r@[i] == m0[i - r0.len()]);
        }
    }
}

/// Which lane of the leaf walk weighs which cells.
pub fn union_lane_terms(
    leaf_refs: &Vec<(SpongeLeafRefs, usize)>,
    split_tails: &Vec<SplitDuplexTailRefs>,
    es_sponge: &Option<(SpongeLeafRefs, usize)>,
    spine: &Option<SpineUnionSpec>,
) -> (r: Vec<LaneTerm>)
    ensures
        r@ == union_lanes(leaf_refs@, split_tails@, *es_sponge, *spine),
        lanes_ok(r@),
{
    let mut r: Vec<LaneTerm> = Vec::new();
    let mut i: usize = 0;
    while i < leaf_refs.len()
        invariant
            i <= leaf_refs@.len(),
            r@ == leaf_lanes(leaf_refs@, i as nat),
            lanes_ok(r@),
        decreases leaf_refs@.len() - i,
    {
        let more = sponge_terms(&leaf_refs[i].0, leaf_refs[i].1);
        append(&mut r, more);
        i = i + 1;
    }
    let ghost leafs = r@;
    let mut k: usize = 0;
    assert(r@ =~= leafs + tails_lanes(split_tails@, 0));
    while k < split_tails.len()
        invariant
            k <= split_tails@.len(),
            r@ == leafs + tails_lanes(split_tails@, k as nat),
            lanes_ok(r@),
        decreases split_tails@.len() - k,
    {
        let more = tail_terms(&split_tails[k]);
        append(&mut r, more);
        assert(r@ =~= leafs + tails_lanes(split_tails@, (k + 1) as nat));
        k = k + 1;
    }
    if let Some(family) = es_sponge {
        let more = sponge_terms(&family.0, family.1);
        append(&mut r, more);
    }
    if let Some(sp) = spine {
        let tree = tree_terms(&sp.tree_refs);
        append(&mut r, tree);
        let wrap = sponge_terms(&sp.wrap_refs, sp.wrap_region);
        append(&mut r, wrap);
    }
    assert(r@ =~= union_lanes(leaf_refs@, split_tails@, *es_sponge, *spine));
    r
}

/// The substitution relation of the leaf walk under a challenge.
pub fn union_native_terms(
    mds: &MdsTable,
    leaf_refs: &Vec<(SpongeLeafRefs, usize)>,
    split_tails: &Vec<SplitDuplexTailRefs>,
    es_sponge: &Option<(SpongeLeafRefs, usize)>,
    spine: &Option<SpineUnionSpec>,
    alpha: F128,
) -> (r: Vec<RelationTerm>)
    ensures
        term_views(r@) == weighted(
            union_lanes(leaf_refs@, split_tails@, *es_sponge, *spine),
            lane_weights(*mds, alpha@),
        ),
{
    let lanes = union_lane_terms(leaf_refs, split_tails, es_sponge, spine);
    let m = duplex_mds_weights(mds, alpha);
    assert(weight_values(m@).len() == STATE_SIZE);
    weigh(&lanes, &m)
}

/// The relation under the challenge one, from which only its cells are read.
pub fn union_ref_terms(
    mds: &MdsTable,
    leaf_refs: &Vec<(SpongeLeafRefs, usize)>,
    split_tails: &Vec<SplitDuplexTailRefs>,
    es_sponge: &Option<(SpongeLeafRefs, usize)>,
    spine: &Option<SpineUnionSpec>,
) -> (r: Vec<RelationTerm>)
    ensures
        term_views(r@) == weighted(
            union_lanes(leaf_refs@, split_tails@, *es_sponge, *spine),
            lane_weights(*mds, 1),
        ),
{
    union_native_terms(mds, leaf_refs, split_tails, es_sponge, spine, F128::one())
}

/// The same relation with expressions as weights: under an assignment it is
/// the relation weighted by their values.
pub fn union_trace_terms(
    m: &Vec<LinExpr>,
    leaf_refs: &Vec<(SpongeLeafRefs, usize)>,
    split_tails: &Vec<SplitDuplexTailRefs>,
    es_sponge: &Option<(SpongeLeafRefs, usize)>,
    spine: &Option<SpineUnionSpec>,
) -> (r: Vec<RelationTermTrace>)
    requires
        m@.len() == STATE_SIZE,
    ensures
        forall|z: spec_fn(int) -> u128| #[trigger]
            trace_views(r@, z) == weighted(
                union_lanes(leaf_refs@, split_tails@, *es_sponge, *spine),
                values_at(m@, z),
            ),
{
    let lanes = union_lane_terms(leaf_refs, split_tails, es_sponge, spine);
    weigh_trace(&lanes, m)
}

// ---------------------------------------------------------------------------
// The duplex walk.
// ---------------------------------------------------------------------------
/// The wiring of the first `n` families, each under the weights `m`.
pub open spec fn sets_views(sets: Seq<DuplexFamilyRefs>, m: Seq<u128>, n: nat) -> Seq<TermView>
    decreases n,
{
    if n == 0 {
        seq![]
    } else {
        sets_views(sets, m, (n - 1) as nat) + weighted(pattern_lanes(sets[n - 1]), m)
    }
}

/// Several families on shared columns: every slot carries once, then each
/// family adds its wiring.
pub open spec fn multi_views(sets: Seq<DuplexFamilyRefs>, m: Seq<u128>) -> Seq<TermView> {
    weighted(carry_lanes(sets[0]), m) + sets_views(sets, m, sets.len())
}

/// The weights scaled by a selector.
pub open spec fn scaled(m: Seq<u128>, s: u128) -> Seq<u128> {
    m.map_values(|w: u128| fmul(w, s))
}

/// The wiring of the first `n` pairs: the base under the weights, the
/// difference under the selected weights.
pub open spec fn pairs_views(
    sets: Seq<DuplexFamilyRefs>,
    m: Seq<u128>,
    s: u128,
    n: nat,
) -> Seq<TermView>
    decreases n,
{
    if n == 0 {
        seq![]
    } else {
        pairs_views(sets, m, s, (n - 1) as nat) + weighted(pattern_lanes(sets[2 * n - 2]), m)
            + weighted(pattern_lanes(sets[2 * n - 1]), scaled(m, s))
    }
}

pub open spec fn selected_views(sets: Seq<DuplexFamilyRefs>, m: Seq<u128>, s: u128) -> Seq<
    TermView,
> {
    weighted(carry_lanes(sets[0]), m) + pairs_views(sets, m, s, sets.len() / 2)
}

pub open spec fn all_fit(sets: Seq<DuplexFamilyRefs>) -> bool {
    forall|i: int| 0 <= i < sets.len() ==> refs_fit(#[trigger] sets[i])
}

pub(crate) fn append_terms(r: &mut Vec<RelationTerm>, mut more: Vec<RelationTerm>)
    ensures
        term_views(final(r)@) == term_views(old(r)@) + term_views(more@),
{
    let ghost r0 = r@;
    let ghost m0 = more@;
    r.append(&mut more);
    assert(term_views(r@) =~= term_views(r0) + term_views(m0));
}

/// Adds the wiring of a family.
fn append_duplex_pattern_terms(
    terms: &mut Vec<RelationTerm>,
    refs: &DuplexFamilyRefs,
    weights: &Vec<F128>,
)
    requires
        refs_fit(*refs),
        weights@.len() == STATE_SIZE,
    ensures
        term_views(final(terms)@) == term_views(old(terms)@) + weighted(
            pattern_lanes(*refs),
            weight_values(weights@),
        ),
{
    let lanes = pattern_terms(refs);
    let more = weigh(&lanes, weights);
    append_terms(terms, more);
}

/// The substitution relation of several families on shared columns.
pub fn duplex_substitution_terms_multi(
    mds: &MdsTable,
    sets: &Vec<DuplexFamilyRefs>,
    alpha: F128,
) -> (r: Vec<RelationTerm>)
    requires
        sets@.len() > 0,
        all_fit(sets@),
    ensures
        term_views(r@) == multi_views(sets@, lane_weights(*mds, alpha@)),
{
    let m = duplex_mds_weights(mds, alpha);
    assert(weight_values(m@).len() == STATE_SIZE);
    let ghost w = lane_weights(*mds, alpha@);
    assert(refs_fit(sets@[0]));
    let carries = carry_terms(&sets[0]);
    let mut r = weigh(&carries, &m);
    let ghost first = term_views(r@);
    let mut i: usize = 0;
    assert(term_views(r@) =~= first + sets_views(sets@, w, 0));
    while i < sets.len()
        invariant
            i <= sets@.len(),
            all_fit(sets@),
            m@.len() == STATE_SIZE,
            weight_values(m@) == w,
            term_views(r@) == first + sets_views(sets@, w, i as nat),
        decreases sets@.len() - i,
    {
        assert(refs_fit(sets@[i as int]));
        append_duplex_pattern_terms(&mut r, &sets[i], &m);
        assert(term_views(r@) =~= first + sets_views(sets@, w, (i + 1) as nat));
        i = i + 1;
    }
    r
}

/// The relation of families that a selector chooses between: `sets` holds, for
/// each family, the patterns of arm zero and the difference of the two arms.
pub fn duplex_substitution_terms_selected(
    mds: &MdsTable,
    sets: &Vec<DuplexFamilyRefs>,
    selector: F128,
    alpha: F128,
) -> (r: Vec<RelationTerm>)
    requires
        sets@.len() > 0,
        sets@.len() % 2 == 0,
        all_fit(sets@),
    ensures
        term_views(r@) == selected_views(sets@, lane_weights(*mds, alpha@), selector@),
{
    let m = duplex_mds_weights(mds, alpha);
    assert(weight_values(m@).len() == STATE_SIZE);
    let ghost w = lane_weights(*mds, alpha@);
    let mut selected: Vec<F128> = Vec::new();
    let mut j: usize = 0;
    while j < m.len()
        invariant
            j <= m@.len(),
            selected@.len() == j,
            forall|k: int| 0 <= k < j ==> (#[trigger] selected@[k])@ == fmul(m@[k]@, selector@),
        decreases m@.len() - j,
    {
        selected.push(m[j].times(selector));
        j = j + 1;
    }
    assert(weight_values(selected@) =~= scaled(w, selector@)) by {
        assert forall|k: int| 0 <= k < 4 implies weight_values(selected@)[k] == scaled(
            w,
            selector@,
        )[k] by {
            assert(weight_values(m@)[k] == m@[k]@);
        }
    }
    assert(refs_fit(sets@[0]));
    let carries = carry_terms(&sets[0]);
    let mut r = weigh(&carries, &m);
    let ghost first = term_views(r@);
    let count = sets.len();
    let pairs = count / 2;
    let mut i: usize = 0;
    assert(term_views(r@) =~= first + pairs_views(sets@, w, selector@, 0));
    while i < pairs
        invariant
            i <= pairs,
            pairs == count / 2,
            count == sets@.len(),
            all_fit(sets@),
            m@.len() == STATE_SIZE,
            selected@.len() == STATE_SIZE,
            weight_values(m@) == w,
            weight_values(selected@) == scaled(w, selector@),
            term_views(r@) == first + pairs_views(sets@, w, selector@, i as nat),
        decreases pairs - i,
    {
        assert(refs_fit(sets@[2 * i as int]) && refs_fit(sets@[2 * i + 1]));
        append_duplex_pattern_terms(&mut r, &sets[2 * i], &m);
        append_duplex_pattern_terms(&mut r, &sets[2 * i + 1], &selected);
        assert(term_views(r@) =~= first + pairs_views(sets@, w, selector@, (i + 1) as nat));
        i = i + 1;
    }
    r
}

/// The relation of a family with its recordings: alone, each lane carries and
/// takes its wiring; with recordings, the families share the carries.
pub open spec fn duplex_views(
    refs: DuplexFamilyRefs,
    rec_refs: Seq<DuplexFamilyRefs>,
    m: Seq<u128>,
) -> Seq<TermView> {
    if rec_refs.len() == 0 {
        weighted(single_lanes(refs), m)
    } else {
        multi_views(seq![refs] + rec_refs, m)
    }
}

/// The substitution relation of a duplex walk.
pub fn duplex_substitution_terms_sets(
    mds: &MdsTable,
    refs: &DuplexFamilyRefs,
    rec_refs: &Vec<DuplexFamilyRefs>,
    alpha: F128,
) -> (r: Vec<RelationTerm>)
    requires
        refs_fit(*refs),
        all_fit(rec_refs@),
    ensures
        term_views(r@) == duplex_views(*refs, rec_refs@, lane_weights(*mds, alpha@)),
{
    if rec_refs.len() == 0 {
        let lanes = single_terms(refs);
        let m = duplex_mds_weights(mds, alpha);
        assert(weight_values(m@).len() == STATE_SIZE);
        weigh(&lanes, &m)
    } else {
        let mut sets: Vec<DuplexFamilyRefs> = Vec::new();
        sets.push(*refs);
        let mut i: usize = 0;
        assert(sets@ =~= seq![*refs] + rec_refs@.take(0));
        while i < rec_refs.len()
            invariant
                i <= rec_refs@.len(),
                sets@ == seq![*refs] + rec_refs@.take(i as int),
            decreases rec_refs@.len() - i,
        {
            sets.push(rec_refs[i]);
            assert(rec_refs@.take(i + 1) =~= rec_refs@.take(i as int).push(rec_refs@[i as int]));
            assert(sets@ =~= seq![*refs] + rec_refs@.take(i + 1));
            i = i + 1;
        }
        assert(rec_refs@.take(rec_refs@.len() as int) =~= rec_refs@);
        assert forall|k: int| 0 <= k < sets@.len() implies refs_fit(#[trigger] sets@[k]) by {
            if k > 0 {
                assert(sets@[k] == rec_refs@[k - 1]);
            }
        }
        duplex_substitution_terms_multi(mds, &sets, alpha)
    }
}

/// The relation of one family as rows, with the powers of the challenge.
pub fn duplex_sub_terms_trace(
    b: &mut FieldR1csBuilder,
    mds: &MdsTable,
    refs: &DuplexFamilyRefs,
    alpha: &LinExpr,
) -> (r: (Vec<RelationTermTrace>, Vec<LinExpr>))
    requires
        old(b).wf(),
        alpha.bound() <= old(b).wires(),
        refs_fit(*refs),
    ensures
        refines(*final(b), *old(b)),
        final(b).honest() <==> old(b).honest(),
        r.1@.len() == STATE_SIZE,
        all_below(r.1@, final(b).wires()),
        forall|i: int|
            0 <= i < r.0@.len() ==> (#[trigger] r.0@[i]).coeff.bound() <= final(b).wires(),
        forall|z: spec_fn(int) -> u128| #[trigger]
            final(b).holds(z) ==> trace_views(r.0@, z) == weighted(
                single_lanes(*refs),
                lane_weights(*mds, alpha.at(z)),
            ) && forall|k: int|
                0 <= k < STATE_SIZE ==> #[trigger] r.1@[k].at(z) == power(
                    alpha.at(z),
                    (k + 1) as nat,
                ),
        trace_views(r.0@, final(b).witness()) == weighted(
            single_lanes(*refs),
            lane_weights(*mds, alpha.at(old(b).witness())),
        ),
        powers_step(old(b).shape(), alpha@, 4) == (final(b).shape(), forms(r.1@)),
{
    let (m, ap) = mds_alpha_weights(b, mds, alpha);
    let lanes = single_terms(refs);
    let terms = weigh_trace(&lanes, &m);
    proof {
        assert forall|i: int| 0 <= i < terms@.len() implies (#[trigger] terms@[i]).coeff.bound()
            <= b.wires() by {
            assert(lanes@[i].lane < STATE_SIZE);
            assert(terms@[i].coeff@ == m@[lanes@[i].lane as int]@);
            assert(m@[lanes@[i].lane as int].bound() <= b.wires());
        }
        assert(trace_views(terms@, b.witness()) == weighted(
            lanes@,
            values_at(m@, b.witness()),
        ));
        assert forall|z: spec_fn(int) -> u128| #[trigger] b.holds(z) implies trace_views(
            terms@,
            z,
        ) == weighted(single_lanes(*refs), lane_weights(*mds, alpha.at(z))) by {
            assert(trace_views(terms@, z) == weighted(lanes@, values_at(m@, z)));
        }
    }
    (terms, ap)
}

// ---------------------------------------------------------------------------
// What a selector chooses.
// ---------------------------------------------------------------------------
/// The patterns of `delta` are the differences of those of `one` and `two`,
/// over the same columns.
pub open spec fn differs(
    one: DuplexFamilyRefs,
    two: DuplexFamilyRefs,
    delta: DuplexFamilyRefs,
    cell: spec_fn(ColRef) -> u128,
) -> bool {
    let at = |i: int| cell(ColRef::Fixed(i as usize));
    &&& one.a == two.a == delta.a
    &&& one.c == two.c == delta.c
    &&& at(delta.start as int) == at(one.start as int) ^ at(two.start as int)
    &&& at(delta.abs as int) == at(one.abs as int) ^ at(two.abs as int)
    &&& at(delta.abs + 1) == at(one.abs + 1) ^ at(two.abs + 1)
    &&& at(delta.consts as int) == at(one.consts as int) ^ at(two.consts as int)
    &&& at(delta.consts + 1) == at(one.consts + 1) ^ at(two.consts + 1)
    &&& at(delta.consts + 2) == at(one.consts + 2) ^ at(two.consts + 2)
    &&& at(delta.consts + 3) == at(one.consts + 3) ^ at(two.consts + 3)
}

/// Gated and fixed cells of one lane, term by term.
proof fn lemma_lane_term_value(t: LaneTerm, m: Seq<u128>, cell: spec_fn(ColRef) -> u128)
    requires
        t.gate is Some,
    ensures
        t.column is Some ==> term_at(t.weighted(m), cell) == fmul(
            m[t.lane as int],
            fmul(cell(ColRef::Fixed(t.gate->0)), cell(t.column->0)),
        ),
        t.column is None ==> term_at(t.weighted(m), cell) == fmul(
            m[t.lane as int],
            cell(ColRef::Fixed(t.gate->0)),
        ),
{
    let f = t.factors();
    let g = cell(ColRef::Fixed(t.gate->0));
    assert(f[0] == ColRef::Fixed(t.gate->0));
    assert(cells_at(f, cell, 0) == 1);
    lemma_fmul_unit(g);
    assert(cells_at(f, cell, 1) == g);
    if t.column is Some {
        assert(f[1] == t.column->0);
        assert(cells_at(f, cell, 2) == fmul(g, cell(t.column->0)));
    }
}

/// A term is additive in its gate.
proof fn lemma_gate_additive(
    one: LaneTerm,
    two: LaneTerm,
    delta: LaneTerm,
    m: Seq<u128>,
    cell: spec_fn(ColRef) -> u128,
)
    requires
        one.gate is Some && two.gate is Some && delta.gate is Some,
        one.lane == two.lane == delta.lane,
        one.column == two.column && one.column == delta.column,
        cell(ColRef::Fixed(delta.gate->0)) == cell(ColRef::Fixed(one.gate->0)) ^ cell(
            ColRef::Fixed(two.gate->0),
        ),
    ensures
        term_at(one.weighted(m), cell) ^ term_at(delta.weighted(m), cell) == term_at(
            two.weighted(m),
            cell,
        ),
{
    lemma_lane_term_value(one, m, cell);
    lemma_lane_term_value(two, m, cell);
    lemma_lane_term_value(delta, m, cell);
    let w = m[one.lane as int];
    let (x, y) = (cell(ColRef::Fixed(one.gate->0)), cell(ColRef::Fixed(two.gate->0)));
    if one.column is Some {
        let c = cell(one.column->0);
        lemma_fmul_distrib(x, y, c);
        lemma_fmul_distrib(fmul(x, c), fmul(y, c), w);
        lemma_xor(fmul(w, fmul(x, c)), fmul(w, fmul(y, c)), 0);
    } else {
        lemma_fmul_distrib(x, y, w);
        lemma_xor(fmul(w, x), fmul(w, y), 0);
    }
}

/// Sums add term by term.
proof fn lemma_sum_xor(
    one: Seq<TermView>,
    two: Seq<TermView>,
    delta: Seq<TermView>,
    cell: spec_fn(ColRef) -> u128,
)
    requires
        one.len() == two.len() == delta.len(),
        forall|i: int|
            0 <= i < one.len() ==> term_at(one[i], cell) ^ term_at(delta[i], cell)
                == #[trigger] term_at(two[i], cell),
    ensures
        sum_at(one, cell) ^ sum_at(delta, cell) == sum_at(two, cell),
    decreases one.len(),
{
    if one.len() == 0 {
        lemma_xor(0, 0, 0);
    } else {
        let n = one.len() - 1;
        assert forall|i: int| 0 <= i < n implies term_at(one.drop_last()[i], cell) ^ term_at(
            delta.drop_last()[i],
            cell,
        ) == #[trigger] term_at(two.drop_last()[i], cell) by {
            assert(term_at(two[i], cell) == term_at(two.drop_last()[i], cell));
        }
        lemma_sum_xor(one.drop_last(), two.drop_last(), delta.drop_last(), cell);
        assert(term_at(one[n], cell) ^ term_at(delta[n], cell) == term_at(two[n], cell));
        lemma_xor_swap(
            sum_at(one.drop_last(), cell),
            term_at(one.last(), cell),
            sum_at(delta.drop_last(), cell),
            term_at(delta.last(), cell),
        );
    }
}

/// Terms with zero coefficients add nothing.
proof fn lemma_sum_zero(ts: Seq<TermView>, cell: spec_fn(ColRef) -> u128)
    requires
        forall|i: int| 0 <= i < ts.len() ==> (#[trigger] ts[i]).coeff == 0,
    ensures
        sum_at(ts, cell) == 0,
    decreases ts.len(),
{
    if ts.len() > 0 {
        assert forall|i: int| 0 <= i < ts.len() - 1 implies (#[trigger] ts.drop_last()[i]).coeff
            == 0 by {
            assert(ts[i].coeff == 0);
        }
        lemma_sum_zero(ts.drop_last(), cell);
        assert(ts[ts.len() - 1].coeff == 0);
        lemma_fmul_unit(cells_at(ts.last().factors, cell, ts.last().factors.len()));
        lemma_xor(0, 0, 0);
    }
}

/// One pair: a zero selector leaves the base, a one selector gives the other
/// arm.
proof fn lemma_pair(
    one: DuplexFamilyRefs,
    two: DuplexFamilyRefs,
    delta: DuplexFamilyRefs,
    m: Seq<u128>,
    s: u128,
    cell: spec_fn(ColRef) -> u128,
)
    requires
        m.len() == STATE_SIZE,
        is_bit(s),
        refs_fit(one) && refs_fit(two) && refs_fit(delta),
        differs(one, two, delta, cell),
    ensures
        sum_at(weighted(pattern_lanes(one), m), cell) ^ sum_at(
            weighted(pattern_lanes(delta), scaled(m, s)),
            cell,
        ) == sum_at(
            weighted(
                pattern_lanes(if s == 0 {
                    one
                } else {
                    two
                }),
                m,
            ),
            cell,
        ),
{
    let (p, q, d) = (pattern_lanes(one), pattern_lanes(two), pattern_lanes(delta));
    if s == 0 {
        let ts = weighted(d, scaled(m, s));
        assert forall|i: int| 0 <= i < ts.len() implies (#[trigger] ts[i]).coeff == 0 by {
            assert(d[i].lane < STATE_SIZE);
            lemma_fmul_unit(m[d[i].lane as int]);
        }
        lemma_sum_zero(ts, cell);
        lemma_xor(sum_at(weighted(p, m), cell), 0, 0);
    } else {
        assert(scaled(m, s) =~= m) by {
            assert forall|k: int| 0 <= k < m.len() implies scaled(m, s)[k] == m[k] by {
                lemma_fmul_unit(m[k]);
            }
        }
        let at = |i: int| cell(ColRef::Fixed(i as usize));
        assert forall|i: int| 0 <= i < p.len() implies term_at(weighted(p, m)[i], cell) ^ term_at(
            weighted(d, m)[i],
            cell,
        ) == #[trigger] term_at(weighted(q, m)[i], cell) by {
            assert(at(delta.start as int) == at(one.start as int) ^ at(two.start as int));
            assert(at(delta.abs as int) == at(one.abs as int) ^ at(two.abs as int));
            assert(at(delta.abs + 1) == at(one.abs + 1) ^ at(two.abs + 1));
            assert(at(delta.consts as int) == at(one.consts as int) ^ at(two.consts as int));
            assert(at(delta.consts + 1) == at(one.consts + 1) ^ at(two.consts + 1));
            assert(at(delta.consts + 2) == at(one.consts + 2) ^ at(two.consts + 2));
            assert(at(delta.consts + 3) == at(one.consts + 3) ^ at(two.consts + 3));
            lemma_gate_additive(p[i], q[i], d[i], m, cell);
        }
        lemma_sum_xor(weighted(p, m), weighted(q, m), weighted(d, m), cell);
    }
}

/// A selector of zero or one over base patterns and differences gives the
/// relation of the arm that it names, cell by cell.
pub proof fn lemma_selected_arm(
    sets: Seq<DuplexFamilyRefs>,
    others: Seq<DuplexFamilyRefs>,
    m: Seq<u128>,
    s: u128,
    cell: spec_fn(ColRef) -> u128,
)
    requires
        m.len() == STATE_SIZE,
        is_bit(s),
        0 < others.len(),
        sets.len() == 2 * others.len(),
        all_fit(sets),
        all_fit(others),
        forall|i: int|
            0 <= i < others.len() ==> differs(
                sets[2 * i],
                #[trigger] others[i],
                sets[2 * i + 1],
                cell,
            ),
    ensures
        sum_at(selected_views(sets, m, s), cell) == sum_at(
            multi_views(arm(sets, others, s), m),
            cell,
        ),
{
    let chosen = arm(sets, others, s);
    lemma_pairs(sets, others, m, s, cell, others.len());
    let carry = weighted(carry_lanes(sets[0]), m);
    let first = 0int;
    assert(differs(sets[2 * first], others[first], sets[2 * first + 1], cell));
    assert(chosen[0].c == sets[0].c);
    assert(carry_lanes(chosen[0]) == carry_lanes(sets[0]));
    lemma_sum_append(carry, pairs_views(sets, m, s, others.len()), cell);
    lemma_sum_append(carry, sets_views(chosen, m, others.len()), cell);
    assert(sets.len() / 2 == others.len());
}

/// The families that a selector names: those of the base patterns for zero,
/// the others for one.
pub open spec fn arm(
    sets: Seq<DuplexFamilyRefs>,
    others: Seq<DuplexFamilyRefs>,
    s: u128,
) -> Seq<DuplexFamilyRefs> {
    Seq::new(
        others.len(),
        |i: int|
            if s == 0 {
                sets[2 * i]
            } else {
                others[i]
            },
    )
}

proof fn lemma_pairs(
    sets: Seq<DuplexFamilyRefs>,
    others: Seq<DuplexFamilyRefs>,
    m: Seq<u128>,
    s: u128,
    cell: spec_fn(ColRef) -> u128,
    n: nat,
)
    requires
        m.len() == STATE_SIZE,
        is_bit(s),
        n <= others.len(),
        sets.len() == 2 * others.len(),
        all_fit(sets),
        all_fit(others),
        forall|i: int|
            0 <= i < others.len() ==> differs(
                sets[2 * i],
                #[trigger] others[i],
                sets[2 * i + 1],
                cell,
            ),
    ensures
        sum_at(pairs_views(sets, m, s, n), cell) == sum_at(
            sets_views(arm(sets, others, s), m, n),
            cell,
        ),
    decreases n,
{
    if n > 0 {
        let k = n - 1;
        lemma_pairs(sets, others, m, s, cell, k as nat);
        let before = pairs_views(sets, m, s, k as nat);
        let base = weighted(pattern_lanes(sets[2 * k]), m);
        let diff = weighted(pattern_lanes(sets[2 * k + 1]), scaled(m, s));
        let chosen = arm(sets, others, s);
        assert(differs(sets[2 * k], others[k], sets[2 * k + 1], cell));
        assert(refs_fit(sets[2 * k]) && refs_fit(sets[2 * k + 1]) && refs_fit(others[k]));
        lemma_pair(sets[2 * k], others[k], sets[2 * k + 1], m, s, cell);
        lemma_sum_append(before, base, cell);
        lemma_sum_append(before + base, diff, cell);
        lemma_sum_append(
            sets_views(chosen, m, k as nat),
            weighted(pattern_lanes(chosen[k]), m),
            cell,
        );
        lemma_xor(sum_at(before, cell), sum_at(base, cell), sum_at(diff, cell));
    }
}

} // verus!
