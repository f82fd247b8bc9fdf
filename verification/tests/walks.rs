//! The relations of the walks and the openings they leave.
use noid_recursive::circuit::{FieldR1csBuilder, LinExpr};
use noid_recursive::development_allocation::alloc_block;
use noid_recursive::duplex_union::duplex_family_refs;
use noid_recursive::field::F128;
use noid_recursive::duplex::{DuplexLayout, LanePosition};
use noid_recursive::merkle_shapes::{
    union_sub_terms_native, union_sub_terms_trace, union_zero_terms, union_zero_terms_trace,
    FfFamily, MerkleFamilies, PairedFamily, PairedMerkleUpdateRefs, PathFamily,
};
use noid_recursive::merkle_terms::{
    gate_open_terms, merkle_protocol_substitution_terms, merkle_protocol_zero_terms, FamilyKind,
    FfMerkleFamilyRefs, MerkleFamilyRefs, MerkleProtocolFamily,
};
use noid_recursive::relation_terms::{
    duplex_mds_weights, mds_alpha_weights, ColRef, MdsTable, RelationTerm, SourceTreeRefs,
    SplitDuplexTailRefs, SpongeLeafRefs,
};
use noid_recursive::spine_union::SpineUnionSpec;
use noid_recursive::union_terms::{
    duplex_sub_terms_trace, duplex_substitution_terms_multi, duplex_substitution_terms_selected,
    duplex_substitution_terms_sets, union_native_terms, union_ref_terms, union_trace_terms,
};
use noid_recursive::walk_claims::{
    verify_duplex_union_walk_prefix, verify_duplex_union_walk_suffix,
    verify_merkle_union_walk_prefix, verify_merkle_union_walk_suffix,
    verify_walk_a_union_walk_prefix, verify_walk_a_union_walk_suffix, walk_target, ColumnClaim,
    LaneClaimGroup, RelationReplay, ShiftReplay, UnionVerifyError, WalkPrefix,
};
use noid_recursive::walk_discharge::{
    bind_duplex_challenges, carry_selection_terms_trace, discharge_duplex_prefix,
    discharge_duplex_suffix, discharge_merkle_prefix, discharge_merkle_suffix,
    read_duplex_challenges, rebase_claims, walk_target_trace, TraceClaim, TraceRelation,
    TraceShift,
};

fn f(lo: u64) -> F128 {
    F128::new(lo, 0)
}

fn mds() -> MdsTable {
    let mut entries = [F128::zero(); 16];
    for (k, entry) in entries.iter_mut().enumerate() {
        *entry = f([5, 7, 1, 3, 4, 6, 1, 1, 1, 3, 5, 7, 1, 1, 4, 6][k]);
    }
    MdsTable { entries }
}

fn spine_spec() -> SpineUnionSpec {
    SpineUnionSpec {
        tree_refs: SourceTreeRefs {
            code: [2, 3],
            kid: [0, 1],
            c: [4, 5, 6, 7],
            even_int: 0,
            odd_int: 1,
            leafodd: 2,
            iv: [3, 4],
        },
        wrap_refs: SpongeLeafRefs { in_: [2, 3], c: [4, 5, 6, 7], odd: 6, iv: [7, 8] },
        wrap_region: 5,
        kid_meta: [0, 1],
        c_meta: [4, 5],
        cap_log: 0,
        tx_log: 8,
        tree_base: 0,
        block_log_a: 6,
        walk_high_bits: vec![F128::one()],
    }
}

#[test]
fn b255_spine_exposure_repoint_includes_meta_region_bit() {
    let spec = spine_spec();
    let expo_point: Vec<F128> = (0..spec.expo_wlog()).map(|i| f((i + 2) as u64)).collect();
    let kid = spec.repoint_kid(&expo_point);
    let c = spec.repoint_c(&expo_point);

    assert_eq!(kid.len(), 15);
    assert_eq!(c.len(), 15);
    assert_eq!(kid[4], F128::zero(), "KID low-half coordinate");
    assert_eq!(c[0], F128::one(), "C odd-window coordinate");
    assert_eq!(kid[5], F128::zero(), "tree half of compact tx block");
    assert_eq!(c[5], F128::zero(), "tree half of compact tx block");
    assert_eq!(kid[14], F128::one(), "upper block-meta region");
    assert_eq!(c[14], F128::one(), "upper block-meta region");
    assert_eq!(kid[..4], expo_point[..4]);
    assert_eq!(kid[6..14], expo_point[4..]);
}

fn address(point: &[F128]) -> usize {
    point.iter().rev().fold(0, |acc, bit| 2 * acc + (bit.bits & 1) as usize)
}

#[test]
fn a_boolean_exposure_point_leads_to_its_child() {
    let spec = SpineUnionSpec { cap_log: 1, tx_log: 2, tree_base: 64, block_log_a: 8, ..spine_spec() };
    assert_eq!(spec.base_bits(), vec![F128::one(), F128::zero()]);
    for (local, instance, tx) in [(0, 0, 0), (13, 1, 2), (15, 0, 3)] {
        let index = local + (instance << 4) + (tx << 5);
        let point: Vec<F128> = (0..7).map(|k| F128::from_bool(index >> k & 1 == 1)).collect();
        let base = 64 + 32 * instance + (tx << 8) + (1 << 10);
        assert_eq!(address(&spec.repoint_kid(&point)), base + local);
        assert_eq!(address(&spec.repoint_c(&point)), base + 2 * local + 1);
    }
}

#[test]
fn lane_weights_are_powers_against_the_columns_of_the_matrix() {
    let alpha = f(0x1234_5678);
    let m = duplex_mds_weights(&mds(), alpha);
    for j in 0..4 {
        let mut expected = F128::zero();
        let mut power = F128::one();
        for e in 0..4 {
            power = power.times(alpha);
            expected = expected.plus(power.times(mds().entries[4 * e + j]));
        }
        assert_eq!(m[j], expected);
    }
    let mut b = FieldR1csBuilder::new();
    let alpha_e = alloc_block(&mut b, 0x1234_5678);
    let (weights, powers) = mds_alpha_weights(&mut b, &mds(), &alpha_e);
    for j in 0..4 {
        assert_eq!(weights[j].eval(b.values()), m[j]);
    }
    assert_eq!(powers[1].eval(b.values()), alpha.times(alpha));
    let (r1cs, z) = b.build();
    assert!(r1cs.satisfies(&z));
}

/// The value of a relation where every cell is a number of its own.
fn value(terms: &[RelationTerm], cell: &dyn Fn(ColRef) -> F128) -> F128 {
    terms.iter().fold(F128::zero(), |sum, term| {
        let product = term.factors.iter().fold(term.coeff, |p, &c| p.times(cell(c)));
        sum.plus(product)
    })
}

fn plain_cell(reference: ColRef) -> F128 {
    match reference {
        ColRef::Committed(c) => f(1000 + c as u64),
        ColRef::CommittedShift(c) => f(2000 + c as u64),
        ColRef::CommittedShift2(c) => f(3000 + c as u64),
        ColRef::Internal(c) => f(4000 + c as u64),
        ColRef::Fixed(c) => f(5000 + c as u64),
        ColRef::Window { col, .. } => f(6000 + col as u64),
    }
}

#[test]
fn a_selector_chooses_the_patterns_of_its_arm() {
    let base = duplex_family_refs(0, 0);
    let delta = duplex_family_refs(0, 7);
    let other = duplex_family_refs(0, 14);
    let alpha = f(77);
    // The differences: pattern 7 + k is pattern k plus pattern 14 + k.
    let cell = |reference: ColRef| match reference {
        ColRef::Fixed(c) if (7..14).contains(&c) => {
            plain_cell(ColRef::Fixed(c - 7)).plus(plain_cell(ColRef::Fixed(c + 7)))
        }
        _ => plain_cell(reference),
    };
    for (selector, chosen) in [(F128::zero(), base), (F128::one(), other)] {
        let selected =
            duplex_substitution_terms_selected(&mds(), &vec![base, delta], selector, alpha);
        let direct = duplex_substitution_terms_multi(&mds(), &vec![chosen], alpha);
        assert_eq!(value(&selected, &cell), value(&direct, &cell));
    }
}

#[test]
fn one_family_alone_and_in_a_list_has_the_same_value() {
    let refs = duplex_family_refs(0, 0);
    let alone = duplex_substitution_terms_sets(&mds(), &refs, &vec![], f(9));
    let listed = duplex_substitution_terms_multi(&mds(), &vec![refs], f(9));
    assert_eq!(alone.len(), 14);
    assert_eq!(listed.len(), 14);
    assert_eq!(value(&alone, &plain_cell), value(&listed, &plain_cell));
    assert_eq!(alone[0].factors, vec![ColRef::CommittedShift(2)]);
    assert_eq!(alone[1].factors, vec![ColRef::Fixed(0), ColRef::CommittedShift(2)]);
    assert_eq!(listed[1].factors, vec![ColRef::CommittedShift(3)]);
    let two = duplex_substitution_terms_sets(&mds(), &refs, &vec![duplex_family_refs(0, 7)], f(9));
    assert_eq!(two.len(), 4 + 10 + 10);
    let mut b = FieldR1csBuilder::new();
    let alpha = alloc_block(&mut b, 9);
    let (terms, _) = duplex_sub_terms_trace(&mut b, &mds(), &refs, &alpha);
    for (row, native) in terms.iter().zip(&alone) {
        assert_eq!(row.coeff.eval(b.values()), native.coeff);
        assert_eq!(row.factors, native.factors);
    }
}

#[test]
fn the_leaf_relation_lists_its_families_in_order() {
    let sponge = SpongeLeafRefs { in_: [2, 3], c: [4, 5, 6, 7], odd: 10, iv: [11, 12] };
    let tail = SplitDuplexTailRefs {
        a: [2, 3],
        c: [4, 5, 6, 7],
        region: 20,
        carry: 21,
        first: 22,
        consts: [23, 24],
    };
    let alpha = f(31);
    let spine = Some(spine_spec());
    let leafs = vec![(sponge, 13)];
    let native =
        union_native_terms(&mds(), &leafs, &vec![tail], &Some((sponge, 14)), &spine, alpha);
    assert_eq!(native.len(), 8 + 10 + 8 + 12 + 8);
    assert_eq!(native[0].factors, vec![ColRef::Fixed(13), ColRef::Committed(2)]);
    assert_eq!(native[1].factors, vec![ColRef::Fixed(10), ColRef::CommittedShift(4)]);
    assert_eq!(native[8].factors, vec![ColRef::Fixed(20), ColRef::Committed(2)]);
    assert_eq!(native[14].factors, vec![ColRef::Fixed(22), ColRef::CommittedShift(2)]);
    assert_eq!(native[18].factors, vec![ColRef::Fixed(14), ColRef::Committed(2)]);
    assert_eq!(native[26].factors, vec![ColRef::Fixed(0), ColRef::Committed(0)]);
    let m = duplex_mds_weights(&mds(), alpha);
    assert_eq!(native[14].coeff, m[2]);
    let shapes = union_ref_terms(&mds(), &leafs, &vec![tail], &Some((sponge, 14)), &spine);
    let m_exprs = m.iter().map(|&w| LinExpr::constant(w)).collect::<Vec<_>>();
    let rows = union_trace_terms(&m_exprs, &leafs, &vec![tail], &Some((sponge, 14)), &spine);
    for k in 0..native.len() {
        assert_eq!(shapes[k].factors, native[k].factors);
        assert_eq!(rows[k].factors, native[k].factors);
        assert_eq!(rows[k].coeff, LinExpr::constant(native[k].coeff));
    }
}

fn term(coeff: u64, factors: &[ColRef]) -> RelationTerm {
    RelationTerm { coeff: f(coeff), factors: factors.to_vec() }
}

#[test]
fn merkle_families_are_read_by_kind_and_gated_by_region() {
    let families = vec![
        MerkleProtocolFamily::paired_update(0),
        MerkleProtocolFamily::feed_forward(12),
        MerkleProtocolFamily::two_permutation(18),
    ];
    assert_eq!(families.iter().map(|x| x.region()).collect::<Vec<_>>(), vec![11, 17, 26]);
    assert_eq!(families[1].kind(), FamilyKind::FeedForward);
    let own = vec![
        vec![term(1, &[ColRef::Committed(4)])],
        vec![term(2, &[ColRef::Fixed(12), ColRef::Committed(5)])],
        vec![term(3, &[ColRef::Fixed(18)]), term(4, &[ColRef::Committed(8)])],
    ];
    let zero = merkle_protocol_zero_terms(&families, &own);
    let order = zero.iter().map(|t| t.coeff.bits).collect::<Vec<_>>();
    assert_eq!(order, vec![3, 4, 2, 1]);
    assert_eq!(zero[3].factors, vec![ColRef::Committed(4)]);
    let m = (1..5).map(|j| f(100 * j)).collect::<Vec<_>>();
    let walk = merkle_protocol_substitution_terms(&families, &own, &m);
    let order = walk.iter().map(|t| t.coeff.bits).collect::<Vec<_>>();
    assert_eq!(order, vec![100, 200, 300, 400, 2, 3, 4, 1]);
    assert_eq!(walk[2].factors, vec![ColRef::Fixed(17), ColRef::CommittedShift(2)]);
    assert_eq!(walk[4].factors, vec![ColRef::Fixed(12), ColRef::Committed(5)]);
    assert_eq!(walk[5].factors, vec![ColRef::Fixed(18)]);
    assert_eq!(walk[6].factors, vec![ColRef::Fixed(26), ColRef::Committed(8)]);
    assert_eq!(walk[7].factors, vec![ColRef::Fixed(11), ColRef::Committed(4)]);
}

#[test]
fn a_gated_term_is_the_term_times_its_region() {
    let terms = vec![term(9, &[ColRef::Committed(1), ColRef::CommittedShift(2)])];
    let gated = gate_open_terms(&terms, 3);
    let region = plain_cell(ColRef::Fixed(3));
    assert_eq!(value(&gated, &plain_cell), region.times(value(&terms, &plain_cell)));
}

type Refusal = u32;

fn replay(references: &[ColRef], values: &[u64], point: Result<&[u64], Refusal>) -> RelationReplay<Refusal> {
    RelationReplay {
        references: references.to_vec(),
        values: values.iter().map(|&v| f(v)).collect(),
        verdict: point.map(|p| p.iter().map(|&v| f(v)).collect()),
    }
}

fn shift(last: u64, point: Result<&[u64], Refusal>) -> ShiftReplay<Refusal> {
    ShiftReplay {
        final_value: f(last),
        verdict: point.map(|p| p.iter().map(|&v| f(v)).collect()),
    }
}

fn claim(column: usize, point: &[u64], value: u64) -> ColumnClaim {
    ColumnClaim { column, point: point.iter().map(|&v| f(v)).collect(), value: f(value) }
}

fn selection() -> RelationReplay<Refusal> {
    replay(
        &[ColRef::Committed(4), ColRef::Internal(2), ColRef::Committed(5), ColRef::Internal(0)],
        &[40, 41, 42, 43],
        Ok(&[7, 8]),
    )
}

fn prefix() -> WalkPrefix {
    verify_walk_a_union_walk_prefix(&selection()).unwrap_or_else(|_| unreachable!())
}

#[test]
fn a_selection_leaves_openings_and_the_lanes_of_the_walk() {
    let prefix = prefix();
    assert_eq!(prefix.pending, vec![claim(4, &[7, 8], 40), claim(5, &[7, 8], 42)]);
    assert_eq!(
        *prefix.walk_group(),
        LaneClaimGroup { point: vec![f(7), f(8)], values: vec![f(43), f(0), f(41), f(0)] }
    );
    let refused = replay(&[ColRef::Committed(4)], &[1], Err(55));
    assert_eq!(
        verify_duplex_union_walk_prefix(&refused).err(),
        Some(UnionVerifyError::Selection(55))
    );
    for stray in [ColRef::Internal(4), ColRef::CommittedShift(1), ColRef::Fixed(0)] {
        let shape = replay(&[stray], &[1], Ok(&[7]));
        assert_eq!(verify_walk_a_union_walk_prefix(&shape).err(), Some(UnionVerifyError::Shape));
    }
}

#[test]
fn the_target_weighs_the_lanes_at_the_end_of_the_walk() {
    let terminal = LaneClaimGroup { point: vec![f(1)], values: vec![f(3), f(5), f(7), f(9)] };
    let alpha = f(11);
    let a2 = alpha.times(alpha);
    let a3 = a2.times(alpha);
    let expected = alpha
        .times(f(3))
        .plus(a2.times(f(5)))
        .plus(a3.times(f(7)))
        .plus(a3.times(alpha).times(f(9)));
    assert_eq!(walk_target(alpha, &terminal), expected);
}

#[test]
fn shifts_are_opened_where_their_checks_end() {
    let substitution = replay(
        &[ColRef::CommittedShift(6), ColRef::Committed(2), ColRef::CommittedShift2(7)],
        &[60, 61, 62],
        Ok(&[9, 9]),
    );
    let shifts = vec![shift(70, Ok(&[1, 2])), shift(71, Ok(&[3, 4]))];
    let claims = verify_walk_a_union_walk_suffix(&None, prefix(), &substitution, &shifts, &None)
        .unwrap_or_else(|_| unreachable!());
    assert_eq!(
        claims[2..],
        [claim(6, &[1, 2], 70), claim(2, &[9, 9], 61), claim(7, &[3, 4], 71)]
    );
    let outcome = |shifts: Vec<ShiftReplay<Refusal>>| {
        verify_walk_a_union_walk_suffix(&None, prefix(), &substitution, &shifts, &None).err()
    };
    assert_eq!(outcome(vec![shift(70, Ok(&[1]))]), Some(UnionVerifyError::Shape));
    assert_eq!(
        outcome(vec![shift(70, Ok(&[1])), shift(71, Ok(&[1])), shift(72, Ok(&[1]))]),
        Some(UnionVerifyError::Shape)
    );
    assert_eq!(
        outcome(vec![shift(70, Ok(&[1])), shift(71, Err(8))]),
        Some(UnionVerifyError::Shift(8))
    );
    assert_eq!(
        verify_duplex_union_walk_suffix(prefix(), &substitution, &shifts).err(),
        Some(UnionVerifyError::Shape),
        "a duplex walk has no double shift"
    );
    let refused = replay(&[], &[], Err(3));
    assert_eq!(
        verify_duplex_union_walk_suffix(prefix(), &refused, &vec![]).err(),
        Some(UnionVerifyError::Substitution(3))
    );
}

#[test]
fn the_exposure_is_there_exactly_where_the_spine_is() {
    let substitution = replay(&[ColRef::Committed(2)], &[61], Ok(&[9]));
    let none: Vec<ShiftReplay<Refusal>> = vec![];
    let spec = || SpineUnionSpec { tx_log: 0, walk_high_bits: vec![], ..spine_spec() };
    let exposure = |verdict| {
        Some(replay(
            &[
                ColRef::Committed(1),
                ColRef::Window { col: 2, stride_log: 1, offset: 1 },
            ],
            &[80, 81],
            verdict,
        ))
    };
    let point: &[u64] = &[11, 12, 13, 14];
    let claims = verify_walk_a_union_walk_suffix(
        &Some(spec()),
        prefix(),
        &substitution,
        &none,
        &exposure(Ok(point)),
    )
    .unwrap_or_else(|_| unreachable!());
    assert_eq!(
        claims[3..],
        [claim(1, &[11, 12, 13, 14, 0, 0], 80), claim(4, &[1, 11, 12, 13, 14, 0], 81)]
    );
    for (spine, expo, error) in [
        (None, exposure(Ok(point)), UnionVerifyError::Shape),
        (Some(spec()), None, UnionVerifyError::Shape),
        (Some(spec()), exposure(Err(5)), UnionVerifyError::SpineExposure(5)),
        (
            Some(spec()),
            Some(replay(&[ColRef::Committed(2)], &[1], Ok(point))),
            UnionVerifyError::Shape,
        ),
    ] {
        assert_eq!(
            verify_walk_a_union_walk_suffix(&spine, prefix(), &substitution, &none, &expo).err(),
            Some(error)
        );
    }
}

#[test]
fn the_merkle_walk_opens_its_zero_relation_first() {
    let zero = replay(&[ColRef::Committed(8), ColRef::CommittedShift(4)], &[1, 2], Ok(&[5]));
    let zero_shifts = vec![shift(20, Ok(&[6]))];
    let prefix = verify_merkle_union_walk_prefix(&zero, &zero_shifts, &selection())
        .unwrap_or_else(|_| unreachable!());
    assert_eq!(
        prefix.pending,
        vec![
            claim(8, &[5], 1),
            claim(4, &[6], 20),
            claim(4, &[7, 8], 40),
            claim(5, &[7, 8], 42)
        ]
    );
    assert_eq!(prefix.walk_group().values[2], f(41));
    let substitution = replay(&[ColRef::Committed(0)], &[3], Ok(&[4]));
    let claims = verify_merkle_union_walk_suffix(prefix, &substitution, &vec![])
        .unwrap_or_else(|_| unreachable!());
    assert_eq!(claims[4..], [claim(0, &[4], 3)]);

    let refusal = |zero: &RelationReplay<Refusal>, selection: &RelationReplay<Refusal>| {
        verify_merkle_union_walk_prefix(zero, &zero_shifts, selection).err()
    };
    let bad = replay(&[], &[], Err(9));
    assert_eq!(refusal(&bad, &selection()), Some(UnionVerifyError::Zero(9)));
    assert_eq!(refusal(&zero, &bad), Some(UnionVerifyError::Selection(9)));
    let short = replay(&[ColRef::Committed(8)], &[1, 2], Ok(&[5]));
    assert_eq!(refusal(&short, &selection()), Some(UnionVerifyError::Shape));
}

fn merkle_families() -> MerkleFamilies {
    MerkleFamilies {
        ff: vec![FfFamily {
            refs: FfMerkleFamilyRefs {
                cr: [4, 5],
                sib: [6, 7],
                d: 8,
                c: [0, 1, 2, 3],
                node: 0,
                nodens: 1,
                start: 2,
                iv: [3, 4],
            },
            region: 5,
        }],
        paths: vec![PathFamily {
            refs: MerkleFamilyRefs {
                e: [4, 5],
                sib: [6, 7],
                d: 8,
                c: [0, 1, 2, 3],
                even: 6,
                evenns: 7,
                evenstart: 8,
                odd: 9,
                oddns: 10,
                oddstart: 11,
                iv: [12, 13],
            },
            region: 14,
        }],
        paired: vec![PairedFamily {
            refs: PairedMerkleUpdateRefs {
                e: [4, 5],
                sib: [6, 7],
                d: 8,
                c: [0, 1, 2, 3],
                old_even: 15,
                bridge: 16,
                copy_step: 17,
                even: 18,
                even_start: 19,
                even_nonstart: 20,
                odd: 21,
                odd_start: 22,
                odd_nonstart: 23,
                iv: [24, 25],
            },
            region: 26,
        }],
    }
}

#[test]
fn merkle_relations_in_rows_are_those_of_the_verifier() {
    let families = merkle_families();
    let direction = || vec![term(1, &[ColRef::Fixed(6), ColRef::Committed(8)])];
    let zero = union_zero_terms(direction(), &families, f(7));
    assert_eq!(zero.len(), 1 + 10 + 12);
    assert_eq!(zero[1].coeff, f(7));
    assert_eq!(zero[6].coeff, f(7).times(f(7)));
    assert_eq!(zero[11].coeff, F128::one());
    let walk = union_sub_terms_native(&mds(), &families, f(9));
    assert_eq!(walk.len(), 22 + 26 + 28);

    let mut b = FieldR1csBuilder::new();
    let lambda = alloc_block(&mut b, 7);
    let alpha = alloc_block(&mut b, 9);
    let zero_rows = union_zero_terms_trace(&mut b, &direction(), &families, &lambda);
    let (walk_rows, powers) = union_sub_terms_trace(&mut b, &mds(), &families, &alpha);
    for (native, rows) in [(&zero, &zero_rows), (&walk, &walk_rows)] {
        assert_eq!(native.len(), rows.len());
        for (term, row) in native.iter().zip(rows) {
            assert_eq!(row.coeff.eval(b.values()), term.coeff);
            assert_eq!(row.factors, term.factors);
        }
    }
    assert_eq!(powers[2].eval(b.values()), f(9).times(f(9)).times(f(9)));
    let (r1cs, z) = b.build();
    assert!(r1cs.satisfies(&z));
}

#[test]
fn a_feed_forward_slot_takes_its_children_in_the_order_of_its_direction() {
    let mut families = merkle_families();
    families.paths.clear();
    families.paired.clear();
    let alpha = f(9);
    let walk = union_sub_terms_native(&mds(), &families, alpha);
    let m = duplex_mds_weights(&mds(), alpha);
    for direction in [0u64, 1] {
        let cell = |reference: ColRef| match reference {
            ColRef::Fixed(0) | ColRef::Fixed(5) => F128::one(),
            ColRef::Fixed(_) => F128::zero(),
            ColRef::Committed(8) => f(direction),
            other => plain_cell(other),
        };
        let carried = [f(1004), f(1005)];
        let siblings = [f(1006), f(1007)];
        let (first, second) =
            if direction == 0 { (carried, siblings) } else { (siblings, carried) };
        let expected = m[0]
            .times(first[0])
            .plus(m[1].times(first[1]))
            .plus(m[2].times(second[0]))
            .plus(m[3].times(second[1]));
        assert_eq!(value(&walk, &cell), expected);
    }
    let zero = union_zero_terms(vec![], &families, f(7));
    // A slot that carries what the slot before feeds forward.
    let fed = |i: usize| {
        let carried = f(2004 + i as u64);
        let sibling = f(2006 + i as u64);
        f(2000 + i as u64).plus(carried).plus(f(2008).times(carried.plus(sibling)))
    };
    let cell = |reference: ColRef| match reference {
        ColRef::Committed(4) => fed(0),
        ColRef::Committed(5) => fed(1),
        other => plain_cell(other),
    };
    assert_eq!(value(&zero, &cell), F128::zero());
    assert_ne!(value(&zero, &plain_cell), F128::zero());
}

#[test]
fn a_paired_update_is_consistent_where_its_copies_are() {
    let mut families = merkle_families();
    families.ff.clear();
    families.paths.clear();
    let zero = union_zero_terms(vec![], &families, f(7));
    let consistent = |reference: ColRef| match reference {
        ColRef::Committed(8) | ColRef::CommittedShift(8) => F128::one(),
        ColRef::Committed(4) | ColRef::CommittedShift2(0) => f(70),
        ColRef::Committed(5) | ColRef::CommittedShift2(1) => f(71),
        ColRef::Committed(6) | ColRef::CommittedShift(6) => f(72),
        ColRef::Committed(7) | ColRef::CommittedShift(7) => f(73),
        other => plain_cell(other),
    };
    assert_eq!(value(&zero, &consistent), F128::zero());
    for broken in [
        ColRef::Committed(4),
        ColRef::CommittedShift2(1),
        ColRef::CommittedShift(6),
        ColRef::Committed(7),
        ColRef::CommittedShift(8),
    ] {
        let cell = |reference: ColRef| {
            let honest = consistent(reference);
            if reference == broken { honest.plus(F128::one()) } else { honest }
        };
        assert_ne!(value(&zero, &cell), F128::zero(), "{broken:?}");
    }
}

fn wires(b: &mut FieldR1csBuilder, values: &[u64]) -> Vec<LinExpr> {
    values.iter().map(|&v| alloc_block(b, v as u128)).collect()
}

fn evaluated(claims: &[TraceClaim], b: &FieldR1csBuilder) -> Vec<ColumnClaim> {
    claims
        .iter()
        .map(|c| ColumnClaim {
            column: c.column,
            point: c.point.iter().map(|e| e.eval(b.values())).collect(),
            value: c.value.eval(b.values()),
        })
        .collect()
}

#[test]
fn a_walk_in_rows_leaves_the_openings_of_its_values() {
    let mut b = FieldR1csBuilder::new();
    let relation = |b: &mut FieldR1csBuilder, references: &[ColRef], values: &[u64], point: &[u64]| {
        TraceRelation {
            references: references.to_vec(),
            values: wires(b, values),
            point: wires(b, point),
        }
    };
    let selected =
        [ColRef::Committed(4), ColRef::Internal(2), ColRef::Committed(5), ColRef::Internal(0)];
    let rows = relation(&mut b, &selected, &[40, 41, 42, 43], &[7, 8]);
    let prefix = discharge_duplex_prefix(&rows).unwrap_or_else(|| unreachable!());
    assert_eq!(prefix.lanes[2].eval(b.values()), f(41));
    let cells = [ColRef::CommittedShift(6), ColRef::Committed(2)];
    let substitution = relation(&mut b, &cells, &[60, 61], &[9, 9]);
    let shifts = vec![TraceShift { final_value: alloc_block(&mut b, 70), point: wires(&mut b, &[1, 2]) }];
    let claims =
        discharge_duplex_suffix(prefix, &substitution, &shifts).unwrap_or_else(|| unreachable!());
    let native = verify_duplex_union_walk_suffix(
        verify_duplex_union_walk_prefix(&selection()).unwrap_or_else(|_| unreachable!()),
        &replay(&cells, &[60, 61], Ok(&[9, 9])),
        &vec![shift(70, Ok(&[1, 2]))],
    )
    .unwrap_or_else(|_| unreachable!());
    assert_eq!(evaluated(&claims, &b), native);
    let moved = rebase_claims(claims, 20);
    assert_eq!(moved[0].column, 24);

    let prefix = discharge_duplex_prefix(&rows).unwrap_or_else(|| unreachable!());
    assert!(discharge_duplex_suffix(prefix, &substitution, &vec![]).is_none());
    let stray = relation(&mut b, &[ColRef::Fixed(0)], &[1], &[1]);
    assert!(discharge_duplex_prefix(&stray).is_none());

    let zero = relation(&mut b, &[ColRef::Committed(8)], &[1], &[5]);
    let prefix = discharge_merkle_prefix(&zero, &vec![], &rows).unwrap_or_else(|| unreachable!());
    let last = relation(&mut b, &[ColRef::Committed(0)], &[3], &[4]);
    let claims = discharge_merkle_suffix(prefix, &last, &vec![]).unwrap_or_else(|| unreachable!());
    assert_eq!(
        evaluated(&claims, &b),
        vec![
            claim(8, &[5], 1),
            claim(4, &[7, 8], 40),
            claim(5, &[7, 8], 42),
            claim(0, &[4], 3)
        ]
    );
}

#[test]
fn the_rows_around_a_walk_have_their_values() {
    let mut b = FieldR1csBuilder::new();
    let beta = alloc_block(&mut b, 5);
    let terms = carry_selection_terms_trace(&mut b, &[2, 3, 4, 5], &beta);
    assert_eq!(terms.len(), 8);
    assert_eq!(terms[2].factors, vec![ColRef::Committed(3)]);
    assert_eq!(terms[3].factors, vec![ColRef::Internal(1)]);
    assert_eq!(terms[3].coeff.eval(b.values()), f(5).times(f(5)));
    let powers = wires(&mut b, &[2, 3]);
    let lanes = wires(&mut b, &[7, 9]);
    let target = walk_target_trace(&mut b, &powers, &lanes);
    assert_eq!(target.eval(b.values()), f(2).times(f(7)).plus(f(3).times(f(9))));
    let (r1cs, z) = b.build();
    assert!(r1cs.satisfies(&z));
}

#[test]
fn challenges_are_opened_at_their_slots() {
    let layout = DuplexLayout {
        slots: vec![],
        challenges: vec![
            LanePosition { slot: 1, lane: 0 },
            LanePosition { slot: 3, lane: 1 },
        ],
        n_data: 0,
    };
    let mut b = FieldR1csBuilder::new();
    let (wires, claims) =
        read_duplex_challenges(&mut b, &layout, 2, 4, 3, 1, &vec![f(50), f(51)]);
    assert_eq!(
        evaluated(&claims, &b),
        vec![claim(2, &[1, 0, 1], 50), claim(3, &[1, 1, 1], 51)]
    );
    let bound = bind_duplex_challenges(&layout, 2, 4, 3, 0, &wires);
    assert_eq!(evaluated(&bound, &b)[1], claim(3, &[1, 1, 0], 51));
}
