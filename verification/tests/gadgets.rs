//! The small gadgets, against plain field arithmetic.
use noid_recursive::basis::FlatBasis;
use noid_recursive::circuit::{FieldR1cs, FieldR1csBuilder, LinExpr};
use noid_recursive::development_allocation::{alloc_block, const_block};
use noid_recursive::ext_trace::{
    alloc_block256, alloc_blocks256, alloc_ext, const_block256, constrain_nonzero_ext,
    eq_ind_partial_eval_ext_trace, evaluate_slice_ext_trace, mul_ext, pin_eq_ext, pow7_ext,
    ExtExpr, ExtRule, F256,
};
use noid_recursive::field::F128;
use noid_recursive::mle_trace::{
    alloc_blocks, eq_ind_partial_eval_trace, eq_ind_trace, evaluate_slice_trace,
    mle_evaluate_small_trace, select_by_bits,
};
use noid_recursive::round_trace::{BooleanPointEqCache, RoundPolyTrace};
use noid_recursive::trace::{
    integer_add_no_overflow, lt_strict_expr, mul, pin_eq, pin_lt_strict, range_check_bits,
};

fn rand_blocks(seed: u64, n: usize) -> Vec<u128> {
    let mut s = seed as u128;
    (0..n)
        .map(|_| {
            s = s.wrapping_mul(0x9E37_79B9_7F4A_7C15).wrapping_add(0xDEAD_BEEF);
            s
        })
        .collect()
}

fn f(bits: u128) -> F128 {
    F128 { bits }
}

fn eq_factor(x: F128, y: F128) -> F128 {
    x.plus(y).plus(F128::one())
}

fn eq_ind(x: &[F128], y: &[F128]) -> F128 {
    x.iter().zip(y).fold(F128::one(), |acc, (x, y)| acc.times(eq_factor(*x, *y)))
}

fn bits_of(index: usize, n: usize) -> Vec<F128> {
    (0..n).map(|bit| F128::from_bool(index >> bit & 1 == 1)).collect()
}

fn field(values: &[u128]) -> Vec<F128> {
    values.iter().map(|&v| f(v)).collect()
}

/// Binds the highest coordinate first.
fn evaluate(table: &[F128], point: &[F128]) -> F128 {
    let mut table = table.to_vec();
    for &r in point.iter().rev() {
        let half = table.len() / 2;
        for i in 0..half {
            table[i] = table[i].plus(r.times(table[i].plus(table[i + half])));
        }
        table.truncate(half);
    }
    table[0]
}

#[test]
fn eq_partial_eval_trace_matches_native() {
    for n in [1usize, 3, 6] {
        let point = rand_blocks(7 + n as u64, n);
        let mut b = FieldR1csBuilder::new();
        let exprs = alloc_blocks(&mut b, &point);
        let tensor = eq_ind_partial_eval_trace(&mut b, &exprs);
        assert_eq!(tensor.len(), 1 << n);
        for (index, e) in tensor.iter().enumerate() {
            assert_eq!(e.eval(b.values()), eq_ind(&bits_of(index, n), &field(&point)));
        }
        let (r1cs, z) = b.build();
        assert!(r1cs.satisfies(&z));
    }
}

#[test]
fn boolean_point_eq_cache_matches_native() {
    let n = 9usize;
    let r = rand_blocks(99, n);
    let mut b = FieldR1csBuilder::new();
    let r_exprs = alloc_blocks(&mut b, &r);
    let mut cache = BooleanPointEqCache::new(r_exprs);
    for index in [0usize, 1, 2, 5, 63, 200, 511, 300, 5, 200] {
        let before = b.num_wires();
        let e = cache.eq_at_index(&mut b, index as u64);
        assert_eq!(e.eval(b.values()), eq_ind(&bits_of(index, n), &field(&r)));
        let first = b.num_wires();
        let again = cache.eq_at_index(&mut b, index as u64);
        assert_eq!(again, e, "a known index gives the same expression");
        assert_eq!(b.num_wires(), first, "a known index costs no row");
        assert!(first - before < n);
    }
    let (r1cs, z) = b.build();
    assert!(r1cs.satisfies(&z));
}

#[test]
fn evaluate_slice_trace_matches_native() {
    let n = 5usize;
    let tab = rand_blocks(3, 1 << n);
    let point = rand_blocks(4, n);
    let mut b = FieldR1csBuilder::new();
    let tab_e = alloc_blocks(&mut b, &tab);
    let point_e = alloc_blocks(&mut b, &point);
    let got = evaluate_slice_trace(&mut b, &tab_e, &point_e);
    let native = evaluate(&field(&tab), &field(&point));
    assert_eq!(got.eval(b.values()), native);
    let folded = mle_evaluate_small_trace(&mut b, &tab_e, &point_e);
    assert_eq!(folded.eval(b.values()), native);
    let (r1cs, z) = b.build();
    assert!(r1cs.satisfies(&z));
}

#[test]
fn eq_at_two_points_matches_its_product() {
    let x = rand_blocks(21, 4);
    let y = rand_blocks(22, 4);
    let mut b = FieldR1csBuilder::new();
    let x_e = alloc_blocks(&mut b, &x);
    let y_e = alloc_blocks(&mut b, &y);
    let e = eq_ind_trace(&mut b, &x_e, &y_e);
    assert_eq!(e.eval(b.values()), eq_ind(&field(&x), &field(&y)));
    let (r1cs, z) = b.build();
    assert!(r1cs.satisfies(&z));
}

fn gated_equality_matrix(active: bool) -> (FieldR1cs, Vec<F128>) {
    let mut b = FieldR1csBuilder::new();
    let gate = LinExpr::from_wire(b.alloc_bool(active));
    let wrong = LinExpr::from_wire(b.alloc_f128(F128::one()));
    b.push_pin_gate(&gate);
    pin_eq(&mut b, &wrong, &LinExpr::zero());
    b.pop_pin_gate();
    b.build()
}

#[test]
fn composition_pin_gate_is_matrix_fixed_and_fail_closed_when_live() {
    let (inactive_matrix, inactive_witness) = gated_equality_matrix(false);
    let (active_matrix, active_witness) = gated_equality_matrix(true);
    assert!(
        inactive_matrix.same_structure(&active_matrix),
        "selector value must not change the relation matrix",
    );
    assert!(inactive_matrix.satisfies(&inactive_witness));
    assert!(!active_matrix.satisfies(&active_witness));
}

#[test]
fn direct_bit_selection_is_exact_and_uses_n_minus_one_rows() {
    let values = (0..8).map(|i| F128::new(0xA500 + i, 0x5A00 ^ i)).collect::<Vec<_>>();
    for index in 0..values.len() {
        let mut b = FieldR1csBuilder::new();
        let table = values
            .iter()
            .map(|&value| LinExpr::from_wire(b.alloc_f128(value)))
            .collect::<Vec<_>>();
        let bits = (0..3)
            .map(|bit| LinExpr::from_wire(b.alloc_bool((index >> bit) & 1 == 1)))
            .collect::<Vec<_>>();
        let before = b.num_wires();
        let selected = select_by_bits(&mut b, &bits, &table);
        assert_eq!(b.num_wires() - before, values.len() - 1);
        assert_eq!(selected.eval(b.values()), values[index]);
        pin_eq(&mut b, &selected, &LinExpr::constant(values[index]));
        let (r1cs, witness) = b.build();
        assert!(r1cs.satisfies(&witness));
    }
}

#[test]
fn a_round_polynomial_meets_its_claim() {
    let mut b = FieldR1csBuilder::new();
    let round = RoundPolyTrace::allocate(&mut b, &[11, 13, 17], 3);
    let claim = alloc_block(&mut b, 99);
    let at = |b: &mut FieldR1csBuilder, x: u128| {
        let x = alloc_block(b, x);
        let e = round.evaluate_reconstructed(b, &claim, &x);
        e.eval(b.values())
    };
    let (zero, one, two) = (at(&mut b, 0), at(&mut b, 1), at(&mut b, 2));
    assert_eq!(zero, f(11));
    assert_eq!(zero.plus(one), f(99));
    let linear = f(99).plus(f(13)).plus(f(17));
    let x = f(2);
    let expected = f(11)
        .plus(linear.times(x))
        .plus(f(13).times(x).times(x))
        .plus(f(17).times(x).times(x).times(x));
    assert_eq!(two, expected);
    let (r1cs, z) = b.build();
    assert!(r1cs.satisfies(&z));
}

#[test]
fn constants_fold_and_products_cost_a_row() {
    let mut b = FieldR1csBuilder::new();
    let x = alloc_block(&mut b, 5);
    let before = b.num_wires();
    let scaled = mul(&mut b, &x, &LinExpr::constant(f(3)));
    assert_eq!(b.num_wires(), before);
    assert_eq!(scaled.eval(b.values()), f(5).times(f(3)));
    let square = mul(&mut b, &x, &x);
    assert_eq!(b.num_wires(), before + 1);
    assert_eq!(square.eval(b.values()), f(17));
}

#[test]
fn field_arithmetic_has_its_known_values() {
    // x^128 = x^7 + x^2 + x + 1.
    assert_eq!(f(1 << 127).times(f(2)), f(0x87));
    assert_eq!(f(3).times(f(3)), f(5));
    let a = F128::new(0x0123_4567_89ab_cdef, 0xfedc_ba98_7654_3210);
    assert_eq!(a.times(a.inv()), F128::one());
    assert_eq!(F128::zero().inv(), F128::zero());
}

#[test]
fn sixty_four_bit_integers_add_and_compare() {
    for (x, y, sum) in [(1u128, 2u128, Some(3u128)), (u64::MAX as u128, 1, None)] {
        let mut b = FieldR1csBuilder::new();
        let xe = alloc_block(&mut b, x);
        let ye = alloc_block(&mut b, y);
        let total = integer_add_no_overflow(&mut b, &xe, &ye, 64);
        if let Some(sum) = sum {
            assert_eq!(total.eval(b.values()), f(sum));
        }
        let (r1cs, z) = b.build();
        assert_eq!(r1cs.satisfies(&z), sum.is_some());
    }
    for (x, y) in [(3u128, 4u128), (4, 4), (5, 4)] {
        let mut b = FieldR1csBuilder::new();
        let xe = alloc_block(&mut b, x);
        let ye = alloc_block(&mut b, y);
        let xb = range_check_bits(&mut b, &xe, 8);
        let yb = range_check_bits(&mut b, &ye, 8);
        let less = lt_strict_expr(&mut b, &xb, &yb);
        assert_eq!(less.eval(b.values()), F128::from_bool(x < y));
        pin_lt_strict(&mut b, &xb, &yb);
        let (r1cs, z) = b.build();
        assert_eq!(r1cs.satisfies(&z), x < y);
    }
    let mut b = FieldR1csBuilder::new();
    let wide = alloc_block(&mut b, 256);
    range_check_bits(&mut b, &wide, 8);
    let (r1cs, z) = b.build();
    assert!(!r1cs.satisfies(&z));
}

/// The basis that swaps two coordinates.
fn swapped() -> FlatBasis {
    let table = |_| {
        (0..128u32)
            .map(|k| match k {
                1 => f(4),
                2 => f(2),
                _ => f(1 << k),
            })
            .collect::<Vec<_>>()
    };
    FlatBasis::from_tables(table(0), table(1)).unwrap()
}

#[test]
fn integers_are_written_in_the_basis_of_the_builder() {
    let mut b = FieldR1csBuilder::with_basis(swapped());
    let five = alloc_block(&mut b, 2);
    assert_eq!(five.eval(b.values()), f(4));
    let constant = const_block(&b, 6);
    assert_eq!(constant.eval(b.values()), f(6));
    let bits = range_check_bits(&mut b, &five, 3);
    let values = bits.iter().map(|w| b.values()[w.index].bits).collect::<Vec<_>>();
    assert_eq!(values, vec![0, 1, 0]);
    let (r1cs, z) = b.build();
    assert!(r1cs.satisfies(&z));
    let ones = (0..128).map(|_| F128::one()).collect::<Vec<_>>();
    assert!(FlatBasis::from_tables(ones.clone(), ones).is_none());
}

const RULE: ExtRule = ExtRule { t: F128 { bits: 1 }, n: F128 { bits: 2 } };

fn ext_times(x: F256, y: F256) -> F256 {
    let high = x.hi.times(y.hi);
    F256 {
        lo: x.lo.times(y.lo).plus(RULE.n.times(high)),
        hi: x.lo.times(y.hi).plus(x.hi.times(y.lo)).plus(RULE.t.times(high)),
    }
}

fn ext_plus(x: F256, y: F256) -> F256 {
    F256 { lo: x.lo.plus(y.lo), hi: x.hi.plus(y.hi) }
}

fn ext_at(e: &ExtExpr, b: &FieldR1csBuilder) -> F256 {
    F256 { lo: e.lo.eval(b.values()), hi: e.hi.eval(b.values()) }
}

fn ext(seed: u64) -> F256 {
    let v = rand_blocks(seed, 2);
    F256 { lo: f(v[0]), hi: f(v[1]) }
}

#[test]
fn extension_products_match_and_cost_their_rows() {
    let (x, y) = (ext(31), ext(32));
    let mut b = FieldR1csBuilder::new();
    let xe = alloc_ext(&mut b, x);
    let ye = alloc_ext(&mut b, y);
    let base = ExtExpr { lo: xe.lo.clone(), hi: LinExpr::zero() };
    for (left, right, rows, value) in [
        (&xe, &ye, 3, ext_times(x, y)),
        (&xe, &xe, 2, ext_times(x, x)),
        (&xe, &ExtExpr::constant(y), 0, ext_times(x, y)),
        (&ExtExpr::constant(x), &ye, 0, ext_times(x, y)),
        (&ye, &base, 2, ext_times(y, F256 { lo: x.lo, hi: F128::zero() })),
    ] {
        let before = b.num_wires();
        let product = mul_ext(&mut b, RULE, left, right);
        assert_eq!(b.num_wires() - before, rows);
        assert_eq!(ext_at(&product, &b), value);
    }
    let before = b.num_wires();
    let seventh = pow7_ext(&mut b, RULE, &xe);
    assert!(b.num_wires() - before <= 10);
    let mut power = x;
    for _ in 0..6 {
        power = ext_times(power, x);
    }
    assert_eq!(ext_at(&seventh, &b), power);
    pin_eq_ext(&mut b, &seventh, &ExtExpr::constant(power));
    let (r1cs, z) = b.build();
    assert!(r1cs.satisfies(&z));
}

#[test]
fn an_invertible_element_has_its_inverse_on_a_witness() {
    let mut b = FieldR1csBuilder::new();
    let x = alloc_ext(&mut b, ext(40));
    let first = b.num_wires();
    constrain_nonzero_ext(&mut b, RULE, &x);
    assert_eq!(b.num_wires() - first, 7, "two wires, three products, two pins");
    let (r1cs, z) = b.build();
    assert!(r1cs.satisfies(&z));
    let mut bad = z;
    bad[first] = bad[first].plus(F128::one());
    assert!(!r1cs.satisfies(&bad));
}

#[test]
fn extension_tables_fold_to_their_value() {
    let mut b = FieldR1csBuilder::with_basis(swapped());
    let pairs = (0..8u64).map(|i| (50 + i as u128, 3 * i as u128)).collect::<Vec<_>>();
    let table = alloc_blocks256(&mut b, &pairs);
    let wide = alloc_block256(&mut b, 2, 4);
    assert_eq!(ext_at(&wide, &b), F256 { lo: f(4), hi: f(2) });
    assert_eq!(ext_at(&const_block256(&b, 2, 4), &b), F256 { lo: f(4), hi: f(2) });
    let point = (0..3).map(|i| alloc_ext(&mut b, ext(60 + i))).collect::<Vec<_>>();
    let tensor = eq_ind_partial_eval_ext_trace(&mut b, RULE, &point);
    assert_eq!(tensor.len(), 8);
    let mut sum = F256::zero();
    for (weight, entry) in tensor.iter().zip(&table) {
        sum = ext_plus(sum, ext_times(ext_at(weight, &b), ext_at(entry, &b)));
    }
    let folded = evaluate_slice_ext_trace(&mut b, RULE, &table, &point);
    assert_eq!(ext_at(&folded, &b), sum);
    let (r1cs, z) = b.build();
    assert!(r1cs.satisfies(&z));
}

#[test]
fn a_deferred_wire_is_sealed_once() {
    let mut b = FieldR1csBuilder::new();
    let (wire, slot) = b.alloc_deferred_constraint_f128(f(6));
    let x = alloc_block(&mut b, 3);
    let y = alloc_block(&mut b, 2);
    assert_eq!(f(3).times(f(2)), f(6));
    assert!(b.seal_deferred_constraint(slot, &x, &y));
    let (r1cs, z) = b.build();
    assert!(r1cs.satisfies(&z));
    let mut bad = z;
    bad[wire.index] = f(7);
    assert!(!r1cs.satisfies(&bad));
}

#[test]
fn a_gate_binds_at_every_value_but_zero() {
    for gate in [0u128, 1, 2, 77] {
        for wrong in [false, true] {
            let mut b = FieldR1csBuilder::new();
            let selector = LinExpr::from_wire(b.alloc_f128(f(gate)));
            let value = LinExpr::from_wire(b.alloc_f128(f(wrong as u128)));
            b.push_pin_gate(&selector);
            pin_eq(&mut b, &value, &LinExpr::zero());
            b.pop_pin_gate();
            let (matrix, witness) = b.build();
            assert_eq!(matrix.satisfies(&witness), gate == 0 || !wrong);
        }
    }
}

#[test]
fn a_relation_accepts_the_witness_of_every_other_run() {
    let run = |gate: bool, value: u128| {
        let mut b = FieldR1csBuilder::new();
        let selector = LinExpr::from_wire(b.alloc_bool(gate));
        let e = LinExpr::from_wire(b.alloc_f128(f(value)));
        b.push_pin_gate(&selector);
        pin_eq(&mut b, &e, &LinExpr::constant(f(9)));
        b.pop_pin_gate();
        b.build()
    };
    let (first, _) = run(true, 9);
    for (gate, value, accepted) in [(true, 9, true), (true, 8, false), (false, 8, true)] {
        let (matrix, witness) = run(gate, value);
        assert!(first.same_structure(&matrix));
        assert_eq!(first.satisfies(&witness), accepted);
    }
}

#[test]
fn an_equality_cache_takes_sixty_three_coordinates() {
    let n = 63usize;
    let r = rand_blocks(7, n);
    let mut b = FieldR1csBuilder::new();
    let r_exprs = alloc_blocks(&mut b, &r);
    let mut cache = BooleanPointEqCache::new(r_exprs);
    for index in [0usize, 1, (1 << 63) - 1, 1 << 62] {
        let e = cache.eq_at_index(&mut b, index as u64);
        assert_eq!(e.eval(b.values()), eq_ind(&bits_of(index, n), &field(&r)));
        let wires = b.num_wires();
        assert_eq!(cache.eq_at_index(&mut b, index as u64), e);
        assert_eq!(b.num_wires(), wires);
    }
    let (r1cs, z) = b.build();
    assert!(r1cs.satisfies(&z));
}
