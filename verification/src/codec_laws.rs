//! Where the encodings hold what they encode, byte by byte.
use crate::ext_trace::F256;
use crate::le_bytes::{le, lemma_le_len};
use crate::retirement::{
    boundary_bytes, fields, field_list, fresh_bytes, lane_bytes, lanes_bytes, pin_code,
    reduction_magic, rounds_bytes, target_bytes, wire, ClassId, FreshLincheckClaim, MatrixAccClaim,
    MatrixFoldProof, MatrixRequirement, RequestContext, RoundPair,
};
use vstd::arithmetic::power::{lemma_pow0, pow};
use vstd::prelude::*;

verus! {

/// Byte `i` of a number is its digit `i` to the base of 256.
pub proof fn lemma_digits(v: nat, n: nat, i: int)
    requires
        0 <= i < n,
    ensures
        le(v, n).len() == n,
        le(v, n)[i] == (v as int / pow(256, i as nat)) % 256,
    decreases n,
{
    lemma_le_len(v, n);
    if i == 0 {
        lemma_pow0(256);
    } else {
        lemma_digits(v / 256, (n - 1) as nat, i - 1);
        assert(le(v, n)[i] == le(v / 256, (n - 1) as nat)[i - 1]);
        vstd::arithmetic::power::lemma_pow1(256);
        vstd::arithmetic::power::lemma_pow_adds(256, 1, (i - 1) as nat);
        vstd::arithmetic::power::lemma_pow_positive(256, (i - 1) as nat);
        vstd::arithmetic::div_mod::lemma_div_denominator(
            v as int,
            256,
            pow(256, (i - 1) as nat),
        );
    }
}

/// An element is its low half and then its high half, sixteen bytes each.
pub proof fn lemma_element(x: F256)
    ensures
        x.bytes().len() == 32,
        x.bytes().subrange(0, 16) == le(x.lo@ as nat, 16),
        x.bytes().subrange(16, 32) == le(x.hi@ as nat, 16),
{
    lemma_le_len(x.lo@ as nat, 16);
    lemma_le_len(x.hi@ as nat, 16);
    assert(x.bytes().subrange(0, 16) =~= le(x.lo@ as nat, 16));
    assert(x.bytes().subrange(16, 32) =~= le(x.hi@ as nat, 16));
}

proof fn lemma_fields_at(values: Seq<F256>, n: nat, i: int)
    requires
        n <= values.len(),
    ensures
        fields(values, n).len() == 32 * n,
        0 <= i < n ==> fields(values, n).subrange(32 * i, 32 * i + 32) == values[i].bytes(),
    decreases n,
{
    if n > 0 {
        lemma_fields_at(values, (n - 1) as nat, i);
        lemma_element(values[n - 1]);
        let rest = fields(values, (n - 1) as nat);
        let all = fields(values, n);
        if 0 <= i < n - 1 {
            assert(all.subrange(32 * i, 32 * i + 32) =~= rest.subrange(32 * i, 32 * i + 32));
        } else if i == n - 1 {
            assert(all.subrange(32 * i, 32 * i + 32) =~= values[i].bytes());
        }
    }
}

/// A list is its length in eight bytes and then its elements in order.
pub proof fn lemma_list(values: Seq<F256>, i: int)
    requires
        0 <= i < values.len(),
    ensures
        field_list(values).len() == 8 + 32 * values.len(),
        field_list(values).subrange(0, 8) == le(values.len(), 8),
        field_list(values).subrange(8 + 32 * i, 40 + 32 * i) == values[i].bytes(),
{
    lemma_le_len(values.len(), 8);
    lemma_fields_at(values, values.len(), i);
    let all = field_list(values);
    assert(all.subrange(0, 8) =~= le(values.len(), 8));
    assert(all.subrange(8 + 32 * i, 40 + 32 * i) =~= fields(values, values.len()).subrange(
        32 * i,
        32 * i + 32,
    ));
}

proof fn lemma_rounds_at(rounds: Seq<RoundPair>, n: nat, i: int)
    requires
        n <= rounds.len(),
    ensures
        rounds_bytes(rounds, n).len() == 64 * n,
        0 <= i < n ==> rounds_bytes(rounds, n).subrange(64 * i, 64 * i + 32)
            == rounds[i].first.bytes() && rounds_bytes(rounds, n).subrange(64 * i + 32, 64 * i + 64)
            == rounds[i].second.bytes(),
    decreases n,
{
    if n > 0 {
        lemma_rounds_at(rounds, (n - 1) as nat, i);
        lemma_element(rounds[n - 1].first);
        lemma_element(rounds[n - 1].second);
        let rest = rounds_bytes(rounds, (n - 1) as nat);
        let all = rounds_bytes(rounds, n);
        if 0 <= i < n - 1 {
            assert(all.subrange(64 * i, 64 * i + 32) =~= rest.subrange(64 * i, 64 * i + 32));
            assert(all.subrange(64 * i + 32, 64 * i + 64) =~= rest.subrange(
                64 * i + 32,
                64 * i + 64,
            ));
        } else if i == n - 1 {
            assert(all.subrange(64 * i, 64 * i + 32) =~= rounds[i].first.bytes());
            assert(all.subrange(64 * i + 32, 64 * i + 64) =~= rounds[i].second.bytes());
        }
    }
}

/// An encoded reduction opens with eight letters, then its class and the binding of its
/// request; the rounds of the first phase follow, the two values between the phases, the
/// rounds of the second, and the evaluation of the matrix.
pub proof fn lemma_wire_layout(
    class: ClassId,
    binding: [u8; 32],
    fold: MatrixFoldProof,
    i: int,
    j: int,
)
    requires
        0 <= i < fold.phase1_rounds@.len(),
        0 <= j < fold.phase2_rounds@.len(),
    ensures
        ({
            let w = wire(class, binding, fold);
            let mid = 41 + 64 * fold.phase1_rounds@.len() as int;
            let end = mid + 64 + 64 * fold.phase2_rounds@.len() as int;
            &&& w.len() == end + 32
            &&& w.subrange(0, 8) == seq![79u8, 49, 77, 82, 69, 68, 48, 49]
            &&& w[8] == class.wire_id
            &&& w.subrange(9, 41) == binding@
            &&& w.subrange(41 + 64 * i, 73 + 64 * i) == fold.phase1_rounds@[i].first.bytes()
            &&& w.subrange(73 + 64 * i, 105 + 64 * i) == fold.phase1_rounds@[i].second.bytes()
            &&& w.subrange(mid, mid + 32) == fold.g_v.bytes()
            &&& w.subrange(mid + 32, mid + 64) == fold.g_e.bytes()
            &&& w.subrange(mid + 64 + 64 * j, mid + 96 + 64 * j)
                == fold.phase2_rounds@[j].first.bytes()
            &&& w.subrange(mid + 96 + 64 * j, mid + 128 + 64 * j)
                == fold.phase2_rounds@[j].second.bytes()
            &&& w.subrange(end, end + 32) == fold.final_matrix_eval.bytes()
        }),
{
    let w = wire(class, binding, fold);
    let n1 = fold.phase1_rounds@.len();
    let n2 = fold.phase2_rounds@.len();
    let p1 = rounds_bytes(fold.phase1_rounds@, n1);
    let p2 = rounds_bytes(fold.phase2_rounds@, n2);
    lemma_rounds_at(fold.phase1_rounds@, n1, i);
    lemma_rounds_at(fold.phase2_rounds@, n2, j);
    lemma_element(fold.g_v);
    lemma_element(fold.g_e);
    lemma_element(fold.final_matrix_eval);
    let mid = 41 + 64 * n1 as int;
    let end = mid + 64 + 64 * n2 as int;
    assert(w.subrange(0, 8) =~= reduction_magic());
    assert(w.subrange(9, 41) =~= binding@);
    assert(w.subrange(41 + 64 * i, 73 + 64 * i) =~= p1.subrange(64 * i, 64 * i + 32));
    assert(w.subrange(73 + 64 * i, 105 + 64 * i) =~= p1.subrange(64 * i + 32, 64 * i + 64));
    assert(w.subrange(mid, mid + 32) =~= fold.g_v.bytes());
    assert(w.subrange(mid + 32, mid + 64) =~= fold.g_e.bytes());
    assert(w.subrange(mid + 64 + 64 * j, mid + 96 + 64 * j) =~= p2.subrange(64 * j, 64 * j + 32));
    assert(w.subrange(mid + 96 + 64 * j, mid + 128 + 64 * j) =~= p2.subrange(
        64 * j + 32,
        64 * j + 64,
    ));
    assert(w.subrange(end, end + 32) =~= fold.final_matrix_eval.bytes());
}

/// One lane of a request: its index, the digest and the four numbers of what its matrix
/// must be, whether it is live, and the point and the value of its claim.
pub proof fn lemma_lane_layout(
    index: int,
    requirement: MatrixRequirement,
    claim: Option<MatrixAccClaim>,
)
    requires
        0 <= index < 256,
    ensures
        ({
            let w = lane_bytes(index, requirement, claim);
            &&& w[0] == index
            &&& w.subrange(1, 33) == requirement.digest@
            &&& w.subrange(33, 41) == le(requirement.shape.m as nat, 8)
            &&& w.subrange(41, 49) == le(requirement.shape.k_log as nat, 8)
            &&& w.subrange(49, 57) == le(requirement.shape.k_skip as nat, 8)
            &&& w.subrange(57, 65) == le(
                match requirement.shape.const_pin {
                    Some(pin) => (pin + 1) as nat,
                    None => 0,
                },
                8,
            )
            &&& match claim {
                Some(c) => {
                    let n = field_list(c.point@).len() as int;
                    &&& w.len() == 98 + n
                    &&& w[65] == 1
                    &&& w.subrange(66, 66 + n) == field_list(c.point@)
                    &&& w.subrange(66 + n, 98 + n) == c.value.bytes()
                },
                None => w.len() == 66 && w[65] == 0,
            }
        }),
{
    let w = lane_bytes(index, requirement, claim);
    let s = requirement.shape;
    lemma_le_len(s.m as nat, 8);
    lemma_le_len(s.k_log as nat, 8);
    lemma_le_len(s.k_skip as nat, 8);
    lemma_le_len(pin_code(s), 8);
    assert(w.subrange(1, 33) =~= requirement.digest@);
    assert(w.subrange(33, 41) =~= le(s.m as nat, 8));
    assert(w.subrange(41, 49) =~= le(s.k_log as nat, 8));
    assert(w.subrange(49, 57) =~= le(s.k_skip as nat, 8));
    assert(w.subrange(57, 65) =~= le(pin_code(s), 8));
    if claim is Some {
        let c = claim->0;
        let n = field_list(c.point@).len() as int;
        lemma_element(c.value);
        assert(w.subrange(66, 66 + n) =~= field_list(c.point@));
        assert(w.subrange(66 + n, 98 + n) =~= c.value.bytes());
    }
}

proof fn lemma_boundary_at(lanes: Seq<u128>, n: nat, i: int)
    requires
        n <= lanes.len(),
    ensures
        boundary_bytes(lanes, n).len() == 16 * n,
        0 <= i < n ==> boundary_bytes(lanes, n).subrange(16 * i, 16 * i + 16) == le(
            lanes[i] as nat,
            16,
        ),
    decreases n,
{
    if n > 0 {
        lemma_boundary_at(lanes, (n - 1) as nat, i);
        lemma_le_len(lanes[n - 1] as nat, 16);
        let rest = boundary_bytes(lanes, (n - 1) as nat);
        let all = boundary_bytes(lanes, n);
        if 0 <= i < n - 1 {
            assert(all.subrange(16 * i, 16 * i + 16) =~= rest.subrange(16 * i, 16 * i + 16));
        } else if i == n - 1 {
            assert(all.subrange(16 * i, 16 * i + 16) =~= le(lanes[i] as nat, 16));
        }
    }
}

/// The preimage of a request: both banks, both fork heights and the block time; the two
/// headers; the boundary, sixteen bytes to a lane; the class of the tip; the lanes in
/// order; the fresh claim of the tip.
pub proof fn lemma_preimage_layout(x: RequestContext, i: int)
    requires
        x.target.schedule.v1_1_height is Some,
        x.target.schedule.v2 is Some,
        0 <= i < x.boundary.lanes@.len(),
    ensures
        ({
            let w = x.preimage();
            let a = 88 + x.parent_header.encoded@.len() as int;
            let b = a + x.epoch_anchor_header.encoded@.len();
            let c = b + 16 * x.boundary.lanes@.len();
            let lanes = lanes_bytes(x.requirements@, x.lanes@, x.lanes@.len());
            let fresh = fresh_bytes(x.fresh);
            let d = c + 1 + lanes.len();
            &&& w.len() == d + fresh.len()
            &&& w.subrange(0, 32) == x.target.legacy_bank_digest@
            &&& w.subrange(32, 64) == x.target.next_bank_digest@
            &&& w.subrange(64, 72) == le(x.target.schedule.v1_1_height->0 as nat, 8)
            &&& w.subrange(72, 80) == le(x.target.activation_height as nat, 8)
            &&& w.subrange(80, 88) == le(x.target.schedule.v2->0.block_time as nat, 8)
            &&& w.subrange(88, a) == x.parent_header.encoded@
            &&& w.subrange(a, b) == x.epoch_anchor_header.encoded@
            &&& w.subrange(b + 16 * i, b + 16 * i + 16) == le(x.boundary.lanes@[i] as nat, 16)
            &&& w[c] == x.tip_class.wire_id
            &&& w.subrange(c + 1, d) == lanes
            &&& w.subrange(d, w.len() as int) == fresh
        }),
{
    let w = x.preimage();
    let t = target_bytes(x.target);
    let s = x.target.schedule;
    lemma_le_len(s.v1_1_height->0 as nat, 8);
    lemma_le_len(x.target.activation_height as nat, 8);
    lemma_le_len(s.v2->0.block_time as nat, 8);
    assert(t.len() == 88);
    assert(t.subrange(0, 32) =~= x.target.legacy_bank_digest@);
    assert(t.subrange(32, 64) =~= x.target.next_bank_digest@);
    assert(t.subrange(64, 72) =~= le(s.v1_1_height->0 as nat, 8));
    assert(t.subrange(72, 80) =~= le(x.target.activation_height as nat, 8));
    assert(t.subrange(80, 88) =~= le(s.v2->0.block_time as nat, 8));
    let p = x.parent_header.encoded@;
    let e = x.epoch_anchor_header.encoded@;
    let m = x.boundary.lanes@.len();
    let bb = boundary_bytes(x.boundary.lanes@, m);
    lemma_boundary_at(x.boundary.lanes@, m, i);
    let lanes = lanes_bytes(x.requirements@, x.lanes@, x.lanes@.len());
    let fresh = fresh_bytes(x.fresh);
    let a = 88 + p.len() as int;
    let b = a + e.len();
    let c = b + 16 * m;
    let d = c + 1 + lanes.len();
    assert(w == t + p + e + bb + seq![x.tip_class.wire_id] + lanes + fresh);
    assert(w.subrange(0, 32) =~= t.subrange(0, 32));
    assert(w.subrange(32, 64) =~= t.subrange(32, 64));
    assert(w.subrange(64, 72) =~= t.subrange(64, 72));
    assert(w.subrange(72, 80) =~= t.subrange(72, 80));
    assert(w.subrange(80, 88) =~= t.subrange(80, 88));
    assert(w.subrange(88, a) =~= p);
    assert(w.subrange(a, b) =~= e);
    assert(w.subrange(b + 16 * i, b + 16 * i + 16) =~= bb.subrange(16 * i, 16 * i + 16));
    assert(w.subrange(c + 1, d) =~= lanes);
    assert(w.subrange(d, w.len() as int) =~= fresh);
}

/// The lanes are encoded one after the other, in order.
pub proof fn lemma_lanes_in_order(
    requirements: Seq<MatrixRequirement>,
    lanes: Seq<Option<MatrixAccClaim>>,
    i: nat,
)
    ensures
        lanes_bytes(requirements, lanes, 0).len() == 0,
        lanes_bytes(requirements, lanes, i + 1) == lanes_bytes(requirements, lanes, i)
            + lane_bytes(i as int, requirements[i as int], lanes[i as int]),
{
}

/// The fresh claim: its two challenges, its three lists and its value.
pub proof fn lemma_fresh_layout(fresh: FreshLincheckClaim)
    ensures
        ({
            let w = fresh_bytes(fresh);
            let x = field_list(fresh.x_inner_rest@);
            let r = field_list(fresh.r_inner_rest@);
            let z = field_list(fresh.z_partial@);
            let a = 64 + x.len() as int;
            let b = a + r.len();
            let c = b + z.len();
            &&& w.len() == c + 32
            &&& w.subrange(0, 32) == fresh.alpha.bytes()
            &&& w.subrange(32, 64) == fresh.z_skip.bytes()
            &&& w.subrange(64, a) == x
            &&& w.subrange(a, b) == r
            &&& w.subrange(b, c) == z
            &&& w.subrange(c, c + 32) == fresh.value.bytes()
        }),
{
    let w = fresh_bytes(fresh);
    let x = field_list(fresh.x_inner_rest@);
    let r = field_list(fresh.r_inner_rest@);
    let z = field_list(fresh.z_partial@);
    let a = 64 + x.len() as int;
    let b = a + r.len();
    let c = b + z.len();
    lemma_element(fresh.alpha);
    lemma_element(fresh.z_skip);
    lemma_element(fresh.value);
    assert(w.subrange(0, 32) =~= fresh.alpha.bytes());
    assert(w.subrange(32, 64) =~= fresh.z_skip.bytes());
    assert(w.subrange(64, a) =~= x);
    assert(w.subrange(a, b) =~= r);
    assert(w.subrange(b, c) =~= z);
    assert(w.subrange(c, c + 32) =~= fresh.value.bytes());
}

} // verus!
