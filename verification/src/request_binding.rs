//! What the digest of a retirement request is taken of determines the request.
use crate::ext_trace::F256;
use crate::le_bytes::{byte_range, le, lemma_le_len, lemma_le_value, lemma_ranges};
use crate::retirement::{
    boundary_bytes, field_list, fields, fresh_bytes, lane_bytes, lanes_bytes, pin_code,
    target_bytes, FieldShape, FreshLincheckClaim, HistoryStepRetirementTarget, MatrixAccClaim,
    MatrixRequirement, RequestContext,
};
use vstd::prelude::*;

verus! {

/// Two fronts of one length in front of something.
proof fn lemma_cut(a: Seq<u8>, x: Seq<u8>, c: Seq<u8>, y: Seq<u8>)
    requires
        a + x == c + y,
        a.len() == c.len(),
    ensures
        a == c,
        x == y,
{
    let n = a.len() as int;
    assert((a + x).subrange(0, n) =~= a);
    assert((c + y).subrange(0, n) =~= c);
    assert((a + x).subrange(n, (a + x).len() as int) =~= x);
    assert((c + y).subrange(n, (c + y).len() as int) =~= y);
}

proof fn lemma_assoc(a: Seq<u8>, c: Seq<u8>, d: Seq<u8>)
    ensures
        (a + c) + d == a + (c + d),
{
    assert((a + c) + d =~= a + (c + d));
}

/// Seven parts, grouped from either end.
proof fn lemma_regroup(
    a: Seq<u8>,
    c: Seq<u8>,
    d: Seq<u8>,
    e: Seq<u8>,
    f: Seq<u8>,
    g: Seq<u8>,
    h: Seq<u8>,
)
    ensures
        a + c + d + e + f + g + h == a + (c + (d + (e + (f + (g + h))))),
{
    lemma_assoc(a + c + d + e + f, g, h);
    lemma_assoc(a + c + d + e, f, g + h);
    lemma_assoc(a + c + d, e, f + (g + h));
    lemma_assoc(a + c, d, e + (f + (g + h)));
    lemma_assoc(a, c, d + (e + (f + (g + h))));
}

/// Little-endian numbers in front of something.
proof fn lemma_cut_le(v: nat, x: Seq<u8>, w: nat, y: Seq<u8>, n: nat)
    requires
        le(v, n) + x == le(w, n) + y,
        v < byte_range(n),
        w < byte_range(n),
    ensures
        v == w,
        x == y,
{
    lemma_le_len(v, n);
    lemma_le_len(w, n);
    lemma_cut(le(v, n), x, le(w, n), y);
    lemma_le_value(v, n);
    lemma_le_value(w, n);
}

proof fn lemma_cut_field(v: F256, x: Seq<u8>, w: F256, y: Seq<u8>)
    requires
        v.bytes() + x == w.bytes() + y,
    ensures
        v == w,
        x == y,
{
    lemma_ranges();
    let (a, c) = (le(v.lo@ as nat, 16), le(v.hi@ as nat, 16));
    let (d, e) = (le(w.lo@ as nat, 16), le(w.hi@ as nat, 16));
    assert(v.bytes() + x =~= a + (c + x));
    assert(w.bytes() + y =~= d + (e + y));
    lemma_cut_le(v.lo@ as nat, c + x, w.lo@ as nat, e + y, 16);
    lemma_cut_le(v.hi@ as nat, x, w.hi@ as nat, y, 16);
}

proof fn lemma_fields_len(values: Seq<F256>, n: nat)
    ensures
        fields(values, n).len() == 32 * n,
    decreases n,
{
    if n > 0 {
        lemma_fields_len(values, (n - 1) as nat);
        lemma_le_len(values[n - 1].lo@ as nat, 16);
        lemma_le_len(values[n - 1].hi@ as nat, 16);
    }
}

proof fn lemma_fields_same(v: Seq<F256>, w: Seq<F256>, n: nat)
    requires
        n <= v.len(),
        n <= w.len(),
        fields(v, n) == fields(w, n),
    ensures
        v.take(n as int) == w.take(n as int),
    decreases n,
{
    if n == 0 {
        assert(v.take(0) =~= w.take(0));
    } else {
        let m = (n - 1) as nat;
        lemma_fields_len(v, m);
        lemma_fields_len(w, m);
        lemma_cut(fields(v, m), v[m as int].bytes(), fields(w, m), w[m as int].bytes());
        lemma_fields_same(v, w, m);
        let none = Seq::<u8>::empty();
        assert(v[m as int].bytes() + none =~= v[m as int].bytes());
        assert(w[m as int].bytes() + none =~= w[m as int].bytes());
        lemma_cut_field(v[m as int], none, w[m as int], none);
        assert(v.take(n as int) =~= v.take(m as int).push(v[m as int]));
        assert(w.take(n as int) =~= w.take(m as int).push(w[m as int]));
    }
}

/// Lists of elements in front of something.
proof fn lemma_cut_list(v: Seq<F256>, x: Seq<u8>, w: Seq<F256>, y: Seq<u8>)
    requires
        field_list(v) + x == field_list(w) + y,
        v.len() < byte_range(8),
        w.len() < byte_range(8),
    ensures
        v == w,
        x == y,
{
    let (f, g) = (fields(v, v.len()), fields(w, w.len()));
    assert(field_list(v) + x =~= le(v.len(), 8) + (f + x));
    assert(field_list(w) + y =~= le(w.len(), 8) + (g + y));
    lemma_cut_le(v.len(), f + x, w.len(), g + y, 8);
    lemma_fields_len(v, v.len());
    lemma_fields_len(w, w.len());
    lemma_cut(f, x, g, y);
    lemma_fields_same(v, w, v.len());
    assert(v.take(v.len() as int) =~= v);
    assert(w.take(w.len() as int) =~= w);
}

/// The same claim, or none.
pub open spec fn same_claim(x: Option<MatrixAccClaim>, y: Option<MatrixAccClaim>) -> bool {
    match (x, y) {
        (Some(c), Some(d)) => c.point@ == d.point@ && c.value == d.value,
        (None, None) => true,
        _ => false,
    }
}

/// The same requirement.
pub open spec fn same_requirement(x: MatrixRequirement, y: MatrixRequirement) -> bool {
    x.digest@ == y.digest@ && x.shape == y.shape
}

spec fn claim_bytes(c: Option<MatrixAccClaim>) -> Seq<u8> {
    match c {
        Some(claim) => seq![1u8] + field_list(claim.point@) + claim.value.bytes(),
        None => seq![0u8],
    }
}

/// Lanes in front of something.
proof fn lemma_cut_lane(
    i: int,
    p: MatrixRequirement,
    c: Option<MatrixAccClaim>,
    x: Seq<u8>,
    q: MatrixRequirement,
    d: Option<MatrixAccClaim>,
    y: Seq<u8>,
)
    requires
        lane_bytes(i, p, c) + x == lane_bytes(i, q, d) + y,
        shape_sized(p.shape),
        shape_sized(q.shape),
        claim_sized(c),
        claim_sized(d),
    ensures
        same_requirement(p, q),
        same_claim(c, d),
        x == y,
{
    lemma_ranges();
    let index = seq![i as u8];
    let (s, t) = (p.shape, q.shape);
    let p5 = claim_bytes(c) + x;
    let p4 = le(pin_code(s), 8) + p5;
    let p3 = le(s.k_skip as nat, 8) + p4;
    let p2 = le(s.k_log as nat, 8) + p3;
    let p1 = le(s.m as nat, 8) + p2;
    let q5 = claim_bytes(d) + y;
    let q4 = le(pin_code(t), 8) + q5;
    let q3 = le(t.k_skip as nat, 8) + q4;
    let q2 = le(t.k_log as nat, 8) + q3;
    let q1 = le(t.m as nat, 8) + q2;
    lemma_assoc(
        index + p.digest@ + le(s.m as nat, 8) + le(s.k_log as nat, 8) + le(s.k_skip as nat, 8) + le(
            pin_code(s),
            8,
        ),
        claim_bytes(c),
        x,
    );
    lemma_assoc(
        index + q.digest@ + le(t.m as nat, 8) + le(t.k_log as nat, 8) + le(t.k_skip as nat, 8) + le(
            pin_code(t),
            8,
        ),
        claim_bytes(d),
        y,
    );
    lemma_regroup(
        index,
        p.digest@,
        le(s.m as nat, 8),
        le(s.k_log as nat, 8),
        le(s.k_skip as nat, 8),
        le(pin_code(s), 8),
        p5,
    );
    lemma_regroup(
        index,
        q.digest@,
        le(t.m as nat, 8),
        le(t.k_log as nat, 8),
        le(t.k_skip as nat, 8),
        le(pin_code(t), 8),
        q5,
    );
    assert(lane_bytes(i, p, c) + x == index + (p.digest@ + p1));
    assert(lane_bytes(i, q, d) + y == index + (q.digest@ + q1));
    lemma_cut(index, p.digest@ + p1, index, q.digest@ + q1);
    lemma_cut(p.digest@, p1, q.digest@, q1);
    lemma_cut_le(s.m as nat, p2, t.m as nat, q2, 8);
    lemma_cut_le(s.k_log as nat, p3, t.k_log as nat, q3, 8);
    lemma_cut_le(s.k_skip as nat, p4, t.k_skip as nat, q4, 8);
    lemma_cut_le(pin_code(s), p5, pin_code(t), q5, 8);
    assert(s.const_pin == t.const_pin);
    assert(p5[0] == q5[0]);
    match (c, d) {
        (Some(v), Some(w)) => {
            let one = seq![1u8];
            lemma_assoc(one + field_list(v.point@), v.value.bytes(), x);
            lemma_assoc(one, field_list(v.point@), v.value.bytes() + x);
            lemma_assoc(one + field_list(w.point@), w.value.bytes(), y);
            lemma_assoc(one, field_list(w.point@), w.value.bytes() + y);
            lemma_cut(
                one,
                field_list(v.point@) + (v.value.bytes() + x),
                one,
                field_list(w.point@) + (w.value.bytes() + y),
            );
            lemma_cut_list(v.point@, v.value.bytes() + x, w.point@, w.value.bytes() + y);
            lemma_cut_field(v.value, x, w.value, y);
        },
        (None, None) => {
            let zero = seq![0u8];
            assert(p5 =~= zero + x);
            assert(q5 =~= zero + y);
            lemma_cut(zero, x, zero, y);
        },
        _ => {},
    }
}

/// Numbers that eight bytes hold.
pub open spec fn shape_sized(shape: FieldShape) -> bool {
    &&& shape.m < byte_range(8)
    &&& shape.k_log < byte_range(8)
    &&& shape.k_skip < byte_range(8)
    &&& pin_code(shape) < byte_range(8)
}

pub open spec fn claim_sized(claim: Option<MatrixAccClaim>) -> bool {
    claim matches Some(c) ==> c.point@.len() < byte_range(8)
}

/// Every list and number of a request fits the eight bytes that encode it.
pub open spec fn sized(x: RequestContext) -> bool {
    &&& forall|i: int|
        0 <= i < x.requirements@.len() ==> shape_sized((#[trigger] x.requirements@[i]).shape)
    &&& forall|i: int| 0 <= i < x.lanes@.len() ==> claim_sized(#[trigger] x.lanes@[i])
    &&& x.fresh.x_inner_rest@.len() < byte_range(8)
    &&& x.fresh.r_inner_rest@.len() < byte_range(8)
    &&& x.fresh.z_partial@.len() < byte_range(8)
}

/// Lanes `k` to `n`.
spec fn lanes_from(
    requirements: Seq<MatrixRequirement>,
    lanes: Seq<Option<MatrixAccClaim>>,
    k: nat,
    n: nat,
) -> Seq<u8>
    decreases n - k,
{
    if k >= n {
        seq![]
    } else {
        lane_bytes(k as int, requirements[k as int], lanes[k as int]) + lanes_from(
            requirements,
            lanes,
            k + 1,
            n,
        )
    }
}

proof fn lemma_lanes_from(
    requirements: Seq<MatrixRequirement>,
    lanes: Seq<Option<MatrixAccClaim>>,
    k: nat,
    n: nat,
)
    requires
        k <= n,
    ensures
        lanes_bytes(requirements, lanes, n) == lanes_bytes(requirements, lanes, k) + lanes_from(
            requirements,
            lanes,
            k,
            n,
        ),
    decreases n - k,
{
    if k < n {
        lemma_lanes_from(requirements, lanes, k + 1, n);
        let head = lanes_bytes(requirements, lanes, k);
        let own = lane_bytes(k as int, requirements[k as int], lanes[k as int]);
        let rest = lanes_from(requirements, lanes, k + 1, n);
        assert((head + own) + rest =~= head + (own + rest));
    } else {
        assert(lanes_bytes(requirements, lanes, n) + Seq::<u8>::empty() =~= lanes_bytes(
            requirements,
            lanes,
            n,
        ));
    }
}

proof fn lemma_cut_lanes(x: RequestContext, a: Seq<u8>, y: RequestContext, c: Seq<u8>, k: nat)
    requires
        x.lanes@.len() == y.lanes@.len(),
        x.requirements@.len() == x.lanes@.len(),
        y.requirements@.len() == y.lanes@.len(),
        sized(x),
        sized(y),
        k <= x.lanes@.len(),
        lanes_from(x.requirements@, x.lanes@, k, x.lanes@.len()) + a == lanes_from(
            y.requirements@,
            y.lanes@,
            k,
            y.lanes@.len(),
        ) + c,
    ensures
        forall|i: int|
            k <= i < x.lanes@.len() ==> same_requirement(
                #[trigger] x.requirements@[i],
                y.requirements@[i],
            ) && same_claim(x.lanes@[i], y.lanes@[i]),
        a == c,
    decreases x.lanes@.len() - k,
{
    let n = x.lanes@.len();
    if k < n {
        let i = k as int;
        let own = lane_bytes(i, x.requirements@[i], x.lanes@[i]);
        let other = lane_bytes(i, y.requirements@[i], y.lanes@[i]);
        let rest = lanes_from(x.requirements@, x.lanes@, k + 1, n);
        let more = lanes_from(y.requirements@, y.lanes@, k + 1, n);
        assert((own + rest) + a =~= own + (rest + a));
        assert((other + more) + c =~= other + (more + c));
        assert(shape_sized(x.requirements@[i].shape) && shape_sized(y.requirements@[i].shape));
        assert(claim_sized(x.lanes@[i]) && claim_sized(y.lanes@[i]));
        lemma_cut_lane(
            i,
            x.requirements@[i],
            x.lanes@[i],
            rest + a,
            y.requirements@[i],
            y.lanes@[i],
            more + c,
        );
        lemma_cut_lanes(x, a, y, c, k + 1);
    } else {
        assert(Seq::<u8>::empty() + a =~= a);
        assert(Seq::<u8>::empty() + c =~= c);
    }
}

proof fn lemma_boundary_len(lanes: Seq<u128>, n: nat)
    ensures
        boundary_bytes(lanes, n).len() == 16 * n,
    decreases n,
{
    if n > 0 {
        lemma_boundary_len(lanes, (n - 1) as nat);
        lemma_le_len(lanes[n - 1] as nat, 16);
    }
}

proof fn lemma_boundary_same(v: Seq<u128>, w: Seq<u128>, n: nat)
    requires
        n <= v.len(),
        n <= w.len(),
        boundary_bytes(v, n) == boundary_bytes(w, n),
    ensures
        v.take(n as int) == w.take(n as int),
    decreases n,
{
    if n == 0 {
        assert(v.take(0) =~= w.take(0));
    } else {
        let m = (n - 1) as nat;
        lemma_ranges();
        lemma_boundary_len(v, m);
        lemma_boundary_len(w, m);
        let (a, c) = (le(v[m as int] as nat, 16), le(w[m as int] as nat, 16));
        lemma_cut(boundary_bytes(v, m), a, boundary_bytes(w, m), c);
        let none = Seq::<u8>::empty();
        assert(a + none =~= a && c + none =~= c);
        lemma_cut_le(v[m as int] as nat, none, w[m as int] as nat, none, 16);
        lemma_boundary_same(v, w, m);
        assert(v.take(n as int) =~= v.take(m as int).push(v[m as int]));
        assert(w.take(n as int) =~= w.take(m as int).push(w[m as int]));
    }
}

/// The same policy.
pub open spec fn same_target(
    x: HistoryStepRetirementTarget,
    y: HistoryStepRetirementTarget,
) -> bool {
    &&& x.legacy_bank_digest@ == y.legacy_bank_digest@
    &&& x.next_bank_digest@ == y.next_bank_digest@
    &&& x.activation_height == y.activation_height
    &&& x.schedule == y.schedule
}

proof fn lemma_cut_target(
    s: HistoryStepRetirementTarget,
    x: Seq<u8>,
    t: HistoryStepRetirementTarget,
    y: Seq<u8>,
)
    requires
        target_bytes(s) + x == target_bytes(t) + y,
        s.wf(),
        t.wf(),
        s.schedule.v1_1_height is Some,
        t.schedule.v1_1_height is Some,
    ensures
        same_target(s, t),
        x == y,
{
    lemma_ranges();
    let s4 = le(s.schedule.v2->0.block_time as nat, 8) + x;
    let s3 = le(s.activation_height as nat, 8) + s4;
    let s2 = le(s.schedule.v1_1_height->0 as nat, 8) + s3;
    let t4 = le(t.schedule.v2->0.block_time as nat, 8) + y;
    let t3 = le(t.activation_height as nat, 8) + t4;
    let t2 = le(t.schedule.v1_1_height->0 as nat, 8) + t3;
    assert(target_bytes(s) + x =~= s.legacy_bank_digest@ + (s.next_bank_digest@ + s2));
    assert(target_bytes(t) + y =~= t.legacy_bank_digest@ + (t.next_bank_digest@ + t2));
    lemma_cut(
        s.legacy_bank_digest@,
        s.next_bank_digest@ + s2,
        t.legacy_bank_digest@,
        t.next_bank_digest@ + t2,
    );
    lemma_cut(s.next_bank_digest@, s2, t.next_bank_digest@, t2);
    lemma_cut_le(
        s.schedule.v1_1_height->0 as nat,
        s3,
        t.schedule.v1_1_height->0 as nat,
        t3,
        8,
    );
    lemma_cut_le(s.activation_height as nat, s4, t.activation_height as nat, t4, 8);
    lemma_cut_le(
        s.schedule.v2->0.block_time as nat,
        x,
        t.schedule.v2->0.block_time as nat,
        y,
        8,
    );
}

/// The same fresh claim.
pub open spec fn same_fresh(x: FreshLincheckClaim, y: FreshLincheckClaim) -> bool {
    &&& x.alpha == y.alpha
    &&& x.z_skip == y.z_skip
    &&& x.x_inner_rest@ == y.x_inner_rest@
    &&& x.r_inner_rest@ == y.r_inner_rest@
    &&& x.z_partial@ == y.z_partial@
    &&& x.value == y.value
}

proof fn lemma_fresh_same(x: FreshLincheckClaim, y: FreshLincheckClaim)
    requires
        fresh_bytes(x) == fresh_bytes(y),
        x.x_inner_rest@.len() < byte_range(8),
        x.r_inner_rest@.len() < byte_range(8),
        x.z_partial@.len() < byte_range(8),
        y.x_inner_rest@.len() < byte_range(8),
        y.r_inner_rest@.len() < byte_range(8),
        y.z_partial@.len() < byte_range(8),
    ensures
        same_fresh(x, y),
{
    let none = Seq::<u8>::empty();
    let x4 = x.value.bytes() + none;
    let x3 = field_list(x.z_partial@) + x4;
    let x2 = field_list(x.r_inner_rest@) + x3;
    let x1 = field_list(x.x_inner_rest@) + x2;
    let y4 = y.value.bytes() + none;
    let y3 = field_list(y.z_partial@) + y4;
    let y2 = field_list(y.r_inner_rest@) + y3;
    let y1 = field_list(y.x_inner_rest@) + y2;
    assert(fresh_bytes(x) =~= x.alpha.bytes() + (x.z_skip.bytes() + x1));
    assert(fresh_bytes(y) =~= y.alpha.bytes() + (y.z_skip.bytes() + y1));
    lemma_cut_field(x.alpha, x.z_skip.bytes() + x1, y.alpha, y.z_skip.bytes() + y1);
    lemma_cut_field(x.z_skip, x1, y.z_skip, y1);
    lemma_cut_list(x.x_inner_rest@, x2, y.x_inner_rest@, y2);
    lemma_cut_list(x.r_inner_rest@, x3, y.r_inner_rest@, y3);
    lemma_cut_list(x.z_partial@, x4, y.z_partial@, y4);
    lemma_cut_field(x.value, none, y.value, none);
}

/// What the digest is taken of fixes every part of a request: two requests with
/// headers of one length, as many boundary lanes and as many classes, and the
/// same bytes, are the same. So no other policy, header, boundary, requirement
/// or claim can pass under an existing binding while the digest is collision
/// free.
pub proof fn lemma_preimage_injective(x: RequestContext, y: RequestContext)
    requires
        x.wf(),
        y.wf(),
        sized(x),
        sized(y),
        x.parent_header.encoded@.len() == y.parent_header.encoded@.len(),
        x.epoch_anchor_header.encoded@.len() == y.epoch_anchor_header.encoded@.len(),
        x.boundary.lanes@.len() == y.boundary.lanes@.len(),
        x.lanes@.len() == y.lanes@.len(),
        x.preimage() == y.preimage(),
    ensures
        same_target(x.target, y.target),
        x.parent_header.encoded@ == y.parent_header.encoded@,
        x.epoch_anchor_header.encoded@ == y.epoch_anchor_header.encoded@,
        x.boundary.lanes@ == y.boundary.lanes@,
        x.tip_class.wire_id == y.tip_class.wire_id,
        forall|i: int|
            0 <= i < x.lanes@.len() ==> same_requirement(
                #[trigger] x.requirements@[i],
                y.requirements@[i],
            ) && same_claim(x.lanes@[i], y.lanes@[i]),
        same_fresh(x.fresh, y.fresh),
{
    let l = x.boundary.lanes@.len();
    let n = x.lanes@.len();
    let x5 = fresh_bytes(x.fresh);
    let x4 = lanes_bytes(x.requirements@, x.lanes@, n) + x5;
    let x3 = seq![x.tip_class.wire_id] + x4;
    let x2 = boundary_bytes(x.boundary.lanes@, l) + x3;
    let x1 = x.epoch_anchor_header.encoded@ + x2;
    let x0 = x.parent_header.encoded@ + x1;
    let y5 = fresh_bytes(y.fresh);
    let y4 = lanes_bytes(y.requirements@, y.lanes@, n) + y5;
    let y3 = seq![y.tip_class.wire_id] + y4;
    let y2 = boundary_bytes(y.boundary.lanes@, l) + y3;
    let y1 = y.epoch_anchor_header.encoded@ + y2;
    let y0 = y.parent_header.encoded@ + y1;
    lemma_regroup(
        target_bytes(x.target),
        x.parent_header.encoded@,
        x.epoch_anchor_header.encoded@,
        boundary_bytes(x.boundary.lanes@, l),
        seq![x.tip_class.wire_id],
        lanes_bytes(x.requirements@, x.lanes@, n),
        x5,
    );
    lemma_regroup(
        target_bytes(y.target),
        y.parent_header.encoded@,
        y.epoch_anchor_header.encoded@,
        boundary_bytes(y.boundary.lanes@, l),
        seq![y.tip_class.wire_id],
        lanes_bytes(y.requirements@, y.lanes@, n),
        y5,
    );
    assert(x.preimage() == target_bytes(x.target) + x0);
    assert(y.preimage() == target_bytes(y.target) + y0);
    lemma_cut_target(x.target, x0, y.target, y0);
    lemma_cut(x.parent_header.encoded@, x1, y.parent_header.encoded@, y1);
    lemma_cut(x.epoch_anchor_header.encoded@, x2, y.epoch_anchor_header.encoded@, y2);
    lemma_boundary_len(x.boundary.lanes@, l);
    lemma_boundary_len(y.boundary.lanes@, l);
    lemma_cut(boundary_bytes(x.boundary.lanes@, l), x3, boundary_bytes(y.boundary.lanes@, l), y3);
    lemma_boundary_same(x.boundary.lanes@, y.boundary.lanes@, l);
    assert(x.boundary.lanes@.take(l as int) =~= x.boundary.lanes@);
    assert(y.boundary.lanes@.take(l as int) =~= y.boundary.lanes@);
    let (wx, wy) = (seq![x.tip_class.wire_id], seq![y.tip_class.wire_id]);
    lemma_cut(wx, x4, wy, y4);
    assert(wx[0] == wy[0]);
    lemma_lanes_from(x.requirements@, x.lanes@, 0, n);
    lemma_lanes_from(y.requirements@, y.lanes@, 0, n);
    let fx = lanes_from(x.requirements@, x.lanes@, 0, n);
    let fy = lanes_from(y.requirements@, y.lanes@, 0, n);
    assert(lanes_bytes(x.requirements@, x.lanes@, 0) + fx =~= fx);
    assert(lanes_bytes(y.requirements@, y.lanes@, 0) + fy =~= fy);
    lemma_cut_lanes(x, x5, y, y5, 0);
    lemma_fresh_same(x.fresh, y.fresh);
}

} // verus!
