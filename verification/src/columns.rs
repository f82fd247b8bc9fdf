//! Committed columns inside a witness: aligned slices, their allocation, and
//! the cells that statements are pinned to.
use crate::circuit::{group_agree, wire_form, FieldR1csBuilder, LinExpr, LinForm, Wire};
use crate::dyadic::power_of_two;
use crate::field::{is_bit, F128};
use crate::region_layout::align_up;
use crate::trace::{pin_eq, refines};
use crate::circuit::Shape;
use crate::trace::{bits_step, pin_eq_step};
use vstd::arithmetic::power2::{lemma_pow2_pos, pow2};
use vstd::prelude::*;

verus! {

broadcast use group_agree;

/// An aligned dyadic range of witness wires.
#[derive(Clone, Copy, Debug, PartialEq, Eq, Structural)]
pub struct WitnessSlice {
    pub log2_len: usize,
    pub index: usize,
}

impl WitnessSlice {
    pub open spec fn first(self) -> nat {
        self.index as nat * pow2(self.log2_len as nat)
    }

    pub open spec fn size(self) -> nat {
        pow2(self.log2_len as nat)
    }

    /// The slice lies inside a witness of `n` wires.
    pub open spec fn inside(self, n: nat) -> bool {
        self.first() + self.size() <= n && n <= usize::MAX
    }

    /// The first wire of the slice.
    pub fn start(&self) -> (r: usize)
        requires
            self.first() <= usize::MAX,
            self.size() <= usize::MAX,
        ensures
            r == self.first(),
    {
        self.index * power_of_two(self.log2_len)
    }

    /// The number of wires of the slice.
    pub fn len(&self) -> (r: usize)
        requires
            self.size() <= usize::MAX,
        ensures
            r == self.size(),
    {
        power_of_two(self.log2_len)
    }
}

/// The cell at `slot` of a slice, as a wire.
pub fn slot_cell(slice: &WitnessSlice, slot: usize) -> (r: LinExpr)
    requires
        slice.first() + slot < usize::MAX,
        slice.size() <= usize::MAX,
    ensures
        forall|z: spec_fn(int) -> u128| #[trigger] r.at(z) == z((slice.first() + slot) as int),
        r.bound() == slice.first() + slot + 1,
        r@ == wire_form((slice.first() + slot) as nat),
{
    LinExpr::from_wire(Wire { index: slice.start() + slot })
}

/// `n` more wires, all free.
#[verifier::opaque]
pub open spec fn free_step(s: Shape, n: nat) -> Shape
    decreases n,
{
    if n == 0 {
        s
    } else {
        free_step(s, (n - 1) as nat).free()
    }
}

/// Free wires up to the next multiple of `block`.
#[verifier::opaque]
pub open spec fn align_step(s: Shape, block: nat) -> Shape {
    let rest = s.n() % block;
    free_step(
        s,
        if rest == 0 {
            0
        } else {
            (block - rest) as nat
        },
    )
}

/// Allocates zero wires up to the next multiple of `block`.
fn align_wires(b: &mut FieldR1csBuilder, block: usize)
    requires
        old(b).wf(),
        block > 0,
    ensures
        final(b).extends(old(b)),
        final(b).wires() == align_up(old(b).wires(), block as nat),
        forall|z: spec_fn(int) -> u128| #[trigger] final(b).holds(z) <==> old(b).holds(z),
        final(b).honest() <==> old(b).honest(),
        forall|i: int|
            old(b).wires() <= i < final(b).wires() ==> #[trigger] final(b).witness()(i) == 0,
        final(b).shape() == align_step(old(b).shape(), block as nat),
{
    reveal(free_step);
    reveal(align_step);
    let ghost entry = *b;
    let ghost before = *b;
    proof {
        reveal(align_up);
    }
    let rest = b.num_wires() % block;
    let missing: usize = if rest == 0 {
        0
    } else {
        block - rest
    };
    let mut k: usize = 0;
    while k < missing
        invariant
            k <= missing,
            before.wf(),
            b.extends(&before),
            b.wires() == before.wires() + k,
            forall|z: spec_fn(int) -> u128| #[trigger] b.holds(z) <==> before.holds(z),
            forall|i: int| before.wires() <= i < b.wires() ==> #[trigger] b.witness()(i) == 0,
            b.shape() == free_step(entry.shape(), k as nat),
        decreases missing - k,
    {
        reveal(free_step);
        let ghost mid = *b;
        let _w = b.alloc_f128(F128::zero());
        proof {
            assert forall|i: int| before.wires() <= i < b.wires() implies #[trigger] b.witness()(i)
                == 0 by {
                if i < mid.wires() {
                    assert(b.witness()(i) == mid.witness()(i));
                }
            }
        }
        k = k + 1;
    }
}

/// What a column allocation appends: `column`, padded with zeros to at least
/// `size` cells.
pub open spec fn cell_at(column: Seq<F128>, i: int) -> u128 {
    if 0 <= i < column.len() {
        column[i]@
    } else {
        0
    }
}

/// The number of cells of an allocated column.
pub open spec fn column_cells(column: Seq<F128>, size: nat) -> nat {
    if column.len() > size {
        column.len()
    } else {
        size
    }
}

/// The first `n` cells of a slice carry bits.
pub open spec fn bit_cells(slice: WitnessSlice, n: nat, z: spec_fn(int) -> u128) -> bool {
    forall|i: int| 0 <= i < n ==> is_bit(#[trigger] z(slice.first() + i))
}

/// A slice holds a column: it starts at the next multiple of its size and its
/// cells carry the column's values.
pub open spec fn slice_holds(
    after: FieldR1csBuilder,
    before: FieldR1csBuilder,
    slice: WitnessSlice,
    column: Seq<F128>,
) -> bool {
    &&& slice.first() == align_up(before.wires(), slice.size())
    &&& after.wires() == slice.first() + column_cells(column, slice.size())
    &&& forall|i: int|
        0 <= i < column_cells(column, slice.size()) ==> #[trigger] after.witness()(
            slice.first() + i,
        ) == cell_at(column, i)
}

proof fn lemma_aligned_index(n: nat, size: nat) -> (q: nat)
    requires
        size > 0,
    ensures
        align_up(n, size) == q * size,
        q == align_up(n, size) / size,
{
    reveal(align_up);
    let a = align_up(n, size);
    let q = a / size;
    vstd::arithmetic::div_mod::lemma_fundamental_div_mod(n as int, size as int);
    vstd::arithmetic::div_mod::lemma_mod_bound(n as int, size as int);
    let d = n as int / size as int;
    let r = n % size;
    if r == 0 {
        assert(a == d * size) by (nonlinear_arith)
            requires
                a == n,
                n == size * d + r,
                r == 0,
        ;
        vstd::arithmetic::div_mod::lemma_div_multiples_vanish(d, size as int);
    } else {
        assert(a == (d + 1) * size) by (nonlinear_arith)
            requires
                a == n + size - r,
                n == size * d + r,
        ;
        vstd::arithmetic::div_mod::lemma_div_multiples_vanish(d + 1, size as int);
    }
    assert(size * q == q * size) by (nonlinear_arith);
    q
}

/// The wires of a column of `len` cells.
#[verifier::opaque]
pub open spec fn column_step(s: Shape, len: nat, size: nat) -> Shape {
    free_step(
        align_step(s, size),
        if len > size {
            len
        } else {
            size
        },
    )
}

/// The wires of a column of `len` bits.
#[verifier::opaque]
pub open spec fn bit_column_step(s: Shape, len: nat, size: nat) -> Shape {
    bits_step(
        align_step(s, size),
        if len > size {
            len
        } else {
            size
        },
    )
}

/// Allocates a column on an aligned slice.
pub fn alloc_column_slice_values_only(
    b: &mut FieldR1csBuilder,
    column: &[F128],
    log2_len: usize,
) -> (slice: WitnessSlice)
    requires
        old(b).wf(),
        pow2(log2_len as nat) <= usize::MAX,
    ensures
        final(b).extends(old(b)),
        slice.log2_len == log2_len,
        slice_holds(*final(b), *old(b), slice, column@),
        forall|z: spec_fn(int) -> u128| #[trigger] final(b).holds(z) <==> old(b).holds(z),
        final(b).honest() <==> old(b).honest(),
        final(b).shape() == column_step(old(b).shape(), column@.len(), pow2(log2_len as nat)),
{
    reveal(free_step);
    reveal(column_step);
    let ghost before = *b;
    let block = power_of_two(log2_len);
    proof {
        lemma_pow2_pos(log2_len as nat);
    }
    align_wires(b, block);
    let ghost aligned = b.shape();
    let ghost base = b.wires();
    let ghost q = lemma_aligned_index(before.wires(), block as nat);
    let index = b.num_wires() / block;
    let mut i: usize = 0;
    while i < column.len() || i < block
        invariant
            i <= column@.len() || i <= block,
            before.wf(),
            b.extends(&before),
            b.wires() == base + i,
            base == align_up(before.wires(), block as nat),
            forall|z: spec_fn(int) -> u128| #[trigger] b.holds(z) <==> before.holds(z),
            forall|k: int| 0 <= k < i ==> #[trigger] b.witness()(base + k) == cell_at(column@, k),
            b.shape() == free_step(aligned, i as nat),
        decreases column@.len() + block - i,
    {
        reveal(free_step);
        let ghost mid = *b;
        let value = if i < column.len() {
            column[i]
        } else {
            F128::zero()
        };
        let _w = b.alloc_f128(value);
        proof {
            assert forall|k: int| 0 <= k < i + 1 implies #[trigger] b.witness()(base + k)
                == cell_at(column@, k) by {
                if k < i {
                    assert(b.witness()(base + k) == mid.witness()(base + k));
                }
            }
        }
        i = i + 1;
    }
    let slice = WitnessSlice { log2_len, index };
    assert(slice.first() == base);
    slice
}

/// Allocates a column of bits on an aligned slice; every cell of the slice is
/// constrained to a bit by its own row.
pub fn alloc_boolean_column_slice_values_only(
    b: &mut FieldR1csBuilder,
    column: &[F128],
    log2_len: usize,
) -> (slice: WitnessSlice)
    requires
        old(b).wf(),
        pow2(log2_len as nat) <= usize::MAX,
        forall|i: int| 0 <= i < column@.len() ==> is_bit((#[trigger] column@[i])@),
    ensures
        final(b).extends(old(b)),
        slice.log2_len == log2_len,
        slice_holds(*final(b), *old(b), slice, column@),
        forall|z: spec_fn(int) -> u128| #[trigger]
            final(b).holds(z) <==> old(b).holds(z) && forall|i: int|
                0 <= i < column_cells(column@, slice.size()) ==> is_bit(
                    #[trigger] z(slice.first() + i),
                ),
        final(b).honest() <==> old(b).honest(),
        final(b).shape() == bit_column_step(old(b).shape(), column@.len(), pow2(log2_len as nat)),
{
    reveal(bits_step);
    reveal(bit_column_step);
    let ghost before = *b;
    let block = power_of_two(log2_len);
    proof {
        lemma_pow2_pos(log2_len as nat);
    }
    align_wires(b, block);
    let ghost aligned = b.shape();
    let ghost base = b.wires();
    let ghost q = lemma_aligned_index(before.wires(), block as nat);
    let index = b.num_wires() / block;
    let mut i: usize = 0;
    while i < column.len() || i < block
        invariant
            i <= column@.len() || i <= block,
            before.wf(),
            b.extends(&before),
            b.wires() == base + i,
            base == align_up(before.wires(), block as nat),
            b.honest() <==> before.honest(),
            forall|k: int| 0 <= k < column@.len() ==> is_bit((#[trigger] column@[k])@),
            forall|z: spec_fn(int) -> u128| #[trigger]
                b.holds(z) <==> before.holds(z) && forall|k: int|
                    0 <= k < i ==> is_bit(#[trigger] z(base + k)),
            forall|k: int| 0 <= k < i ==> #[trigger] b.witness()(base + k) == cell_at(column@, k),
            b.shape() == bits_step(aligned, i as nat),
        decreases column@.len() + block - i,
    {
        reveal(bits_step);
        let ghost mid = *b;
        let set = if i < column.len() {
            column[i].bits == 1
        } else {
            false
        };
        proof {
            if i < column@.len() {
                assert(is_bit(column@[i as int]@));
            }
        }
        let _w = b.alloc_bool(set);
        proof {
            assert forall|k: int| 0 <= k < i + 1 implies #[trigger] b.witness()(base + k)
                == cell_at(column@, k) by {
                if k < i {
                    assert(b.witness()(base + k) == mid.witness()(base + k));
                }
            }
            assert forall|z: spec_fn(int) -> u128| #[trigger]
                b.holds(z) <==> before.holds(z) && forall|k: int|
                    0 <= k < i + 1 ==> is_bit(#[trigger] z(base + k)) by {
                if b.holds(z) {
                    assert(mid.holds(z));
                    assert forall|k: int| 0 <= k < i + 1 implies is_bit(#[trigger] z(base + k)) by {
                        if k < i {
                            assert(is_bit(z(base + k)));
                        }
                    }
                }
                if before.holds(z) && forall|k: int|
                    0 <= k < i + 1 ==> is_bit(#[trigger] z(base + k)) {
                    assert(is_bit(z(base + i)));
                    assert(mid.holds(z));
                }
            }
        }
        i = i + 1;
    }
    let slice = WitnessSlice { log2_len, index };
    assert(slice.first() == base);
    slice
}

/// The wires of the first `n` columns of one walk.
#[verifier::opaque]
pub open spec fn columns_step(s: Shape, size: nat, boolean: Option<usize>, n: nat) -> Shape
    decreases n,
{
    if n == 0 {
        s
    } else {
        let t = columns_step(s, size, boolean, (n - 1) as nat);
        if boolean is Some && boolean->0 == n - 1 {
            bit_column_step(t, size, size)
        } else {
            column_step(t, size, size)
        }
    }
}

/// Allocates the columns of one family one after the other; the column at
/// `boolean_column`, if any, as bits.
pub fn alloc_selected_columns(
    b: &mut FieldR1csBuilder,
    columns: &Vec<Vec<F128>>,
    w_log: usize,
    boolean_column: Option<usize>,
) -> (slices: Vec<WitnessSlice>)
    requires
        old(b).wf(),
        pow2(w_log as nat) <= usize::MAX,
        forall|c: int| 0 <= c < columns@.len() ==> (#[trigger] columns@[c])@.len() == pow2(
            w_log as nat,
        ),
        boolean_column matches Some(c) ==> c < columns@.len() && forall|i: int|
            0 <= i < columns@[c as int]@.len() ==> is_bit((#[trigger] columns@[c as int]@[i])@),
    ensures
        final(b).extends(old(b)),
        final(b).honest() <==> old(b).honest(),
        slices@.len() == columns@.len(),
        columns@.len() > 0 ==> slices@[0].first() == align_up(old(b).wires(), pow2(w_log as nat)),
        columns@.len() > 0 ==> final(b).wires() == slices@[0].first() + columns@.len() * pow2(
            w_log as nat,
        ),
        columns@.len() == 0 ==> final(b).wires() == old(b).wires(),
        forall|c: int|
            0 <= c < columns@.len() ==> (#[trigger] slices@[c]).log2_len == w_log
                && slices@[c].first() == slices@[0].first() + c * pow2(w_log as nat),
        forall|c: int, i: int|
            0 <= c < columns@.len() && 0 <= i < pow2(w_log as nat) ==> #[trigger] final(b).witness()(slices@[c].first() + i) == columns@[c]@[i]@,
        forall|z: spec_fn(int) -> u128| #[trigger]
            final(b).holds(z) <==> old(b).holds(z) && (boolean_column matches Some(c) ==> bit_cells(
                slices@[c as int],
                pow2(w_log as nat),
                z,
            )),
        final(b).shape() == columns_step(
            old(b).shape(),
            pow2(w_log as nat),
            boolean_column,
            columns@.len(),
        ),
{
    reveal(columns_step);
    let ghost before = *b;
    let ghost size = pow2(w_log as nat);
    let mut slices: Vec<WitnessSlice> = Vec::new();
    let mut c: usize = 0;
    proof {
        lemma_pow2_pos(w_log as nat);
    }
    while c < columns.len()
        invariant
            c <= columns@.len(),
            size == pow2(w_log as nat),
            0 < size <= usize::MAX,
            before.wf(),
            b.extends(&before),
            b.honest() <==> before.honest(),
            forall|k: int| 0 <= k < columns@.len() ==> (#[trigger] columns@[k])@.len() == size,
            boolean_column matches Some(k) ==> k < columns@.len() && forall|i: int|
                0 <= i < columns@[k as int]@.len() ==> is_bit(
                    (#[trigger] columns@[k as int]@[i])@,
                ),
            slices@.len() == c,
            c == 0 ==> b.wires() == before.wires(),
            c > 0 ==> slices@[0].first() == align_up(before.wires(), size),
            c > 0 ==> b.wires() == slices@[0].first() + c * size,
            c > 0 ==> slices@[0].first() % size == 0,
            forall|k: int|
                0 <= k < c ==> (#[trigger] slices@[k]).log2_len == w_log && slices@[k].first()
                    == slices@[0].first() + k * size,
            forall|k: int, i: int|
                0 <= k < c && 0 <= i < size ==> #[trigger] b.witness()(slices@[k].first() + i)
                    == columns@[k]@[i]@,
            forall|z: spec_fn(int) -> u128| #[trigger]
                b.holds(z) <==> before.holds(z) && (boolean_column matches Some(k) ==> k < c ==> forall|i: int|
                    0 <= i < size ==> is_bit(#[trigger] z(slices@[k as int].first() + i))),
            b.shape() == columns_step(before.shape(), size, boolean_column, c as nat),
        decreases columns@.len() - c,
    {
        reveal(columns_step);
        let ghost start = *b;
        let ghost slices0 = slices@;
        assert(columns@[c as int]@.len() == size);
        let is_boolean = match boolean_column {
            Some(k) => k == c,
            None => false,
        };
        let slice = if is_boolean {
            alloc_boolean_column_slice_values_only(b, columns[c].as_slice(), w_log)
        } else {
            alloc_column_slice_values_only(b, columns[c].as_slice(), w_log)
        };
        slices.push(slice);
        proof {
            let first = slices@[0].first();
            if c == 0 {
                let q = lemma_aligned_index(before.wires(), size);
                vstd::arithmetic::div_mod::lemma_mod_multiples_basic(q as int, size as int);
                assert(0 * size == 0);
                assert(1 * size == size);
            } else {
                reveal(align_up);
                assert(slices@[0] == slices0[0]);
                vstd::arithmetic::div_mod::lemma_fundamental_div_mod(
                    slices0[0].first() as int,
                    size as int,
                );
                let q0 = slices0[0].first() as int / size as int;
                assert(slices0[0].first() + c * size == (q0 + c) * size) by (nonlinear_arith)
                    requires
                        slices0[0].first() == size * q0 + 0,
                ;
                vstd::arithmetic::div_mod::lemma_mod_multiples_basic(q0 + c, size as int);
                assert(start.wires() % size == 0);
                assert((c + 1) * size == c * size + size) by (nonlinear_arith);
            }
            assert(slice.first() == first + c * size);
            assert forall|k: int| 0 <= k < c + 1 implies (#[trigger] slices@[k]).log2_len == w_log
                && slices@[k].first() == first + k * size by {
                if k < c {
                    assert(slices@[k] == slices0[k]);
                }
            }
            assert forall|k: int, i: int| 0 <= k < c + 1 && 0 <= i < size implies #[trigger] b.witness()(
                slices@[k].first() + i,
            ) == columns@[k]@[i]@ by {
                if k < c {
                    assert(slices@[k] == slices0[k]);
                    assert(k * size + i < c * size) by (nonlinear_arith)
                        requires
                            k < c,
                            0 <= i < size,
                    ;
                    assert(b.witness()(slices0[k].first() + i) == start.witness()(
                        slices0[k].first() + i,
                    ));
                } else {
                    assert(b.witness()(slice.first() + i) == cell_at(columns@[k]@, i));
                }
            }
            assert forall|z: spec_fn(int) -> u128| #[trigger]
                b.holds(z) <==> before.holds(z) && (boolean_column matches Some(k) ==> k < c + 1 ==> forall|i: int|
                    0 <= i < size ==> is_bit(#[trigger] z(slices@[k as int].first() + i))) by {
                assert(column_cells(columns@[c as int]@, size) == size);
                assert(slices@[c as int] == slice);
                if boolean_column is Some {
                    let k = boolean_column->0;
                    if k < c {
                        assert(slices@[k as int] == slices0[k as int]);
                        assert(b.holds(z) <==> start.holds(z));
                    } else if k == c {
                        if b.holds(z) {
                            assert(start.holds(z));
                            assert forall|i: int| 0 <= i < size implies is_bit(
                                #[trigger] z(slices@[k as int].first() + i),
                            ) by {
                                assert(is_bit(z(slice.first() + i)));
                            }
                        }
                        if before.holds(z) && forall|i: int|
                            0 <= i < size ==> is_bit(
                                #[trigger] z(slices@[k as int].first() + i),
                            ) {
                            assert(start.holds(z));
                            assert forall|i: int| 0 <= i < size implies is_bit(
                                #[trigger] z(slice.first() + i),
                            ) by {
                                assert(is_bit(z(slices@[k as int].first() + i)));
                            }
                            assert(b.holds(z));
                        }
                    } else {
                        assert(b.holds(z) <==> start.holds(z));
                    }
                } else {
                    assert(b.holds(z) <==> start.holds(z));
                }
            }
        }
        c = c + 1;
    }
    slices
}

/// One statement pin: a cell of a column and the expression it equals.
pub struct CellPin {
    pub column: usize,
    pub slot: usize,
    pub wire: LinExpr,
}

/// A pin as a value.
pub struct PinView {
    pub column: int,
    pub slot: int,
    pub form: LinForm,
}

impl View for CellPin {
    type V = PinView;

    open spec fn view(&self) -> PinView {
        PinView { column: self.column as int, slot: self.slot as int, form: self.wire@ }
    }
}

/// The pins of a list, as values.
pub open spec fn pin_views(pins: Seq<CellPin>) -> Seq<PinView> {
    Seq::new(pins.len(), |i: int| pins[i]@)
}

/// A pin of the cell at `slot` of column `column`.
pub open spec fn pin_view(column: int, slot: int, form: LinForm) -> PinView {
    PinView { column, slot, form }
}

/// Appends one pin.
pub fn push_pin(pins: &mut Vec<CellPin>, column: usize, slot: usize, wire: LinExpr)
    ensures
        pin_views(final(pins)@) == pin_views(old(pins)@).push(
            pin_view(column as int, slot as int, wire@),
        ),
{
    let ghost before = pins@;
    pins.push(CellPin { column, slot, wire });
    assert(pin_views(pins@) =~= pin_views(before).push(
        pin_view(column as int, slot as int, wire@),
    ));
}

/// A pin on one of the given columns.
pub open spec fn pin_holds(
    pin: CellPin,
    slices: Seq<WitnessSlice>,
    z: spec_fn(int) -> u128,
) -> bool {
    pin.wire.at(z) == z((slices[pin.column as int].first() + pin.slot) as int)
}

pub open spec fn pins_hold(
    pins: Seq<CellPin>,
    slices: Seq<WitnessSlice>,
    z: spec_fn(int) -> u128,
    n: nat,
) -> bool {
    forall|i: int| 0 <= i < n ==> pin_holds(#[trigger] pins[i], slices, z)
}

/// All pins are on cells that exist.
pub open spec fn pins_bounded(pins: Seq<CellPin>, slices: Seq<WitnessSlice>, n: nat) -> bool {
    forall|i: int|
        0 <= i < pins.len() ==> {
            let pin = #[trigger] pins[i];
            &&& pin.wire.bound() <= n
            &&& pin.column < slices.len()
            &&& slices[pin.column as int].first() + pin.slot < n
            &&& slices[pin.column as int].size() <= usize::MAX
        }
}

/// The rows of the first `n` pins of cells.
#[verifier::opaque]
pub open spec fn cells_step(s: Shape, slices: Seq<WitnessSlice>, pins: Seq<CellPin>, n: nat) -> Shape
    decreases n,
{
    if n == 0 {
        s
    } else {
        let pin = pins[n - 1];
        pin_eq_step(
            cells_step(s, slices, pins, (n - 1) as nat),
            pin.wire@,
            wire_form((slices[pin.column as int].first() + pin.slot) as nat),
        )
    }
}

/// Pins every listed cell to its expression.
pub fn pin_stage2_cells(b: &mut FieldR1csBuilder, slices: &Vec<WitnessSlice>, pins: &Vec<CellPin>)
    requires
        old(b).wf(),
        pins_bounded(pins@, slices@, old(b).wires()),
    ensures
        refines(*final(b), *old(b)),
        old(b).gate_list().len() == 0 ==> final(b).wires() == old(b).wires() + pins@.len(),
        forall|z: spec_fn(int) -> u128| #[trigger]
            final(b).holds(z) && old(b).live(z) ==> pins_hold(pins@, slices@, z, pins@.len()),
        old(b).live(old(b).witness()) ==> (final(b).honest() <==> old(b).honest() && pins_hold(
            pins@,
            slices@,
            old(b).witness(),
            pins@.len(),
        )),
        final(b).shape() == cells_step(old(b).shape(), slices@, pins@, pins@.len()),
{
    reveal(cells_step);
    let ghost entry = *b;
    let ghost before = *b;
    let ghost w = b.witness();
    let wires = b.num_wires();
    let mut i: usize = 0;
    while i < pins.len()
        invariant
            i <= pins@.len(),
            before.wf(),
            w == before.witness(),
            wires == before.wires(),
            refines(*b, before),
            pins_bounded(pins@, slices@, before.wires()),
            before.gate_list().len() == 0 ==> b.wires() == before.wires() + i,
            forall|z: spec_fn(int) -> u128| #[trigger]
                b.holds(z) && before.live(z) ==> pins_hold(pins@, slices@, z, i as nat),
            before.live(w) ==> (b.honest() <==> before.honest() && pins_hold(
                pins@,
                slices@,
                w,
                i as nat,
            )),
            b.shape() == cells_step(entry.shape(), slices@, pins@, i as nat),
        decreases pins@.len() - i,
    {
        reveal(cells_step);
        let ghost start = *b;
        let ghost pin = pins@[i as int];
        assert(pin.column < slices@.len());
        let cell = slot_cell(&slices[pins[i].column], pins[i].slot);
        pin_eq(b, &pins[i].wire, &cell);
        proof {
            assert forall|z: spec_fn(int) -> u128| #[trigger]
                b.holds(z) && before.live(z) implies pins_hold(
                pins@,
                slices@,
                z,
                (i + 1) as nat,
            ) by {
                assert(start.holds(z) && start.live(z));
                assert(pin_holds(pin, slices@, z));
            }
            if before.live(w) {
                assert(pin.wire.at(start.witness()) == pin.wire.at(w));
                assert(cell.at(start.witness()) == cell.at(w));
                assert(pins_hold(pins@, slices@, w, (i + 1) as nat) <==> pins_hold(
                    pins@,
                    slices@,
                    w,
                    i as nat,
                ) && pin_holds(pin, slices@, w)) by {
                    if pins_hold(pins@, slices@, w, (i + 1) as nat) {
                        assert(pin_holds(pins@[i as int], slices@, w));
                    }
                }
            }
        }
        i = i + 1;
    }
}

} // verus!
