//! The roots of feed-forward paths, read back from the nine columns of a walk.
use crate::circuit::{agree, group_agree, FieldR1csBuilder, LinExpr};
use crate::columns::WitnessSlice;
use crate::dyadic::{ceil_pow2, lemma_ceil, next_power_of_two};
use crate::field::fmul;
use crate::meta_pins::WirePair;
use crate::parent_close::{cell_wire, lemma_states_both, states, walk_cell, walk_inside};
use crate::trace::pin_eq;
use crate::circuit::{form_add, wire_form, LinForm, Shape};
use crate::trace::{mul_step, pin_eq_step};
use vstd::prelude::*;

verus! {

broadcast use group_agree;

/// Lane `lane` of the root of a path of `depth` levels that starts at `base`
/// and has `stride` slots. With a slot to spare, the slot behind the last level
/// carries the root. Otherwise the root is the last state, fed forward with the
/// child that the direction selects.
pub open spec fn path_root(
    slices: Seq<WitnessSlice>,
    base: int,
    depth: int,
    stride: int,
    lane: int,
    z: spec_fn(int) -> u128,
) -> u128 {
    if depth < stride {
        z(cell_wire(slices, 4 + lane, base + depth))
    } else {
        let last = base + depth - 1;
        let carried = z(cell_wire(slices, 4 + lane, last));
        let sibling = z(cell_wire(slices, 6 + lane, last));
        let direction = z(cell_wire(slices, 8, last));
        (z(cell_wire(slices, lane, last)) ^ carried) ^ fmul(direction, carried ^ sibling)
    }
}

/// The cells of a path and its root.
pub open spec fn path_inside(base: int, depth: int, stride: int, len: int) -> bool {
    &&& 0 < depth <= stride
    &&& 0 <= base
    &&& base + stride <= len
}

/// The form of a cell.
pub open spec fn cell_form(slices: Seq<WitnessSlice>, column: int, slot: int) -> LinForm {
    wire_form(cell_wire(slices, column, slot) as nat)
}

/// The rows of one lane of a root.
#[verifier::opaque]
pub open spec fn path_root_step(
    s: Shape,
    slices: Seq<WitnessSlice>,
    base: int,
    depth: int,
    stride: int,
    lane: int,
    wire: LinForm,
) -> Shape {
    if depth < stride {
        pin_eq_step(s, cell_form(slices, 4 + lane, base + depth), wire)
    } else {
        let last = base + depth - 1;
        let carried = cell_form(slices, 4 + lane, last);
        let sibling = cell_form(slices, 6 + lane, last);
        let (t, selected) = mul_step(s, cell_form(slices, 8, last), form_add(carried, sibling));
        let root = form_add(form_add(cell_form(slices, lane, last), carried), selected);
        pin_eq_step(t, root, wire)
    }
}

/// Pins one lane of a root to a wire.
pub(crate) fn pin_path_root(
    b: &mut FieldR1csBuilder,
    slices: &Vec<WitnessSlice>,
    base: usize,
    depth: usize,
    stride: usize,
    lane: usize,
    wire: &LinExpr,
    Ghost(len): Ghost<int>,
    Ghost(n): Ghost<nat>,
)
    requires
        old(b).wf(),
        n <= old(b).wires(),
        n <= usize::MAX,
        walk_inside(slices@, 9, len, n),
        path_inside(base as int, depth as int, stride as int, len),
        lane < 2,
        wire.bound() <= n,
    ensures
        states(
            *final(b),
            *old(b),
            |z: spec_fn(int) -> u128|
                path_root(slices@, base as int, depth as int, stride as int, lane as int, z)
                    == wire.at(z),
        ),
        final(b).shape() == path_root_step(
            old(b).shape(),
            slices@,
            base as int,
            depth as int,
            stride as int,
            lane as int,
            wire@,
        ),
{
    reveal(path_root_step);
    let ghost b0 = *b;
    let ghost at = |z: spec_fn(int) -> u128|
        path_root(slices@, base as int, depth as int, stride as int, lane as int, z);
    let ghost cond = |z: spec_fn(int) -> u128|
        path_root(slices@, base as int, depth as int, stride as int, lane as int, z) == wire.at(z);
    assert(slices@[0].first() + len <= n);
    if depth < stride {
        let root = walk_cell(slices, 4 + lane, base + depth, Ghost(9), Ghost(len), Ghost(n));
        pin_eq(b, &root, wire);
        proof {
            assert forall|z: spec_fn(int) -> u128| #[trigger]
                b.holds(z) && b0.live(z) implies cond(z) by {
                assert(root.at(z) == wire.at(z));
            }
            assert(root.at(b0.witness()) == at(b0.witness()));
        }
    } else {
        let last: usize = base + depth - 1;
        let carried = walk_cell(slices, 4 + lane, last, Ghost(9), Ghost(len), Ghost(n));
        let sibling = walk_cell(slices, 6 + lane, last, Ghost(9), Ghost(len), Ghost(n));
        let direction = walk_cell(slices, 8, last, Ghost(9), Ghost(len), Ghost(n));
        let state = walk_cell(slices, lane, last, Ghost(9), Ghost(len), Ghost(n));
        let sum = carried.add(&sibling);
        let selected = crate::trace::mul(b, &direction, &sum);
        let ghost b1 = *b;
        let root = state.add(&carried).add(&selected);
        pin_eq(b, &root, wire);
        proof {
            assert forall|z: spec_fn(int) -> u128| #[trigger]
                b1.holds(z) implies root.at(z) == at(z) by {
                assert(selected.at(z) == fmul(direction.at(z), sum.at(z)));
            }
            assert forall|z: spec_fn(int) -> u128| #[trigger]
                b.holds(z) && b0.live(z) implies cond(z) by {
                assert(b1.holds(z));
                assert(b1.live(z));
                assert(root.at(z) == wire.at(z));
            }
            let w = b0.witness();
            let v = b1.witness();
            assert(carried@.at(v) == carried@.at(w));
            assert(sibling@.at(v) == sibling@.at(w));
            assert(direction@.at(v) == direction@.at(w));
            assert(state@.at(v) == state@.at(w));
            assert(wire@.at(v) == wire@.at(w));
            assert(root.at(v) == at(w));
        }
    }
}

/// The public root of one path of a wallet's walk.
pub struct WalletFfRootPin {
    pub base_slot: usize,
    pub depth: usize,
    pub root_wires: WirePair,
}

impl WalletFfRootPin {
    /// The slots that the path has: the least power of two that holds its levels.
    pub open spec fn stride(&self) -> nat {
        ceil_pow2(self.depth as nat)
    }

    /// A path with at least one level, inside a walk of `len` slots, whose
    /// root reads wires below `n`.
    pub open spec fn inside(&self, len: int, n: nat) -> bool {
        &&& path_inside(self.base_slot as int, self.depth as int, self.stride() as int, len)
        &&& self.root_wires.below(n)
    }

    /// The root that the cells give is the public one.
    pub open spec fn met(&self, slices: Seq<WitnessSlice>, z: spec_fn(int) -> u128) -> bool {
        &&& path_root(
            slices,
            self.base_slot as int,
            self.depth as int,
            self.stride() as int,
            0,
            z,
        ) == self.root_wires.a.at(z)
        &&& path_root(
            slices,
            self.base_slot as int,
            self.depth as int,
            self.stride() as int,
            1,
            z,
        ) == self.root_wires.b.at(z)
    }

    pub fn new(base_slot: usize, depth: usize, root_wires: WirePair) -> (r: WalletFfRootPin)
        requires
            depth > 0,
        ensures
            r.base_slot == base_slot,
            r.depth == depth,
            r.root_wires == root_wires,
    {
        WalletFfRootPin { base_slot, depth, root_wires }
    }
}

pub open spec fn roots_met(
    pins: Seq<WalletFfRootPin>,
    slices: Seq<WitnessSlice>,
    z: spec_fn(int) -> u128,
    n: nat,
) -> bool {
    forall|i: int| 0 <= i < n ==> (#[trigger] pins[i]).met(slices, z)
}

/// Values that agree below `n` give a path the same root.
proof fn lemma_met_agree(
    pin: WalletFfRootPin,
    slices: Seq<WitnessSlice>,
    len: int,
    n: nat,
    z: spec_fn(int) -> u128,
    w: spec_fn(int) -> u128,
)
    requires
        walk_inside(slices, 9, len, n),
        pin.inside(len, n),
        agree(z, w, n),
    ensures
        pin.met(slices, z) == pin.met(slices, w),
{
    assert(pin.root_wires.a@.at(z) == pin.root_wires.a@.at(w));
    assert(pin.root_wires.b@.at(z) == pin.root_wires.b@.at(w));
    assert forall|c: int, s: int| 0 <= c < 9 && 0 <= s < len implies z(
        #[trigger] cell_wire(slices, c, s),
    ) == w(cell_wire(slices, c, s)) by {
        assert(slices[c].first() + len <= n);
    }
}

/// The rows of the first `n` roots.
#[verifier::opaque]
pub open spec fn roots_step(
    s: Shape,
    slices: Seq<WitnessSlice>,
    pins: Seq<WalletFfRootPin>,
    n: nat,
) -> Shape
    decreases n,
{
    if n == 0 {
        s
    } else {
        let pin = pins[n - 1];
        let base = pin.base_slot as int;
        let depth = pin.depth as int;
        let stride = pin.stride() as int;
        let s0 = roots_step(s, slices, pins, (n - 1) as nat);
        let s1 = path_root_step(s0, slices, base, depth, stride, 0, pin.root_wires.a@);
        path_root_step(s1, slices, base, depth, stride, 1, pin.root_wires.b@)
    }
}

/// Pins the root of every path to its public wires.
pub fn pin_wallet_b_roots(
    b: &mut FieldR1csBuilder,
    slices: &Vec<WitnessSlice>,
    root_pins: &Vec<WalletFfRootPin>,
)
    requires
        old(b).wf(),
        walk_inside(slices@, 9, slices@[0].size() as int, old(b).wires()),
        forall|i: int|
            0 <= i < root_pins@.len() ==> (#[trigger] root_pins@[i]).inside(
                slices@[0].size() as int,
                old(b).wires(),
            ),
    ensures
        states(
            *final(b),
            *old(b),
            |z: spec_fn(int) -> u128|
                roots_met(root_pins@, slices@, z, root_pins@.len()),
        ),
        final(b).shape() == roots_step(old(b).shape(), slices@, root_pins@, root_pins@.len()),
{
    reveal(roots_step);
    let ghost b0 = *b;
    let ghost len = slices@[0].size() as int;
    let wires = b.num_wires();
    let ghost n = wires as nat;
    let mut i: usize = 0;
    while i < root_pins.len()
        invariant
            i <= root_pins@.len(),
            n == wires,
            n == b0.wires(),
            b0.wf(),
            b.wf(),
            walk_inside(slices@, 9, len, n),
            forall|k: int|
                0 <= k < root_pins@.len() ==> (#[trigger] root_pins@[k]).inside(len, n),
            states(
                *b,
                b0,
                |z: spec_fn(int) -> u128| roots_met(root_pins@, slices@, z, i as nat),
            ),
            b.shape() == roots_step(b0.shape(), slices@, root_pins@, i as nat),
        decreases root_pins@.len() - i,
    {
        reveal(roots_step);
        let ghost b1 = *b;
        let pin = &root_pins[i];
        let ghost base = pin.base_slot as int;
        let ghost depth = pin.depth as int;
        let ghost stride = pin.stride() as int;
        assert(root_pins@[i as int].inside(len, n));
        proof {
            lemma_ceil(pin.depth as nat);
            assert(slices@[0].first() + len <= n);
        }
        let d = next_power_of_two(pin.depth);
        pin_path_root(
            b,
            slices,
            pin.base_slot,
            pin.depth,
            d.size,
            0,
            &pin.root_wires.a,
            Ghost(len),
            Ghost(n),
        );
        let ghost b2 = *b;
        pin_path_root(
            b,
            slices,
            pin.base_slot,
            pin.depth,
            d.size,
            1,
            &pin.root_wires.b,
            Ghost(len),
            Ghost(n),
        );
        proof {
            let first = |z: spec_fn(int) -> u128|
                path_root(slices@, base, depth, stride, 0, z) == pin.root_wires.a.at(z);
            let second = |z: spec_fn(int) -> u128|
                path_root(slices@, base, depth, stride, 1, z) == pin.root_wires.b.at(z);
            let whole = |z: spec_fn(int) -> u128| pin.met(slices@, z);
            let done = |z: spec_fn(int) -> u128| roots_met(root_pins@, slices@, z, i as nat);
            let next = |z: spec_fn(int) -> u128|
                roots_met(root_pins@, slices@, z, (i + 1) as nat);
            assert(agree(b2.witness(), b1.witness(), n));
            lemma_met_agree(*pin, slices@, len, n, b2.witness(), b1.witness());
            lemma_states_both(*b, b2, b1, first, second, whole);
            assert(agree(b1.witness(), b0.witness(), n));
            lemma_met_agree(*pin, slices@, len, n, b1.witness(), b0.witness());
            assert forall|z: spec_fn(int) -> u128| #[trigger]
                next(z) == (done(z) && whole(z)) by {
                if next(z) {
                    assert(root_pins@[i as int].met(slices@, z));
                }
            }
            lemma_states_both(*b, b1, b0, done, whole, next);
        }
        i = i + 1;
    }
}

} // verus!
