//! The closing of a history step's parent region: the selector, the joins of
//! the leaf and the path walk, the obligations of the selected parent tier,
//! and its recordings.
use crate::circuit::{agree, group_agree, FieldR1csBuilder, LinExpr, Wire};
use crate::columns::{
    alloc_boolean_column_slice_values_only, alloc_selected_columns, bit_cells, slot_cell, WitnessSlice,
};
use crate::duplex::LanePosition;
use crate::dyadic::power_of_two;
use crate::field::{is_bit, F128};
use crate::meta_pins::WirePair;
use crate::parent_geometry::{RegionSidecarError, TreeInfo};
use crate::path_roots::{path_root, pin_path_root};
use crate::parent_link::{columns_end, columns_from};
use crate::recording::{
    allocate_selected_recording_columns, columns_inside, pin_selected_recording_role, role_fits, role_form, role_open, role_rules,
    tightens, RecordedWires, RecordingSlots, TierBlock,
};
use crate::region_layout::align_up;
use crate::trace::{pin_eq, refines};
use crate::circuit::wire_form;
use crate::circuit::{const_form, forms, LinForm, Shape};
use crate::columns::{bit_column_step, columns_step};
use crate::path_roots::{cell_form, path_root_step};
use crate::recording::{recording_step, role_step};
use crate::trace::pin_eq_step;
use vstd::arithmetic::power2::{lemma_pow2_pos, pow2};
use vstd::prelude::*;

verus! {

broadcast use group_agree;

/// The rows between two states of a builder state exactly `cond`, under the
/// gates in scope: every assignment that satisfies them meets it while the
/// gates are open, and the honest assignment is refused for nothing else.
pub open spec fn states(
    after: FieldR1csBuilder,
    before: FieldR1csBuilder,
    cond: spec_fn(spec_fn(int) -> u128) -> bool,
) -> bool {
    &&& refines(after, before)
    &&& forall|z: spec_fn(int) -> u128| #[trigger]
        after.holds(z) && before.live(z) ==> cond(z)
    &&& (before.live(before.witness()) ==> (after.honest() <==> before.honest() && cond(
        before.witness(),
    )))
    &&& (before.dead(before.witness()) ==> (after.honest() <==> before.honest()))
}

/// Two groups of rows state both conditions, if the second reads the same
/// values before and after the first.
pub proof fn lemma_states_both(
    b2: FieldR1csBuilder,
    b1: FieldR1csBuilder,
    b0: FieldR1csBuilder,
    first: spec_fn(spec_fn(int) -> u128) -> bool,
    second: spec_fn(spec_fn(int) -> u128) -> bool,
    both: spec_fn(spec_fn(int) -> u128) -> bool,
)
    requires
        b0.wf(),
        states(b1, b0, first),
        states(b2, b1, second),
        second(b1.witness()) == second(b0.witness()),
        forall|z: spec_fn(int) -> u128| #[trigger] both(z) == (first(z) && second(z)),
    ensures
        states(b2, b0, both),
{
    assert forall|z: spec_fn(int) -> u128| #[trigger] b2.holds(z) && b0.live(z) implies both(
        z,
    ) by {
        assert(b1.holds(z));
        assert(b1.live(z));
    }
}

/// Nothing states nothing.
pub proof fn lemma_states_nothing(
    b: FieldR1csBuilder,
    cond: spec_fn(spec_fn(int) -> u128) -> bool,
)
    requires
        b.wf(),
        forall|z: spec_fn(int) -> u128| #[trigger] cond(z),
    ensures
        states(b, b, cond),
{
}

/// Wire of the cell at `slot` of a column.
pub open spec fn cell_wire(slices: Seq<WitnessSlice>, column: int, slot: int) -> int {
    slices[column].first() + slot
}

/// The slices hold walks of `len` slots inside a witness of `n` wires.
pub open spec fn walk_inside(slices: Seq<WitnessSlice>, columns: int, len: int, n: nat) -> bool {
    &&& slices.len() == columns
    &&& forall|c: int|
        0 <= c < columns ==> (#[trigger] slices[c]).first() + len <= n && slices[c].size()
            <= usize::MAX
}

pub(crate) fn walk_cell(
    slices: &Vec<WitnessSlice>,
    column: usize,
    slot: usize,
    Ghost(columns): Ghost<int>,
    Ghost(len): Ghost<int>,
    Ghost(n): Ghost<nat>,
) -> (r: LinExpr)
    requires
        walk_inside(slices@, columns, len, n),
        column < columns,
        slot < len,
        n <= usize::MAX,
    ensures
        forall|z: spec_fn(int) -> u128| #[trigger]
            r.at(z) == z(cell_wire(slices@, column as int, slot as int)),
        r.bound() <= n,
        0 <= cell_wire(slices@, column as int, slot as int) < n,
        r@ == wire_form(cell_wire(slices@, column as int, slot as int) as nat),
{
    assert(slices@[column as int].first() + len <= n);
    slot_cell(&slices[column], slot)
}

/// Where the leaf and the path walk of the carrier lie.
pub struct CarrierWalks {
    pub slices_a: Vec<WitnessSlice>,
    pub slices_b: Vec<WitnessSlice>,
    pub leaf_block_log: usize,
    pub channel_log: usize,
    pub leaf_w_log: usize,
    pub path_w_log: usize,
    pub n_queries: usize,
    pub lanes: Vec<usize>,
    pub leaf_positions: Vec<Vec<LanePosition>>,
    pub carrier_depths: Vec<usize>,
    pub leg_offsets: Vec<usize>,
}

impl CarrierWalks {
    /// The rows of one join.
    #[verifier::opaque]
    pub open spec fn join_step(&self, s: Shape, q: int, t: int) -> Shape {
        let digest = self.digest_slot(q, t);
        let leg = self.leg_slot(q, t);
        let pairs = Seq::empty().push(
            (cell_form(self.slices_a@, 2, digest), cell_form(self.slices_b@, 4, leg)),
        ).push((cell_form(self.slices_a@, 3, digest), cell_form(self.slices_b@, 5, leg)));
        pairs_step(s, pairs, 2)
    }

    /// The rows of the first `n` joins.
    #[verifier::opaque]
    pub open spec fn joins_step(&self, s: Shape, n: nat) -> Shape
        decreases n,
    {
        if n == 0 {
            s
        } else {
            self.join_step(
                self.joins_step(s, (n - 1) as nat),
                (n - 1) / self.positions() as int,
                (n - 1) % self.positions() as int,
            )
        }
    }

    /// The rows of one opened query.
    #[verifier::opaque]
    pub open spec fn obligation_step(
        &self,
        s: Shape,
        q: int,
        t: int,
        depth: int,
        ob: Obligation,
    ) -> Shape {
        let leg = self.leg_slot(q, t);
        let stride = self.carrier_depths@[t] as int;
        let leaves = Seq::new(
            ob.lanes@.len(),
            |k: int|
                (
                    ob.lanes@[k]@,
                    cell_form(
                        self.slices_a@,
                        self.leaf_positions@[t]@[k].lane as int,
                        self.leaf_slot(q, t, k),
                    ),
                ),
        );
        let turns = Seq::new(
            ob.dir_bits@.len(),
            |l: int| (ob.dir_bits@[l]@, cell_form(self.slices_b@, 8, leg + l)),
        );
        let s1 = pairs_step(s, leaves + turns, (leaves + turns).len());
        let s2 = path_root_step(s1, self.slices_b@, leg, depth, stride, 0, ob.root.a@);
        path_root_step(s2, self.slices_b@, leg, depth, stride, 1, ob.root.b@)
    }

    /// The rows of the first `n` obligations of a tier.
    #[verifier::opaque]
    pub open spec fn obligations_step(&self, s: Shape, arm: ArmObligations, n: nat) -> Shape
        decreases n,
    {
        if n == 0 {
            s
        } else {
            let t = (n - 1) % arm.trees@.len() as int;
            self.obligation_step(
                self.obligations_step(s, arm, (n - 1) as nat),
                (n - 1) / arm.trees@.len() as int,
                t,
                arm.trees@[t].depth as int,
                arm.obligations@[n - 1],
            )
        }
    }

    /// The rows of the first `n` tiers, each under its selector.
    #[verifier::opaque]
    pub open spec fn arms_step(
        &self,
        s: Shape,
        arms: Seq<ArmObligations>,
        selectors: Seq<LinForm>,
        n: nat,
    ) -> Shape
        decreases n,
    {
        if n == 0 {
            s
        } else {
            let arm = arms[n - 1];
            let t = self.arms_step(s, arms, selectors, (n - 1) as nat);
            self.obligations_step(
                t.gated(selectors[n - 1]),
                arm,
                arm.obligations@.len(),
            ).ungated()
        }
    }
}

impl CarrierWalks {
    pub open spec fn positions(&self) -> int {
        self.carrier_depths@.len() as int
    }

    /// First slot of query `q` in the leaf walk.
    pub open spec fn tile_slot(&self, q: int) -> int {
        q * pow2(self.leaf_block_log as nat)
    }

    /// Slot of the leaf digest of query `q` at a tree position.
    pub open spec fn digest_slot(&self, q: int, tree: int) -> int {
        self.tile_slot(q) + tree * pow2(self.channel_log as nat) + self.lanes@[tree] as int / 2 - 1
    }

    /// First slot of the path of query `q` at a tree position.
    pub open spec fn leg_slot(&self, q: int, tree: int) -> int {
        self.leg_offsets@[tree] + q * self.carrier_depths@[tree]
    }

    /// Everything lies inside the two walks, and these below wire `n`.
    pub open spec fn wf(&self, n: nat) -> bool {
        &&& n <= usize::MAX
        &&& walk_inside(self.slices_a@, 6, pow2(self.leaf_w_log as nat) as int, n)
        &&& walk_inside(self.slices_b@, 9, pow2(self.path_w_log as nat) as int, n)
        &&& self.lanes@.len() == self.positions()
        &&& self.leaf_positions@.len() == self.positions()
        &&& self.leg_offsets@.len() == self.positions()
        &&& forall|t: int|
            0 <= t < self.positions() ==> #[trigger] self.lanes@[t] >= 2
        &&& self.positions() > 0
        &&& self.n_queries * self.positions() <= usize::MAX
        &&& forall|q: int, t: int|
            0 <= q < self.n_queries && 0 <= t < self.positions() ==> {
                &&& 0 <= #[trigger] self.digest_slot(q, t) < pow2(self.leaf_w_log as nat)
                &&& 0 <= self.leg_slot(q, t)
                &&& self.leg_slot(q, t) + self.carrier_depths@[t] <= pow2(self.path_w_log as nat)
                &&& 0 < self.carrier_depths@[t]
                &&& self.tile_slot(q) <= pow2(self.leaf_w_log as nat)
            }
        &&& forall|q: int, t: int, k: int|
            0 <= q < self.n_queries && 0 <= t < self.positions() && 0 <= k
                < self.leaf_positions@[t]@.len() ==> {
                &&& 0 <= #[trigger] self.leaf_slot(q, t, k) < pow2(self.leaf_w_log as nat)
                &&& self.leaf_positions@[t]@[k].lane < 2
            }
        &&& pow2(self.leaf_block_log as nat) <= usize::MAX
        &&& pow2(self.channel_log as nat) <= usize::MAX
    }

    /// Slot of lane `k` of the leaf of query `q` at a tree position.
    pub open spec fn leaf_slot(&self, q: int, t: int, k: int) -> int {
        self.tile_slot(q) + self.leaf_positions@[t]@[k].slot
    }

    /// The leaf digest of a query is the entry of its path.
    pub open spec fn joined(&self, q: int, t: int, z: spec_fn(int) -> u128) -> bool {
        &&& z(cell_wire(self.slices_a@, 2, self.digest_slot(q, t))) == z(
            cell_wire(self.slices_b@, 4, self.leg_slot(q, t)),
        )
        &&& z(cell_wire(self.slices_a@, 3, self.digest_slot(q, t))) == z(
            cell_wire(self.slices_b@, 5, self.leg_slot(q, t)),
        )
    }

    /// The first `n` joins, query by query.
    pub open spec fn joined_upto(&self, n: int, z: spec_fn(int) -> u128) -> bool {
        forall|k: int|
            0 <= k < n ==> #[trigger] self.joined(k / self.positions(), k % self.positions(), z)
    }

    /// The root that the path of a query carries in one lane: the carried cell
    /// above a path that is shorter than its carrier, and otherwise the last
    /// feed-forward digest.
    pub open spec fn root_value(
        &self,
        q: int,
        t: int,
        depth: int,
        lane: int,
        z: spec_fn(int) -> u128,
    ) -> u128 {
        path_root(
            self.slices_b@,
            self.leg_slot(q, t),
            depth,
            self.carrier_depths@[t] as int,
            lane,
            z,
        )
    }

    /// The cells of a query carry its leaf, its path and its root.
    pub open spec fn opened(
        &self,
        q: int,
        t: int,
        depth: int,
        ob: Obligation,
        z: spec_fn(int) -> u128,
    ) -> bool {
        &&& forall|k: int|
            0 <= k < ob.lanes@.len() ==> (#[trigger] ob.lanes@[k]).at(z) == z(
                cell_wire(
                    self.slices_a@,
                    self.leaf_positions@[t]@[k].lane as int,
                    self.leaf_slot(q, t, k),
                ),
            )
        &&& forall|l: int|
            0 <= l < ob.dir_bits@.len() ==> (#[trigger] ob.dir_bits@[l]).at(z) == z(
                cell_wire(self.slices_b@, 8, self.leg_slot(q, t) + l),
            )
        &&& self.root_value(q, t, depth, 0, z) == ob.root.a.at(z)
        &&& self.root_value(q, t, depth, 1, z) == ob.root.b.at(z)
    }
}

/// What a verifier claims of one opened query at one tree: the lanes of the
/// leaf, the directions of the path and its root.
pub struct Obligation {
    pub lanes: Vec<LinExpr>,
    pub dir_bits: Vec<LinExpr>,
    pub root: WirePair,
}

impl Obligation {
    /// The obligation reads wires below `n`.
    pub open spec fn below(&self, n: nat) -> bool {
        &&& forall|k: int| 0 <= k < self.lanes@.len() ==> (#[trigger] self.lanes@[k]).bound() <= n
        &&& forall|k: int|
            0 <= k < self.dir_bits@.len() ==> (#[trigger] self.dir_bits@[k]).bound() <= n
        &&& self.root.below(n)
    }
}

/// Two expressions to be pinned to each other.
struct ExprPair {
    lhs: LinExpr,
    rhs: LinExpr,
}

spec fn pairs_hold(pairs: Seq<ExprPair>, n: int, z: spec_fn(int) -> u128) -> bool {
    forall|i: int| 0 <= i < n ==> (#[trigger] pairs[i]).lhs.at(z) == pairs[i].rhs.at(z)
}

spec fn pairs_below(pairs: Seq<ExprPair>, n: nat) -> bool {
    forall|i: int|
        0 <= i < pairs.len() ==> (#[trigger] pairs[i]).lhs.bound() <= n && pairs[i].rhs.bound() <= n
}

/// The rows of the first `n` equalities.
#[verifier::opaque]
pub open spec fn pairs_step(s: Shape, pairs: Seq<(LinForm, LinForm)>, n: nat) -> Shape
    decreases n,
{
    if n == 0 {
        s
    } else {
        pin_eq_step(pairs_step(s, pairs, (n - 1) as nat), pairs[n - 1].0, pairs[n - 1].1)
    }
}

spec fn pair_forms(pairs: Seq<ExprPair>) -> Seq<(LinForm, LinForm)> {
    pairs.map_values(|p: ExprPair| (p.lhs@, p.rhs@))
}

/// Pins every pair, in order.
fn pin_pairs(b: &mut FieldR1csBuilder, pairs: &Vec<ExprPair>)
    requires
        old(b).wf(),
        pairs_below(pairs@, old(b).wires()),
    ensures
        states(
            *final(b),
            *old(b),
            |z: spec_fn(int) -> u128| pairs_hold(pairs@, pairs@.len() as int, z),
        ),
        old(b).gate_list().len() == 0 ==> final(b).wires() == old(b).wires() + pairs@.len(),
        final(b).shape() == pairs_step(old(b).shape(), pair_forms(pairs@), pairs@.len()),
{
    reveal(pairs_step);
    let ghost entry = *b;
    let ghost before = *b;
    let mut i: usize = 0;
    proof {
        lemma_states_nothing(before, |z: spec_fn(int) -> u128| pairs_hold(pairs@, 0, z));
    }
    while i < pairs.len()
        invariant
            i <= pairs@.len(),
            before.wf(),
            b.wf(),
            pairs_below(pairs@, before.wires()),
            before.wires() <= b.wires(),
            b.gate_list() == before.gate_list(),
            states(*b, before, |z: spec_fn(int) -> u128| pairs_hold(pairs@, i as int, z)),
            before.gate_list().len() == 0 ==> b.wires() == before.wires() + i,
            b.shape() == pairs_step(entry.shape(), pair_forms(pairs@), i as nat),
        decreases pairs@.len() - i,
    {
        reveal(pairs_step);
        let ghost mid = *b;
        let ghost pair = pairs@[i as int];
        assert(pair.lhs.bound() <= before.wires() && pair.rhs.bound() <= before.wires());
        pin_eq(b, &pairs[i].lhs, &pairs[i].rhs);
        proof {
            let here = |z: spec_fn(int) -> u128| pair.lhs.at(z) == pair.rhs.at(z);
            assert(states(*b, mid, here));
            assert(pair.lhs@.at(mid.witness()) == pair.lhs@.at(before.witness()));
            assert(pair.rhs@.at(mid.witness()) == pair.rhs@.at(before.witness()));
            let first = |z: spec_fn(int) -> u128| pairs_hold(pairs@, i as int, z);
            let both = |z: spec_fn(int) -> u128| pairs_hold(pairs@, i + 1, z);
            assert forall|z: spec_fn(int) -> u128| #[trigger] both(z) == (first(z) && here(z)) by {
                if both(z) {
                    assert(pairs@[i as int].lhs.at(z) == pairs@[i as int].rhs.at(z));
                }
            }
            lemma_states_both(*b, mid, before, first, here, both);
        }
        i = i + 1;
    }
}

impl CarrierWalks {
    proof fn lemma_query(&self, n: nat, k: int)
        requires
            self.wf(n),
            0 <= k < self.n_queries * self.positions(),
        ensures
            0 <= k / self.positions() < self.n_queries,
            0 <= k % self.positions() < self.positions(),
    {
        let m = self.positions();
        vstd::arithmetic::div_mod::lemma_fundamental_div_mod(k, m);
        vstd::arithmetic::div_mod::lemma_mod_bound(k, m);
        vstd::arithmetic::div_mod::lemma_div_pos_is_pos(k, m);
        let q = k / m;
        assert(q < self.n_queries) by (nonlinear_arith)
            requires
                k == m * q + k % m,
                k < self.n_queries * m,
                k % m >= 0,
                m > 0,
        ;
    }

    /// Pins the leaf digest of one query at one tree to the entry of its path.
    fn pin_join(&self, b: &mut FieldR1csBuilder, q: usize, t: usize, Ghost(n): Ghost<nat>)
        requires
            old(b).wf(),
            self.wf(n),
            n <= old(b).wires(),
            q < self.n_queries,
            t < self.positions(),
        ensures
            states(
                *final(b),
                *old(b),
                |z: spec_fn(int) -> u128| self.joined(q as int, t as int, z),
            ),
            old(b).gate_list().len() == 0 ==> final(b).wires() == old(b).wires() + 2,
            final(b).shape() == self.join_step(old(b).shape(), q as int, t as int),
    {
        reveal(CarrierWalks::join_step);
        let ghost la = pow2(self.leaf_w_log as nat) as int;
        let ghost lb = pow2(self.path_w_log as nat) as int;
        proof {
            assert(0 <= self.digest_slot(q as int, t as int) < la);
            assert(self.slices_a@[0].first() + la <= n);
            assert(self.slices_b@[0].first() + lb <= n);
            assert(self.lanes@[t as int] >= 2);
            lemma_pow2_pos(self.leaf_block_log as nat);
            lemma_pow2_pos(self.channel_log as nat);
            assert(q * pow2(self.leaf_block_log as nat) >= 0) by (nonlinear_arith);
            assert(t * pow2(self.channel_log as nat) >= 0) by (nonlinear_arith);
            assert(q * self.carrier_depths@[t as int] >= 0) by (nonlinear_arith);
        }
        let tile: usize = q * power_of_two(self.leaf_block_log);
        let digest: usize = tile + t * power_of_two(self.channel_log) + (self.lanes[t] / 2 - 1);
        let leg: usize = self.leg_offsets[t] + q * self.carrier_depths[t];
        let mut pairs: Vec<ExprPair> = Vec::new();
        pairs.push(
            ExprPair {
                lhs: walk_cell(&self.slices_a, 2, digest, Ghost(6), Ghost(la), Ghost(n)),
                rhs: walk_cell(&self.slices_b, 4, leg, Ghost(9), Ghost(lb), Ghost(n)),
            },
        );
        pairs.push(
            ExprPair {
                lhs: walk_cell(&self.slices_a, 3, digest, Ghost(6), Ghost(la), Ghost(n)),
                rhs: walk_cell(&self.slices_b, 5, leg, Ghost(9), Ghost(lb), Ghost(n)),
            },
        );
        assert(pair_forms(pairs@) =~= Seq::empty().push(
            (
                cell_form(self.slices_a@, 2, digest as int),
                cell_form(self.slices_b@, 4, leg as int),
            ),
        ).push(
            (
                cell_form(self.slices_a@, 3, digest as int),
                cell_form(self.slices_b@, 5, leg as int),
            ),
        ));
        pin_pairs(b, &pairs);
        proof {
            assert forall|z: spec_fn(int) -> u128| pairs_hold(pairs@, 2, z)
                == #[trigger] self.joined(q as int, t as int, z) by {
                if pairs_hold(pairs@, 2, z) {
                    assert(pairs@[0].lhs.at(z) == pairs@[0].rhs.at(z));
                    assert(pairs@[1].lhs.at(z) == pairs@[1].rhs.at(z));
                }
            }
            lemma_states_same(
                *b,
                *old(b),
                |z: spec_fn(int) -> u128| pairs_hold(pairs@, 2, z),
                |z: spec_fn(int) -> u128| self.joined(q as int, t as int, z),
            );
        }
    }

    /// Pins the leaf digests of all queries to the entries of their paths.
    pub fn pin_joins(&self, b: &mut FieldR1csBuilder)
        requires
            old(b).wf(),
            self.wf(old(b).wires()),
        ensures
            states(
                *final(b),
                *old(b),
                |z: spec_fn(int) -> u128|
                    self.joined_upto(self.n_queries * self.positions(), z),
            ),
            old(b).gate_list().len() == 0 ==> final(b).wires() == old(b).wires() + 2 * (
            self.n_queries * self.positions()),
            final(b).shape() == self.joins_step(
                old(b).shape(),
                (self.n_queries * self.positions()) as nat,
            ),
    {
        reveal(CarrierWalks::joins_step);
        let ghost entry = *b;
            let ghost before = *b;
        let ghost n = before.wires();
        let m = self.carrier_depths.len();
        let total: usize = self.n_queries * m;
        let mut k: usize = 0;
        proof {
            lemma_states_nothing(before, |z: spec_fn(int) -> u128| self.joined_upto(0, z));
        }
        while k < total
            invariant
                k <= total,
                m == self.positions(),
                total == self.n_queries * self.positions(),
                before.wf(),
                n == before.wires(),
                self.wf(n),
                b.wf(),
                n <= b.wires(),
                b.gate_list() == before.gate_list(),
                states(*b, before, |z: spec_fn(int) -> u128| self.joined_upto(k as int, z)),
                before.gate_list().len() == 0 ==> b.wires() == before.wires() + 2 * k,
                b.shape() == self.joins_step(entry.shape(), k as nat),
            decreases total - k,
        {
            reveal(CarrierWalks::joins_step);
            let ghost mid = *b;
            proof {
                self.lemma_query(n, k as int);
            }
            let q = k / m;
            let t = k % m;
            self.pin_join(b, q, t, Ghost(n));
            proof {
                let here = |z: spec_fn(int) -> u128| self.joined(q as int, t as int, z);
                let first = |z: spec_fn(int) -> u128| self.joined_upto(k as int, z);
                let both = |z: spec_fn(int) -> u128| self.joined_upto(k + 1, z);
                assert forall|z: spec_fn(int) -> u128| #[trigger] both(z) == (first(z) && here(
                    z,
                )) by {
                    if both(z) {
                        assert(self.joined(k as int / m as int, k as int % m as int, z));
                    }
                }
                self.lemma_joined_agree(q as int, t as int, n, mid.witness(), before.witness());
                lemma_states_both(*b, mid, before, first, here, both);
            }
            k = k + 1;
        }
    }

    proof fn lemma_cells(&self, n: nat, q: int, t: int)
        requires
            self.wf(n),
            0 <= q < self.n_queries,
            0 <= t < self.positions(),
        ensures
            forall|c: int|
                0 <= c < 6 ==> 0 <= #[trigger] cell_wire(
                    self.slices_a@,
                    c,
                    self.digest_slot(q, t),
                ) < n,
            forall|c: int, l: int|
                0 <= c < 9 && 0 <= l < self.carrier_depths@[t] ==> 0 <= #[trigger] cell_wire(
                    self.slices_b@,
                    c,
                    self.leg_slot(q, t) + l,
                ) < n,
            forall|k: int|
                0 <= k < self.leaf_positions@[t]@.len() ==> 0 <= cell_wire(
                    self.slices_a@,
                    self.leaf_positions@[t]@[k].lane as int,
                    #[trigger] self.leaf_slot(q, t, k),
                ) < n,
    {
        assert(0 <= self.digest_slot(q, t) < pow2(self.leaf_w_log as nat));
        assert forall|c: int| 0 <= c < 6 implies 0 <= #[trigger] cell_wire(
            self.slices_a@,
            c,
            self.digest_slot(q, t),
        ) < n by {
            assert(self.slices_a@[c].first() + pow2(self.leaf_w_log as nat) <= n);
        }
        assert forall|c: int, l: int|
            0 <= c < 9 && 0 <= l < self.carrier_depths@[t] implies 0 <= #[trigger] cell_wire(
            self.slices_b@,
            c,
            self.leg_slot(q, t) + l,
        ) < n by {
            assert(self.slices_b@[c].first() + pow2(self.path_w_log as nat) <= n);
        }
        assert forall|k: int| 0 <= k < self.leaf_positions@[t]@.len() implies 0 <= cell_wire(
            self.slices_a@,
            self.leaf_positions@[t]@[k].lane as int,
            #[trigger] self.leaf_slot(q, t, k),
        ) < n by {
            let lane = self.leaf_positions@[t]@[k].lane as int;
            assert(0 <= self.leaf_slot(q, t, k) < pow2(self.leaf_w_log as nat));
            assert(self.slices_a@[lane].first() + pow2(self.leaf_w_log as nat) <= n);
        }
    }

    proof fn lemma_joined_agree(
        &self,
        q: int,
        t: int,
        n: nat,
        z: spec_fn(int) -> u128,
        w: spec_fn(int) -> u128,
    )
        requires
            self.wf(n),
            0 <= q < self.n_queries,
            0 <= t < self.positions(),
            agree(z, w, n),
        ensures
            self.joined(q, t, z) == self.joined(q, t, w),
    {
        self.lemma_cells(n, q, t);
        let d = self.digest_slot(q, t);
        let l = self.leg_slot(q, t);
        assert(cell_wire(self.slices_b@, 4, l + 0) == cell_wire(self.slices_b@, 4, l));
        assert(cell_wire(self.slices_b@, 5, l + 0) == cell_wire(self.slices_b@, 5, l));
        assert(0 < self.carrier_depths@[t]) by {
            assert(0 <= self.digest_slot(q, t));
        }
        assert(z(cell_wire(self.slices_a@, 2, d)) == w(cell_wire(self.slices_a@, 2, d)));
        assert(z(cell_wire(self.slices_a@, 3, d)) == w(cell_wire(self.slices_a@, 3, d)));
        assert(z(cell_wire(self.slices_b@, 4, l + 0)) == w(cell_wire(self.slices_b@, 4, l + 0)));
        assert(z(cell_wire(self.slices_b@, 5, l + 0)) == w(cell_wire(self.slices_b@, 5, l + 0)));
    }
}

/// Equal conditions are stated by the same rows.
pub proof fn lemma_states_same(
    after: FieldR1csBuilder,
    before: FieldR1csBuilder,
    x: spec_fn(spec_fn(int) -> u128) -> bool,
    y: spec_fn(spec_fn(int) -> u128) -> bool,
)
    requires
        states(after, before, x),
        forall|z: spec_fn(int) -> u128| #[trigger] x(z) == y(z),
    ensures
        states(after, before, y),
{
    assert forall|z: spec_fn(int) -> u128| #[trigger] after.holds(z) && before.live(z) implies y(
        z,
    ) by {
        assert(x(z) == y(z));
    }
    assert(x(before.witness()) == y(before.witness()));
}

impl CarrierWalks {
    /// Pins the root of one lane of a query's path.
    fn pin_root(
        &self,
        b: &mut FieldR1csBuilder,
        q: usize,
        t: usize,
        depth: usize,
        lane: usize,
        wire: &LinExpr,
        Ghost(n): Ghost<nat>,
    )
        requires
            old(b).wf(),
            self.wf(n),
            n <= old(b).wires(),
            q < self.n_queries,
            t < self.positions(),
            0 < depth <= self.carrier_depths@[t as int],
            lane < 2,
            wire.bound() <= n,
        ensures
            states(
                *final(b),
                *old(b),
                |z: spec_fn(int) -> u128|
                    self.root_value(q as int, t as int, depth as int, lane as int, z) == wire.at(z),
            ),
            final(b).shape() == path_root_step(
                old(b).shape(),
                self.slices_b@,
                self.leg_slot(q as int, t as int),
                depth as int,
                self.carrier_depths@[t as int] as int,
                lane as int,
                wire@,
            ),
    {
        let ghost lb = pow2(self.path_w_log as nat) as int;
        let ghost qi = q as int;
        let ghost ti = t as int;
        proof {
            assert(0 <= self.digest_slot(qi, ti));
            assert(self.slices_b@[0].first() + lb <= n);
            assert(q * self.carrier_depths@[ti] >= 0) by (nonlinear_arith);
        }
        let leg: usize = self.leg_offsets[t] + q * self.carrier_depths[t];
        pin_path_root(
            b,
            &self.slices_b,
            leg,
            depth,
            self.carrier_depths[t],
            lane,
            wire,
            Ghost(lb),
            Ghost(n),
        );
    }

    /// Binds the leaf, the path and the root of one opened query.
    fn bind_obligation(
        &self,
        b: &mut FieldR1csBuilder,
        q: usize,
        t: usize,
        depth: usize,
        ob: &Obligation,
        Ghost(n): Ghost<nat>,
    )
        requires
            old(b).wf(),
            self.wf(n),
            n <= old(b).wires(),
            q < self.n_queries,
            t < self.positions(),
            0 < depth <= self.carrier_depths@[t as int],
            ob.below(n),
            ob.lanes@.len() == self.leaf_positions@[t as int]@.len(),
            ob.dir_bits@.len() == depth,
        ensures
            states(
                *final(b),
                *old(b),
                |z: spec_fn(int) -> u128| self.opened(q as int, t as int, depth as int, *ob, z),
            ),
            final(b).shape() == self.obligation_step(
                old(b).shape(),
                q as int,
                t as int,
                depth as int,
                *ob,
            ),
    {
        reveal(CarrierWalks::obligation_step);
        let ghost b0 = *b;
        let ghost la = pow2(self.leaf_w_log as nat) as int;
        let ghost lb = pow2(self.path_w_log as nat) as int;
        let ghost qi = q as int;
        let ghost ti = t as int;
        proof {
            self.lemma_cells(n, qi, ti);
            assert(0 <= self.digest_slot(qi, ti) < la);
            assert(self.slices_a@[0].first() + la <= n);
            assert(self.slices_b@[0].first() + lb <= n);
            assert(q * pow2(self.leaf_block_log as nat) >= 0) by (nonlinear_arith);
            assert(q * self.carrier_depths@[ti] >= 0) by (nonlinear_arith);
        }
        let tile: usize = q * power_of_two(self.leaf_block_log);
        let leg: usize = self.leg_offsets[t] + q * self.carrier_depths[t];
        let mut pairs: Vec<ExprPair> = Vec::new();
        let mut k: usize = 0;
        while k < ob.lanes.len()
            invariant
                k <= ob.lanes@.len(),
                self.wf(n),
                q < self.n_queries,
                t < self.positions(),
                qi == q,
                ti == t,
                la == pow2(self.leaf_w_log as nat),
                tile == self.tile_slot(qi),
                ob.below(n),
                ob.lanes@.len() == self.leaf_positions@[ti]@.len(),
                pairs@.len() == k,
                pairs_below(pairs@, n),
                forall|i: int, z: spec_fn(int) -> u128|
                    0 <= i < k ==> #[trigger] pairs@[i].lhs.at(z) == ob.lanes@[i].at(z)
                        && pairs@[i].rhs.at(z) == z(
                        cell_wire(
                            self.slices_a@,
                            self.leaf_positions@[ti]@[i].lane as int,
                            self.leaf_slot(qi, ti, i),
                        ),
                    ),
                forall|j: int|
                    0 <= j < k ==> (#[trigger] pairs@[j]).lhs@ == ob.lanes@[j]@ && pairs@[j].rhs@ == cell_form(
                        self.slices_a@,
                        self.leaf_positions@[t as int]@[j].lane as int,
                        self.leaf_slot(q as int, t as int, j),
                    ),
            decreases ob.lanes@.len() - k,
        {
            assert(0 <= self.leaf_slot(qi, ti, k as int) < la);
            assert(ob.lanes@[k as int].bound() <= n);
            let position = self.leaf_positions[t][k];
            let lane = position.lane;
            assert(self.slices_a@[0].first() + la <= n);
            let cell = walk_cell(
                &self.slices_a,
                lane,
                tile + position.slot,
                Ghost(6),
                Ghost(la),
                Ghost(n),
            );
            pairs.push(ExprPair { lhs: ob.lanes[k].clone(), rhs: cell });
            k = k + 1;
        }
        let m = ob.lanes.len();
        let mut l: usize = 0;
        while l < ob.dir_bits.len()
            invariant
                l <= ob.dir_bits@.len(),
                self.wf(n),
                q < self.n_queries,
                t < self.positions(),
                qi == q,
                ti == t,
                m == ob.lanes@.len(),
                lb == pow2(self.path_w_log as nat),
                leg == self.leg_slot(qi, ti),
                ob.below(n),
                ob.dir_bits@.len() <= self.carrier_depths@[ti],
                pairs@.len() == m + l,
                pairs_below(pairs@, n),
                forall|i: int, z: spec_fn(int) -> u128|
                    0 <= i < m ==> #[trigger] pairs@[i].lhs.at(z) == ob.lanes@[i].at(z)
                        && pairs@[i].rhs.at(z) == z(
                        cell_wire(
                            self.slices_a@,
                            self.leaf_positions@[ti]@[i].lane as int,
                            self.leaf_slot(qi, ti, i),
                        ),
                    ),
                forall|i: int, z: spec_fn(int) -> u128|
                    m <= i < m + l ==> #[trigger] pairs@[i].lhs.at(z) == ob.dir_bits@[i - m].at(z)
                        && pairs@[i].rhs.at(z) == z(
                        cell_wire(self.slices_b@, 8, self.leg_slot(qi, ti) + (i - m)),
                    ),
                forall|j: int|
                    0 <= j < m ==> (#[trigger] pairs@[j]).lhs@ == ob.lanes@[j]@ && pairs@[j].rhs@ == cell_form(
                        self.slices_a@,
                        self.leaf_positions@[t as int]@[j].lane as int,
                        self.leaf_slot(q as int, t as int, j),
                    ),
                forall|j: int|
                    m <= j < m + l ==> (#[trigger] pairs@[j]).lhs@ == ob.dir_bits@[j - m]@ && pairs@[j].rhs@
                        == cell_form(self.slices_b@, 8, self.leg_slot(q as int, t as int) + j - m),
            decreases ob.dir_bits@.len() - l,
        {
            assert(0 <= self.digest_slot(qi, ti));
            assert(self.slices_b@[8].first() + lb <= n);
            assert(ob.dir_bits@[l as int].bound() <= n);
            let cell = walk_cell(&self.slices_b, 8, leg + l, Ghost(9), Ghost(lb), Ghost(n));
            pairs.push(ExprPair { lhs: ob.dir_bits[l].clone(), rhs: cell });
            l = l + 1;
        }
        let ghost leaves = Seq::new(
            ob.lanes@.len(),
            |k: int|
                (
                    ob.lanes@[k]@,
                    cell_form(
                        self.slices_a@,
                        self.leaf_positions@[t as int]@[k].lane as int,
                        self.leaf_slot(q as int, t as int, k),
                    ),
                ),
        );
        let ghost turns = Seq::new(
            ob.dir_bits@.len(),
            |l: int|
                (
                    ob.dir_bits@[l]@,
                    cell_form(self.slices_b@, 8, self.leg_slot(q as int, t as int) + l),
                ),
        );
        assert(pair_forms(pairs@) =~= leaves + turns);
        pin_pairs(b, &pairs);
        let ghost b1 = *b;
        self.pin_root(b, q, t, depth, 0, &ob.root.a, Ghost(n));
        let ghost b2 = *b;
        self.pin_root(b, q, t, depth, 1, &ob.root.b, Ghost(n));
        proof {
            let c1 = |z: spec_fn(int) -> u128| pairs_hold(pairs@, pairs@.len() as int, z);
            let c2 = |z: spec_fn(int) -> u128|
                self.root_value(qi, ti, depth as int, 0, z) == ob.root.a.at(z);
            let c3 = |z: spec_fn(int) -> u128|
                self.root_value(qi, ti, depth as int, 1, z) == ob.root.b.at(z);
            let c12 = |z: spec_fn(int) -> u128| c1(z) && c2(z);
            let all = |z: spec_fn(int) -> u128| self.opened(qi, ti, depth as int, *ob, z);
            self.lemma_root_agree(qi, ti, depth as int, 0, ob.root.a, n, b1.witness(), b0.witness());
            lemma_states_both(b2, b1, b0, c1, c2, c12);
            self.lemma_root_agree(qi, ti, depth as int, 1, ob.root.b, n, b2.witness(), b0.witness());
            assert forall|z: spec_fn(int) -> u128| #[trigger] all(z) == (c12(z) && c3(z)) by {
                if c1(z) {
                    assert forall|i: int| 0 <= i < ob.lanes@.len() implies (
                    #[trigger] ob.lanes@[i]).at(z) == z(
                        cell_wire(
                            self.slices_a@,
                            self.leaf_positions@[ti]@[i].lane as int,
                            self.leaf_slot(qi, ti, i),
                        ),
                    ) by {
                        assert(pairs@[i].lhs.at(z) == pairs@[i].rhs.at(z));
                    }
                    assert forall|i: int| 0 <= i < ob.dir_bits@.len() implies (
                    #[trigger] ob.dir_bits@[i]).at(z) == z(
                        cell_wire(self.slices_b@, 8, self.leg_slot(qi, ti) + i),
                    ) by {
                        assert(pairs@[m + i].lhs.at(z) == pairs@[m + i].rhs.at(z));
                    }
                }
                if all(z) {
                    assert forall|i: int| 0 <= i < pairs@.len() implies (
                    #[trigger] pairs@[i]).lhs.at(z) == pairs@[i].rhs.at(z) by {
                        if i < m {
                            assert(ob.lanes@[i].at(z) == pairs@[i].lhs.at(z));
                        } else {
                            assert(ob.dir_bits@[i - m].at(z) == pairs@[i].lhs.at(z));
                        }
                    }
                }
            }
            lemma_states_both(*b, b2, b0, c12, c3, all);
        }
    }

    proof fn lemma_root_agree(
        &self,
        q: int,
        t: int,
        depth: int,
        lane: int,
        wire: LinExpr,
        n: nat,
        z: spec_fn(int) -> u128,
        w: spec_fn(int) -> u128,
    )
        requires
            self.wf(n),
            0 <= q < self.n_queries,
            0 <= t < self.positions(),
            0 < depth <= self.carrier_depths@[t],
            0 <= lane < 2,
            wire.bound() <= n,
            agree(z, w, n),
        ensures
            self.root_value(q, t, depth, lane, z) == self.root_value(q, t, depth, lane, w),
            wire.at(z) == wire.at(w),
    {
        self.lemma_cells(n, q, t);
        let leg = self.leg_slot(q, t);
        assert(wire@.at(z) == wire@.at(w));
        if depth < self.carrier_depths@[t] {
            let c = cell_wire(self.slices_b@, 4 + lane, leg + depth);
            assert(z(c) == w(c));
        } else {
            let l = depth - 1;
            let last = leg + depth - 1;
            assert(last == leg + l);
            let c0 = cell_wire(self.slices_b@, 4 + lane, leg + l);
            let c1 = cell_wire(self.slices_b@, 6 + lane, leg + l);
            let c2 = cell_wire(self.slices_b@, 8, leg + l);
            let c3 = cell_wire(self.slices_b@, lane, leg + l);
            assert(z(c0) == w(c0) && z(c1) == w(c1) && z(c2) == w(c2) && z(c3) == w(c3));
        }
    }
}

/// All obligations of one parent tier: one per query and tree, query by query.
pub struct ArmObligations {
    pub trees: Vec<TreeInfo>,
    pub obligations: Vec<Obligation>,
}

impl CarrierWalks {
    /// The tier's obligations fit the carrier and read wires below `n`.
    pub open spec fn carries(&self, arm: ArmObligations, n: nat) -> bool {
        let m = arm.trees@.len() as int;
        &&& 0 < m <= self.positions()
        &&& arm.obligations@.len() == self.n_queries * m
        &&& forall|t: int|
            0 <= t < m ==> 0 < (#[trigger] arm.trees@[t]).depth <= self.carrier_depths@[t]
        &&& forall|k: int|
            0 <= k < arm.obligations@.len() ==> {
                let ob = #[trigger] arm.obligations@[k];
                &&& ob.below(n)
                &&& ob.lanes@.len() == self.leaf_positions@[k % m]@.len()
                &&& ob.dir_bits@.len() == arm.trees@[k % m].depth
            }
    }

    /// Obligation `k` of a tier is met.
    pub open spec fn arm_opened_at(
        &self,
        arm: ArmObligations,
        k: int,
        z: spec_fn(int) -> u128,
    ) -> bool {
        let m = arm.trees@.len() as int;
        self.opened(k / m, k % m, arm.trees@[k % m].depth as int, arm.obligations@[k], z)
    }

    /// The first `n` obligations of a tier are met.
    pub open spec fn arm_opened_upto(
        &self,
        arm: ArmObligations,
        n: int,
        z: spec_fn(int) -> u128,
    ) -> bool {
        forall|k: int| 0 <= k < n ==> #[trigger] self.arm_opened_at(arm, k, z)
    }

    /// All obligations of a tier are met.
    pub open spec fn arm_opened(&self, arm: ArmObligations, z: spec_fn(int) -> u128) -> bool {
        self.arm_opened_upto(arm, arm.obligations@.len() as int, z)
    }

    proof fn lemma_arm_query(&self, arm: ArmObligations, n: nat, k: int)
        requires
            self.carries(arm, n),
            0 <= k < arm.obligations@.len(),
        ensures
            0 <= k / (arm.trees@.len() as int) < self.n_queries,
            0 <= k % (arm.trees@.len() as int) < arm.trees@.len(),
    {
        let m = arm.trees@.len() as int;
        vstd::arithmetic::div_mod::lemma_fundamental_div_mod(k, m);
        vstd::arithmetic::div_mod::lemma_mod_bound(k, m);
        vstd::arithmetic::div_mod::lemma_div_pos_is_pos(k, m);
        let q = k / m;
        assert(q < self.n_queries) by (nonlinear_arith)
            requires
                k == m * q + k % m,
                k < self.n_queries * m,
                k % m >= 0,
                m > 0,
        ;
    }

    proof fn lemma_opened_agree(
        &self,
        arm: ArmObligations,
        n: nat,
        k: int,
        z: spec_fn(int) -> u128,
        w: spec_fn(int) -> u128,
    )
        requires
            self.wf(n),
            self.carries(arm, n),
            0 <= k < arm.obligations@.len(),
            agree(z, w, n),
        ensures
            self.arm_opened_at(arm, k, z) == self.arm_opened_at(arm, k, w),
    {
        self.lemma_arm_query(arm, n, k);
        let m = arm.trees@.len() as int;
        let q = k / m;
        let t = k % m;
        let ob = arm.obligations@[k];
        self.lemma_cells(n, q, t);
        assert(0 < arm.trees@[t].depth <= self.carrier_depths@[t]);
        let depth = arm.trees@[t].depth as int;
        self.lemma_root_agree(q, t, depth, 0, ob.root.a, n, z, w);
        self.lemma_root_agree(q, t, depth, 1, ob.root.b, n, z, w);
        assert forall|i: int| 0 <= i < ob.lanes@.len() implies (#[trigger] ob.lanes@[i]).at(z)
            == ob.lanes@[i].at(w) && z(
            cell_wire(
                self.slices_a@,
                self.leaf_positions@[t]@[i].lane as int,
                self.leaf_slot(q, t, i),
            ),
        ) == w(
            cell_wire(
                self.slices_a@,
                self.leaf_positions@[t]@[i].lane as int,
                self.leaf_slot(q, t, i),
            ),
        ) by {
            assert(ob.lanes@[i].bound() <= n);
            assert(ob.lanes@[i]@.at(z) == ob.lanes@[i]@.at(w));
            let s = self.leaf_slot(q, t, i);
            let c = cell_wire(self.slices_a@, self.leaf_positions@[t]@[i].lane as int, s);
            assert(z(c) == w(c));
        }
        assert forall|l: int| 0 <= l < ob.dir_bits@.len() implies (#[trigger] ob.dir_bits@[l]).at(z)
            == ob.dir_bits@[l].at(w) && z(cell_wire(self.slices_b@, 8, self.leg_slot(q, t) + l))
            == w(cell_wire(self.slices_b@, 8, self.leg_slot(q, t) + l)) by {
            assert(ob.dir_bits@[l].bound() <= n);
            assert(ob.dir_bits@[l]@.at(z) == ob.dir_bits@[l]@.at(w));
            let c = cell_wire(self.slices_b@, 8, self.leg_slot(q, t) + l);
            assert(z(c) == w(c));
        }
        if self.arm_opened_at(arm, k, z) {
            assert forall|i: int| 0 <= i < ob.lanes@.len() implies (#[trigger] ob.lanes@[i]).at(w)
                == w(
                cell_wire(
                    self.slices_a@,
                    self.leaf_positions@[t]@[i].lane as int,
                    self.leaf_slot(q, t, i),
                ),
            ) by {
                assert(ob.lanes@[i].at(z) == ob.lanes@[i].at(w));
            }
            assert forall|l: int| 0 <= l < ob.dir_bits@.len() implies (
            #[trigger] ob.dir_bits@[l]).at(w) == w(
                cell_wire(self.slices_b@, 8, self.leg_slot(q, t) + l),
            ) by {
                assert(ob.dir_bits@[l].at(z) == ob.dir_bits@[l].at(w));
            }
        }
        if self.arm_opened_at(arm, k, w) {
            assert forall|i: int| 0 <= i < ob.lanes@.len() implies (#[trigger] ob.lanes@[i]).at(z)
                == z(
                cell_wire(
                    self.slices_a@,
                    self.leaf_positions@[t]@[i].lane as int,
                    self.leaf_slot(q, t, i),
                ),
            ) by {
                assert(ob.lanes@[i].at(z) == ob.lanes@[i].at(w));
            }
            assert forall|l: int| 0 <= l < ob.dir_bits@.len() implies (
            #[trigger] ob.dir_bits@[l]).at(z) == z(
                cell_wire(self.slices_b@, 8, self.leg_slot(q, t) + l),
            ) by {
                assert(ob.dir_bits@[l].at(z) == ob.dir_bits@[l].at(w));
            }
        }
    }

    proof fn lemma_arm_agree(
        &self,
        arm: ArmObligations,
        n: nat,
        z: spec_fn(int) -> u128,
        w: spec_fn(int) -> u128,
    )
        requires
            self.wf(n),
            self.carries(arm, n),
            agree(z, w, n),
        ensures
            self.arm_opened(arm, z) == self.arm_opened(arm, w),
    {
        assert forall|k: int| 0 <= k < arm.obligations@.len() implies #[trigger] self.arm_opened_at(
            arm,
            k,
            z,
        ) == self.arm_opened_at(arm, k, w) by {
            self.lemma_opened_agree(arm, n, k, z, w);
        }
        if self.arm_opened(arm, w) {
            assert forall|k: int| 0 <= k < arm.obligations@.len() implies #[trigger] self.arm_opened_at(
                arm,
                k,
                z,
            ) by {
                assert(self.arm_opened_at(arm, k, w));
            }
        }
        if self.arm_opened(arm, z) {
            assert forall|k: int| 0 <= k < arm.obligations@.len() implies #[trigger] self.arm_opened_at(
                arm,
                k,
                w,
            ) by {
                assert(self.arm_opened_at(arm, k, z));
            }
        }
    }

    /// Binds all obligations of one tier under the gates in scope.
    fn bind_obligations(&self, b: &mut FieldR1csBuilder, arm: &ArmObligations, Ghost(n): Ghost<nat>)
        requires
            old(b).wf(),
            self.wf(n),
            n <= old(b).wires(),
            self.carries(*arm, n),
        ensures
            states(*final(b), *old(b), |z: spec_fn(int) -> u128| self.arm_opened(*arm, z)),
            final(b).shape() == self.obligations_step(old(b).shape(), *arm, arm.obligations@.len()),
    {
        reveal(CarrierWalks::obligations_step);
        let ghost entry = *b;
        let ghost before = *b;
        let m = arm.trees.len();
        let mut k: usize = 0;
        proof {
            lemma_states_nothing(before, |z: spec_fn(int) -> u128| self.arm_opened_upto(*arm, 0, z));
        }
        while k < arm.obligations.len()
            invariant
                k <= arm.obligations@.len(),
                m == arm.trees@.len(),
                before.wf(),
                self.wf(n),
                self.carries(*arm, n),
                n <= before.wires(),
                b.wf(),
                before.wires() <= b.wires(),
                b.gate_list() == before.gate_list(),
                states(
                    *b,
                    before,
                    |z: spec_fn(int) -> u128| self.arm_opened_upto(*arm, k as int, z),
                ),
                b.shape() == self.obligations_step(entry.shape(), *arm, k as nat),
            decreases arm.obligations@.len() - k,
        {
            reveal(CarrierWalks::obligations_step);
            let ghost mid = *b;
            proof {
                self.lemma_arm_query(*arm, n, k as int);
            }
            let q = k / m;
            let t = k % m;
            assert(0 < arm.trees@[t as int].depth <= self.carrier_depths@[t as int]);
            assert(arm.obligations@[k as int].below(n));
            self.bind_obligation(b, q, t, arm.trees[t].depth, &arm.obligations[k], Ghost(n));
            proof {
                let depth = arm.trees@[t as int].depth as int;
                let ob = arm.obligations@[k as int];
                let raw = |z: spec_fn(int) -> u128| self.opened(q as int, t as int, depth, ob, z);
                let here = |z: spec_fn(int) -> u128| self.arm_opened_at(*arm, k as int, z);
                lemma_states_same(*b, mid, raw, here);
                let first = |z: spec_fn(int) -> u128| self.arm_opened_upto(*arm, k as int, z);
                let both = |z: spec_fn(int) -> u128| self.arm_opened_upto(*arm, k + 1, z);
                assert forall|z: spec_fn(int) -> u128| #[trigger] both(z) == (first(z) && here(
                    z,
                )) by {
                    if both(z) {
                        assert(self.arm_opened_at(*arm, k as int, z));
                    }
                }
                self.lemma_opened_agree(*arm, n, k as int, mid.witness(), before.witness());
                lemma_states_both(*b, mid, before, first, here, both);
            }
            k = k + 1;
        }
    }

    /// Binds all obligations of one tier while its selector is one.
    fn bind_arm(
        &self,
        b: &mut FieldR1csBuilder,
        arm: &ArmObligations,
        selector: &LinExpr,
        Ghost(n): Ghost<nat>,
    )
        requires
            old(b).wf(),
            self.wf(n),
            n <= old(b).wires(),
            self.carries(*arm, n),
            selector.bound() <= n,
        ensures
            refines(*final(b), *old(b)),
            forall|z: spec_fn(int) -> u128| #[trigger]
                final(b).holds(z) && old(b).live(z) && selector.at(z) != 0 ==> self.arm_opened(
                    *arm,
                    z,
                ),
            states(
                *final(b),
                *old(b),
                |z: spec_fn(int) -> u128| selector.at(z) != 0 ==> self.arm_opened(*arm, z),
            ),
            final(b).shape() == self.obligations_step(
                old(b).shape().gated(selector@),
                *arm,
                arm.obligations@.len(),
            ).ungated(),
    {
        let ghost b0 = *b;
        b.push_pin_gate(selector);
        let ghost b1 = *b;
        self.bind_obligations(b, arm, Ghost(n));
        let ghost b2 = *b;
        b.pop_pin_gate();
        proof {
            let gates = b0.gate_list();
            assert(b1.gate_list() == gates.push(selector@));
            assert(b.gate_list() =~= gates);
            assert(agree(b.witness(), b0.witness(), b0.wires()));
            assert forall|i: int| #[trigger] b0.is_open(i) implies b.is_open(i) by {
                assert(b1.is_open(i));
                assert(b2.is_open(i));
            }
            assert forall|z: spec_fn(int) -> u128|
                b0.live(z) && selector.at(z) != 0 implies #[trigger] b1.live(z) by {
                assert forall|i: int| 0 <= i < b1.gate_list().len() implies #[trigger] b1.gate_list()[i].at(
                    z,
                ) != 0 by {
                    if i < gates.len() {
                        assert(b1.gate_list()[i] == gates[i]);
                    }
                }
            }
            assert forall|z: spec_fn(int) -> u128| #[trigger]
                b.holds(z) && b0.live(z) && selector.at(z) != 0 implies self.arm_opened(
                *arm,
                z,
            ) by {
                assert(b2.holds(z));
                assert(b1.live(z));
            }
            let w = b0.witness();
            if b0.live(w) && selector.at(w) != 0 {
                assert(b1.live(b1.witness()));
            }
            if selector.at(w) == 0 {
                assert(b1.gate_list()[gates.len() as int].at(b1.witness()) == 0);
                assert(b1.dead(b1.witness()));
            }
            if b0.dead(w) {
                let i = choose|i: int| 0 <= i < gates.len() && #[trigger] gates[i].at(w) == 0;
                assert(b1.gate_list()[i].at(b1.witness()) == 0);
                assert(b1.dead(b1.witness()));
            }
            assert(b.honest() <==> b2.honest());
            assert(b1.honest() <==> b0.honest());
            assert(b1.holds(b1.witness()) == b0.holds(b0.witness()));
        }
    }
}

/// The recordings walk of a history step: its columns, its deferred rows, and
/// the recordings of both roles, tier by tier.
pub struct RecordingWalk {
    pub slices: Vec<WitnessSlice>,
    pub w_log: usize,
    pub child_blocks: Vec<TierBlock>,
    pub r_prev_blocks: Vec<TierBlock>,
}

/// What the selector cell says: zero with a single tier, whose selector is
/// one; otherwise the selector of the second tier.
pub open spec fn selector_pinned(
    cell: int,
    selectors: Seq<LinExpr>,
    z: spec_fn(int) -> u128,
) -> bool {
    if selectors.len() == 1 {
        z(cell) == 0 && selectors[0].at(z) == 1
    } else {
        z(cell) == selectors[1].at(z)
    }
}

/// The selector, the joins, and the obligations of the first `n` tiers while
/// they are selected.
pub open spec fn closed_upto(
    walks: CarrierWalks,
    cell: int,
    arms: Seq<ArmObligations>,
    selectors: Seq<LinExpr>,
    n: int,
    z: spec_fn(int) -> u128,
) -> bool {
    &&& selector_pinned(cell, selectors, z)
    &&& walks.joined_upto(walks.n_queries * walks.positions(), z)
    &&& forall|arm: int|
        0 <= arm < n && (#[trigger] selectors[arm]).at(z) != 0 ==> walks.arm_opened(arms[arm], z)
}

/// The rows of the selector cell.
#[verifier::opaque]
pub open spec fn selector_step(s: Shape, cell: LinForm, selectors: Seq<LinForm>) -> Shape {
    if selectors.len() == 1 {
        pairs_step(
            s,
            Seq::empty().push((cell, const_form(0))).push((selectors[0], const_form(1))),
            2,
        )
    } else {
        pairs_step(s, Seq::empty().push((cell, selectors[1])), 1)
    }
}

fn pin_selector(
    b: &mut FieldR1csBuilder,
    selector_slice: &WitnessSlice,
    selectors: &Vec<LinExpr>,
    Ghost(n): Ghost<nat>,
)
    requires
        old(b).wf(),
        n <= old(b).wires(),
        n <= usize::MAX,
        selector_slice.first() < n,
        selector_slice.size() <= usize::MAX,
        1 <= selectors@.len() <= 2,
        forall|i: int| 0 <= i < selectors@.len() ==> (#[trigger] selectors@[i]).bound() <= n,
    ensures
        states(
            *final(b),
            *old(b),
            |z: spec_fn(int) -> u128| selector_pinned(
                selector_slice.first() as int,
                selectors@,
                z,
            ),
        ),
        final(b).shape() == selector_step(
            old(b).shape(),
            wire_form(selector_slice.first()),
            forms(selectors@),
        ),
{
    reveal(selector_step);
    let ghost b0 = *b;
    let cell = slot_cell(selector_slice, 0);
    let mut pairs: Vec<ExprPair> = Vec::new();
    assert(selectors@[0].bound() <= n);
    if selectors.len() == 1 {
        pairs.push(ExprPair { lhs: cell, rhs: LinExpr::zero() });
        pairs.push(ExprPair { lhs: selectors[0].clone(), rhs: LinExpr::constant(F128::one()) });
    } else {
        assert(selectors@[1].bound() <= n);
        pairs.push(ExprPair { lhs: cell, rhs: selectors[1].clone() });
    }
    proof {
        let at = wire_form(selector_slice.first());
        if selectors@.len() == 1 {
            assert(pair_forms(pairs@) =~= Seq::empty().push((at, const_form(0))).push(
                (selectors@[0]@, const_form(1)),
            ));
        } else {
            assert(pair_forms(pairs@) =~= Seq::empty().push((at, selectors@[1]@)));
        }
    }
    pin_pairs(b, &pairs);
    proof {
        let at = selector_slice.first() as int;
        assert forall|z: spec_fn(int) -> u128| pairs_hold(pairs@, pairs@.len() as int, z)
            == #[trigger] selector_pinned(at, selectors@, z) by {
            assert(pairs@[0].lhs.at(z) == z(at));
            if selectors@.len() == 1 {
                assert(pairs@[1].lhs.at(z) == selectors@[0].at(z));
                assert(pairs@[1].rhs.at(z) == 1);
            } else {
                assert(pairs@[0].rhs.at(z) == selectors@[1].at(z));
            }
        }
        lemma_states_same(
            *b,
            b0,
            |z: spec_fn(int) -> u128| pairs_hold(pairs@, pairs@.len() as int, z),
            |z: spec_fn(int) -> u128| selector_pinned(at, selectors@, z),
        );
    }
}

/// The rows of the carrier's closing.
#[verifier::opaque]
pub open spec fn carrier_step(
    s: Shape,
    walks: CarrierWalks,
    cell: LinForm,
    arms: Seq<ArmObligations>,
    selectors: Seq<LinForm>,
) -> Shape {
    let s1 = selector_step(s, cell, selectors);
    let s2 = walks.joins_step(s1, (walks.n_queries * walks.positions()) as nat);
    walks.arms_step(s2, arms, selectors, arms.len())
}

/// Pins the selector and the joins, and binds the obligations of every tier
/// while it is selected.
pub fn close_carrier(
    b: &mut FieldR1csBuilder,
    walks: &CarrierWalks,
    selector_slice: &WitnessSlice,
    arms: &Vec<ArmObligations>,
    selectors: &Vec<LinExpr>,
)
    requires
        old(b).wf(),
        walks.wf(old(b).wires()),
        selector_slice.first() < old(b).wires(),
        selector_slice.size() <= usize::MAX,
        1 <= selectors@.len() <= 2,
        arms@.len() == selectors@.len(),
        forall|i: int|
            0 <= i < selectors@.len() ==> (#[trigger] selectors@[i]).bound() <= old(b).wires(),
        forall|i: int|
            0 <= i < arms@.len() ==> walks.carries(#[trigger] arms@[i], old(b).wires()),
    ensures
        refines(*final(b), *old(b)),
        forall|z: spec_fn(int) -> u128| #[trigger]
            final(b).holds(z) && old(b).live(z) ==> closed_upto(
                *walks,
                selector_slice.first() as int,
                arms@,
                selectors@,
                arms@.len() as int,
                z,
            ),
        states(
            *final(b),
            *old(b),
            |z: spec_fn(int) -> u128|
                closed_upto(
                    *walks,
                    selector_slice.first() as int,
                    arms@,
                    selectors@,
                    arms@.len() as int,
                    z,
                ),
        ),
        final(b).shape() == carrier_step(
            old(b).shape(),
            *walks,
            wire_form(selector_slice.first()),
            arms@,
            forms(selectors@),
        ),
{
    reveal(carrier_step);
    reveal(CarrierWalks::arms_step);
    let ghost b0 = *b;
    let ghost n = b0.wires();
    let ghost at = selector_slice.first() as int;
    let ghost w = b0.witness();
    pin_selector(b, selector_slice, selectors, Ghost(n));
    let ghost b1 = *b;
    let wires = b.num_wires();
    proof {
        assert(wires == b1.wires());
        lemma_wf_mono(*walks, n, b1.wires());
    }
    walks.pin_joins(b);
    proof {
        let c1 = |z: spec_fn(int) -> u128| selector_pinned(at, selectors@, z);
        let c2 = |z: spec_fn(int) -> u128| walks.joined_upto(
            walks.n_queries * walks.positions(),
            z,
        );
        let both = |z: spec_fn(int) -> u128| closed_upto(*walks, at, arms@, selectors@, 0, z);
        lemma_joins_agree(*walks, n, b1.witness(), w);
        lemma_states_both(*b, b1, b0, c1, c2, both);
    }
    let ghost shape2 = b.shape();
    let mut i: usize = 0;
    while i < arms.len()
        invariant
            i <= arms@.len(),
            b0.wf(),
            w == b0.witness(),
            n == b0.wires(),
            walks.wf(n),
            b.wf(),
            n <= b.wires(),
            1 <= selectors@.len() <= 2,
            arms@.len() == selectors@.len(),
            forall|k: int| 0 <= k < selectors@.len() ==> (#[trigger] selectors@[k]).bound() <= n,
            forall|k: int| 0 <= k < arms@.len() ==> walks.carries(#[trigger] arms@[k], n),
            refines(*b, b0),
            forall|z: spec_fn(int) -> u128| #[trigger]
                b.holds(z) && b0.live(z) ==> closed_upto(
                    *walks,
                    at,
                    arms@,
                    selectors@,
                    i as int,
                    z,
                ),
            states(
                *b,
                b0,
                |z: spec_fn(int) -> u128|
                    closed_upto(*walks, at, arms@, selectors@, i as int, z),
            ),
            b.shape() == walks.arms_step(shape2, arms@, forms(selectors@), i as nat),
        decreases arms@.len() - i,
    {
        reveal(CarrierWalks::arms_step);
        let ghost mid = *b;
        assert(walks.carries(arms@[i as int], n));
        assert(selectors@[i as int].bound() <= n);
        walks.bind_arm(b, &arms[i], &selectors[i], Ghost(n));
        proof {
            let ii = i as int;
            let here = |z: spec_fn(int) -> u128|
                selectors@[ii].at(z) != 0 ==> walks.arm_opened(arms@[ii], z);
            let first = |z: spec_fn(int) -> u128|
                closed_upto(*walks, at, arms@, selectors@, ii, z);
            let both = |z: spec_fn(int) -> u128|
                closed_upto(*walks, at, arms@, selectors@, ii + 1, z);
            assert forall|z: spec_fn(int) -> u128| #[trigger] both(z) == (first(z) && here(z)) by {
                if both(z) {
                    if selectors@[ii].at(z) != 0 {
                        assert(walks.arm_opened(arms@[ii], z));
                    }
                }
            }
            assert forall|z: spec_fn(int) -> u128| #[trigger] b.holds(z) && b0.live(z) implies closed_upto(
                *walks,
                at,
                arms@,
                selectors@,
                ii + 1,
                z,
            ) by {
                assert(mid.holds(z));
                assert(mid.live(z));
                assert(first(z));
                assert(here(z));
                assert(both(z));
            }
            assert(selectors@[ii]@.at(mid.witness()) == selectors@[ii]@.at(w));
            walks.lemma_arm_agree(arms@[ii], n, mid.witness(), w);
            lemma_states_both(*b, mid, b0, first, here, both);
        }
        i = i + 1;
    }
}

proof fn lemma_wf_mono(walks: CarrierWalks, n: nat, m: nat)
    requires
        walks.wf(n),
        n <= m <= usize::MAX,
    ensures
        walks.wf(m),
{
    assert forall|c: int| 0 <= c < 6 implies (#[trigger] walks.slices_a@[c]).first() + pow2(
        walks.leaf_w_log as nat,
    ) <= m && walks.slices_a@[c].size() <= usize::MAX by {}
    assert forall|c: int| 0 <= c < 9 implies (#[trigger] walks.slices_b@[c]).first() + pow2(
        walks.path_w_log as nat,
    ) <= m && walks.slices_b@[c].size() <= usize::MAX by {}
}

proof fn lemma_joins_agree(
    walks: CarrierWalks,
    n: nat,
    z: spec_fn(int) -> u128,
    w: spec_fn(int) -> u128,
)
    requires
        walks.wf(n),
        agree(z, w, n),
    ensures
        walks.joined_upto(walks.n_queries * walks.positions(), z) == walks.joined_upto(
            walks.n_queries * walks.positions(),
            w,
        ),
{
    let total = walks.n_queries * walks.positions();
    assert forall|k: int| 0 <= k < total implies #[trigger] walks.joined(
        k / walks.positions(),
        k % walks.positions(),
        z,
    ) == walks.joined(k / walks.positions(), k % walks.positions(), w) by {
        walks.lemma_query(n, k);
        walks.lemma_joined_agree(k / walks.positions(), k % walks.positions(), n, z, w);
    }
    if walks.joined_upto(total, w) {
        assert forall|k: int| 0 <= k < total implies #[trigger] walks.joined(
            k / walks.positions(),
            k % walks.positions(),
            z,
        ) by {
            assert(walks.joined(k / walks.positions(), k % walks.positions(), w));
        }
    }
    if walks.joined_upto(total, z) {
        assert forall|k: int| 0 <= k < total implies #[trigger] walks.joined(
            k / walks.positions(),
            k % walks.positions(),
            w,
        ) by {
            assert(walks.joined(k / walks.positions(), k % walks.positions(), z));
        }
    }
}

/// No cell of a table still has a deferred row.
pub open spec fn all_sealed(slots: RecordingSlots, len: int) -> bool {
    forall|c: int, o: int| 0 <= c < 6 && 0 <= o < len ==> #[trigger] slots.slots@[c]@[o] is None
}

fn none_left(slots: &RecordingSlots, len: usize) -> (r: bool)
    requires
        crate::recording::table_of(slots.slots@, len as int),
    ensures
        r == all_sealed(*slots, len as int),
{
    let mut c: usize = 0;
    while c < 6
        invariant
            c <= 6,
            crate::recording::table_of(slots.slots@, len as int),
            forall|d: int, o: int|
                0 <= d < c && 0 <= o < len ==> #[trigger] slots.slots@[d]@[o] is None,
        decreases 6 - c,
    {
        let mut o: usize = 0;
        assert(slots.slots@[c as int]@.len() == len);
        while o < len
            invariant
                c < 6,
                o <= len,
                slots.slots@.len() == 6,
                slots.slots@[c as int]@.len() == len,
                forall|p: int| 0 <= p < o ==> #[trigger] slots.slots@[c as int]@[p] is None,
            decreases len - o,
        {
            match &slots.slots[c][o] {
                Some(_) => {
                    assert(slots.slots@[c as int]@[o as int] is Some);
                    return false;
                },
                None => {},
            }
            o = o + 1;
        }
        c = c + 1;
    }
    true
}

/// The lists of a closing agree in length.
pub open spec fn closing_fits(
    arms: nat,
    selectors: nat,
    children: nat,
    r_prev: nat,
    rec: RecordingWalk,
    active: int,
) -> bool {
    &&& 1 <= selectors <= 2
    &&& arms == selectors
    &&& children == rec.child_blocks@.len()
    &&& r_prev == rec.r_prev_blocks@.len()
    &&& rec.child_blocks@.len() == selectors
    &&& rec.r_prev_blocks@.len() == selectors
    &&& active < selectors
}

/// Every deferred cell belongs to exactly one role: the cells of the two roles
/// are the deferred ones, and no cell has both.
pub open spec fn roles_cover(
    rec: RecordingWalk,
    children: Seq<RecordedWires>,
    r_prev: Seq<RecordedWires>,
    slots: RecordingSlots,
    len: int,
) -> bool {
    forall|c: int, o: int|
        0 <= c < 6 && 0 <= o < len ==> {
            let child = role_form(rec.child_blocks@, children, 0, c, o) is Some || role_form(
                rec.child_blocks@,
                children,
                1,
                c,
                o,
            ) is Some;
            let prev = role_form(rec.r_prev_blocks@, r_prev, 0, c, o) is Some || role_form(
                rec.r_prev_blocks@,
                r_prev,
                1,
                c,
                o,
            ) is Some;
            &&& !(child && prev)
            &&& (#[trigger] slots.slots@[c]@[o] is Some <==> child || prev)
        }
}

/// Everything a closed parent region states.
pub open spec fn parent_closed(
    walks: CarrierWalks,
    cell: int,
    arms: Seq<ArmObligations>,
    selectors: Seq<LinExpr>,
    rec: RecordingWalk,
    children: Seq<RecordedWires>,
    r_prev: Seq<RecordedWires>,
    z: spec_fn(int) -> u128,
) -> bool {
    let len = pow2(rec.w_log as nat) as int;
    &&& closed_upto(walks, cell, arms, selectors, arms.len() as int, z)
    &&& role_rules(rec.child_blocks@, children, selectors, rec.slices@, len, z)
    &&& role_rules(rec.r_prev_blocks@, r_prev, selectors, rec.slices@, len, z)
}

proof fn lemma_role_mono(
    blocks: Seq<TierBlock>,
    recordings: Seq<RecordedWires>,
    len: int,
    n: nat,
    m: nat,
)
    requires
        role_fits(blocks, recordings, len, n),
        n <= m,
    ensures
        role_fits(blocks, recordings, len, m),
{
    assert forall|arm: int| 0 <= arm < blocks.len() implies {
        let block = #[trigger] blocks[arm];
        &&& crate::recording::block_inside(&block.layout, block.base as int, len)
        &&& crate::recording::cells_distinct(&block.layout, block.base as int)
        &&& recordings[arm].replays(&block.layout, m)
    } by {
        assert(recordings[arm].replays(&blocks[arm].layout, n));
        let r = recordings[arm];
        assert forall|i: int| 0 <= i < r.challenge_wires@.len() implies (
        #[trigger] r.challenge_wires@[i]).bound() <= m by {
            assert(r.challenge_wires@[i].bound() <= n);
        }
        assert forall|i: int| 0 <= i < r.data_wires@.len() implies (
        #[trigger] r.data_wires@[i]).bound() <= m by {
            assert(r.data_wires@[i].bound() <= n);
        }
    }
}

/// The rules of a role read the wires below `n` only.
proof fn lemma_rules_agree(
    blocks: Seq<TierBlock>,
    recordings: Seq<RecordedWires>,
    selectors: Seq<LinExpr>,
    slices: Seq<WitnessSlice>,
    w_log: usize,
    n: nat,
    z: spec_fn(int) -> u128,
    w: spec_fn(int) -> u128,
)
    requires
        role_fits(blocks, recordings, pow2(w_log as nat) as int, n),
        columns_inside(slices, w_log, n),
        1 <= selectors.len(),
        forall|i: int| 0 <= i < selectors.len() ==> (#[trigger] selectors[i]).bound() <= n,
        agree(z, w, n),
    ensures
        role_rules(blocks, recordings, selectors, slices, pow2(w_log as nat) as int, z)
            == role_rules(blocks, recordings, selectors, slices, pow2(w_log as nat) as int, w),
{
    let len = pow2(w_log as nat) as int;
    assert forall|c: int, o: int| 0 <= c < 6 && 0 <= o < len implies #[trigger] crate::recording::cell_rule(
        selectors.len() as int,
        role_form(blocks, recordings, 0, c, o),
        role_form(blocks, recordings, 1, c, o),
        selectors[0]@,
        selectors[selectors.len() - 1]@,
        slices[c].first() + o,
        z,
    ) == crate::recording::cell_rule(
        selectors.len() as int,
        role_form(blocks, recordings, 0, c, o),
        role_form(blocks, recordings, 1, c, o),
        selectors[0]@,
        selectors[selectors.len() - 1]@,
        slices[c].first() + o,
        w,
    ) by {
        crate::recording::lemma_cell_wire(slices, w_log, n, c, o, c, o);
        crate::recording::lemma_role_bound(blocks, recordings, len, n, 0, c, o);
        crate::recording::lemma_role_bound(blocks, recordings, len, n, 1, c, o);
        assert(selectors[0].bound() <= n);
        assert(selectors[selectors.len() - 1].bound() <= n);
        crate::recording::lemma_rule_agree(
            selectors.len() as int,
            role_form(blocks, recordings, 0, c, o),
            role_form(blocks, recordings, 1, c, o),
            selectors[0]@,
            selectors[selectors.len() - 1]@,
            slices[c].first() + o,
            z,
            w,
            n,
        );
    }
    if role_rules(blocks, recordings, selectors, slices, len, w) {
        assert forall|c: int, o: int| 0 <= c < 6 && 0 <= o < len implies #[trigger] crate::recording::cell_rule(
            selectors.len() as int,
            role_form(blocks, recordings, 0, c, o),
            role_form(blocks, recordings, 1, c, o),
            selectors[0]@,
            selectors[selectors.len() - 1]@,
            slices[c].first() + o,
            z,
        ) by {
            assert(crate::recording::cell_rule(
                selectors.len() as int,
                role_form(blocks, recordings, 0, c, o),
                role_form(blocks, recordings, 1, c, o),
                selectors[0]@,
                selectors[selectors.len() - 1]@,
                slices[c].first() + o,
                w,
            ));
        }
    }
    if role_rules(blocks, recordings, selectors, slices, len, z) {
        assert forall|c: int, o: int| 0 <= c < 6 && 0 <= o < len implies #[trigger] crate::recording::cell_rule(
            selectors.len() as int,
            role_form(blocks, recordings, 0, c, o),
            role_form(blocks, recordings, 1, c, o),
            selectors[0]@,
            selectors[selectors.len() - 1]@,
            slices[c].first() + o,
            w,
        ) by {
            assert(crate::recording::cell_rule(
                selectors.len() as int,
                role_form(blocks, recordings, 0, c, o),
                role_form(blocks, recordings, 1, c, o),
                selectors[0]@,
                selectors[selectors.len() - 1]@,
                slices[c].first() + o,
                z,
            ));
        }
    }
}

/// The rows of a closed parent region.
#[verifier::opaque]
pub open spec fn finalize_step(
    s: Shape,
    walks: CarrierWalks,
    cell: LinForm,
    rec: RecordingWalk,
    arms: Seq<ArmObligations>,
    selectors: Seq<LinForm>,
    children: Seq<RecordedWires>,
    r_prev: Seq<RecordedWires>,
) -> Shape {
    let len = pow2(rec.w_log as nat);
    let s1 = carrier_step(s, walks, cell, arms, selectors);
    let s2 = role_step(s1, rec.child_blocks@, children, selectors, rec.slices@, len, 6);
    role_step(s2, rec.r_prev_blocks@, r_prev, selectors, rec.slices@, len, 6)
}

/// Closes the parent region of a history step: the selector, the joins, the
/// obligations of the selected tier, and the recordings of both roles.
pub fn finalize_history_step_parent_region(
    b: &mut FieldR1csBuilder,
    walks: &CarrierWalks,
    selector_slice: &WitnessSlice,
    rec: &RecordingWalk,
    slots: &mut RecordingSlots,
    arms: &Vec<ArmObligations>,
    selectors: &Vec<LinExpr>,
    children: &Vec<RecordedWires>,
    r_prev: &Vec<RecordedWires>,
    active_slot: usize,
) -> (r: Result<(), RegionSidecarError>)
    requires
        old(b).wf(),
        closing_fits(
            arms@.len(),
            selectors@.len(),
            children@.len(),
            r_prev@.len(),
            *rec,
            active_slot as int,
        ) ==> {
            let len = pow2(rec.w_log as nat) as int;
            let n = old(b).wires();
            &&& walks.wf(n)
            &&& selector_slice.first() < n
            &&& selector_slice.size() <= usize::MAX
            &&& forall|i: int|
                0 <= i < selectors@.len() ==> (#[trigger] selectors@[i]).bound() <= n
            &&& forall|i: int| 0 <= i < arms@.len() ==> walks.carries(#[trigger] arms@[i], n)
            &&& pow2(rec.w_log as nat) <= usize::MAX
            &&& columns_inside(rec.slices@, rec.w_log, n)
            &&& old(slots).open_in(*old(b), rec.slices@, len)
            &&& role_fits(rec.child_blocks@, children@, len, n)
            &&& role_fits(rec.r_prev_blocks@, r_prev@, len, n)
        },
    ensures
        tightens(*final(b), *old(b)),
        r == if closing_fits(
            arms@.len(),
            selectors@.len(),
            children@.len(),
            r_prev@.len(),
            *rec,
            active_slot as int,
        ) && roles_cover(
            *rec,
            children@,
            r_prev@,
            *old(slots),
            pow2(rec.w_log as nat) as int,
        ) {
            Ok::<(), RegionSidecarError>(())
        } else {
            Err::<(), _>(RegionSidecarError::UnsupportedVkShape)
        },
        r is Ok ==> {
            &&& forall|z: spec_fn(int) -> u128| #[trigger]
                final(b).holds(z) && old(b).live(z) ==> parent_closed(
                    *walks,
                    selector_slice.first() as int,
                    arms@,
                    selectors@,
                    *rec,
                    children@,
                    r_prev@,
                    z,
                )
            &&& (old(b).live(old(b).witness()) ==> (
            final(b).honest() <==> old(b).honest() && parent_closed(
                *walks,
                selector_slice.first() as int,
                arms@,
                selectors@,
                *rec,
                children@,
                r_prev@,
                old(b).witness(),
            )))
        },
        r is Ok ==> final(b).shape() == finalize_step(
            old(b).shape(),
            *walks,
            wire_form(selector_slice.first()),
            *rec,
            arms@,
            forms(selectors@),
            children@,
            r_prev@,
        ),
        !closing_fits(
            arms@.len(),
            selectors@.len(),
            children@.len(),
            r_prev@.len(),
            *rec,
            active_slot as int,
        ) ==> *final(b) == *old(b) && *final(slots) == *old(slots),
{
    reveal(finalize_step);
    if selectors.len() < 1 || selectors.len() > 2 || arms.len() != selectors.len()
        || children.len() != rec.child_blocks.len() || r_prev.len() != rec.r_prev_blocks.len()
        || rec.child_blocks.len() != selectors.len() || rec.r_prev_blocks.len() != selectors.len()
        || active_slot >= selectors.len() {
        return Err(RegionSidecarError::UnsupportedVkShape);
    }
    let ghost b0 = *b;
    let ghost n = b0.wires();
    let ghost slots0 = *slots;
    let ghost len = pow2(rec.w_log as nat) as int;
    close_carrier(b, walks, selector_slice, arms, selectors);
    let ghost b1 = *b;
    proof {
        lemma_role_mono(rec.child_blocks@, children@, len, n, b1.wires());
        assert(slots0.open_in(b1, rec.slices@, len)) by {
            assert forall|c: int, o: int|
                0 <= c < 6 && 0 <= o < len && #[trigger] slots0.slots@[c]@[o] is Some implies slots0.slots@[c]@[o]->0.wire
                == rec.slices@[c].first() + o && b1.is_open(rec.slices@[c].first() + o) by {
                assert(b0.is_open(rec.slices@[c].first() + o));
            }
        }
    }
    match pin_selected_recording_role(
        b,
        &rec.child_blocks,
        children,
        selectors,
        active_slot,
        &rec.slices,
        slots,
        rec.w_log,
    ) {
        Ok(()) => {},
        Err(error) => {
            proof {
                lemma_not_open(*rec, children@, r_prev@, slots0, len);
            }
            return Err(error);
        },
    }
    let ghost b2 = *b;
    let ghost slots1 = *slots;
    proof {
        lemma_role_mono(rec.r_prev_blocks@, r_prev@, len, n, b2.wires());
    }
    match pin_selected_recording_role(
        b,
        &rec.r_prev_blocks,
        r_prev,
        selectors,
        active_slot,
        &rec.slices,
        slots,
        rec.w_log,
    ) {
        Ok(()) => {},
        Err(error) => {
            proof {
                lemma_not_open_after(*rec, children@, r_prev@, slots0, slots1, len);
            }
            return Err(error);
        },
    }
    let ghost b3 = *b;
    let size = power_of_two(rec.w_log);
    if !none_left(slots, size) {
        proof {
            lemma_left_over(*rec, children@, r_prev@, slots0, slots1, *slots, len);
        }
        return Err(RegionSidecarError::UnsupportedVkShape);
    }
    proof {
        lemma_covered(*rec, children@, r_prev@, slots0, slots1, *slots, len);
        assert forall|z: spec_fn(int) -> u128| #[trigger] b.holds(z) && b0.live(z) implies parent_closed(
            *walks,
            selector_slice.first() as int,
            arms@,
            selectors@,
            *rec,
            children@,
            r_prev@,
            z,
        ) by {
            assert(b2.holds(z));
            assert(b1.holds(z));
        }
        let w = b0.witness();
        lemma_rules_agree(
            rec.child_blocks@,
            children@,
            selectors@,
            rec.slices@,
            rec.w_log,
            n,
            b1.witness(),
            w,
        );
        lemma_rules_agree(
            rec.r_prev_blocks@,
            r_prev@,
            selectors@,
            rec.slices@,
            rec.w_log,
            n,
            b2.witness(),
            w,
        );
    }
    Ok(())
}

proof fn lemma_not_open(
    rec: RecordingWalk,
    children: Seq<RecordedWires>,
    r_prev: Seq<RecordedWires>,
    slots: RecordingSlots,
    len: int,
)
    requires
        !role_open(rec.child_blocks@, children, slots, len),
    ensures
        !roles_cover(rec, children, r_prev, slots, len),
{
}

proof fn lemma_not_open_after(
    rec: RecordingWalk,
    children: Seq<RecordedWires>,
    r_prev: Seq<RecordedWires>,
    slots: RecordingSlots,
    after: RecordingSlots,
    len: int,
)
    requires
        !role_open(rec.r_prev_blocks@, r_prev, after, len),
        forall|c: int, o: int|
            0 <= c < 6 && 0 <= o < len ==> #[trigger] after.slots@[c]@[o] == if role_form(
                rec.child_blocks@,
                children,
                0,
                c,
                o,
            ) is Some || role_form(rec.child_blocks@, children, 1, c, o) is Some {
                None
            } else {
                slots.slots@[c]@[o]
            },
    ensures
        !roles_cover(rec, children, r_prev, slots, len),
{
    if roles_cover(rec, children, r_prev, slots, len) {
        assert forall|c: int, o: int|
            0 <= c < 6 && 0 <= o < len && (role_form(rec.r_prev_blocks@, r_prev, 0, c, o) is Some
                || role_form(rec.r_prev_blocks@, r_prev, 1, c, o) is Some) implies #[trigger] after.slots@[c]@[o]
            is Some by {
            assert(slots.slots@[c]@[o] is Some);
        }
    }
}

proof fn lemma_left_over(
    rec: RecordingWalk,
    children: Seq<RecordedWires>,
    r_prev: Seq<RecordedWires>,
    slots: RecordingSlots,
    mid: RecordingSlots,
    after: RecordingSlots,
    len: int,
)
    requires
        !all_sealed(after, len),
        forall|c: int, o: int|
            0 <= c < 6 && 0 <= o < len ==> #[trigger] mid.slots@[c]@[o] == if role_form(
                rec.child_blocks@,
                children,
                0,
                c,
                o,
            ) is Some || role_form(rec.child_blocks@, children, 1, c, o) is Some {
                None
            } else {
                slots.slots@[c]@[o]
            },
        forall|c: int, o: int|
            0 <= c < 6 && 0 <= o < len ==> #[trigger] after.slots@[c]@[o] == if role_form(
                rec.r_prev_blocks@,
                r_prev,
                0,
                c,
                o,
            ) is Some || role_form(rec.r_prev_blocks@, r_prev, 1, c, o) is Some {
                None
            } else {
                mid.slots@[c]@[o]
            },
    ensures
        !roles_cover(rec, children, r_prev, slots, len),
{
    if roles_cover(rec, children, r_prev, slots, len) {
        assert forall|c: int, o: int| 0 <= c < 6 && 0 <= o < len implies #[trigger] after.slots@[c]@[o]
            is None by {
            assert(mid.slots@[c]@[o] is None || slots.slots@[c]@[o] is Some);
        }
    }
}

proof fn lemma_covered(
    rec: RecordingWalk,
    children: Seq<RecordedWires>,
    r_prev: Seq<RecordedWires>,
    slots: RecordingSlots,
    mid: RecordingSlots,
    after: RecordingSlots,
    len: int,
)
    requires
        all_sealed(after, len),
        role_open(rec.child_blocks@, children, slots, len),
        role_open(rec.r_prev_blocks@, r_prev, mid, len),
        forall|c: int, o: int|
            0 <= c < 6 && 0 <= o < len ==> #[trigger] mid.slots@[c]@[o] == if role_form(
                rec.child_blocks@,
                children,
                0,
                c,
                o,
            ) is Some || role_form(rec.child_blocks@, children, 1, c, o) is Some {
                None
            } else {
                slots.slots@[c]@[o]
            },
        forall|c: int, o: int|
            0 <= c < 6 && 0 <= o < len ==> #[trigger] after.slots@[c]@[o] == if role_form(
                rec.r_prev_blocks@,
                r_prev,
                0,
                c,
                o,
            ) is Some || role_form(rec.r_prev_blocks@, r_prev, 1, c, o) is Some {
                None
            } else {
                mid.slots@[c]@[o]
            },
    ensures
        roles_cover(rec, children, r_prev, slots, len),
{
    assert forall|c: int, o: int| 0 <= c < 6 && 0 <= o < len implies {
        let child = role_form(rec.child_blocks@, children, 0, c, o) is Some || role_form(
            rec.child_blocks@,
            children,
            1,
            c,
            o,
        ) is Some;
        let prev = role_form(rec.r_prev_blocks@, r_prev, 0, c, o) is Some || role_form(
            rec.r_prev_blocks@,
            r_prev,
            1,
            c,
            o,
        ) is Some;
        &&& !(child && prev)
        &&& (#[trigger] slots.slots@[c]@[o] is Some <==> child || prev)
    } by {
        assert(after.slots@[c]@[o] is None);
        let m = mid.slots@[c]@[o];
    }
}

/// The columns of a history step's parent region: leaves, paths, recordings
/// with their deferred rows, and the selector.
pub struct HistoryStepParentColumns {
    pub slices_a: Vec<WitnessSlice>,
    pub slices_b: Vec<WitnessSlice>,
    pub slices_rec: Vec<WitnessSlice>,
    pub slots: RecordingSlots,
    pub selector_slice: WitnessSlice,
}

/// The columns carry the values they were given.
pub open spec fn carried(
    b: FieldR1csBuilder,
    slices: Seq<WitnessSlice>,
    columns: Seq<Vec<F128>>,
    len: int,
) -> bool {
    forall|c: int, i: int|
        0 <= c < columns.len() && 0 <= i < len ==> #[trigger] b.witness()(slices[c].first() + i)
            == columns[c]@[i]@
}

proof fn lemma_carried_kept(
    after: FieldR1csBuilder,
    before: FieldR1csBuilder,
    slices: Seq<WitnessSlice>,
    columns: Seq<Vec<F128>>,
    cursor: nat,
    w_log: usize,
)
    requires
        before.wf(),
        after.extends(&before),
        columns_from(slices, columns.len() as int, cursor, w_log),
        columns_end(columns.len(), cursor, w_log) <= before.wires(),
        carried(before, slices, columns, pow2(w_log as nat) as int),
    ensures
        carried(after, slices, columns, pow2(w_log as nat) as int),
{
    let len = pow2(w_log as nat) as int;
    assert forall|c: int, i: int| 0 <= c < columns.len() && 0 <= i < len implies #[trigger] after.witness()(
        slices[c].first() + i,
    ) == columns[c]@[i]@ by {
        assert(slices[c].first() == align_up(cursor, len as nat) + c * len);
        assert(c * len + i < columns.len() * len) by (nonlinear_arith)
            requires
                c + 1 <= columns.len(),
                0 <= i < len,
        ;
        assert(before.witness()(slices[c].first() + i) == columns[c]@[i]@);
        assert(after.witness()(slices[c].first() + i) == before.witness()(slices[c].first() + i));
    }
}

/// The wires of the columns of a parent region.
#[verifier::opaque]
pub open spec fn prepare_step(s: Shape, leaf: nat, path: nat, rec: nat) -> Shape {
    let s1 = columns_step(s, leaf, None, 6);
    let s2 = columns_step(s1, path, Some(8), 9);
    bit_column_step(recording_step(s2, rec, 6), 1, 1)
}

/// Allocates the columns of a parent region at their canonical places: the
/// leaf columns, the path columns with their directions as bits, the
/// recording columns, and the selector of the active tier.
pub fn prepare_history_step_parent_columns(
    b: &mut FieldR1csBuilder,
    leaf_columns: &Vec<Vec<F128>>,
    leaf_w_log: usize,
    path_columns: &Vec<Vec<F128>>,
    path_w_log: usize,
    rec_columns: &Vec<Vec<F128>>,
    rec_w_log: usize,
    blocks: &Vec<TierBlock>,
    tier_count: usize,
    active_slot: usize,
) -> (r: Result<HistoryStepParentColumns, RegionSidecarError>)
    requires
        old(b).wf(),
        pow2(leaf_w_log as nat) <= usize::MAX,
        pow2(path_w_log as nat) <= usize::MAX,
        pow2(rec_w_log as nat) <= usize::MAX,
        leaf_columns@.len() == 6,
        path_columns@.len() == 9,
        rec_columns@.len() == 6,
        forall|c: int|
            0 <= c < 6 ==> (#[trigger] leaf_columns@[c])@.len() == pow2(leaf_w_log as nat),
        forall|c: int|
            0 <= c < 9 ==> (#[trigger] path_columns@[c])@.len() == pow2(path_w_log as nat),
        forall|c: int|
            0 <= c < 6 ==> (#[trigger] rec_columns@[c])@.len() == pow2(rec_w_log as nat),
        forall|i: int|
            0 <= i < path_columns@[8]@.len() ==> is_bit((#[trigger] path_columns@[8]@[i])@),
        forall|i: int|
            0 <= i < blocks@.len() ==> crate::recording::block_inside(
                &(#[trigger] blocks@[i]).layout,
                blocks@[i].base as int,
                pow2(rec_w_log as nat) as int,
            ),
    ensures
        active_slot >= tier_count ==> r == Err::<HistoryStepParentColumns, _>(
            RegionSidecarError::BadVk,
        ) && *final(b) == *old(b),
        active_slot < tier_count ==> {
            let leaf_end = columns_end(6, old(b).wires(), leaf_w_log);
            let path_end = columns_end(9, leaf_end, path_w_log);
            let rec_end = columns_end(6, path_end, rec_w_log);
            &&& r is Ok
            &&& refines(*final(b), *old(b))
            &&& (final(b).honest() <==> old(b).honest())
            &&& final(b).wires() == rec_end + 1
            &&& columns_from(r->Ok_0.slices_a@, 6, old(b).wires(), leaf_w_log)
            &&& columns_from(r->Ok_0.slices_b@, 9, leaf_end, path_w_log)
            &&& columns_from(r->Ok_0.slices_rec@, 6, path_end, rec_w_log)
            &&& r->Ok_0.selector_slice.log2_len == 0
            &&& r->Ok_0.selector_slice.first() == rec_end
            &&& carried(
                *final(b),
                r->Ok_0.slices_a@,
                leaf_columns@,
                pow2(leaf_w_log as nat) as int,
            )
            &&& carried(
                *final(b),
                r->Ok_0.slices_b@,
                path_columns@,
                pow2(path_w_log as nat) as int,
            )
            &&& carried(
                *final(b),
                r->Ok_0.slices_rec@,
                rec_columns@,
                pow2(rec_w_log as nat) as int,
            )
            &&& final(b).witness()(rec_end as int) == if active_slot == 1 {
                1u128
            } else {
                0u128
            }
            &&& r->Ok_0.slots.open_in(
                *final(b),
                r->Ok_0.slices_rec@,
                pow2(rec_w_log as nat) as int,
            )
            &&& forall|c: int, o: int|
                0 <= c < 6 && 0 <= o < pow2(rec_w_log as nat) ==> (
                #[trigger] r->Ok_0.slots.slots@[c]@[o] is Some <==> crate::recording::tier_cells(
                    blocks@,
                    blocks@.len(),
                ).contains(
                    crate::recording::RecordingCell { column: c as usize, offset: o as usize },
                ))
            &&& forall|z: spec_fn(int) -> u128| #[trigger]
                final(b).holds(z) <==> old(b).holds(z) && (forall|i: int|
                    0 <= i < pow2(path_w_log as nat) ==> is_bit(
                        #[trigger] z(r->Ok_0.slices_b@[8].first() + i),
                    )) && is_bit(z(rec_end as int))
        },
        r is Ok ==> final(b).shape() == prepare_step(
            old(b).shape(),
            pow2(leaf_w_log as nat),
            pow2(path_w_log as nat),
            pow2(rec_w_log as nat),
        ),
        r is Err ==> *final(b) == *old(b),
{
    reveal(prepare_step);
    if active_slot >= tier_count {
        return Err(RegionSidecarError::BadVk);
    }
    let ghost b0 = *b;
    let ghost leaf_end = columns_end(6, b0.wires(), leaf_w_log);
    let ghost path_end = columns_end(9, leaf_end, path_w_log);
    let ghost rec_end = columns_end(6, path_end, rec_w_log);
    let slices_a = alloc_selected_columns(b, leaf_columns, leaf_w_log, None);
    let ghost b1 = *b;
    let slices_b = alloc_selected_columns(b, path_columns, path_w_log, Some(8));
    let ghost b2 = *b;
    let (slices_rec, slots) = allocate_selected_recording_columns(
        b,
        rec_columns,
        rec_w_log,
        blocks,
    );
    let ghost b3 = *b;
    let mut bit: Vec<F128> = Vec::new();
    bit.push(
        if active_slot == 1 {
            F128::one()
        } else {
            F128::zero()
        },
    );
    proof {
        vstd::arithmetic::power2::lemma2_to64();
    }
    let selector_slice = alloc_boolean_column_slice_values_only(b, bit.as_slice(), 0);
    proof {
        assert(columns_from(slices_a@, 6, b0.wires(), leaf_w_log));
        assert(columns_from(slices_b@, 9, leaf_end, path_w_log));
        assert(columns_from(slices_rec@, 6, path_end, rec_w_log)) by {
            assert(6 * pow2(rec_w_log as nat) == 6 * pow2(rec_w_log as nat));
        }
        reveal(align_up);
        assert(rec_end % 1 == 0);
        assert(selector_slice.first() == rec_end);
        lemma_carried_kept(b2, b1, slices_a@, leaf_columns@, b0.wires(), leaf_w_log);
        lemma_carried_kept(b3, b2, slices_a@, leaf_columns@, b0.wires(), leaf_w_log);
        lemma_carried_kept(*b, b3, slices_a@, leaf_columns@, b0.wires(), leaf_w_log);
        lemma_carried_kept(b3, b2, slices_b@, path_columns@, leaf_end, path_w_log);
        lemma_carried_kept(*b, b3, slices_b@, path_columns@, leaf_end, path_w_log);
        lemma_carried_kept(*b, b3, slices_rec@, rec_columns@, path_end, rec_w_log);
        assert(b.witness()(selector_slice.first() + 0int) == crate::columns::cell_at(bit@, 0));
        assert forall|c: int, o: int|
            0 <= c < 6 && 0 <= o < pow2(rec_w_log as nat) && #[trigger] slots.slots@[c]@[o] is Some
                implies slots.slots@[c]@[o]->0.wire == slices_rec@[c].first() + o && b.is_open(
            slices_rec@[c].first() + o,
        ) by {
            assert(b3.is_open(slices_rec@[c].first() + o));
        }
        assert forall|z: spec_fn(int) -> u128| #[trigger]
            b.holds(z) <==> b0.holds(z) && (forall|i: int|
                0 <= i < pow2(path_w_log as nat) ==> is_bit(
                    #[trigger] z(slices_b@[8].first() + i),
                )) && is_bit(z(rec_end as int)) by {
            assert(b3.holds(z) <==> b2.holds(z));
            assert(b2.holds(z) <==> b1.holds(z) && bit_cells(
                slices_b@[8],
                pow2(path_w_log as nat),
                z,
            ));
            assert(b1.holds(z) <==> b0.holds(z));
            assert(crate::columns::column_cells(bit@, 1) == 1);
            if b.holds(z) {
                assert(is_bit(z(selector_slice.first() + 0int)));
            }
            if b3.holds(z) && is_bit(z(rec_end as int)) {
                assert forall|i: int| 0 <= i < 1 implies is_bit(
                    #[trigger] z(selector_slice.first() + i),
                ) by {
                    assert(selector_slice.first() + i == rec_end);
                }
                assert(b.holds(z));
            }
        }
    }
    Ok(HistoryStepParentColumns { slices_a, slices_b, slices_rec, slots, selector_slice })
}

} // verus!
