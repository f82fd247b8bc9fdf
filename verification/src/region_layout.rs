//! The geometry of the committed regions: tiled walks, the column ledger of
//! the six selected families, and dyadic sub-regions.
use crate::dyadic::{
    checked_next_power_of_two, covers, exact_log, is_dyadic, lemma_covers_some, power_of_two,
    lemma_covers_unique, Dyadic,
};
use vstd::arithmetic::power2::{lemma_pow2_adds, lemma_pow2_pos, lemma_pow2_unfold, pow2};
use vstd::prelude::*;

verus! {

/// The sum of the first `n` entries.
pub open spec fn prefix_sum(s: Seq<usize>, n: nat) -> nat
    decreases n,
{
    if n == 0 {
        0
    } else {
        prefix_sum(s, (n - 1) as nat) + s[n - 1] as nat
    }
}

pub proof fn lemma_prefix_sum_mono(s: Seq<usize>, m: nat, n: nat)
    requires
        m <= n <= s.len(),
    ensures
        prefix_sum(s, m) <= prefix_sum(s, n),
    decreases n,
{
    if m < n {
        lemma_prefix_sum_mono(s, m, (n - 1) as nat);
    }
}

/// One block-tiled walk domain. `bases[i]` is the start of leg `i` inside a
/// block; the block and the whole walk are powers of two.
#[derive(Clone, Debug, PartialEq, Eq)]
pub struct TiledWalkLayout {
    pub bases: Vec<usize>,
    pub live_per_block: usize,
    pub block_log: usize,
    pub block_slots: usize,
    pub w_log: usize,
    pub slots: usize,
}

impl TiledWalkLayout {
    /// The layout of `k` blocks that hold legs of the given sizes.
    pub open spec fn lays_out(&self, k: nat, leg_slots: Seq<usize>) -> bool {
        &&& self.bases@.len() == leg_slots.len()
        &&& forall|i: int|
            0 <= i < leg_slots.len() ==> #[trigger] self.bases@[i] == prefix_sum(
                leg_slots,
                i as nat,
            )
        &&& self.live_per_block == prefix_sum(leg_slots, leg_slots.len())
        &&& self.block_slots == pow2(self.block_log as nat)
        &&& covers(self.block_log as nat, self.live_per_block as nat)
        &&& self.slots == k * self.block_slots
        &&& self.slots == pow2(self.w_log as nat)
    }
}

/// The layout fits the machine.
pub open spec fn layout_fits(k: nat, leg_slots: Seq<usize>) -> bool {
    &&& prefix_sum(leg_slots, leg_slots.len()) <= usize::MAX
    &&& forall|e: nat| #[trigger]
        covers(e, prefix_sum(leg_slots, leg_slots.len())) ==> k * pow2(e) <= usize::MAX
}

/// Lays out non-empty, disjoint legs in one walk of `k` blocks.
pub fn tiled_walk_layout(k: usize, leg_slots: &[usize]) -> (r: TiledWalkLayout)
    requires
        is_dyadic(k as nat),
        leg_slots@.len() > 0,
        forall|i: int| 0 <= i < leg_slots@.len() ==> #[trigger] leg_slots@[i] > 0,
        layout_fits(k as nat, leg_slots@),
    ensures
        r.lays_out(k as nat, leg_slots@),
{
    let mut bases: Vec<usize> = Vec::with_capacity(leg_slots.len());
    let mut live_per_block: usize = 0;
    let mut i: usize = 0;
    while i < leg_slots.len()
        invariant
            i <= leg_slots@.len(),
            bases@.len() == i,
            live_per_block == prefix_sum(leg_slots@, i as nat),
            prefix_sum(leg_slots@, leg_slots@.len()) <= usize::MAX,
            forall|j: int| 0 <= j < i ==> #[trigger] bases@[j] == prefix_sum(leg_slots@, j as nat),
        decreases leg_slots@.len() - i,
    {
        proof {
            lemma_prefix_sum_mono(leg_slots@, (i + 1) as nat, leg_slots@.len());
        }
        bases.push(live_per_block);
        live_per_block = live_per_block + leg_slots[i];
        i = i + 1;
    }
    proof {
        lemma_covers_some(live_per_block as nat);
        let kk = choose|kk: nat| k == #[trigger] pow2(kk);
        lemma_pow2_pos(kk);
        let e = choose|e: nat| #[trigger] covers(e, live_per_block as nat);
        assert(k * pow2(e) <= usize::MAX);
        assert(pow2(e) <= k * pow2(e)) by (nonlinear_arith)
            requires
                k >= 1,
        ;
        assert(pow2(e) >= live_per_block);
    }
    let block = match checked_next_power_of_two(live_per_block) {
        Some(block) => block,
        None => Dyadic { size: 1, log: 0 },
    };
    assert(covers(block.log as nat, live_per_block as nat));
    let slots: usize = k * block.size;
    let w_log = match exact_log(slots) {
        Some(w_log) => w_log,
        None => {
            proof {
                let kk = choose|kk: nat| k == #[trigger] pow2(kk);
                lemma_pow2_adds(kk, block.log as nat);
                assert(is_dyadic(slots as nat));
            }
            0
        },
    };
    TiledWalkLayout {
        bases,
        live_per_block,
        block_log: block.log,
        block_slots: block.size,
        w_log,
        slots,
    }
}

/// Doubling the number of blocks keeps every base and block and doubles the
/// walk: only the top coordinate is new.
pub proof fn lemma_tiling_doubles(
    one: TiledWalkLayout,
    two: TiledWalkLayout,
    k: nat,
    leg_slots: Seq<usize>,
)
    requires
        one.lays_out(k, leg_slots),
        two.lays_out(2 * k, leg_slots),
    ensures
        one.bases@ == two.bases@,
        one.block_log == two.block_log,
        one.block_slots == two.block_slots,
        two.slots == 2 * one.slots,
        two.w_log == one.w_log + 1,
{
    assert(one.bases@ =~= two.bases@);
    lemma_covers_unique(
        one.block_log as nat,
        two.block_log as nat,
        one.live_per_block as nat,
    );
    assert((2 * k) * one.block_slots == 2 * (k * one.block_slots)) by (nonlinear_arith);
    lemma_pow2_unfold((one.w_log + 1) as nat);
    crate::dyadic::lemma_pow2_injective(two.w_log as nat, (one.w_log + 1) as nat);
}

/// The legs of a block are disjoint and inside the block.
pub proof fn lemma_legs_disjoint(
    layout: TiledWalkLayout,
    k: nat,
    leg_slots: Seq<usize>,
    i: int,
    j: int,
)
    requires
        layout.lays_out(k, leg_slots),
        0 <= i < j < leg_slots.len(),
    ensures
        layout.bases@[i] + leg_slots[i] <= layout.bases@[j],
        layout.bases@[j] + leg_slots[j] <= layout.live_per_block,
        layout.live_per_block <= layout.block_slots,
{
    lemma_prefix_sum_mono(leg_slots, (i + 1) as nat, j as nat);
    lemma_prefix_sum_mono(leg_slots, (j + 1) as nat, leg_slots.len());
}

pub const SELECTED_ZK_REGION_QUERY_LOG: usize = 6;

pub const SELECTED_ZK_REGION_CORE_QUERY_COUNT: usize = 64;

pub const SELECTED_ZK_REGION_WALLET_A_COLUMNS: usize = 6;

pub const SELECTED_ZK_REGION_WALLET_B_COLUMNS: usize = 9;

pub const SELECTED_ZK_REGION_META_B_COLUMNS: usize = 9;

pub const SELECTED_ZK_REGION_MAIN_COLUMNS: usize = 6;

pub const SELECTED_ZK_REGION_META_A_COLUMNS: usize = 8;

pub const SELECTED_ZK_REGION_OWNER_COLUMNS: usize = 6;

pub const SELECTED_ZK_REGION_COMMITTED_COLUMNS: usize = 44;

/// The exact geometry of one selected block class.
#[derive(Clone, Copy, Debug, PartialEq, Eq, Structural)]
pub struct SelectedZkBlockGeometry {
    pub tier: usize,
    pub auth_tiles: usize,
    pub tx_log: usize,
    pub wallet_a_w_log: usize,
    pub wallet_b_w_log: usize,
    pub meta_a_w_log: usize,
    pub meta_b_w_log: usize,
    pub meta_b_block_log: usize,
    pub owner_w_log: usize,
    pub main_w_log: usize,
    pub exact_state_region_log: usize,
    pub spine_cap_log: usize,
    pub touched_capacity: usize,
    pub segment_capacity: usize,
    pub local_updates_per_block: usize,
    pub upper_updates_per_block: usize,
    pub local_base: usize,
    pub upper_base: usize,
    pub tx_root_paths_per_block: usize,
}

/// The six committed column families.
#[derive(Clone, Copy, Debug, PartialEq, Eq, Structural)]
pub enum SelectedZkRegionFamily {
    Main,
    Owner,
    WalletB,
    WalletA,
    MetaA,
    MetaB,
}

impl SelectedZkRegionFamily {
    pub open spec fn rank(self) -> int {
        match self {
            SelectedZkRegionFamily::Main => 0,
            SelectedZkRegionFamily::Owner => 1,
            SelectedZkRegionFamily::WalletB => 2,
            SelectedZkRegionFamily::WalletA => 3,
            SelectedZkRegionFamily::MetaA => 4,
            SelectedZkRegionFamily::MetaB => 5,
        }
    }

    /// The position of the family in declaration order.
    pub fn index(self) -> (r: usize)
        ensures
            r == self.rank(),
    {
        match self {
            SelectedZkRegionFamily::Main => 0,
            SelectedZkRegionFamily::Owner => 1,
            SelectedZkRegionFamily::WalletB => 2,
            SelectedZkRegionFamily::WalletA => 3,
            SelectedZkRegionFamily::MetaA => 4,
            SelectedZkRegionFamily::MetaB => 5,
        }
    }

    /// The column log and the number of columns of the family.
    #[verifier::opaque]
    pub open spec fn shape(self, geometry: SelectedZkBlockGeometry) -> (usize, usize) {
        match self {
            SelectedZkRegionFamily::Main => (geometry.main_w_log, 6),
            SelectedZkRegionFamily::Owner => (geometry.owner_w_log, 6),
            SelectedZkRegionFamily::WalletB => (geometry.wallet_b_w_log, 9),
            SelectedZkRegionFamily::WalletA => (geometry.wallet_a_w_log, 6),
            SelectedZkRegionFamily::MetaA => (geometry.meta_a_w_log, 8),
            SelectedZkRegionFamily::MetaB => (geometry.meta_b_w_log, 9),
        }
    }

    /// The column log and the number of columns of the family.
    pub fn dimensions(self, geometry: SelectedZkBlockGeometry) -> (r: (usize, usize))
        ensures
            r == self.shape(geometry),
            r.1 >= 6,
    {
        reveal(SelectedZkRegionFamily::shape);
        match self {
            SelectedZkRegionFamily::Main => (
                geometry.main_w_log,
                SELECTED_ZK_REGION_MAIN_COLUMNS,
            ),
            SelectedZkRegionFamily::Owner => (
                geometry.owner_w_log,
                SELECTED_ZK_REGION_OWNER_COLUMNS,
            ),
            SelectedZkRegionFamily::WalletB => (
                geometry.wallet_b_w_log,
                SELECTED_ZK_REGION_WALLET_B_COLUMNS,
            ),
            SelectedZkRegionFamily::WalletA => (
                geometry.wallet_a_w_log,
                SELECTED_ZK_REGION_WALLET_A_COLUMNS,
            ),
            SelectedZkRegionFamily::MetaA => (
                geometry.meta_a_w_log,
                SELECTED_ZK_REGION_META_A_COLUMNS,
            ),
            SelectedZkRegionFamily::MetaB => (
                geometry.meta_b_w_log,
                SELECTED_ZK_REGION_META_B_COLUMNS,
            ),
        }
    }
}

/// All six families, each once.
pub open spec fn is_order(s: Seq<SelectedZkRegionFamily>) -> bool {
    &&& s.len() == 6
    &&& forall|i: int, j: int|
        0 <= i < j < 6 ==> (#[trigger] s[i]).rank() != (#[trigger] s[j]).rank()
}

/// `x` is lexicographically before `y`, and they first differ at `d`.
pub open spec fn lex_at(
    x: Seq<SelectedZkRegionFamily>,
    y: Seq<SelectedZkRegionFamily>,
    d: int,
) -> bool {
    &&& 0 <= d < 6
    &&& forall|j: int| 0 <= j < d ==> (#[trigger] x[j]) == y[j]
    &&& x[d].rank() < y[d].rank()
}

/// `x` is lexicographically before `y`.
pub open spec fn lex_less(
    x: Seq<SelectedZkRegionFamily>,
    y: Seq<SelectedZkRegionFamily>,
) -> bool {
    exists|d: int| #[trigger] lex_at(x, y, d)
}

proof fn lemma_rank_eq(x: SelectedZkRegionFamily, y: SelectedZkRegionFamily)
    requires
        x.rank() == y.rank(),
    ensures
        x == y,
{
}

/// Two different orders first differ somewhere.
proof fn lemma_first_difference(
    x: Seq<SelectedZkRegionFamily>,
    y: Seq<SelectedZkRegionFamily>,
    n: int,
) -> (d: int)
    requires
        x.len() == 6,
        y.len() == 6,
        0 <= n < 6,
        x[n] != y[n],
    ensures
        0 <= d <= n,
        x[d] != y[d],
        forall|j: int| 0 <= j < d ==> x[j] == y[j],
    decreases n,
{
    if forall|j: int| 0 <= j < n ==> x[j] == y[j] {
        n
    } else {
        let k = choose|j: int| 0 <= j < n && x[j] != y[j];
        lemma_first_difference(x, y, k)
    }
}

/// Orders are totally ordered.
pub proof fn lemma_lex_total(x: Seq<SelectedZkRegionFamily>, y: Seq<SelectedZkRegionFamily>)
    requires
        x.len() == 6,
        y.len() == 6,
    ensures
        x == y || lex_less(x, y) || lex_less(y, x),
{
    if x != y {
        assert(exists|n: int| 0 <= n < 6 && x[n] != y[n]) by {
            if forall|n: int| 0 <= n < 6 ==> x[n] == y[n] {
                assert(x =~= y);
            }
        }
        let n = choose|n: int| 0 <= n < 6 && x[n] != y[n];
        let d = lemma_first_difference(x, y, n);
        if x[d].rank() == y[d].rank() {
            lemma_rank_eq(x[d], y[d]);
        }
        if x[d].rank() < y[d].rank() {
            assert(lex_at(x, y, d));
        } else {
            assert(lex_at(y, x, d));
        }
    }
}

/// No order is before itself, and the order relation is asymmetric.
pub proof fn lemma_lex_asymmetric(x: Seq<SelectedZkRegionFamily>, y: Seq<SelectedZkRegionFamily>)
    requires
        lex_less(x, y),
    ensures
        x != y,
        !lex_less(y, x),
{
    let d = choose|d: int| #[trigger] lex_at(x, y, d);
    if lex_less(y, x) {
        let e = choose|e: int| #[trigger] lex_at(y, x, e);
        if d < e {
            assert(y[d] == x[d]);
        } else if e < d {
            assert(x[e] == y[e]);
        }
    }
}

/// Every family occurs in an order.
pub proof fn lemma_order_onto(s: Seq<SelectedZkRegionFamily>, f: SelectedZkRegionFamily) -> (i: int)
    requires
        is_order(s),
    ensures
        0 <= i < 6,
        s[i] == f,
{
    // Six different ranks below six are all ranks below six.
    assert(s[0].rank() != s[1].rank() && s[0].rank() != s[2].rank() && s[0].rank() != s[3].rank()
        && s[0].rank() != s[4].rank() && s[0].rank() != s[5].rank());
    assert(s[1].rank() != s[2].rank() && s[1].rank() != s[3].rank() && s[1].rank() != s[4].rank()
        && s[1].rank() != s[5].rank());
    assert(s[2].rank() != s[3].rank() && s[2].rank() != s[4].rank() && s[2].rank() != s[5].rank());
    assert(s[3].rank() != s[4].rank() && s[3].rank() != s[5].rank());
    assert(s[4].rank() != s[5].rank());
    let i = if s[0] == f {
        0int
    } else if s[1] == f {
        1
    } else if s[2] == f {
        2
    } else if s[3] == f {
        3
    } else if s[4] == f {
        4
    } else {
        5
    };
    i
}

/// A later position of one order holds a family that the other order has not
/// used before that position either.
proof fn lemma_unused(
    x: Seq<SelectedZkRegionFamily>,
    p: Seq<SelectedZkRegionFamily>,
    d: int,
) -> (e: int)
    requires
        is_order(x),
        is_order(p),
        0 <= d < 6,
        forall|j: int| 0 <= j < d ==> x[j] == p[j],
    ensures
        d <= e < 6,
        x[e] == p[d],
{
    let e = lemma_order_onto(x, p[d]);
    if e < d {
        assert(x[e] == p[e]);
        assert(p[e].rank() != p[d].rank());
    }
    e
}

/// How often a family occurs among the first `n` entries.
pub open spec fn occurrences(
    s: Seq<SelectedZkRegionFamily>,
    f: SelectedZkRegionFamily,
    n: nat,
) -> nat
    decreases n,
{
    if n == 0 {
        0
    } else {
        occurrences(s, f, (n - 1) as nat) + if s[n - 1] == f {
            1nat
        } else {
            0
        }
    }
}

/// Six entries each, and every family as often in one as in the other.
pub open spec fn rearranged(
    x: Seq<SelectedZkRegionFamily>,
    p: Seq<SelectedZkRegionFamily>,
) -> bool {
    &&& x.len() == 6
    &&& p.len() == 6
    &&& forall|f: SelectedZkRegionFamily| #[trigger] occurrences(x, f, 6) == occurrences(p, f, 6)
}

proof fn lemma_occurrences_prefix(
    x: Seq<SelectedZkRegionFamily>,
    p: Seq<SelectedZkRegionFamily>,
    f: SelectedZkRegionFamily,
    n: nat,
)
    requires
        forall|j: int| 0 <= j < n ==> x[j] == p[j],
    ensures
        occurrences(x, f, n) == occurrences(p, f, n),
    decreases n,
{
    if n > 0 {
        lemma_occurrences_prefix(x, p, f, (n - 1) as nat);
    }
}

proof fn lemma_occurs_between(
    x: Seq<SelectedZkRegionFamily>,
    f: SelectedZkRegionFamily,
    d: nat,
    n: nat,
) -> (e: int)
    requires
        d <= n,
        occurrences(x, f, d) < occurrences(x, f, n),
    ensures
        d <= e < n,
        x[e] == f,
    decreases n,
{
    if x[n - 1] == f {
        n - 1
    } else {
        lemma_occurs_between(x, f, d, (n - 1) as nat)
    }
}

proof fn lemma_occurrences_mono(
    x: Seq<SelectedZkRegionFamily>,
    f: SelectedZkRegionFamily,
    d: nat,
    n: nat,
)
    requires
        d <= n,
    ensures
        occurrences(x, f, d) <= occurrences(x, f, n),
    decreases n,
{
    if d < n {
        lemma_occurrences_mono(x, f, d, (n - 1) as nat);
    }
}

/// After a common start, the next entry of one list occurs in the rest of the
/// other.
proof fn lemma_rest(
    x: Seq<SelectedZkRegionFamily>,
    p: Seq<SelectedZkRegionFamily>,
    d: int,
) -> (e: int)
    requires
        rearranged(x, p),
        0 <= d < 6,
        forall|j: int| 0 <= j < d ==> x[j] == p[j],
    ensures
        d <= e < 6,
        x[e] == p[d],
{
    let f = p[d];
    lemma_occurrences_prefix(x, p, f, d as nat);
    lemma_occurrences_mono(p, f, (d + 1) as nat, 6);
    assert(occurrences(p, f, (d + 1) as nat) == occurrences(p, f, d as nat) + 1);
    assert(occurrences(x, f, 6) == occurrences(p, f, 6));
    lemma_occurs_between(x, f, d as nat, 6)
}

/// How an occurrence count changes with one entry.
proof fn lemma_occurrences_update(
    s: Seq<SelectedZkRegionFamily>,
    f: SelectedZkRegionFamily,
    i: int,
    v: SelectedZkRegionFamily,
    n: nat,
)
    requires
        0 <= i < s.len(),
        n <= s.len(),
    ensures
        occurrences(s.update(i, v), f, n) + (if i < n && s[i] == f {
            1int
        } else {
            0
        }) == occurrences(s, f, n) + (if i < n && v == f {
            1int
        } else {
            0
        }),
    decreases n,
{
    if n > 0 {
        lemma_occurrences_update(s, f, i, v, (n - 1) as nat);
    }
}

/// Exchanging two entries rearranges a list.
proof fn lemma_exchange(s: Seq<SelectedZkRegionFamily>, i: int, j: int)
    requires
        s.len() == 6,
        0 <= i < 6,
        0 <= j < 6,
    ensures
        rearranged(s, s.update(i, s[j]).update(j, s[i])),
{
    let t = s.update(i, s[j]);
    assert forall|f: SelectedZkRegionFamily| #[trigger] occurrences(s, f, 6) == occurrences(
        t.update(j, s[i]),
        f,
        6,
    ) by {
        lemma_occurrences_update(s, f, i, s[j], 6);
        lemma_occurrences_update(t, f, j, s[i], 6);
    }
}

/// All orders of the six families are rearrangements of each other.
pub proof fn lemma_orders_rearranged(
    x: Seq<SelectedZkRegionFamily>,
    p: Seq<SelectedZkRegionFamily>,
)
    requires
        is_order(x),
    ensures
        is_order(p) <==> rearranged(x, p),
{
    assert forall|f: SelectedZkRegionFamily| #[trigger] occurrences(x, f, 6) == 1 by {
        lemma_once(x, f);
    }
    if is_order(p) {
        assert forall|f: SelectedZkRegionFamily| #[trigger] occurrences(x, f, 6) == occurrences(
            p,
            f,
            6,
        ) by {
            lemma_once(p, f);
        }
    }
    if rearranged(x, p) {
        assert forall|i: int, j: int| 0 <= i < j < 6 implies (#[trigger] p[i]).rank() != (
        #[trigger] p[j]).rank() by {
            if p[i].rank() == p[j].rank() {
                lemma_rank_eq(p[i], p[j]);
                assert(occurrences(x, p[i], 6) == 1);
                lemma_occurrences_mono(p, p[i], (j + 1) as nat, 6);
                lemma_occurrences_mono(p, p[i], (i + 1) as nat, j as nat);
                assert(occurrences(p, p[i], (j + 1) as nat) == occurrences(p, p[i], j as nat) + 1);
                assert(occurrences(p, p[i], (i + 1) as nat) == occurrences(p, p[i], i as nat) + 1);
            }
        }
    }
}

/// Every family occurs once in an order.
proof fn lemma_once(s: Seq<SelectedZkRegionFamily>, f: SelectedZkRegionFamily)
    requires
        is_order(s),
    ensures
        occurrences(s, f, 6) == 1,
{
    let i = lemma_order_onto(s, f);
    assert forall|j: int| 0 <= j < 6 && j != i implies s[j] != f by {
        if j < i {
            assert(s[j].rank() != s[i].rank());
        } else {
            assert(s[i].rank() != s[j].rank());
        }
    }
    reveal_with_fuel(occurrences, 7);
}

/// The entries after `i` do not ascend.
pub open spec fn descending_after(s: Seq<SelectedZkRegionFamily>, i: int) -> bool {
    forall|j: int, k: int| i < j < k < 6 ==> (#[trigger] s[j]).rank() >= (#[trigger] s[k]).rank()
}

/// Nothing comes after a list that nowhere ascends.
proof fn lemma_last_order(x: Seq<SelectedZkRegionFamily>, p: Seq<SelectedZkRegionFamily>)
    requires
        rearranged(x, p),
        descending_after(x, -1),
    ensures
        !lex_less(x, p),
{
    if lex_less(x, p) {
        let d = choose|d: int| #[trigger] lex_at(x, p, d);
        let e = lemma_rest(x, p, d);
        if e > d {
            assert(x[d].rank() >= x[e].rank());
        }
    }
}

/// The successor is the least rearrangement after `x`.
proof fn lemma_successor(
    x: Seq<SelectedZkRegionFamily>,
    y: Seq<SelectedZkRegionFamily>,
    pivot: int,
    successor: int,
    p: Seq<SelectedZkRegionFamily>,
)
    requires
        rearranged(x, y),
        rearranged(x, p),
        0 <= pivot < successor < 6,
        descending_after(x, pivot),
        x[pivot].rank() < x[successor].rank(),
        forall|j: int| successor < j < 6 ==> (#[trigger] x[j]).rank() <= x[pivot].rank(),
        forall|j: int| 0 <= j < pivot ==> (#[trigger] y[j]) == x[j],
        y[pivot] == x[successor],
        forall|j: int, k: int|
            pivot < j < k < 6 ==> (#[trigger] y[j]).rank() <= (#[trigger] y[k]).rank(),
        lex_less(x, p),
    ensures
        p == y || lex_less(y, p),
{
    let d = choose|d: int| #[trigger] lex_at(x, p, d);
    if d < pivot {
        assert(lex_at(y, p, d));
    } else if d > pivot {
        let e = lemma_rest(x, p, d);
        if e > d {
            assert(x[d].rank() >= x[e].rank());
        }
    } else {
        let e = lemma_rest(x, p, d);
        assert(e > pivot);
        // The family of `p` at the pivot is one of the tail above the pivot.
        if e > successor {
            assert(x[e].rank() <= x[pivot].rank());
        }
        if e < successor {
            assert(x[e].rank() >= x[successor].rank());
        }
        if p[pivot].rank() > y[pivot].rank() {
            assert(lex_at(y, p, pivot));
        } else {
            lemma_rank_eq(p[pivot], y[pivot]);
            if p != y {
                lemma_lex_total(y, p);
                if lex_less(p, y) {
                    let f = choose|f: int| #[trigger] lex_at(p, y, f);
                    if f < pivot {
                        assert(p[f] == x[f]);
                        assert(y[f] == x[f]);
                    } else if f > pivot {
                        assert(rearranged(y, p)) by {
                            assert forall|g: SelectedZkRegionFamily| #[trigger]
                                occurrences(y, g, 6) == occurrences(p, g, 6) by {
                                assert(occurrences(x, g, 6) == occurrences(y, g, 6));
                            }
                        }
                        let g = lemma_rest(y, p, f);
                        if g > f {
                            assert(y[f].rank() <= y[g].rank());
                        }
                    }
                }
            }
        }
    }
}

/// Replaces a list of six families by its next rearrangement in lexicographic
/// order; families may repeat. A list that nowhere ascends is the last one and
/// is left as it is.
pub fn next_selected_family_permutation(order: &mut Vec<SelectedZkRegionFamily>) -> (r: bool)
    requires
        old(order)@.len() == 6,
    ensures
        rearranged(old(order)@, final(order)@),
        r <==> !descending_after(old(order)@, -1),
        !r ==> final(order)@ == old(order)@ && forall|p: Seq<SelectedZkRegionFamily>| #[trigger]
            rearranged(old(order)@, p) ==> !lex_less(old(order)@, p),
        r ==> lex_less(old(order)@, final(order)@) && forall|p: Seq<SelectedZkRegionFamily>|
            #[trigger] rearranged(old(order)@, p) && lex_less(old(order)@, p) ==> p
                == final(order)@ || lex_less(final(order)@, p),
{
    let ghost x = order@;
    let mut i: usize = 5;
    while i > 0 && order[i - 1].index() >= order[i].index()
        invariant
            i <= 5,
            order@ == x,
            x.len() == 6,
            descending_after(x, i - 1),
        decreases i,
    {
        proof {
            assert forall|j: int, k: int| i - 2 < j < k < 6 implies (#[trigger] x[j]).rank() >= (
            #[trigger] x[k]).rank() by {
                if j == i - 1 && k > i {
                    assert(x[i as int].rank() >= x[k].rank());
                }
            }
        }
        i = i - 1;
    }
    if i == 0 {
        proof {
            assert forall|p: Seq<SelectedZkRegionFamily>| #[trigger] rearranged(
                x,
                p,
            ) implies !lex_less(x, p) by {
                lemma_last_order(x, p);
            }
        }
        return false;
    }
    let pivot: usize = i - 1;
    let mut successor: usize = 5;
    while order[pivot].index() >= order[successor].index()
        invariant
            pivot < successor <= 5,
            i == pivot + 1,
            order@ == x,
            x.len() == 6,
            x[pivot as int].rank() < x[i as int].rank(),
            forall|j: int| successor < j < 6 ==> (#[trigger] x[j]).rank() <= x[pivot as int].rank(),
        decreases successor,
    {
        successor = successor - 1;
    }
    let moved = order[successor];
    let kept = order[pivot];
    order.set(pivot, moved);
    order.set(successor, kept);
    let ghost swapped = order@;
    proof {
        lemma_exchange(x, pivot as int, successor as int);
    }
    let mut lo: usize = pivot + 1;
    let mut hi: usize = 5;
    while lo < hi
        invariant
            pivot < lo <= 6,
            hi <= 5,
            lo + hi == pivot + 6,
            order@.len() == 6,
            swapped.len() == 6,
            rearranged(x, order@),
            forall|j: int| 0 <= j < 6 && !(pivot < j && (j < lo || j > hi)) ==> (#[trigger] order@[j])
                == swapped[j],
            forall|j: int|
                pivot < j < 6 && (j < lo || j > hi) ==> (#[trigger] order@[j])
                    == swapped[pivot + 6 - j],
        decreases 6 - lo,
    {
        let ghost held = order@;
        let left = order[lo];
        let right = order[hi];
        order.set(lo, right);
        order.set(hi, left);
        proof {
            lemma_exchange(held, lo as int, hi as int);
            assert forall|f: SelectedZkRegionFamily| #[trigger] occurrences(x, f, 6)
                == occurrences(order@, f, 6) by {
                assert(occurrences(x, f, 6) == occurrences(held, f, 6));
                assert(occurrences(held, f, 6) == occurrences(order@, f, 6));
            }
        }
        lo = lo + 1;
        hi = hi - 1;
    }
    proof {
        let y = order@;
        let pv = pivot as int;
        let sc = successor as int;
        assert forall|j: int| pv < j < 6 implies (#[trigger] y[j]) == swapped[pv + 6 - j] by {
            if !(j < lo || j > hi) {
                assert(lo == hi && j == lo);
            }
        }
        // The swapped tail still does not ascend: the kept family takes the
        // place of the least one above it.
        assert forall|j: int, k: int| pv < j < k < 6 implies (#[trigger] swapped[j]).rank() >= (
        #[trigger] swapped[k]).rank() by {
            assert(x[j].rank() >= x[k].rank());
            if j == sc {
                assert(x[k].rank() <= x[pv].rank());
            }
            if k == sc {
                assert(x[j].rank() >= x[sc].rank());
            }
        }
        assert forall|j: int, k: int| pv < j < k < 6 implies (#[trigger] y[j]).rank() <= (
        #[trigger] y[k]).rank() by {
            assert(swapped[pv + 6 - k].rank() >= swapped[pv + 6 - j].rank());
        }
        assert forall|j: int| 0 <= j < pv implies (#[trigger] y[j]) == x[j] by {}
        assert(y[pv] == x[sc]);
        assert(lex_at(x, y, pv));
        assert(!descending_after(x, -1)) by {
            assert(x[pv].rank() < x[pv + 1].rank());
        }
        assert forall|p: Seq<SelectedZkRegionFamily>| #[trigger]
            rearranged(x, p) && lex_less(x, p) implies p == y || lex_less(y, p) by {
            lemma_successor(x, y, pv, sc, p);
        }
    }
    true
}

/// The next multiple of `width` at or above `cursor`.
#[verifier::opaque]
pub open spec fn align_up(cursor: nat, width: nat) -> nat {
    if cursor % width == 0 {
        cursor
    } else {
        (cursor + width - cursor % width) as nat
    }
}

/// Where allocation ends after the first `n` families of an order.
pub open spec fn cursor_after(
    order: Seq<SelectedZkRegionFamily>,
    geometry: SelectedZkBlockGeometry,
    before: nat,
    n: nat,
) -> nat
    decreases n,
{
    if n == 0 {
        before
    } else {
        let shape = order[n - 1].shape(geometry);
        let width = pow2(shape.0 as nat);
        align_up(cursor_after(order, geometry, before, (n - 1) as nat), width) + shape.1 as nat
            * width
    }
}

/// Where the family at position `n` of an order starts.
pub open spec fn start_at(
    order: Seq<SelectedZkRegionFamily>,
    geometry: SelectedZkBlockGeometry,
    before: nat,
    n: int,
) -> nat {
    align_up(
        cursor_after(order, geometry, before, n as nat),
        pow2(order[n].shape(geometry).0 as nat),
    )
}

/// Rounds up to a multiple, or nothing if it does not fit.
pub fn checked_next_multiple_of(cursor: usize, width: usize) -> (r: Option<usize>)
    requires
        width > 0,
    ensures
        r matches Some(v) ==> v == align_up(cursor as nat, width as nat),
        r is None <==> align_up(cursor as nat, width as nat) > usize::MAX,
{
    proof {
        reveal(align_up);
    }
    let rest: usize = cursor % width;
    if rest == 0 {
        Some(cursor)
    } else {
        cursor.checked_add(width - rest)
    }
}

pub proof fn lemma_align(cursor: nat, width: nat)
    requires
        width > 0,
    ensures
        align_up(cursor, width) >= cursor,
        align_up(cursor, width) % width == 0,
        align_up(cursor, width) < cursor + width,
        cursor % width == 0 ==> align_up(cursor, width) == cursor,
{
    reveal(align_up);
    let r = cursor % width;
    vstd::arithmetic::div_mod::lemma_fundamental_div_mod(cursor as int, width as int);
    vstd::arithmetic::div_mod::lemma_mod_bound(cursor as int, width as int);
    if r != 0 {
        let q = cursor as int / width as int;
        assert(cursor + width - r == width * (q + 1)) by (nonlinear_arith)
            requires
                cursor == width * q + r,
        ;
        vstd::arithmetic::div_mod::lemma_mod_multiples_basic(q + 1, width as int);
        assert(width * (q + 1) == (q + 1) * width) by (nonlinear_arith);
    }
}

pub proof fn lemma_cursor_mono(
    order: Seq<SelectedZkRegionFamily>,
    geometry: SelectedZkBlockGeometry,
    before: nat,
    m: nat,
    n: nat,
)
    requires
        m <= n <= 6,
        order.len() == 6,
    ensures
        cursor_after(order, geometry, before, m) <= cursor_after(order, geometry, before, n),
    decreases n,
{
    if m < n {
        lemma_cursor_mono(order, geometry, before, m, (n - 1) as nat);
        let shape = order[n - 1].shape(geometry);
        lemma_pow2_pos(shape.0 as nat);
        lemma_align(
            cursor_after(order, geometry, before, (n - 1) as nat),
            pow2(shape.0 as nat),
        );
        assert(shape.1 as nat * pow2(shape.0 as nat) >= 0) by (nonlinear_arith);
    }
}

/// Lays one order out from a starting cursor: the start of every family, by
/// family rank, and the end.
#[verifier::spinoff_prover]
#[verifier::rlimit(60)]
fn lay_out(
    order: &Vec<SelectedZkRegionFamily>,
    geometry: SelectedZkBlockGeometry,
    before: usize,
) -> (r: (Vec<usize>, usize))
    requires
        is_order(order@),
        cursor_after(order@, geometry, before as nat, 6) < usize::MAX,
    ensures
        r.0@.len() == 6,
        r.1 == cursor_after(order@, geometry, before as nat, 6),
        forall|n: int|
            0 <= n < 6 ==> r.0@[(#[trigger] order@[n]).rank()] == start_at(
                order@,
                geometry,
                before as nat,
                n,
            ),
{
    let mut starts: Vec<usize> = Vec::new();
    starts.push(0);
    starts.push(0);
    starts.push(0);
    starts.push(0);
    starts.push(0);
    starts.push(0);
    let mut cursor: usize = before;
    let mut n: usize = 0;
    while n < 6
        invariant
            n <= 6,
            is_order(order@),
            cursor_after(order@, geometry, before as nat, 6) < usize::MAX,
            cursor == cursor_after(order@, geometry, before as nat, n as nat),
            starts@.len() == 6,
            forall|k: int|
                0 <= k < n ==> starts@[(#[trigger] order@[k]).rank()] == start_at(
                    order@,
                    geometry,
                    before as nat,
                    k,
                ),
        decreases 6 - n,
    {
        let family = order[n];
        let (w_log, columns) = family.dimensions(geometry);
        let ghost width_spec = pow2(w_log as nat);
        proof {
            lemma_cursor_mono(order@, geometry, before as nat, (n + 1) as nat, 6);
            lemma_pow2_pos(w_log as nat);
            lemma_align(cursor as nat, width_spec);
            assert(columns * width_spec >= width_spec) by (nonlinear_arith)
                requires
                    columns >= 6,
            ;
            assert(cursor_after(order@, geometry, before as nat, (n + 1) as nat) == align_up(
                cursor as nat,
                width_spec,
            ) + columns as nat * width_spec);
        }
        let width = power_of_two(w_log);
        let start = match checked_next_multiple_of(cursor, width) {
            Some(start) => start,
            None => 0,
        };
        let span: usize = columns * width;
        let ghost starts0 = starts@;
        let rank = family.index();
        starts.set(rank, start);
        cursor = start + span;
        proof {
            assert forall|k: int| 0 <= k < n + 1 implies starts@[(#[trigger] order@[k]).rank()]
                == start_at(order@, geometry, before as nat, k) by {
                if k < n {
                    assert(order@[k].rank() != order@[n as int].rank());
                    assert(starts@[order@[k].rank()] == starts0[order@[k].rank()]);
                }
            }
        }
        n = n + 1;
    }
    (starts, cursor)
}

/// The allocation of the six families: the order, every start and the end.
#[derive(Clone, Debug, PartialEq, Eq)]
pub struct SelectedZkRegionAllocationLedger {
    pub before: usize,
    pub order: Vec<SelectedZkRegionFamily>,
    pub main: usize,
    pub owner: usize,
    pub wallet_b: usize,
    pub wallet_a: usize,
    pub meta_a: usize,
    pub meta_b: usize,
    pub after: usize,
}

/// Digits of an order, for counting.
spec fn order_code(s: Seq<SelectedZkRegionFamily>) -> int {
    s[0].rank() * 7776 + s[1].rank() * 1296 + s[2].rank() * 216 + s[3].rank() * 36 + s[4].rank() * 6
        + s[5].rank()
}

proof fn lemma_order_code(x: Seq<SelectedZkRegionFamily>, y: Seq<SelectedZkRegionFamily>)
    requires
        lex_less(x, y),
    ensures
        order_code(x) < order_code(y) < 46656,
{
    let d = choose|d: int| #[trigger] lex_at(x, y, d);
    if d > 0 {
        assert(x[0] == y[0]);
    }
    if d > 1 {
        assert(x[1] == y[1]);
    }
    if d > 2 {
        assert(x[2] == y[2]);
    }
    if d > 3 {
        assert(x[3] == y[3]);
    }
    if d > 4 {
        assert(x[4] == y[4]);
    }
}

/// The ascending order comes first.
proof fn lemma_first_order(x: Seq<SelectedZkRegionFamily>, p: Seq<SelectedZkRegionFamily>)
    requires
        is_order(x),
        is_order(p),
        forall|i: int| 0 <= i < 6 ==> (#[trigger] x[i]).rank() == i,
    ensures
        !lex_less(p, x),
{
    if lex_less(p, x) {
        let d = choose|d: int| #[trigger] lex_at(p, x, d);
        assert forall|j: int| 0 <= j < d implies x[j] == p[j] by {
            assert(p[j] == x[j]);
        }
        let e = lemma_unused(x, p, d);
        assert(x[e].rank() == e && x[d].rank() == d);
    }
}

impl SelectedZkRegionAllocationLedger {
    /// The start of one family.
    pub open spec fn start_of(&self, family: SelectedZkRegionFamily) -> nat {
        match family {
            SelectedZkRegionFamily::Main => self.main as nat,
            SelectedZkRegionFamily::Owner => self.owner as nat,
            SelectedZkRegionFamily::WalletB => self.wallet_b as nat,
            SelectedZkRegionFamily::WalletA => self.wallet_a as nat,
            SelectedZkRegionFamily::MetaA => self.meta_a as nat,
            SelectedZkRegionFamily::MetaB => self.meta_b as nat,
        }
    }

    /// The allocation of one order.
    pub open spec fn allocates(&self, geometry: SelectedZkBlockGeometry) -> bool {
        &&& is_order(self.order@)
        &&& self.after == cursor_after(self.order@, geometry, self.before as nat, 6)
        &&& forall|n: int|
            0 <= n < 6 ==> self.start_of(#[trigger] self.order@[n]) == start_at(
                self.order@,
                geometry,
                self.before as nat,
                n,
            )
    }

    /// The allocation that ends first; among those, the first order.
    #[verifier::spinoff_prover]
    #[verifier::rlimit(60)]
    pub fn new(before: usize, geometry: SelectedZkBlockGeometry) -> (r: Self)
        requires
            forall|p: Seq<SelectedZkRegionFamily>| #[trigger]
                is_order(p) ==> cursor_after(p, geometry, before as nat, 6) < usize::MAX,
        ensures
            r.before == before,
            r.allocates(geometry),
            forall|p: Seq<SelectedZkRegionFamily>| #[trigger]
                is_order(p) ==> r.after <= cursor_after(p, geometry, before as nat, 6),
            forall|p: Seq<SelectedZkRegionFamily>| #[trigger]
                is_order(p) && lex_less(p, r.order@) ==> r.after < cursor_after(
                    p,
                    geometry,
                    before as nat,
                    6,
                ),
    {
        let mut candidate: Vec<SelectedZkRegionFamily> = Vec::new();
        candidate.push(SelectedZkRegionFamily::Main);
        candidate.push(SelectedZkRegionFamily::Owner);
        candidate.push(SelectedZkRegionFamily::WalletB);
        candidate.push(SelectedZkRegionFamily::WalletA);
        candidate.push(SelectedZkRegionFamily::MetaA);
        candidate.push(SelectedZkRegionFamily::MetaB);
        assert(is_order(candidate@));
        let (mut best_starts, mut best_after) = lay_out(&candidate, geometry, before);
        let mut best_order = copy_order(&candidate);
        let mut done = false;
        proof {
            assert forall|p: Seq<SelectedZkRegionFamily>| #[trigger] is_order(p) implies !lex_less(
                p,
                candidate@,
            ) && (p == candidate@ || lex_less(candidate@, p)) by {
                lemma_first_order(candidate@, p);
                lemma_lex_total(candidate@, p);
            }
        }
        while !done
            invariant
                forall|p: Seq<SelectedZkRegionFamily>| #[trigger]
                    is_order(p) ==> cursor_after(p, geometry, before as nat, 6) < usize::MAX,
                is_order(candidate@),
                is_order(best_order@),
                best_starts@.len() == 6,
                best_after == cursor_after(best_order@, geometry, before as nat, 6),
                forall|n: int|
                    0 <= n < 6 ==> best_starts@[(#[trigger] best_order@[n]).rank()] == start_at(
                        best_order@,
                        geometry,
                        before as nat,
                        n,
                    ),
                forall|p: Seq<SelectedZkRegionFamily>| #[trigger]
                    is_order(p) && !lex_less(candidate@, p) ==> best_after <= cursor_after(
                        p,
                        geometry,
                        before as nat,
                        6,
                    ),
                forall|p: Seq<SelectedZkRegionFamily>| #[trigger]
                    is_order(p) && lex_less(p, best_order@) ==> best_after < cursor_after(
                        p,
                        geometry,
                        before as nat,
                        6,
                    ),
                best_order@ == candidate@ || lex_less(best_order@, candidate@),
                done ==> forall|p: Seq<SelectedZkRegionFamily>| #[trigger]
                    is_order(p) ==> !lex_less(candidate@, p),
            decreases 46656 - order_code(candidate@), (if done {
                    0int
                } else {
                    1
                }),
        {
            let ghost previous = candidate@;
            let advanced = next_selected_family_permutation(&mut candidate);
            proof {
                lemma_orders_rearranged(previous, candidate@);
                assert forall|p: Seq<SelectedZkRegionFamily>| #[trigger] is_order(p) implies (
                advanced || !lex_less(previous, p)) && (lex_less(previous, p) ==> p == candidate@
                    || lex_less(candidate@, p)) by {
                    lemma_orders_rearranged(previous, p);
                    assert(rearranged(previous, p));
                }
            }
            if !advanced {
                done = true;
            } else {
                proof {
                    lemma_order_code(previous, candidate@);
                }
                let (starts, end) = lay_out(&candidate, geometry, before);
                proof {
                    assert forall|p: Seq<SelectedZkRegionFamily>|
                        is_order(p) && #[trigger] lex_less(p, candidate@) implies !lex_less(
                        previous,
                        p,
                    ) by {
                        if lex_less(previous, p) {
                            lemma_lex_asymmetric(p, candidate@);
                        }
                    }
                    if lex_less(best_order@, previous) {
                        lemma_lex_transitive(best_order@, previous, candidate@);
                    }
                    assert forall|p: Seq<SelectedZkRegionFamily>| #[trigger]
                        is_order(p) && !lex_less(candidate@, p) implies p == candidate@
                        || !lex_less(previous, p) by {}
                }
                if end < best_after {
                    proof {
                        assert forall|p: Seq<SelectedZkRegionFamily>| #[trigger]
                            is_order(p) && lex_less(p, candidate@) implies end < cursor_after(
                            p,
                            geometry,
                            before as nat,
                            6,
                        ) by {
                            assert(!lex_less(previous, p));
                        }
                    }
                    best_order = copy_order(&candidate);
                    best_starts = starts;
                    best_after = end;
                }
            }
        }
        let r = SelectedZkRegionAllocationLedger {
            before,
            order: best_order,
            main: best_starts[0],
            owner: best_starts[1],
            wallet_b: best_starts[2],
            wallet_a: best_starts[3],
            meta_a: best_starts[4],
            meta_b: best_starts[5],
            after: best_after,
        };
        assert forall|n: int| 0 <= n < 6 implies r.start_of(#[trigger] r.order@[n]) == start_at(
            r.order@,
            geometry,
            before as nat,
            n,
        ) by {
            assert(best_starts@[best_order@[n].rank()] == start_at(
                best_order@,
                geometry,
                before as nat,
                n,
            ));
        }
        r
    }
}

proof fn lemma_lex_transitive(
    x: Seq<SelectedZkRegionFamily>,
    y: Seq<SelectedZkRegionFamily>,
    z: Seq<SelectedZkRegionFamily>,
)
    requires
        lex_less(x, y),
        lex_less(y, z),
    ensures
        lex_less(x, z),
{
    let d = choose|d: int| #[trigger] lex_at(x, y, d);
    let e = choose|e: int| #[trigger] lex_at(y, z, e);
    let f = if d < e {
        d
    } else {
        e
    };
    assert forall|j: int| 0 <= j < f implies (#[trigger] x[j]) == z[j] by {
        assert(x[j] == y[j]);
        assert(y[j] == z[j]);
    }
    if d < e {
        assert(y[d] == z[d]);
    }
    if e < d {
        assert(x[e] == y[e]);
    }
    assert(lex_at(x, z, f));
}

fn copy_order(order: &Vec<SelectedZkRegionFamily>) -> (r: Vec<SelectedZkRegionFamily>)
    ensures
        r@ == order@,
{
    let mut r: Vec<SelectedZkRegionFamily> = Vec::new();
    let mut i: usize = 0;
    while i < order.len()
        invariant
            i <= order@.len(),
            r@ == order@.take(i as int),
        decreases order@.len() - i,
    {
        r.push(order[i]);
        i = i + 1;
        assert(r@ == order@.take(i as int));
    }
    assert(r@ == order@);
    r
}

/// The columns of the six families do not overlap: each family starts at a
/// multiple of its width, after everything before it in the order.
pub proof fn lemma_families_disjoint(
    ledger: SelectedZkRegionAllocationLedger,
    geometry: SelectedZkBlockGeometry,
    m: int,
    n: int,
)
    requires
        ledger.allocates(geometry),
        0 <= m < n < 6,
    ensures
        ({
            let f = ledger.order@[m];
            let g = ledger.order@[n];
            &&& ledger.before <= ledger.start_of(f)
            &&& ledger.start_of(f) % pow2(f.shape(geometry).0 as nat) == 0
            &&& ledger.start_of(f) + f.shape(geometry).1 as nat * pow2(f.shape(geometry).0 as nat)
                <= ledger.start_of(g)
            &&& ledger.start_of(g) + g.shape(geometry).1 as nat * pow2(g.shape(geometry).0 as nat)
                <= ledger.after
        }),
{
    let order = ledger.order@;
    let before = ledger.before as nat;
    let f = order[m];
    let g = order[n];
    lemma_pow2_pos(f.shape(geometry).0 as nat);
    lemma_pow2_pos(g.shape(geometry).0 as nat);
    lemma_cursor_mono(order, geometry, before, 0, m as nat);
    lemma_cursor_mono(order, geometry, before, (m + 1) as nat, n as nat);
    lemma_cursor_mono(order, geometry, before, (n + 1) as nat, 6);
    lemma_align(
        cursor_after(order, geometry, before, m as nat),
        pow2(f.shape(geometry).0 as nat),
    );
    lemma_align(
        cursor_after(order, geometry, before, n as nat),
        pow2(g.shape(geometry).0 as nat),
    );
}

} // verus!
