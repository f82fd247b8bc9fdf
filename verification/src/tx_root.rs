//! The transaction-root paths of the second metadata walk: their witnesses,
//! their statement and the pins of their directions and padding rim.
use crate::circuit::{const_form, LinExpr};
use crate::columns::{pin_view, pin_views, push_pin, CellPin, PinView};
use crate::field::F128;
use crate::meta_pins::{DigestPair, WirePair};
use crate::meta_region::{family_slot, lemma_family_slots, MetaGeometry};
use vstd::arithmetic::power2::{lemma_pow2_unfold, pow2};
use vstd::prelude::*;

verus! {

/// The paths of all transactions to the root of the transaction tree. Path
/// `j` belongs to leaf `j`; `rim` holds the zero-subtree digest of every
/// level, or nothing when the tree is full.
pub struct TxRootRegionData {
    pub depth: usize,
    pub root_w: WirePair,
    pub root: DigestPair,
    pub paths: Vec<TxRootPathRegion>,
    pub rim: Vec<DigestPair>,
}

/// One transaction's path: its entry wires and values, and its siblings.
pub struct TxRootPathRegion {
    pub entry_w: WirePair,
    pub entry: DigestPair,
    pub siblings: Vec<DigestPair>,
}

impl TxRootRegionData {
    pub open spec fn wf(&self) -> bool {
        &&& self.depth > 0
        &&& self.paths@.len() > 0
        &&& (self.rim@.len() == 0 || self.rim@.len() == self.depth)
        &&& forall|j: int|
            0 <= j < self.paths@.len() ==> (#[trigger] self.paths@[j]).siblings@.len()
                == self.depth
    }
}

/// What a path's columns are built from.
pub struct MerklePathWitness {
    pub entry: DigestPair,
    pub siblings: Vec<DigestPair>,
    pub directions: Vec<bool>,
}

/// Bit `level` of a leaf index.
pub open spec fn index_bit(j: int, level: int) -> bool {
    (j / pow2(level as nat) as int) % 2 == 1
}

/// The low `depth` bits of a leaf index.
pub fn index_bits(j: usize, depth: usize) -> (r: Vec<bool>)
    ensures
        r@.len() == depth,
        forall|level: int| 0 <= level < depth ==> #[trigger] r@[level] == index_bit(j as int, level),
{
    let mut r: Vec<bool> = Vec::new();
    let mut rest: usize = j;
    let mut level: usize = 0;
    assert(pow2(0) == 1) by {
        vstd::arithmetic::power2::lemma2_to64();
    }
    while level < depth
        invariant
            level <= depth,
            rest == j as int / pow2(level as nat) as int,
            r@.len() == level,
            forall|l: int| 0 <= l < level ==> #[trigger] r@[l] == index_bit(j as int, l),
        decreases depth - level,
    {
        r.push(rest % 2 == 1);
        proof {
            vstd::arithmetic::power2::lemma_pow2_pos(level as nat);
            lemma_pow2_unfold((level + 1) as nat);
            vstd::arithmetic::div_mod::lemma_div_denominator(
                j as int,
                pow2(level as nat) as int,
                2,
            );
            assert(pow2((level + 1) as nat) == pow2(level as nat) * 2);
        }
        rest = rest / 2;
        level = level + 1;
    }
    r
}

/// The witness of path `q`: the transaction's own path, or an all-left path
/// of zeros where there is no transaction.
pub open spec fn path_witness(t: &TxRootRegionData, q: int, w: MerklePathWitness) -> bool {
    &&& w.siblings@.len() == t.depth
    &&& w.directions@.len() == t.depth
    &&& if q < t.paths@.len() {
        &&& w.entry == t.paths@[q].entry
        &&& w.siblings@ == t.paths@[q].siblings@
        &&& forall|l: int| 0 <= l < t.depth ==> #[trigger] w.directions@[l] == index_bit(q, l)
    } else {
        &&& w.entry == DigestPair { a: F128 { bits: 0 }, b: F128 { bits: 0 } }
        &&& forall|l: int|
            0 <= l < t.depth ==> #[trigger] w.siblings@[l] == (DigestPair {
                a: F128 { bits: 0 },
                b: F128 { bits: 0 },
            })
        &&& forall|l: int| 0 <= l < t.depth ==> !#[trigger] w.directions@[l]
    }
}

fn copy_digests(s: &Vec<DigestPair>) -> (r: Vec<DigestPair>)
    ensures
        r@ == s@,
{
    let mut r: Vec<DigestPair> = Vec::new();
    let mut i: usize = 0;
    while i < s.len()
        invariant
            i <= s@.len(),
            r@ == s@.take(i as int),
        decreases s@.len() - i,
    {
        r.push(s[i]);
        i = i + 1;
        assert(r@ =~= s@.take(i as int));
    }
    assert(r@ =~= s@);
    r
}

/// The witnesses of `count` paths, in order.
pub fn tx_root_witnesses(t: &TxRootRegionData, count: usize) -> (r: Vec<MerklePathWitness>)
    requires
        t.wf(),
    ensures
        r@.len() == count,
        forall|q: int| 0 <= q < count ==> path_witness(t, q, #[trigger] r@[q]),
{
    let mut r: Vec<MerklePathWitness> = Vec::new();
    let mut q: usize = 0;
    while q < count
        invariant
            q <= count,
            t.wf(),
            r@.len() == q,
            forall|k: int| 0 <= k < q ==> path_witness(t, k, #[trigger] r@[k]),
        decreases count - q,
    {
        if q < t.paths.len() {
            assert(t.paths@[q as int].siblings@.len() == t.depth);
            let siblings = copy_digests(&t.paths[q].siblings);
            r.push(
                MerklePathWitness {
                    entry: t.paths[q].entry,
                    siblings,
                    directions: index_bits(q, t.depth),
                },
            );
        } else {
            let zero = DigestPair { a: F128::zero(), b: F128::zero() };
            let mut siblings: Vec<DigestPair> = Vec::new();
            let mut directions: Vec<bool> = Vec::new();
            let mut l: usize = 0;
            while l < t.depth
                invariant
                    l <= t.depth,
                    siblings@.len() == l,
                    directions@.len() == l,
                    zero == (DigestPair { a: F128 { bits: 0 }, b: F128 { bits: 0 } }),
                    forall|m: int| 0 <= m < l ==> #[trigger] siblings@[m] == zero,
                    forall|m: int| 0 <= m < l ==> !#[trigger] directions@[m],
                decreases t.depth - l,
            {
                siblings.push(zero);
                directions.push(false);
                l = l + 1;
            }
            r.push(MerklePathWitness { entry: zero, siblings, directions });
        }
        assert(path_witness(t, q as int, r@[q as int]));
        q = q + 1;
    }
    r
}

/// The statement of one family of paths: entry and root wires, the root each
/// path commits to, the root its columns carry, and its first slot.
pub struct LegStatement {
    pub entry_wires: Vec<WirePair>,
    pub root_wires: Vec<WirePair>,
    pub committed_roots: Vec<DigestPair>,
    pub recomputed_roots: Vec<DigestPair>,
    pub path_slots: Vec<usize>,
}

impl LegStatement {
    /// All lists speak of the same `n` paths.
    pub open spec fn of(&self, n: nat) -> bool {
        &&& self.entry_wires@.len() == n
        &&& self.root_wires@.len() == n
        &&& self.committed_roots@.len() == n
        &&& self.recomputed_roots@.len() == n
        &&& self.path_slots@.len() == n
    }
}

/// First slot of path `q`.
pub open spec fn tx_path_slot(g: &MetaGeometry, q: int) -> int {
    family_slot(g, q / g.shape.tx_cap() as int, g.shape.paired_families() as int) + (q
        % g.shape.tx_cap() as int) * g.shape.tx_stride()
}

/// What the statement says of path `q`: a transaction's path runs from its
/// own entry to the tree root; a padding path from zero to its own root.
pub open spec fn leg_path(
    g: &MetaGeometry,
    t: &TxRootRegionData,
    roots: Seq<DigestPair>,
    leg: LegStatement,
    q: int,
) -> bool {
    &&& leg.path_slots@[q] == tx_path_slot(g, q)
    &&& leg.recomputed_roots@[q] == roots[q]
    &&& if q < t.paths@.len() {
        &&& leg.entry_wires@[q].a@ == t.paths@[q].entry_w.a@
        &&& leg.entry_wires@[q].b@ == t.paths@[q].entry_w.b@
        &&& leg.root_wires@[q].a@ == t.root_w.a@
        &&& leg.root_wires@[q].b@ == t.root_w.b@
        &&& leg.committed_roots@[q] == t.root
    } else {
        &&& leg.entry_wires@[q].a@ == const_form(0)
        &&& leg.entry_wires@[q].b@ == const_form(0)
        &&& leg.root_wires@[q].a@ == const_form(roots[q].a@)
        &&& leg.root_wires@[q].b@ == const_form(roots[q].b@)
        &&& leg.committed_roots@[q] == roots[q]
    }
}

/// A path lies inside its block's run.
pub proof fn lemma_tx_path_slot(g: &MetaGeometry, blk: int, i: int)
    requires
        g.wf(),
        g.shape.tx_paths > 0,
        0 <= blk < g.shape.tiles,
        0 <= i < g.shape.tx_cap(),
    ensures
        tx_path_slot(g, blk * g.shape.tx_cap() + i) == family_slot(
            g,
            blk,
            g.shape.paired_families() as int,
        ) + i * g.shape.tx_stride(),
        0 <= tx_path_slot(g, blk * g.shape.tx_cap() + i),
        tx_path_slot(g, blk * g.shape.tx_cap() + i) + g.shape.tx_stride() <= g.meta_b_slots(),
{
    let cap = g.shape.tx_cap() as int;
    let stride = g.shape.tx_stride() as int;
    let f = g.shape.paired_families() as int;
    vstd::arithmetic::div_mod::lemma_fundamental_div_mod_converse(blk * cap + i, cap, blk, i);
    assert(blk * cap == cap * blk) by (nonlinear_arith);
    assert(g.shape.family_slots()[f] == cap * stride);
    lemma_family_slots(g, blk, f);
    assert((i + 1) * stride <= cap * stride) by (nonlinear_arith)
        requires
            i + 1 <= cap,
            stride >= 0,
    ;
    assert((i + 1) * stride == i * stride + stride) by (nonlinear_arith);
    assert(i * stride >= 0) by (nonlinear_arith)
        requires
            i >= 0,
            stride >= 0,
    ;
    assert(blk * g.meta_b->0.block_slots >= 0) by (nonlinear_arith)
        requires
            blk >= 0,
    ;
}

/// Lists the statement of all transaction-root paths of the walk; `roots` are
/// the roots that the columns of all paths carry.
pub fn tx_root_leg(
    g: &MetaGeometry,
    layout: &crate::region_layout::TiledWalkLayout,
    t: &TxRootRegionData,
    roots: &Vec<DigestPair>,
) -> (leg: LegStatement)
    requires
        g.wf(),
        g.meta_b == Some(*layout),
        t.wf(),
        g.shape.tx_paths == t.paths@.len(),
        g.shape.tx_depth == t.depth,
        roots@.len() == g.shape.tiles * g.shape.tx_cap(),
    ensures
        leg.of(roots@.len()),
        forall|q: int| 0 <= q < roots@.len() ==> leg_path(g, t, roots@, leg, q) && #[trigger] leg.path_slots@[q] == tx_path_slot(g, q),
{
    let mut leg = LegStatement {
        entry_wires: Vec::new(),
        root_wires: Vec::new(),
        committed_roots: Vec::new(),
        recomputed_roots: Vec::new(),
        path_slots: Vec::new(),
    };
    let k = g.shape.tiles;
    let cap = g.tx_cap;
    let f: usize = if g.shape.leaves > 0 {
        2
    } else {
        0
    };
    let n = roots.len();
    let mut blk: usize = 0;
    let mut i: usize = 0;
    let mut q: usize = 0;
    proof {
        assert(0 * cap == 0);
        assert(cap == 0 ==> k * cap == 0) by (nonlinear_arith);
        assert(g.shape.family_slots()[f as int] == g.shape.tx_cap() * g.shape.tx_stride());
        crate::dyadic::lemma_ceil(2 * g.shape.tx_depth as nat);
    }
    while q < n
        invariant
            q <= n,
            n == roots@.len(),
            n == k * cap,
            k == g.shape.tiles,
            cap == g.tx_cap,
            q < n ==> cap > 0,
            cap > 0 ==> i < cap,
            q == blk * cap + i,
            f == g.shape.paired_families(),
            f < g.shape.family_slots().len(),
            g.wf(),
            g.meta_b == Some(*layout),
            t.wf(),
            g.shape.tx_paths == t.paths@.len(),
            leg.of(q as nat),
            forall|p: int|
                0 <= p < q ==> leg_path(g, t, roots@, leg, p) && #[trigger] leg.path_slots@[p]
                    == tx_path_slot(g, p),
        decreases n - q,
    {
        let ghost leg0 = leg;
        proof {
            if blk >= k {
                assert(blk * cap >= k * cap) by (nonlinear_arith)
                    requires
                        blk >= k,
                ;
            }
            lemma_tx_path_slot(g, blk as int, i as int);
            assert(blk * layout.block_slots >= 0) by (nonlinear_arith);
            assert(i * g.tx_stride >= 0) by (nonlinear_arith);
            assert((blk + 1) * cap == blk * cap + cap) by (nonlinear_arith);
        }
        let slot: usize = blk * layout.block_slots + layout.bases[f] + i * g.tx_stride;
        if q < t.paths.len() {
            leg.entry_wires.push(t.paths[q].entry_w.copy());
            leg.root_wires.push(t.root_w.copy());
            leg.committed_roots.push(t.root);
        } else {
            leg.entry_wires.push(WirePair { a: LinExpr::zero(), b: LinExpr::zero() });
            leg.root_wires.push(
                WirePair { a: LinExpr::constant(roots[q].a), b: LinExpr::constant(roots[q].b) },
            );
            leg.committed_roots.push(roots[q]);
        }
        leg.recomputed_roots.push(roots[q]);
        leg.path_slots.push(slot);
        proof {
            assert forall|p: int| 0 <= p < q + 1 implies leg_path(g, t, roots@, leg, p)
                && #[trigger] leg.path_slots@[p] == tx_path_slot(g, p) by {
                if p < q {
                    assert(leg0.path_slots@[p] == tx_path_slot(g, p));
                    assert(leg_path(g, t, roots@, leg0, p));
                }
            }
        }
        q = q + 1;
        i = i + 1;
        if i == cap {
            i = 0;
            blk = blk + 1;
        }
    }
    leg
}

/// The direction pins of the first `n` levels of a path at slot `base`.
pub open spec fn direction_pins(j: int, base: int, n: nat) -> Seq<PinView>
    decreases n,
{
    if n == 0 {
        seq![]
    } else {
        direction_pins(j, base, (n - 1) as nat).push(
            pin_view(
                8,
                base + 2 * (n - 1),
                const_form(
                    if index_bit(j, n - 1) {
                        1
                    } else {
                        0
                    },
                ),
            ),
        )
    }
}

/// The rim pins of the first `n` levels: on every level where the path is a
/// left child, its sibling is the zero subtree.
pub open spec fn rim_pins(rim: Seq<DigestPair>, j: int, base: int, n: nat) -> Seq<PinView>
    decreases n,
{
    if n == 0 {
        seq![]
    } else {
        let rest = rim_pins(rim, j, base, (n - 1) as nat);
        if index_bit(j, n - 1) {
            rest
        } else {
            rest.push(pin_view(6, base + 2 * (n - 1), const_form(rim[n - 1].a@))).push(
                pin_view(7, base + 2 * (n - 1), const_form(rim[n - 1].b@)),
            )
        }
    }
}

/// All constant pins of path `j`; the last path also carries the rim.
pub open spec fn path_pins(t: &TxRootRegionData, j: int, base: int) -> Seq<PinView> {
    direction_pins(j, base, t.depth as nat) + if t.rim@.len() > 0 && j == t.paths@.len() - 1 {
        rim_pins(t.rim@, j, base, t.depth as nat)
    } else {
        seq![]
    }
}

/// The constant pins of the first `n` paths.
pub open spec fn paths_pins(g: &MetaGeometry, t: &TxRootRegionData, n: nat) -> Seq<PinView>
    decreases n,
{
    if n == 0 {
        seq![]
    } else {
        paths_pins(g, t, (n - 1) as nat) + path_pins(t, n - 1, tx_path_slot(g, n - 1))
    }
}

fn push_path_pins(pins: &mut Vec<CellPin>, t: &TxRootRegionData, j: usize, base: usize)
    requires
        t.wf(),
        j < t.paths@.len(),
        base + 2 * t.depth <= usize::MAX,
    ensures
        pin_views(final(pins)@) == pin_views(old(pins)@) + path_pins(t, j as int, base as int),
{
    let ghost before = pin_views(pins@);
    let bits = index_bits(j, t.depth);
    let mut l: usize = 0;
    assert(pin_views(pins@) =~= before + direction_pins(j as int, base as int, 0));
    while l < t.depth
        invariant
            l <= t.depth,
            base + 2 * t.depth <= usize::MAX,
            bits@.len() == t.depth,
            forall|m: int| 0 <= m < t.depth ==> #[trigger] bits@[m] == index_bit(j as int, m),
            pin_views(pins@) == before + direction_pins(j as int, base as int, l as nat),
        decreases t.depth - l,
    {
        push_pin(
            pins,
            8,
            base + 2 * l,
            LinExpr::constant(
                if bits[l] {
                    F128::one()
                } else {
                    F128::zero()
                },
            ),
        );
        l = l + 1;
        assert(pin_views(pins@) =~= before + direction_pins(j as int, base as int, l as nat));
    }
    if t.rim.len() > 0 && j == t.paths.len() - 1 {
        let ghost mid = pin_views(pins@);
        let mut l: usize = 0;
        assert(pin_views(pins@) =~= mid + rim_pins(t.rim@, j as int, base as int, 0));
        while l < t.depth
            invariant
                l <= t.depth,
                base + 2 * t.depth <= usize::MAX,
                t.rim@.len() == t.depth,
                bits@.len() == t.depth,
                forall|m: int| 0 <= m < t.depth ==> #[trigger] bits@[m] == index_bit(j as int, m),
                pin_views(pins@) == mid + rim_pins(t.rim@, j as int, base as int, l as nat),
            decreases t.depth - l,
        {
            if !bits[l] {
                push_pin(pins, 6, base + 2 * l, LinExpr::constant(t.rim[l].a));
                push_pin(pins, 7, base + 2 * l, LinExpr::constant(t.rim[l].b));
            }
            l = l + 1;
            assert(pin_views(pins@) =~= mid + rim_pins(
                t.rim@,
                j as int,
                base as int,
                l as nat,
            ));
        }
    }
    assert(pin_views(pins@) =~= before + path_pins(t, j as int, base as int));
}

/// Pins the directions of every transaction's path to the bits of its leaf
/// index, and the padding rim of the last.
pub fn push_tx_root_pins(
    pins: &mut Vec<CellPin>,
    g: &MetaGeometry,
    t: &TxRootRegionData,
    leg: &LegStatement,
)
    requires
        g.wf(),
        t.wf(),
        g.shape.tx_paths == t.paths@.len(),
        g.shape.tx_depth == t.depth,
        t.paths@.len() <= leg.path_slots@.len(),
        leg.path_slots@.len() == g.shape.tiles * g.shape.tx_cap(),
        forall|q: int|
            0 <= q < leg.path_slots@.len() ==> #[trigger] leg.path_slots@[q] == tx_path_slot(g, q),
    ensures
        pin_views(final(pins)@) == pin_views(old(pins)@) + paths_pins(g, t, t.paths@.len()),
{
    let ghost before = pin_views(pins@);
    let mut j: usize = 0;
    assert(pin_views(pins@) =~= before + paths_pins(g, t, 0));
    while j < t.paths.len()
        invariant
            j <= t.paths@.len(),
            g.wf(),
            t.wf(),
            g.shape.tx_paths == t.paths@.len(),
            g.shape.tx_depth == t.depth,
            t.paths@.len() <= leg.path_slots@.len(),
            leg.path_slots@.len() == g.shape.tiles * g.shape.tx_cap(),
            forall|q: int|
                0 <= q < leg.path_slots@.len() ==> #[trigger] leg.path_slots@[q] == tx_path_slot(
                    g,
                    q,
                ),
            pin_views(pins@) == before + paths_pins(g, t, j as nat),
        decreases t.paths@.len() - j,
    {
        let base = leg.path_slots[j];
        proof {
            let cap = g.shape.tx_cap() as int;
            crate::dyadic::lemma_ceil(2 * g.shape.tx_depth as nat);
            let blk = j as int / cap;
            let i = j as int % cap;
            if cap == 0 {
                assert(g.shape.tiles * cap == 0) by (nonlinear_arith)
                    requires
                        cap == 0,
                ;
            }
            vstd::arithmetic::div_mod::lemma_fundamental_div_mod(j as int, cap);
            vstd::arithmetic::div_mod::lemma_mod_bound(j as int, cap);
            assert(blk < g.shape.tiles) by (nonlinear_arith)
                requires
                    j == cap * blk + i,
                    j < g.shape.tiles * cap,
                    i >= 0,
                    cap > 0,
            ;
            assert(blk >= 0) by {
                vstd::arithmetic::div_mod::lemma_div_pos_is_pos(j as int, cap);
            }
            assert(cap * blk == blk * cap) by (nonlinear_arith);
            lemma_tx_path_slot(g, blk, i);
            assert(g.meta_b_slots() <= usize::MAX);
        }
        push_path_pins(pins, t, j, base);
        j = j + 1;
        assert(pin_views(pins@) =~= before + paths_pins(g, t, j as nat));
    }
}

/// The statement pins of one path: its entry lanes at its first slot, and its
/// root lanes at the odd slot of its last level.
pub open spec fn statement_path_pins(leg: LegStatement, depth: int, q: int) -> Seq<PinView> {
    let slot = leg.path_slots@[q] as int;
    let root_slot = slot + 2 * (depth - 1) + 1;
    seq![
        pin_view(4, slot, leg.entry_wires@[q].a@),
        pin_view(0, root_slot, leg.root_wires@[q].a@),
        pin_view(5, slot, leg.entry_wires@[q].b@),
        pin_view(1, root_slot, leg.root_wires@[q].b@),
    ]
}

pub open spec fn statement_leg_pins(leg: LegStatement, depth: int, n: nat) -> Seq<PinView>
    decreases n,
{
    if n == 0 {
        seq![]
    } else {
        statement_leg_pins(leg, depth, (n - 1) as nat) + statement_path_pins(leg, depth, n - 1)
    }
}

pub open spec fn statement_pins(legs: Seq<LegStatement>, depths: Seq<usize>, n: nat) -> Seq<
    PinView,
>
    decreases n,
{
    if n == 0 {
        seq![]
    } else {
        statement_pins(legs, depths, (n - 1) as nat) + statement_leg_pins(
            legs[n - 1],
            depths[n - 1] as int,
            legs[n - 1].path_slots@.len(),
        )
    }
}

/// A family whose statement can be pinned: the lists agree in length, every
/// recomputed root is the committed one, and every root slot is a slot.
pub open spec fn leg_closed(leg: LegStatement, depth: usize) -> bool {
    &&& depth > 0
    &&& leg.of(leg.path_slots@.len())
    &&& leg.recomputed_roots@ == leg.committed_roots@
    &&& forall|q: int|
        0 <= q < leg.path_slots@.len() ==> #[trigger] leg.path_slots@[q] + 2 * depth <= usize::MAX
}

/// Appends the entry and root pins of every path of every family.
pub fn append_meta_b_statement_pins(
    pins: &mut Vec<CellPin>,
    leg_depths: &Vec<usize>,
    legs: &Vec<LegStatement>,
)
    requires
        legs@.len() == leg_depths@.len(),
        forall|f: int|
            0 <= f < legs@.len() ==> leg_closed(#[trigger] legs@[f], leg_depths@[f]),
    ensures
        pin_views(final(pins)@) == pin_views(old(pins)@) + statement_pins(
            legs@,
            leg_depths@,
            legs@.len(),
        ),
{
    let ghost before = pin_views(pins@);
    let mut f: usize = 0;
    assert(pin_views(pins@) =~= before + statement_pins(legs@, leg_depths@, 0));
    while f < legs.len()
        invariant
            f <= legs@.len(),
            legs@.len() == leg_depths@.len(),
            forall|h: int|
                0 <= h < legs@.len() ==> leg_closed(#[trigger] legs@[h], leg_depths@[h]),
            pin_views(pins@) == before + statement_pins(legs@, leg_depths@, f as nat),
        decreases legs@.len() - f,
    {
        let leg = &legs[f];
        let depth = leg_depths[f];
        assert(leg_closed(legs@[f as int], leg_depths@[f as int]));
        let ghost mid = pin_views(pins@);
        let mut q: usize = 0;
        assert(pin_views(pins@) =~= mid + statement_leg_pins(*leg, depth as int, 0));
        while q < leg.path_slots.len()
            invariant
                q <= leg.path_slots@.len(),
                leg_closed(*leg, depth),
                pin_views(pins@) == mid + statement_leg_pins(*leg, depth as int, q as nat),
            decreases leg.path_slots@.len() - q,
        {
            let ghost start = pin_views(pins@);
            let slot = leg.path_slots[q];
            assert(leg.path_slots@[q as int] + 2 * depth <= usize::MAX);
            let root_slot: usize = slot + (2 * (depth - 1) + 1);
            push_pin(pins, 4, slot, leg.entry_wires[q].lane(0));
            push_pin(pins, 0, root_slot, leg.root_wires[q].lane(0));
            push_pin(pins, 5, slot, leg.entry_wires[q].lane(1));
            push_pin(pins, 1, root_slot, leg.root_wires[q].lane(1));
            assert(pin_views(pins@) =~= start + statement_path_pins(
                *leg,
                depth as int,
                q as int,
            ));
            q = q + 1;
            assert(pin_views(pins@) =~= mid + statement_leg_pins(*leg, depth as int, q as nat));
        }
        f = f + 1;
        assert(pin_views(pins@) =~= before + statement_pins(legs@, leg_depths@, f as nat));
    }
}

} // verus!
