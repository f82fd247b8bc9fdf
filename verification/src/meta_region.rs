//! The block-metadata half of the authorization region.
//!
//! Two walks carry a block's metadata. The first holds the exact-state leaves,
//! the wallet overflow leaves and the transaction-body spines; the second
//! holds the paired exact-state updates, the transaction-root paths and the
//! wallet overflow paths. The geometry, the columns, the statement pins and
//! the family descriptors are built here; the permutation columns of every
//! family come from the host.

use crate::dyadic::{ceil_pow2, exact_log, is_dyadic, lemma_ceil, next_power_of_two};
use crate::field::F128;
use crate::region_layout::{layout_fits, prefix_sum, tiled_walk_layout, TiledWalkLayout};
use crate::walk_planes::{place_pieces, placed_cell, rectangular, uniform_plane, Piece, WalkColumns};
use vstd::arithmetic::power2::{lemma_pow2_adds, lemma_pow2_pos, pow2};
use vstd::prelude::*;

verus! {

/// Lanes of the permutation state.
pub const STATE_SIZE: usize = 4;

/// Column of the first child lane of the first metadata walk.
pub const KID0: usize = 0;

/// Column of the first input lane of the first metadata walk.
pub const IN0: usize = 2;

/// Column of the first state lane of the first metadata walk.
pub const C0: usize = 4;

/// Committed columns of the first metadata walk.
pub const N_META_COMMITTED: usize = 8;

/// Committed columns of the second metadata walk.
pub const N_META_B_COMMITTED: usize = 9;

/// Slots of one exact-state leaf.
pub const SPONGE_LEAF_SLOTS: usize = 2;

/// Slots of the tree of one transaction-body spine.
pub const SPINE_TREE_SLOTS: usize = 32;

/// Slots of one wallet overflow leaf.
pub const CAPSULE_LEAF_STRIDE: usize = 16;

/// Levels of a wallet source path.
pub const SOURCE_PATH_DEPTH: usize = 10;

/// Levels of a wallet mid path.
pub const MID_PATH_DEPTH: usize = 6;

/// Levels of a paired update.
pub const PAIRED_UPDATE_DEPTH: usize = 16;

/// Slots of one level of a paired update.
pub const PAIRED_UPDATE_SLOTS_PER_LEVEL: usize = 4;

/// Slots of one paired update.
pub const PAIRED_UPDATE_STRIDE: usize = 64;

/// What a block's metadata consists of. A part that is absent has count zero.
#[derive(Clone, Copy, Debug, PartialEq, Eq, Structural)]
pub struct MetaShape {
    /// Blocks of the walks.
    pub tiles: usize,
    /// Exact-state leaves.
    pub leaves: usize,
    /// Capacity of local paired updates.
    pub touched: usize,
    /// Capacity of upper paired updates.
    pub segments: usize,
    /// Transaction-body spines.
    pub instances: usize,
    /// Slots of the wrap of one spine.
    pub wrap_slots: usize,
    /// Levels of the transaction tree.
    pub tx_depth: usize,
    /// Transaction-root paths.
    pub tx_paths: usize,
    /// Whether the walks carry the wallet overflow.
    pub overflow: bool,
}

pub open spec fn ceil_div(n: nat, k: nat) -> nat {
    (n + k - 1) as nat / k
}

pub open spec fn larger(x: nat, y: nat) -> nat {
    if x < y {
        y
    } else {
        x
    }
}

impl MetaShape {
    pub open spec fn es_slots(self) -> nat {
        if self.leaves == 0 {
            0
        } else {
            ceil_pow2(2 * self.leaves as nat)
        }
    }

    pub open spec fn spine_cap(self) -> nat {
        ceil_div(self.instances as nat, self.tiles as nat)
    }

    /// Slots of the spines of one block.
    pub open spec fn spine_per_tx(self) -> nat {
        if self.spine_cap() == 0 {
            0
        } else {
            ceil_pow2(self.spine_cap() * (32 + self.wrap_slots as nat))
        }
    }

    pub open spec fn spine_slots(self) -> nat {
        self.tiles as nat * self.spine_per_tx()
    }

    pub open spec fn overflow_slots(self) -> nat {
        if self.overflow {
            self.tiles as nat * 32
        } else {
            0
        }
    }

    /// Slots of the region that holds exact-state and overflow leaves.
    pub open spec fn first_slots(self) -> nat {
        if self.es_slots() + self.overflow_slots() == 0 {
            0
        } else {
            ceil_pow2(self.es_slots() + self.overflow_slots())
        }
    }

    pub open spec fn half(self) -> nat {
        larger(self.first_slots(), self.spine_slots())
    }

    pub open spec fn has_both(self) -> bool {
        self.leaves > 0 && self.instances > 0
    }

    /// Slots of the first metadata walk.
    pub open spec fn meta_a_slots(self) -> nat {
        if self.has_both() {
            2 * self.half()
        } else {
            larger(self.half(), 1)
        }
    }

    /// First slot of the spine region.
    pub open spec fn spine_base(self) -> nat {
        if self.has_both() {
            self.half()
        } else {
            0
        }
    }

    pub open spec fn local_cap(self) -> nat {
        ceil_div(self.touched as nat, self.tiles as nat)
    }

    pub open spec fn upper_cap(self) -> nat {
        ceil_div(self.segments as nat, self.tiles as nat)
    }

    pub open spec fn tx_cap(self) -> nat {
        ceil_div(self.tx_paths as nat, self.tiles as nat)
    }

    /// Slots of one transaction-root path.
    pub open spec fn tx_stride(self) -> nat {
        ceil_pow2(2 * self.tx_depth as nat)
    }

    /// Families before the transaction-root paths in the second walk.
    pub open spec fn paired_families(self) -> nat {
        if self.leaves > 0 {
            2
        } else {
            0
        }
    }

    pub open spec fn tx_families(self) -> nat {
        if self.tx_paths > 0 {
            1
        } else {
            0
        }
    }

    /// Slots per block of the families of the second walk, in order: local
    /// and upper updates, transaction-root paths, overflow paths.
    pub open spec fn family_slots(self) -> Seq<nat> {
        let paired = if self.leaves > 0 {
            seq![self.local_cap() * 64, self.upper_cap() * 64]
        } else {
            seq![]
        };
        let tx = if self.tx_paths > 0 {
            seq![self.tx_cap() * self.tx_stride()]
        } else {
            seq![]
        };
        let overflow = if self.overflow {
            seq![10nat, 6nat]
        } else {
            seq![]
        };
        paired + tx + overflow
    }

    /// A shape that can be built: the part counts agree with each other and
    /// both walks fit the machine.
    pub open spec fn wf(self) -> bool {
        &&& is_dyadic(self.tiles as nat)
        &&& (self.leaves > 0) == (self.touched > 0)
        &&& (self.leaves > 0) == (self.segments > 0)
        &&& (self.instances > 0 ==> is_dyadic(self.spine_cap()))
        &&& (self.tx_paths > 0 ==> self.tx_depth > 0)
        &&& self.meta_a_slots() <= usize::MAX
        &&& 2 * self.leaves <= usize::MAX
        &&& self.instances + self.tiles <= usize::MAX
        &&& self.touched + self.tiles <= usize::MAX
        &&& self.segments + self.tiles <= usize::MAX
        &&& self.tx_paths + self.tiles <= usize::MAX
        &&& 2 * self.tx_depth <= usize::MAX
        &&& (self.tx_paths > 0 ==> self.tx_stride() <= usize::MAX)
        &&& forall|i: int|
            0 <= i < self.family_slots().len() ==> #[trigger] self.family_slots()[i] <= usize::MAX
        &&& layout_fits(self.tiles as nat, usizes(self.family_slots()))
    }
}

/// Sizes as machine words.
pub open spec fn usizes(s: Seq<nat>) -> Seq<usize> {
    Seq::new(s.len(), |i: int| s[i] as usize)
}

/// The geometry of both metadata walks.
pub struct MetaGeometry {
    pub shape: MetaShape,
    pub es_region_slots: usize,
    pub spine_cap: usize,
    pub spine_per_tx: usize,
    pub spine_meta_base: usize,
    pub meta_slots: usize,
    pub meta_w_log: usize,
    pub local_cap: usize,
    pub upper_cap: usize,
    pub tx_cap: usize,
    pub tx_stride: usize,
    pub meta_b: Option<TiledWalkLayout>,
}

impl MetaGeometry {
    /// The geometry is that of its shape.
    pub open spec fn wf(&self) -> bool {
        &&& self.shape.wf()
        &&& self.es_region_slots == self.shape.es_slots()
        &&& self.spine_cap == self.shape.spine_cap()
        &&& self.spine_per_tx == self.shape.spine_per_tx()
        &&& self.spine_meta_base == self.shape.spine_base()
        &&& self.meta_slots == self.shape.meta_a_slots()
        &&& self.meta_slots == pow2(self.meta_w_log as nat)
        &&& self.local_cap == self.shape.local_cap()
        &&& self.upper_cap == self.shape.upper_cap()
        &&& self.tx_cap == self.shape.tx_cap()
        &&& self.tx_stride == if self.shape.tx_paths > 0 {
            self.shape.tx_stride()
        } else {
            0
        }
        &&& (self.meta_b is None <==> self.shape.family_slots().len() == 0)
        &&& (self.meta_b matches Some(layout) ==> layout.lays_out(
            self.shape.tiles as nat,
            usizes(self.shape.family_slots()),
        ))
    }

    /// First slot of family `f` inside a block of the second walk.
    pub open spec fn family_base(&self, f: int) -> nat {
        self.meta_b->0.bases@[f] as nat
    }

    /// Slots of the second walk.
    pub open spec fn meta_b_slots(&self) -> nat {
        match self.meta_b {
            Some(layout) => layout.slots as nat,
            None => 0,
        }
    }
}

fn div_ceil(n: usize, k: usize) -> (r: usize)
    requires
        k > 0,
        n + k <= usize::MAX,
    ensures
        r == ceil_div(n as nat, k as nat),
        n > 0 ==> r > 0,
        n == 0 ==> r == 0,
        n <= r * k,
        r <= n,
{
    let r: usize = (n + k - 1) / k;
    proof {
        let m = n + k - 1;
        vstd::arithmetic::div_mod::lemma_fundamental_div_mod(m, k as int);
        vstd::arithmetic::div_mod::lemma_mod_bound(m, k as int);
        assert(m / k as int == r);
        assert(n <= r * k) by (nonlinear_arith)
            requires
                n + k - 1 == k * r + (m % (k as int)),
                m % (k as int) < k,
        ;
        assert(k * r == r * k) by (nonlinear_arith);
        if n > 0 {
            if r == 0 {
                assert(r * k == 0) by (nonlinear_arith)
                    requires
                        r == 0,
                ;
            }
        } else {
            vstd::arithmetic::div_mod::lemma_small_mod((k - 1) as nat, k as nat);
            vstd::arithmetic::div_mod::lemma_div_is_ordered(0, m, k as int);
            assert(r == 0) by (nonlinear_arith)
                requires
                    k - 1 == k * r + (m % (k as int)),
                    m % (k as int) >= 0,
                    r >= 0,
                    k > 0,
            ;
        }
        assert(r <= n) by (nonlinear_arith)
            requires
                n + k - 1 >= k * r,
                k >= 1,
                n >= 0,
                r >= 0,
                n == 0 ==> r == 0,
        ;
    }
    r
}

proof fn lemma_dyadic_mul(a: nat, b: nat)
    requires
        is_dyadic(a),
        is_dyadic(b),
    ensures
        is_dyadic(a * b),
        a * b > 0,
{
    let i = choose|i: nat| a == #[trigger] pow2(i);
    let j = choose|j: nat| b == #[trigger] pow2(j);
    lemma_pow2_adds(i, j);
    lemma_pow2_pos(i + j);
    assert(a * b == pow2(i + j));
}

proof fn lemma_dyadic_pos(a: nat)
    requires
        is_dyadic(a),
    ensures
        a > 0,
{
    let i = choose|i: nat| a == #[trigger] pow2(i);
    lemma_pow2_pos(i);
}

pub proof fn lemma_div_ceil_pos(n: nat, k: nat)
    requires
        k > 0,
    ensures
        n > 0 <==> ceil_div(n, k) > 0,
        n <= ceil_div(n, k) * k,
{
    let m = (n + k - 1) as nat;
    vstd::arithmetic::div_mod::lemma_fundamental_div_mod(m as int, k as int);
    vstd::arithmetic::div_mod::lemma_mod_bound(m as int, k as int);
    let r = ceil_div(n, k);
    assert(n <= r * k) by (nonlinear_arith)
        requires
            n + k - 1 == k * r + (m as int % k as int),
            m as int % (k as int) < k,
    ;
    if r == 0 {
        assert(r * k == 0) by (nonlinear_arith)
            requires
                r == 0,
        ;
    }
    if n == 0 {
        assert(r == 0) by (nonlinear_arith)
            requires
                k - 1 == k * r + (m as int % k as int),
                m as int % (k as int) >= 0,
                r >= 0,
                k > 0,
        ;
    }
}

/// How the parts of the first walk fit into it.
pub proof fn lemma_meta_a_parts(shape: MetaShape)
    requires
        shape.wf(),
    ensures
        shape.tiles > 0,
        shape.es_slots() + shape.overflow_slots() <= shape.first_slots(),
        shape.first_slots() <= shape.half(),
        shape.spine_base() + shape.spine_slots() <= shape.meta_a_slots(),
        shape.half() <= shape.meta_a_slots(),
        shape.leaves > 0 ==> 2 * shape.leaves <= shape.es_slots(),
        shape.spine_cap() * (32 + shape.wrap_slots as nat) <= shape.spine_per_tx(),
        shape.spine_per_tx() <= shape.spine_slots(),
        shape.instances <= shape.spine_cap() * shape.tiles,
        shape.instances > 0 <==> shape.spine_cap() > 0,
        shape.has_both() ==> shape.half() > 0,
        is_dyadic(shape.meta_a_slots()),
{
    lemma_dyadic_pos(shape.tiles as nat);
    lemma_div_ceil_pos(shape.instances as nat, shape.tiles as nat);
    lemma_ceil(2 * shape.leaves as nat);
    lemma_ceil(shape.es_slots() + shape.overflow_slots());
    let cap = shape.spine_cap();
    let per = shape.spine_per_tx();
    lemma_ceil(cap * (32 + shape.wrap_slots as nat));
    assert(per <= shape.tiles as nat * per) by (nonlinear_arith)
        requires
            shape.tiles > 0,
            per >= 0,
    ;
    if cap > 0 {
        lemma_dyadic_mul(shape.tiles as nat, per);
    } else {
        assert(cap * (32 + shape.wrap_slots as nat) == 0) by (nonlinear_arith)
            requires
                cap == 0,
        ;
        assert(shape.tiles as nat * per == 0) by (nonlinear_arith)
            requires
                per == 0,
        ;
    }
    assert(pow2(0) == 1 && pow2(1) == 2) by {
        vstd::arithmetic::power2::lemma2_to64();
    }
    assert(is_dyadic(1));
    assert(is_dyadic(2));
    if shape.has_both() {
        lemma_dyadic_mul(2, shape.half());
    }
}

/// The geometry of a block's metadata walks.
pub fn meta_geometry(shape: MetaShape) -> (r: MetaGeometry)
    requires
        shape.wf(),
    ensures
        r.shape == shape,
        r.wf(),
{
    let k = shape.tiles;
    proof {
        lemma_meta_a_parts(shape);
    }
    let es_region_slots: usize = if shape.leaves == 0 {
        0
    } else {
        next_power_of_two(2 * shape.leaves).size
    };
    let spine_cap = div_ceil(shape.instances, k);
    let spine_per_tx: usize = if spine_cap == 0 {
        0
    } else {
        proof {
            assert(32 + shape.wrap_slots <= spine_cap * (32 + shape.wrap_slots)) by (nonlinear_arith)
                requires
                    spine_cap > 0,
                    shape.wrap_slots >= 0,
            ;
        }
        next_power_of_two(spine_cap * (SPINE_TREE_SLOTS + shape.wrap_slots)).size
    };
    let spine_region_slots: usize = k * spine_per_tx;
    let overflow_a_slots: usize = if shape.overflow {
        k * 2 * CAPSULE_LEAF_STRIDE
    } else {
        0
    };
    let first_live: usize = es_region_slots + overflow_a_slots;
    let first_region_slots: usize = if first_live == 0 {
        0
    } else {
        next_power_of_two(first_live).size
    };
    let meta_half = if first_region_slots < spine_region_slots {
        spine_region_slots
    } else {
        first_region_slots
    };
    let both = shape.leaves > 0 && shape.instances > 0;
    let meta_slots: usize = if both {
        2 * meta_half
    } else if meta_half < 1 {
        1
    } else {
        meta_half
    };
    let meta_w_log = match exact_log(meta_slots) {
        Some(log) => log,
        None => 0,
    };
    let spine_meta_base: usize = if both {
        meta_half
    } else {
        0
    };
    let local_cap = div_ceil(shape.touched, k);
    let upper_cap = div_ceil(shape.segments, k);
    let tx_cap = div_ceil(shape.tx_paths, k);
    let mut families: Vec<usize> = Vec::new();
    let ghost sizes = shape.family_slots();
    if shape.leaves > 0 {
        assert(sizes[0] == shape.local_cap() * 64);
        assert(sizes[1] == shape.upper_cap() * 64);
        families.push(local_cap * PAIRED_UPDATE_STRIDE);
        families.push(upper_cap * PAIRED_UPDATE_STRIDE);
    }
    let tx_stride: usize = if shape.tx_paths > 0 {
        next_power_of_two(2 * shape.tx_depth).size
    } else {
        0
    };
    if shape.tx_paths > 0 {
        assert(sizes[shape.paired_families() as int] == shape.tx_cap() * shape.tx_stride());
        proof {
            lemma_ceil(2 * shape.tx_depth as nat);
            assert(tx_cap * tx_stride > 0) by (nonlinear_arith)
                requires
                    tx_cap > 0,
                    tx_stride > 0,
            ;
        }
        families.push(tx_cap * tx_stride);
    }
    if shape.overflow {
        families.push(SOURCE_PATH_DEPTH);
        families.push(MID_PATH_DEPTH);
    }
    assert(families@ =~= usizes(sizes));
    let meta_b = if families.len() == 0 {
        None
    } else {
        Some(tiled_walk_layout(k, families.as_slice()))
    };
    MetaGeometry {
        shape,
        es_region_slots,
        spine_cap,
        spine_per_tx,
        spine_meta_base,
        meta_slots,
        meta_w_log,
        local_cap,
        upper_cap,
        tx_cap,
        tx_stride,
        meta_b,
    }
}

/// Pieces of the overflow leaves: staging is transaction-major, the walk is
/// family-major, directly after the exact-state region.
pub open spec fn overflow_a_pieces(g: &MetaGeometry) -> Seq<Piece> {
    Seq::new(
        2 * g.shape.tiles as nat,
        |j: int|
            Piece {
                base: (g.shape.es_slots() + (j % 2) * (g.shape.tiles * 16) + (j / 2)
                    * 16) as usize,
                from: (j * 16) as usize,
                slots: 16,
                source: 0,
            },
    )
}

/// First slot of the tree of spine `i` of block `blk`.
pub open spec fn tree_slot(shape: MetaShape, blk: int, i: int) -> int {
    shape.spine_base() + blk * shape.spine_per_tx() + i * 32
}

/// First slot of the wrap of spine `i` of block `blk`.
pub open spec fn wrap_slot_of(shape: MetaShape, blk: int, i: int) -> int {
    shape.spine_base() + blk * shape.spine_per_tx() + shape.spine_cap() * 32 + i
        * shape.wrap_slots
}

/// Pieces of the spines: the tree and the wrap of every spine in turn, from
/// sources of their own.
pub open spec fn spine_pieces(g: &MetaGeometry) -> Seq<Piece> {
    let cap = g.shape.spine_cap() as int;
    Seq::new(
        (2 * (g.shape.tiles * cap)) as nat,
        |q: int|
            if q % 2 == 0 {
                Piece {
                    base: tree_slot(g.shape, (q / 2) / cap, (q / 2) % cap) as usize,
                    from: 0,
                    slots: 32,
                    source: q as usize,
                }
            } else {
                Piece {
                    base: wrap_slot_of(g.shape, (q / 2) / cap, (q / 2) % cap) as usize,
                    from: 0,
                    slots: g.shape.wrap_slots,
                    source: q as usize,
                }
            },
    )
}

/// First slot of family `f` in block `blk` of the second walk.
pub open spec fn family_slot(g: &MetaGeometry, blk: int, f: int) -> int {
    blk * g.meta_b->0.block_slots + g.family_base(f)
}

/// Pieces of the overflow paths: ten source levels and six mid levels of every
/// block.
pub open spec fn overflow_b_pieces(g: &MetaGeometry) -> Seq<Piece> {
    let first = (g.shape.paired_families() + g.shape.tx_families()) as int;
    Seq::new(
        2 * g.shape.tiles as nat,
        |j: int|
            Piece {
                base: family_slot(g, j / 2, first + j % 2) as usize,
                from: ((j / 2) * 16 + (j % 2) * 10) as usize,
                slots: if j % 2 == 0 {
                    10
                } else {
                    6
                },
                source: 0,
            },
    )
}

/// Pieces of the paired updates: the local and the upper family of every
/// block, from sources of their own.
pub open spec fn paired_pieces(g: &MetaGeometry) -> Seq<Piece> {
    Seq::new(
        2 * g.shape.tiles as nat,
        |j: int|
            Piece {
                base: family_slot(g, j / 2, j % 2) as usize,
                from: 0,
                slots: (64 * if j % 2 == 0 {
                    g.shape.local_cap()
                } else {
                    g.shape.upper_cap()
                }) as usize,
                source: j as usize,
            },
    )
}

/// Pieces of the transaction-root paths: one run per block.
pub open spec fn tx_pieces(g: &MetaGeometry) -> Seq<Piece> {
    Seq::new(
        g.shape.tiles as nat,
        |j: int|
            Piece {
                base: family_slot(g, j, g.shape.paired_families() as int) as usize,
                from: 0,
                slots: (g.shape.tx_cap() * g.shape.tx_stride()) as usize,
                source: j as usize,
            },
    )
}

/// Every spine lies in its own part of the spine region.
pub proof fn lemma_spine_slots(shape: MetaShape, blk: int, i: int)
    requires
        shape.wf(),
        0 <= blk < shape.tiles,
        0 <= i < shape.spine_cap(),
    ensures
        shape.spine_base() + blk * shape.spine_per_tx() <= tree_slot(shape, blk, i),
        tree_slot(shape, blk, i) + 32 <= shape.spine_base() + blk * shape.spine_per_tx()
            + shape.spine_cap() * 32,
        shape.spine_base() + blk * shape.spine_per_tx() + shape.spine_cap() * 32 <= wrap_slot_of(
            shape,
            blk,
            i,
        ),
        wrap_slot_of(shape, blk, i) + shape.wrap_slots <= shape.spine_base() + (blk + 1)
            * shape.spine_per_tx(),
        shape.spine_base() + (blk + 1) * shape.spine_per_tx() <= shape.meta_a_slots(),
{
    lemma_meta_a_parts(shape);
    let cap = shape.spine_cap() as int;
    let per = shape.spine_per_tx() as int;
    let w = shape.wrap_slots as int;
    assert(cap * (32 + w) == cap * 32 + cap * w) by (nonlinear_arith);
    assert(i * w >= 0) by (nonlinear_arith)
        requires
            i >= 0,
            w >= 0,
    ;
    assert((i + 1) * w <= cap * w) by (nonlinear_arith)
        requires
            i + 1 <= cap,
            w >= 0,
    ;
    assert((i + 1) * w == i * w + w) by (nonlinear_arith);
    assert((blk + 1) * per == blk * per + per) by (nonlinear_arith);
    assert((blk + 1) * per <= shape.tiles * per) by (nonlinear_arith)
        requires
            blk + 1 <= shape.tiles,
            per >= 0,
    ;
    assert(blk * per >= 0) by (nonlinear_arith)
        requires
            blk >= 0,
            per >= 0,
    ;
}

/// Every family lies in its own part of its block of the second walk.
pub proof fn lemma_family_slots(g: &MetaGeometry, blk: int, f: int)
    requires
        g.wf(),
        0 <= blk < g.shape.tiles,
        0 <= f < g.shape.family_slots().len(),
    ensures
        blk * g.meta_b->0.block_slots <= family_slot(g, blk, f),
        family_slot(g, blk, f) + g.shape.family_slots()[f] <= (blk + 1)
            * g.meta_b->0.block_slots,
        (blk + 1) * g.meta_b->0.block_slots <= g.meta_b_slots(),
        forall|h: int|
            f < h < g.shape.family_slots().len() ==> family_slot(g, blk, f)
                + g.shape.family_slots()[f] <= #[trigger] family_slot(g, blk, h),
{
    let layout = g.meta_b->0;
    let legs = usizes(g.shape.family_slots());
    assert(legs[f] == g.shape.family_slots()[f]);
    crate::region_layout::lemma_prefix_sum_mono(legs, (f + 1) as nat, legs.len());
    assert(layout.bases@[f] == prefix_sum(legs, f as nat));
    let block = layout.block_slots as int;
    assert((blk + 1) * block == blk * block + block) by (nonlinear_arith);
    assert((blk + 1) * block <= g.shape.tiles * block) by (nonlinear_arith)
        requires
            blk + 1 <= g.shape.tiles,
            block >= 0,
    ;
    assert forall|h: int| f < h < g.shape.family_slots().len() implies family_slot(g, blk, f)
        + g.shape.family_slots()[f] <= #[trigger] family_slot(g, blk, h) by {
        crate::region_layout::lemma_legs_disjoint(layout, g.shape.tiles as nat, legs, f, h);
    }
}

fn list_overflow_a(g: &MetaGeometry) -> (r: Vec<Piece>)
    requires
        g.wf(),
        g.shape.overflow,
    ensures
        r@ == overflow_a_pieces(g),
        forall|p: int| 0 <= p < r@.len() ==> (#[trigger] r@[p]).base + 16 <= g.meta_slots,
{
    let mut r: Vec<Piece> = Vec::new();
    let k = g.shape.tiles;
    let mut tx: usize = 0;
    proof {
        lemma_meta_a_parts(g.shape);
    }
    while tx < k
        invariant
            tx <= k,
            g.wf(),
            g.shape.overflow,
            k == g.shape.tiles,
            g.es_region_slots + k * 32 <= g.meta_slots,
            r@.len() == 2 * tx,
            forall|j: int| 0 <= j < r@.len() ==> #[trigger] r@[j] == overflow_a_pieces(g)[j],
            forall|p: int| 0 <= p < r@.len() ==> (#[trigger] r@[p]).base + 16 <= g.meta_slots,
        decreases k - tx,
    {
        let at: usize = g.es_region_slots + tx * CAPSULE_LEAF_STRIDE;
        let from: usize = tx * 32;
        let ghost j = 2 * tx as int;
        r.push(Piece { base: at, from, slots: CAPSULE_LEAF_STRIDE, source: 0 });
        r.push(
            Piece {
                base: at + k * CAPSULE_LEAF_STRIDE,
                from: from + CAPSULE_LEAF_STRIDE,
                slots: CAPSULE_LEAF_STRIDE,
                source: 0,
            },
        );
        proof {
            assert(j % 2 == 0 && j / 2 == tx);
            assert((j + 1) % 2 == 1 && (j + 1) / 2 == tx);
            assert(1 * (k * 16) == k * 16);
            assert(0 * (k * 16) == 0);
            assert(r@[j] == overflow_a_pieces(g)[j]);
            assert(r@[j + 1] == overflow_a_pieces(g)[j + 1]);
        }
        tx = tx + 1;
    }
    assert(r@ =~= overflow_a_pieces(g));
    r
}

fn list_spine(g: &MetaGeometry) -> (r: Vec<Piece>)
    requires
        g.wf(),
        g.shape.instances > 0,
        2 * (g.shape.tiles * g.shape.spine_cap()) <= usize::MAX,
    ensures
        r@ == spine_pieces(g),
        forall|p: int|
            0 <= p < r@.len() ==> (#[trigger] r@[p]).base + r@[p].slots <= g.meta_slots,
{
    let mut r: Vec<Piece> = Vec::new();
    let k = g.shape.tiles;
    let cap = g.spine_cap;
    let mut blk: usize = 0;
    proof {
        lemma_meta_a_parts(g.shape);
        assert(0 * cap == 0);
    }
    while blk < k
        invariant
            blk <= k,
            g.wf(),
            k == g.shape.tiles,
            cap == g.spine_cap,
            cap > 0,
            2 * (k * cap) <= usize::MAX,
            r@.len() == 2 * (blk * cap),
            forall|j: int| 0 <= j < r@.len() ==> #[trigger] r@[j] == spine_pieces(g)[j],
            forall|p: int|
                0 <= p < r@.len() ==> (#[trigger] r@[p]).base + r@[p].slots <= g.meta_slots,
        decreases k - blk,
    {
        let mut i: usize = 0;
        proof {
            assert((blk + 1) * cap <= k * cap) by (nonlinear_arith)
                requires
                    blk + 1 <= k,
            ;
            assert((blk + 1) * cap == blk * cap + cap) by (nonlinear_arith);
        }
        while i < cap
            invariant
                i <= cap,
                blk < k,
                g.wf(),
                k == g.shape.tiles,
                cap == g.spine_cap,
                cap > 0,
                2 * (k * cap) <= usize::MAX,
                blk * cap + cap <= k * cap,
                r@.len() == 2 * (blk * cap + i),
                forall|j: int| 0 <= j < r@.len() ==> #[trigger] r@[j] == spine_pieces(g)[j],
                forall|p: int|
                    0 <= p < r@.len() ==> (#[trigger] r@[p]).base + r@[p].slots <= g.meta_slots,
            decreases cap - i,
        {
            let ghost inst = (blk * cap + i) as int;
            proof {
                lemma_spine_slots(g.shape, blk as int, i as int);
                vstd::arithmetic::div_mod::lemma_fundamental_div_mod_converse(
                    inst,
                    cap as int,
                    blk as int,
                    i as int,
                );
                assert(blk * cap == cap * blk) by (nonlinear_arith);
                assert(blk * g.spine_per_tx <= g.meta_slots);
                assert(i * g.shape.wrap_slots >= 0) by (nonlinear_arith);
                assert(blk * g.spine_per_tx >= 0) by (nonlinear_arith);
            }
            let source: usize = 2 * (blk * cap + i);
            let block: usize = g.spine_meta_base + blk * g.spine_per_tx;
            let tree: usize = block + i * SPINE_TREE_SLOTS;
            let wrap: usize = block + cap * SPINE_TREE_SLOTS + i * g.shape.wrap_slots;
            r.push(Piece { base: tree, from: 0, slots: SPINE_TREE_SLOTS, source });
            r.push(Piece { base: wrap, from: 0, slots: g.shape.wrap_slots, source: source + 1 });
            proof {
                let q = source as int;
                assert(q % 2 == 0 && q / 2 == inst);
                assert((q + 1) % 2 == 1 && (q + 1) / 2 == inst);
                assert(r@[q] == spine_pieces(g)[q]);
                assert(r@[q + 1] == spine_pieces(g)[q + 1]);
            }
            i = i + 1;
        }
        blk = blk + 1;
    }
    assert(r@ =~= spine_pieces(g));
    r
}

fn list_overflow_b(g: &MetaGeometry, layout: &TiledWalkLayout) -> (r: Vec<Piece>)
    requires
        g.wf(),
        g.shape.overflow,
        g.meta_b == Some(*layout),
    ensures
        r@ == overflow_b_pieces(g),
        forall|p: int|
            0 <= p < r@.len() ==> (#[trigger] r@[p]).base + r@[p].slots <= g.meta_b_slots(),
{
    let mut r: Vec<Piece> = Vec::new();
    let k = g.shape.tiles;
    let first: usize = if g.shape.leaves > 0 && g.shape.tx_paths > 0 {
        3
    } else if g.shape.leaves > 0 {
        2
    } else if g.shape.tx_paths > 0 {
        1
    } else {
        0
    };
    let ghost sizes = g.shape.family_slots();
    assert(first == g.shape.paired_families() + g.shape.tx_families());
    assert(sizes.len() == first + 2 && sizes[first as int] == 10 && sizes[first + 1] == 6);
    let mut tx: usize = 0;
    while tx < k
        invariant
            tx <= k,
            g.wf(),
            g.shape.overflow,
            g.meta_b == Some(*layout),
            k == g.shape.tiles,
            sizes == g.shape.family_slots(),
            first == g.shape.paired_families() + g.shape.tx_families(),
            sizes.len() == first + 2,
            sizes[first as int] == 10,
            sizes[first + 1] == 6,
            r@.len() == 2 * tx,
            forall|j: int| 0 <= j < r@.len() ==> #[trigger] r@[j] == overflow_b_pieces(g)[j],
            forall|p: int|
                0 <= p < r@.len() ==> (#[trigger] r@[p]).base + r@[p].slots <= g.meta_b_slots(),
        decreases k - tx,
    {
        let ghost j = 2 * tx as int;
        proof {
            lemma_family_slots(g, tx as int, first as int);
            lemma_family_slots(g, tx as int, first + 1);
            assert(tx * layout.block_slots >= 16 * tx) by {
                assert(layout.block_slots >= 16) by {
                    assert(family_slot(g, 0, first as int) >= 0);
                    lemma_family_slots(g, 0, first as int);
                    lemma_family_slots(g, 0, first + 1);
                    assert(family_slot(g, 0, first + 1) + 6 <= 1 * layout.block_slots);
                    assert(family_slot(g, 0, first as int) + 10 <= family_slot(g, 0, first + 1));
                }
                assert(tx * layout.block_slots >= 16 * tx) by (nonlinear_arith)
                    requires
                        layout.block_slots >= 16,
                        tx >= 0,
                ;
            }
        }
        let at: usize = tx * layout.block_slots;
        let from: usize = tx * 16;
        r.push(
            Piece { base: at + layout.bases[first], from, slots: SOURCE_PATH_DEPTH, source: 0 },
        );
        r.push(
            Piece {
                base: at + layout.bases[first + 1],
                from: from + SOURCE_PATH_DEPTH,
                slots: MID_PATH_DEPTH,
                source: 0,
            },
        );
        proof {
            assert(j % 2 == 0 && j / 2 == tx);
            assert((j + 1) % 2 == 1 && (j + 1) / 2 == tx);
            assert(r@[j] == overflow_b_pieces(g)[j]);
            assert(r@[j + 1] == overflow_b_pieces(g)[j + 1]);
        }
        tx = tx + 1;
    }
    assert(r@ =~= overflow_b_pieces(g));
    r
}

fn list_paired(g: &MetaGeometry, layout: &TiledWalkLayout) -> (r: Vec<Piece>)
    requires
        g.wf(),
        g.shape.leaves > 0,
        g.meta_b == Some(*layout),
        2 * g.shape.tiles <= usize::MAX,
    ensures
        r@ == paired_pieces(g),
        forall|p: int|
            0 <= p < r@.len() ==> (#[trigger] r@[p]).base + r@[p].slots <= g.meta_b_slots(),
{
    let mut r: Vec<Piece> = Vec::new();
    let k = g.shape.tiles;
    let ghost sizes = g.shape.family_slots();
    assert(sizes[0] == g.shape.local_cap() * 64);
    assert(sizes[1] == g.shape.upper_cap() * 64);
    let mut blk: usize = 0;
    while blk < k
        invariant
            blk <= k,
            g.wf(),
            g.shape.leaves > 0,
            g.meta_b == Some(*layout),
            k == g.shape.tiles,
            2 * k <= usize::MAX,
            sizes == g.shape.family_slots(),
            sizes.len() >= 2,
            sizes[0] == g.shape.local_cap() * 64,
            sizes[1] == g.shape.upper_cap() * 64,
            r@.len() == 2 * blk,
            forall|j: int| 0 <= j < r@.len() ==> #[trigger] r@[j] == paired_pieces(g)[j],
            forall|p: int|
                0 <= p < r@.len() ==> (#[trigger] r@[p]).base + r@[p].slots <= g.meta_b_slots(),
        decreases k - blk,
    {
        let ghost j = 2 * blk as int;
        proof {
            lemma_family_slots(g, blk as int, 0);
            lemma_family_slots(g, blk as int, 1);
        }
        let at: usize = blk * layout.block_slots;
        r.push(
            Piece {
                base: at + layout.bases[0],
                from: 0,
                slots: g.local_cap * PAIRED_UPDATE_STRIDE,
                source: 2 * blk,
            },
        );
        r.push(
            Piece {
                base: at + layout.bases[1],
                from: 0,
                slots: g.upper_cap * PAIRED_UPDATE_STRIDE,
                source: 2 * blk + 1,
            },
        );
        proof {
            assert(j % 2 == 0 && j / 2 == blk);
            assert((j + 1) % 2 == 1 && (j + 1) / 2 == blk);
            assert(r@[j] == paired_pieces(g)[j]);
            assert(r@[j + 1] == paired_pieces(g)[j + 1]);
        }
        blk = blk + 1;
    }
    assert(r@ =~= paired_pieces(g));
    r
}

fn list_tx(g: &MetaGeometry, layout: &TiledWalkLayout) -> (r: Vec<Piece>)
    requires
        g.wf(),
        g.shape.tx_paths > 0,
        g.meta_b == Some(*layout),
    ensures
        r@ == tx_pieces(g),
        forall|p: int|
            0 <= p < r@.len() ==> (#[trigger] r@[p]).base + r@[p].slots <= g.meta_b_slots(),
{
    let mut r: Vec<Piece> = Vec::new();
    let k = g.shape.tiles;
    let ghost sizes = g.shape.family_slots();
    let f: usize = if g.shape.leaves > 0 {
        2
    } else {
        0
    };
    assert(f == g.shape.paired_families());
    assert(sizes[f as int] == g.shape.tx_cap() * g.shape.tx_stride());
    let mut blk: usize = 0;
    while blk < k
        invariant
            blk <= k,
            g.wf(),
            g.shape.tx_paths > 0,
            g.meta_b == Some(*layout),
            k == g.shape.tiles,
            sizes == g.shape.family_slots(),
            f == g.shape.paired_families(),
            f < sizes.len(),
            sizes[f as int] == g.shape.tx_cap() * g.shape.tx_stride(),
            r@.len() == blk,
            forall|j: int| 0 <= j < r@.len() ==> #[trigger] r@[j] == tx_pieces(g)[j],
            forall|p: int|
                0 <= p < r@.len() ==> (#[trigger] r@[p]).base + r@[p].slots <= g.meta_b_slots(),
        decreases k - blk,
    {
        proof {
            lemma_family_slots(g, blk as int, f as int);
        }
        let at: usize = blk * layout.block_slots;
        r.push(
            Piece {
                base: at + layout.bases[f],
                from: 0,
                slots: g.tx_cap * g.tx_stride,
                source: blk,
            },
        );
        assert(r@[blk as int] == tx_pieces(g)[blk as int]);
        blk = blk + 1;
    }
    assert(r@ =~= tx_pieces(g));
    r
}

/// The endpoint states of the canonical slot, the permutation of zero.
pub struct GhostState {
    pub s0: Vec<F128>,
    pub s_out: Vec<F128>,
}

impl GhostState {
    pub open spec fn wf(&self) -> bool {
        self.s0@.len() == 4 && self.s_out@.len() == 4
    }

    /// The canonical cell of track `t` of the first walk.
    pub open spec fn cell_a(&self, t: int) -> F128 {
        if t < 4 {
            F128 { bits: 0 }
        } else if t < 8 {
            self.s_out@[t - 4]
        } else if t < 12 {
            self.s0@[t - 8]
        } else {
            self.s_out@[t - 12]
        }
    }

    /// The canonical cell of track `t` of the second walk.
    pub open spec fn cell_b(&self, t: int) -> F128 {
        if t < 4 {
            self.s_out@[t]
        } else if t < 9 {
            F128 { bits: 0 }
        } else if t < 13 {
            self.s0@[t - 9]
        } else {
            self.s_out@[t - 13]
        }
    }

    fn cells_a(&self) -> (r: Vec<F128>)
        requires
            self.wf(),
        ensures
            r@.len() == 16,
            forall|t: int| 0 <= t < 16 ==> #[trigger] r@[t] == self.cell_a(t),
    {
        let mut r: Vec<F128> = Vec::new();
        let mut t: usize = 0;
        while t < 16
            invariant
                t <= 16,
                self.wf(),
                r@.len() == t,
                forall|u: int| 0 <= u < t ==> #[trigger] r@[u] == self.cell_a(u),
            decreases 16 - t,
        {
            let cell = if t < 4 {
                F128::zero()
            } else if t < 8 {
                self.s_out[t - 4]
            } else if t < 12 {
                self.s0[t - 8]
            } else {
                self.s_out[t - 12]
            };
            r.push(cell);
            t = t + 1;
        }
        r
    }

    fn cells_b(&self) -> (r: Vec<F128>)
        requires
            self.wf(),
        ensures
            r@.len() == 17,
            forall|t: int| 0 <= t < 17 ==> #[trigger] r@[t] == self.cell_b(t),
    {
        let mut r: Vec<F128> = Vec::new();
        let mut t: usize = 0;
        while t < 17
            invariant
                t <= 17,
                self.wf(),
                r@.len() == t,
                forall|u: int| 0 <= u < t ==> #[trigger] r@[u] == self.cell_b(u),
            decreases 17 - t,
        {
            let cell = if t < 4 {
                self.s_out[t]
            } else if t < 9 {
                F128::zero()
            } else if t < 13 {
                self.s0[t - 9]
            } else {
                self.s_out[t - 13]
            };
            r.push(cell);
            t = t + 1;
        }
        r
    }
}

/// A family's columns: `n` tracks of `len` cells each, except that the tracks
/// from `lo` up to `hi` are not written.
pub open spec fn family_tracks(columns: WalkColumns, n: int, lo: int, hi: int, len: nat) -> bool {
    &&& columns.tracks@.len() == n
    &&& forall|t: int|
        0 <= t < n ==> if lo <= t < hi {
            (#[trigger] columns.tracks@[t])@.len() == 0
        } else {
            columns.tracks@[t]@.len() >= len
        }
}

/// The columns of the families of both walks.
pub struct MetaSources {
    /// Overflow leaves, transaction-major; one entry, or none.
    pub overflow_a: Vec<WalkColumns>,
    /// Exact-state leaves; one entry, or none.
    pub leaves: Vec<WalkColumns>,
    /// The tree and the wrap of every spine, in order of blocks.
    pub spines: Vec<WalkColumns>,
    /// Overflow paths, transaction-major; one entry, or none.
    pub overflow_b: Vec<WalkColumns>,
    /// The local and the upper updates of every block.
    pub paired: Vec<WalkColumns>,
    /// The transaction-root paths of every block.
    pub tx_root: Vec<WalkColumns>,
}

impl MetaSources {
    /// The columns of the first walk are those of a shape.
    pub open spec fn fits_a(&self, shape: MetaShape) -> bool {
        &&& (if shape.overflow {
            self.overflow_a@.len() == 1 && family_tracks(
                self.overflow_a@[0],
                16,
                0,
                2,
                shape.tiles as nat * 32,
            )
        } else {
            self.overflow_a@.len() == 0
        })
        &&& (if shape.leaves > 0 {
            self.leaves@.len() == 1 && family_tracks(self.leaves@[0], 16, 0, 2, shape.es_slots())
        } else {
            self.leaves@.len() == 0
        })
        &&& self.spines@.len() == 2 * (shape.tiles * shape.spine_cap())
        &&& forall|q: int|
            0 <= q < self.spines@.len() ==> if q % 2 == 0 {
                family_tracks(#[trigger] self.spines@[q], 16, 2, 4, 32)
            } else {
                family_tracks(self.spines@[q], 16, 0, 2, shape.wrap_slots as nat)
            }
    }

    /// The columns of the second walk are those of a shape.
    pub open spec fn fits_b(&self, shape: MetaShape) -> bool {
        &&& (if shape.overflow {
            self.overflow_b@.len() == 1 && family_tracks(
                self.overflow_b@[0],
                17,
                0,
                0,
                shape.tiles as nat * 16,
            )
        } else {
            self.overflow_b@.len() == 0
        })
        &&& self.paired@.len() == if shape.leaves > 0 {
            2 * shape.tiles as int
        } else {
            0
        }
        &&& forall|j: int|
            0 <= j < self.paired@.len() ==> family_tracks(
                #[trigger] self.paired@[j],
                17,
                0,
                0,
                64 * if j % 2 == 0 {
                    shape.local_cap()
                } else {
                    shape.upper_cap()
                },
            )
        &&& self.tx_root@.len() == if shape.tx_paths > 0 {
            shape.tiles as int
        } else {
            0
        }
        &&& forall|j: int|
            0 <= j < self.tx_root@.len() ==> family_tracks(
                #[trigger] self.tx_root@[j],
                17,
                0,
                0,
                shape.tx_cap() * shape.tx_stride(),
            )
    }
}

pub open spec fn overflow_a_list(g: &MetaGeometry) -> Seq<Piece> {
    if g.shape.overflow {
        overflow_a_pieces(g)
    } else {
        seq![]
    }
}

pub open spec fn leaf_list(g: &MetaGeometry) -> Seq<Piece> {
    if g.shape.leaves > 0 {
        seq![Piece { base: 0, from: 0, slots: g.es_region_slots, source: 0 }]
    } else {
        seq![]
    }
}

pub open spec fn spine_list(g: &MetaGeometry) -> Seq<Piece> {
    if g.shape.instances > 0 {
        spine_pieces(g)
    } else {
        seq![]
    }
}

pub open spec fn overflow_b_list(g: &MetaGeometry) -> Seq<Piece> {
    if g.shape.overflow {
        overflow_b_pieces(g)
    } else {
        seq![]
    }
}

pub open spec fn paired_list(g: &MetaGeometry) -> Seq<Piece> {
    if g.shape.leaves > 0 {
        paired_pieces(g)
    } else {
        seq![]
    }
}

pub open spec fn tx_list(g: &MetaGeometry) -> Seq<Piece> {
    if g.shape.tx_paths > 0 {
        tx_pieces(g)
    } else {
        seq![]
    }
}

/// The cell of the first walk: a canonical cell, over which the overflow
/// leaves, the exact-state leaves and the spines are copied.
pub open spec fn meta_a_cell(
    g: &MetaGeometry,
    ghosts: &GhostState,
    sources: &MetaSources,
    t: int,
    slot: int,
) -> F128 {
    let c0 = ghosts.cell_a(t);
    let over = overflow_a_list(g);
    let c1 = placed_cell(over, over.len(), sources.overflow_a@, t, slot, c0);
    let leaf = leaf_list(g);
    let c2 = placed_cell(leaf, leaf.len(), sources.leaves@, t, slot, c1);
    let spine = spine_list(g);
    placed_cell(spine, spine.len(), sources.spines@, t, slot, c2)
}

/// The cell of the second walk: a canonical cell, over which the overflow
/// paths, the paired updates and the transaction-root paths are copied.
pub open spec fn meta_b_cell(
    g: &MetaGeometry,
    ghosts: &GhostState,
    sources: &MetaSources,
    t: int,
    slot: int,
) -> F128 {
    let c0 = ghosts.cell_b(t);
    let over = overflow_b_list(g);
    let c1 = placed_cell(over, over.len(), sources.overflow_b@, t, slot, c0);
    let paired = paired_list(g);
    let c2 = placed_cell(paired, paired.len(), sources.paired@, t, slot, c1);
    let tx = tx_list(g);
    placed_cell(tx, tx.len(), sources.tx_root@, t, slot, c2)
}

/// Builds the first walk: the eight committed tracks, then the entry and the
/// exit state of every slot.
pub fn meta_a_plane(g: &MetaGeometry, ghosts: &GhostState, sources: &MetaSources) -> (r:
    WalkColumns)
    requires
        g.wf(),
        ghosts.wf(),
        sources.fits_a(g.shape),
    ensures
        rectangular(r, 16, g.meta_slots as nat),
        forall|t: int, slot: int|
            0 <= t < 16 && 0 <= slot < g.meta_slots ==> #[trigger] r.tracks@[t]@[slot]
                == meta_a_cell(g, ghosts, sources, t, slot),
{
    let len = g.meta_slots;
    proof {
        lemma_meta_a_parts(g.shape);
    }
    let cells = ghosts.cells_a();
    let p0 = uniform_plane(&cells, len);
    let over = if g.shape.overflow {
        list_overflow_a(g)
    } else {
        Vec::new()
    };
    assert(over@ =~= overflow_a_list(g));
    proof {
        assert forall|p: int| 0 <= p < over@.len() implies (#[trigger] over@[p]).fits(
            sources.overflow_a@,
            16,
            len as nat,
        ) by {
            assert(over@[p].from + 16 <= g.shape.tiles * 32);
        }
    }
    let p1 = place_pieces(&p0, &over, &sources.overflow_a, len);
    let mut leaf: Vec<Piece> = Vec::new();
    if g.shape.leaves > 0 {
        leaf.push(Piece { base: 0, from: 0, slots: g.es_region_slots, source: 0 });
    }
    assert(leaf@ =~= leaf_list(g));
    let p2 = place_pieces(&p1, &leaf, &sources.leaves, len);
    let spines = sources.spines.len();
    let spine = if g.shape.instances > 0 {
        list_spine(g)
    } else {
        Vec::new()
    };
    assert(spine@ =~= spine_list(g));
    proof {
        assert forall|p: int| 0 <= p < spine@.len() implies (#[trigger] spine@[p]).fits(
            sources.spines@,
            16,
            len as nat,
        ) by {
            assert(spine@[p] == spine_pieces(g)[p]);
            assert(spine@[p].source == p);
            if p % 2 == 0 {
                assert(family_tracks(sources.spines@[p], 16, 2, 4, 32));
            } else {
                assert(family_tracks(sources.spines@[p], 16, 0, 2, g.shape.wrap_slots as nat));
            }
        }
    }
    let r = place_pieces(&p2, &spine, &sources.spines, len);
    proof {
        assert forall|t: int, slot: int| 0 <= t < 16 && 0 <= slot < len implies #[trigger] r.tracks@[t]@[slot]
            == meta_a_cell(g, ghosts, sources, t, slot) by {
            assert(p0.tracks@[t]@[slot] == cells@[t]);
            assert(p1.tracks@[t]@[slot] == placed_cell(
                over@,
                over@.len(),
                sources.overflow_a@,
                t,
                slot,
                p0.tracks@[t]@[slot],
            ));
            assert(p2.tracks@[t]@[slot] == placed_cell(
                leaf@,
                leaf@.len(),
                sources.leaves@,
                t,
                slot,
                p1.tracks@[t]@[slot],
            ));
        }
    }
    r
}

/// Builds the second walk: the nine committed tracks, then the entry and the
/// exit state of every slot.
pub fn meta_b_plane(g: &MetaGeometry, ghosts: &GhostState, sources: &MetaSources) -> (r:
    WalkColumns)
    requires
        g.wf(),
        ghosts.wf(),
        sources.fits_b(g.shape),
    ensures
        rectangular(r, 17, g.meta_b_slots()),
        forall|t: int, slot: int|
            0 <= t < 17 && 0 <= slot < g.meta_b_slots() ==> #[trigger] r.tracks@[t]@[slot]
                == meta_b_cell(g, ghosts, sources, t, slot),
{
    let cells = ghosts.cells_b();
    let mut over: Vec<Piece> = Vec::new();
    let mut paired: Vec<Piece> = Vec::new();
    let mut tx: Vec<Piece> = Vec::new();
    let mut len: usize = 0;
    let paired_len = sources.paired.len();
    let ghost sizes = g.shape.family_slots();
    match &g.meta_b {
        Some(layout) => {
            len = layout.slots;
            if g.shape.overflow {
                over = list_overflow_b(g, layout);
            }
            if g.shape.leaves > 0 {
                paired = list_paired(g, layout);
            }
            if g.shape.tx_paths > 0 {
                tx = list_tx(g, layout);
            }
        },
        None => {
            proof {
                if g.shape.leaves > 0 {
                    assert(sizes[0] == g.shape.local_cap() * 64);
                }
                if g.shape.overflow {
                    assert(sizes.last() == 6);
                }
                if g.shape.tx_paths > 0 {
                    assert(sizes[g.shape.paired_families() as int] == g.shape.tx_cap()
                        * g.shape.tx_stride());
                }
            }
        },
    }
    assert(over@ =~= overflow_b_list(g));
    assert(paired@ =~= paired_list(g));
    assert(tx@ =~= tx_list(g));
    let p0 = uniform_plane(&cells, len);
    proof {
        assert forall|p: int| 0 <= p < over@.len() implies (#[trigger] over@[p]).fits(
            sources.overflow_b@,
            17,
            len as nat,
        ) by {
            assert(over@[p] == overflow_b_pieces(g)[p]);
        }
        assert forall|p: int| 0 <= p < paired@.len() implies (#[trigger] paired@[p]).fits(
            sources.paired@,
            17,
            len as nat,
        ) by {
            assert(paired@[p] == paired_pieces(g)[p]);
            assert(sizes[0] == g.shape.local_cap() * 64);
            assert(sizes[1] == g.shape.upper_cap() * 64);
            assert(paired@[p].source == p);
            assert(paired@[p].slots == 64 * if p % 2 == 0 {
                g.shape.local_cap()
            } else {
                g.shape.upper_cap()
            });
        }
        assert forall|p: int| 0 <= p < tx@.len() implies (#[trigger] tx@[p]).fits(
            sources.tx_root@,
            17,
            len as nat,
        ) by {
            assert(tx@[p] == tx_pieces(g)[p]);
            assert(sizes[g.shape.paired_families() as int] == g.shape.tx_cap()
                * g.shape.tx_stride());
            assert(tx@[p].source == p);
        }
    }
    let p1 = place_pieces(&p0, &over, &sources.overflow_b, len);
    let p2 = place_pieces(&p1, &paired, &sources.paired, len);
    let r = place_pieces(&p2, &tx, &sources.tx_root, len);
    proof {
        assert forall|t: int, slot: int| 0 <= t < 17 && 0 <= slot < len implies #[trigger] r.tracks@[t]@[slot]
            == meta_b_cell(g, ghosts, sources, t, slot) by {
            assert(p0.tracks@[t]@[slot] == cells@[t]);
            assert(p1.tracks@[t]@[slot] == placed_cell(
                over@,
                over@.len(),
                sources.overflow_b@,
                t,
                slot,
                p0.tracks@[t]@[slot],
            ));
            assert(p2.tracks@[t]@[slot] == placed_cell(
                paired@,
                paired@.len(),
                sources.paired@,
                t,
                slot,
                p1.tracks@[t]@[slot],
            ));
        }
    }
    r
}

} // verus!
