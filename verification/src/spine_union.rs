//! The spine families of the leaf walk, and where their exposure points.
use crate::field::F128;
use crate::meta_region::SPINE_TREE_SLOTS;
use crate::relation_terms::{SourceTreeRefs, SpongeLeafRefs};
use vstd::arithmetic::div_mod::{lemma_div_denominator, lemma_fundamental_div_mod};
use vstd::arithmetic::power2::{lemma2_to64, lemma_pow2_adds, lemma_pow2_pos, lemma_pow2_unfold, pow2};
use vstd::prelude::*;

verus! {

/// The values of a list of elements.
pub open spec fn point_values(p: Seq<F128>) -> Seq<u128> {
    p.map_values(|f: F128| f@)
}

/// The wiring of the spine families: the tree, the one-slot wrap, and where
/// the exposed children lie in the leaf walk.
pub struct SpineUnionSpec {
    pub tree_refs: SourceTreeRefs,
    pub wrap_refs: SpongeLeafRefs,
    pub wrap_region: usize,
    pub kid_meta: [usize; 2],
    pub c_meta: [usize; 2],
    /// The logarithms of the instances of a block and of the transactions.
    pub cap_log: usize,
    pub tx_log: usize,
    /// Where the tree of the first instance lies in its block.
    pub tree_base: usize,
    pub block_log_a: usize,
    /// The coordinates above the spine region.
    pub walk_high_bits: Vec<F128>,
}

impl SpineUnionSpec {
    /// The coordinates below those that select the tree run.
    pub open spec fn start(&self) -> nat {
        (5 + self.cap_log) as nat
    }

    /// The tree run starts on a multiple of its size.
    pub open spec fn wf(&self) -> bool {
        &&& self.start() <= usize::MAX
        &&& pow2(self.start()) <= usize::MAX
        &&& self.tree_base as int % pow2(self.start()) as int == 0
    }

    /// Bit `k` of the index of the tree run in its block.
    pub open spec fn base_bit(&self, k: int) -> u128 {
        if (self.tree_base as int / pow2(self.start()) as int) / pow2(k as nat) as int % 2 == 1 {
            1
        } else {
            0
        }
    }

    /// The coordinates that select the tree run.
    pub open spec fn base(&self) -> Seq<u128> {
        Seq::new(
            if self.start() <= self.block_log_a {
                (self.block_log_a - self.start()) as nat
            } else {
                0
            },
            |k: int| self.base_bit(k),
        )
    }

    pub open spec fn kid_point(&self, p: Seq<u128>) -> Seq<u128> {
        p.subrange(0, 4) + seq![0u128] + p.subrange(4, 4 + self.cap_log) + self.base()
            + p.subrange(4 + self.cap_log, p.len() as int) + point_values(self.walk_high_bits@)
    }

    pub open spec fn c_point(&self, p: Seq<u128>) -> Seq<u128> {
        seq![1u128] + p.subrange(0, 4) + p.subrange(4, 4 + self.cap_log) + self.base()
            + p.subrange(4 + self.cap_log, p.len() as int) + point_values(self.walk_high_bits@)
    }

    /// The bits that address a child inside a tree: half its slots are children.
    pub fn local_log(&self) -> (r: usize)
        ensures
            r == 4,
            pow2(r as nat) * 2 == SPINE_TREE_SLOTS,
    {
        proof {
            lemma2_to64();
        }
        4
    }

    /// The logarithm of the exposed children.
    pub fn expo_wlog(&self) -> (r: usize)
        requires
            4 + self.cap_log + self.tx_log <= usize::MAX,
        ensures
            r == 4 + self.cap_log + self.tx_log,
    {
        self.local_log() + self.cap_log + self.tx_log
    }

    /// The coordinates that select the tree run, lowest first.
    pub fn base_bits(&self) -> (r: Vec<F128>)
        requires
            self.wf(),
        ensures
            point_values(r@) == self.base(),
    {
        let start = self.local_log() + 1 + self.cap_log;
        let mut size: usize = 1;
        let mut i: usize = 0;
        proof {
            lemma2_to64();
        }
        while i < start
            invariant
                i <= start,
                start == self.start(),
                pow2(self.start()) <= usize::MAX,
                size == pow2(i as nat),
            decreases start - i,
        {
            proof {
                lemma_pow2_unfold((i + 1) as nat);
                crate::dyadic::lemma_pow2_mono((i + 1) as nat, start as nat);
            }
            size = size * 2;
            i = i + 1;
        }
        proof {
            lemma_pow2_pos(start as nat);
        }
        let run: usize = self.tree_base / size;
        let mut s: usize = run;
        proof {
            lemma2_to64();
            assert(run as int / pow2(0) as int == run);
        }
        let mut r: Vec<F128> = Vec::new();
        let mut bit: usize = start;
        while bit < self.block_log_a
            invariant
                self.wf(),
                start == self.start(),
                start <= bit,
                bit <= self.block_log_a || bit == start,
                run == self.tree_base as int / pow2(self.start()) as int,
                r@.len() == bit - start,
                s == run as int / pow2((bit - start) as nat) as int,
                forall|k: int| 0 <= k < r@.len() ==> (#[trigger] r@[k])@ == self.base_bit(k),
            decreases self.block_log_a - bit,
        {
            let ghost k = (bit - start) as nat;
            proof {
                lemma_pow2_unfold(k + 1);
                lemma_pow2_pos(k);
                lemma_div_denominator(run as int, pow2(k) as int, 2);
                assert(pow2(k + 1) == pow2(k) * 2) by (nonlinear_arith)
                    requires
                        pow2(k + 1) == 2 * pow2(k),
                ;
            }
            let value = if s % 2 == 1 {
                F128::one()
            } else {
                F128::zero()
            };
            r.push(value);
            s = s / 2;
            bit = bit + 1;
        }
        assert(point_values(r@) =~= self.base());
        r
    }

    /// Where a claim on a child points: below the run half, in its instance,
    /// its run, its transaction.
    pub fn repoint_kid(&self, expo_point: &Vec<F128>) -> (r: Vec<F128>)
        requires
            self.wf(),
            4 + self.cap_log <= expo_point@.len(),
        ensures
            point_values(r@) == self.kid_point(point_values(expo_point@)),
    {
        let base = self.base_bits();
        let mut r: Vec<F128> = Vec::new();
        push_range(&mut r, expo_point, 0, 4);
        r.push(F128::zero());
        push_range(&mut r, expo_point, 4, 4 + self.cap_log);
        push_range(&mut r, &base, 0, base.len());
        push_range(&mut r, expo_point, 4 + self.cap_log, expo_point.len());
        push_range(&mut r, &self.walk_high_bits, 0, self.walk_high_bits.len());
        proof {
            let p = point_values(expo_point@);
            assert(point_values(r@) =~= self.kid_point(p)) by {
                assert(self.base() =~= point_values(base@.subrange(0, base@.len() as int)));
            }
        }
        r
    }

    /// Where a claim on an odd state window points.
    pub fn repoint_c(&self, expo_point: &Vec<F128>) -> (r: Vec<F128>)
        requires
            self.wf(),
            4 + self.cap_log <= expo_point@.len(),
        ensures
            point_values(r@) == self.c_point(point_values(expo_point@)),
    {
        let base = self.base_bits();
        let mut r: Vec<F128> = Vec::new();
        r.push(F128::one());
        push_range(&mut r, expo_point, 0, 4);
        push_range(&mut r, expo_point, 4, 4 + self.cap_log);
        push_range(&mut r, &base, 0, base.len());
        push_range(&mut r, expo_point, 4 + self.cap_log, expo_point.len());
        push_range(&mut r, &self.walk_high_bits, 0, self.walk_high_bits.len());
        proof {
            let p = point_values(expo_point@);
            assert(point_values(r@) =~= self.c_point(p)) by {
                assert(self.base() =~= point_values(base@.subrange(0, base@.len() as int)));
            }
        }
        r
    }
}

/// Appends a run of elements.
fn push_range(r: &mut Vec<F128>, from: &Vec<F128>, lo: usize, hi: usize)
    requires
        lo <= hi <= from@.len(),
    ensures
        final(r)@ == old(r)@ + from@.subrange(lo as int, hi as int),
{
    let ghost r0 = r@;
    let mut i: usize = lo;
    while i < hi
        invariant
            lo <= i <= hi <= from@.len(),
            r@ == r0 + from@.subrange(lo as int, i as int),
        decreases hi - i,
    {
        r.push(from[i]);
        assert(from@.subrange(lo as int, i + 1) =~= from@.subrange(lo as int, i as int).push(
            from@[i as int],
        ));
        i = i + 1;
    }
}

// ---------------------------------------------------------------------------
// Where Boolean points lead.
// ---------------------------------------------------------------------------
/// The slot that Boolean coordinates address, the lowest bit first.
pub open spec fn address(bits: Seq<u128>) -> nat
    decreases bits.len(),
{
    if bits.len() == 0 {
        0
    } else {
        (bits[0] % 2) as nat + 2 * address(bits.drop_first())
    }
}

proof fn lemma_address_append(a: Seq<u128>, c: Seq<u128>)
    ensures
        address(a + c) == address(a) + pow2(a.len()) * address(c),
    decreases a.len(),
{
    if a.len() == 0 {
        assert(a + c =~= c);
        lemma2_to64();
        assert(pow2(0) * address(c) == address(c)) by (nonlinear_arith)
            requires
                pow2(0) == 1,
        ;
    } else {
        let rest = a.drop_first();
        lemma_address_append(rest, c);
        assert((a + c).drop_first() =~= rest + c);
        lemma_pow2_unfold(a.len());
        let (p, q, r) = (pow2(rest.len()), address(c), address(rest));
        assert(2 * (r + p * q) == 2 * r + (2 * p) * q) by (nonlinear_arith);
    }
}

/// The low `n` bits of `v`, as coordinates, address `v` modulo `2^n`.
proof fn lemma_address_bits(v: int, n: nat)
    requires
        0 <= v < pow2(n),
    ensures
        address(
            Seq::new(
                n,
                |k: int|
                    if v / pow2(k as nat) as int % 2 == 1 {
                        1u128
                    } else {
                        0u128
                    },
            ),
        ) == v,
    decreases n,
{
    let f = |k: int|
        if v / pow2(k as nat) as int % 2 == 1 {
            1u128
        } else {
            0u128
        };
    let bits = Seq::new(n, f);
    lemma2_to64();
    if n > 0 {
        let h = v / 2;
        lemma_pow2_unfold(n);
        let m = (n - 1) as nat;
        lemma_address_bits(h, m);
        let g = |k: int|
            if h / pow2(k as nat) as int % 2 == 1 {
                1u128
            } else {
                0u128
            };
        assert forall|k: int| 0 <= k < m implies bits.drop_first()[k] == #[trigger] Seq::new(
            m,
            g,
        )[k] by {
            lemma_pow2_unfold((k + 1) as nat);
            lemma_pow2_pos(k as nat);
            lemma_div_denominator(v, 2, pow2(k as nat) as int);
        }
        assert(bits.drop_first() =~= Seq::new(m, g));
        assert(v / pow2(0) as int == v);
    }
}

proof fn lemma_base_address(spec: SpineUnionSpec)
    requires
        spec.wf(),
        spec.start() <= spec.block_log_a,
        spec.tree_base < pow2(spec.block_log_a as nat),
    ensures
        address(spec.base()) * pow2(spec.start()) == spec.tree_base,
        spec.base().len() + spec.start() == spec.block_log_a,
{
    let st = spec.start();
    let n = (spec.block_log_a - st) as nat;
    let size = pow2(st) as int;
    let run = spec.tree_base as int / size;
    lemma_pow2_pos(st);
    lemma_pow2_adds(st, n);
    lemma_fundamental_div_mod(spec.tree_base as int, size);
    assert(size * run == run * size) by (nonlinear_arith);
    assert(0 <= run < pow2(n)) by (nonlinear_arith)
        requires
            size * run == spec.tree_base,
            size > 0,
            spec.tree_base < pow2(st) * pow2(n),
            size == pow2(st),
    ;
    lemma_address_bits(run, n);
    assert(spec.base() =~= Seq::new(
        n,
        |k: int|
            if run / pow2(k as nat) as int % 2 == 1 {
                1u128
            } else {
                0u128
            },
    ));
}

/// On Boolean coordinates a repointed child claim addresses the lower half of
/// the tree of its instance: the child, its instance's tree, the run, the
/// block of its transaction and the region above.
pub proof fn lemma_kid_address(spec: SpineUnionSpec, p: Seq<u128>)
    requires
        spec.wf(),
        spec.start() <= spec.block_log_a,
        spec.tree_base < pow2(spec.block_log_a as nat),
        p.len() == 4 + spec.cap_log + spec.tx_log,
    ensures
        address(spec.kid_point(p)) == address(p.subrange(0, 4)) + pow2(5) * address(
            p.subrange(4, 4 + spec.cap_log),
        ) + spec.tree_base + pow2(spec.block_log_a as nat) * address(
            p.subrange(4 + spec.cap_log, p.len() as int),
        ) + pow2((spec.block_log_a + spec.tx_log) as nat) * address(
            point_values(spec.walk_high_bits@),
        ),
{
    let local = p.subrange(0, 4);
    lemma_address_append(local, seq![0u128]);
    assert(seq![0u128].drop_first() =~= Seq::<u128>::empty());
    assert(address(seq![0u128]) == 0) by {
        assert(address(Seq::<u128>::empty()) == 0);
    }
    assert(pow2(local.len()) * 0 == 0);
    lemma_tail_address(spec, p, local + seq![0u128]);
}

/// On Boolean coordinates a repointed state claim addresses the odd slot of
/// the same child.
pub proof fn lemma_c_address(spec: SpineUnionSpec, p: Seq<u128>)
    requires
        spec.wf(),
        spec.start() <= spec.block_log_a,
        spec.tree_base < pow2(spec.block_log_a as nat),
        p.len() == 4 + spec.cap_log + spec.tx_log,
    ensures
        address(spec.c_point(p)) == 1 + 2 * address(p.subrange(0, 4)) + pow2(5) * address(
            p.subrange(4, 4 + spec.cap_log),
        ) + spec.tree_base + pow2(spec.block_log_a as nat) * address(
            p.subrange(4 + spec.cap_log, p.len() as int),
        ) + pow2((spec.block_log_a + spec.tx_log) as nat) * address(
            point_values(spec.walk_high_bits@),
        ),
{
    let local = p.subrange(0, 4);
    lemma_address_append(seq![1u128], local);
    lemma2_to64();
    assert(seq![1u128].drop_first() =~= Seq::<u128>::empty());
    assert(address(seq![1u128]) == 1) by {
        assert(address(Seq::<u128>::empty()) == 0);
    }
    lemma_tail_address(spec, p, seq![1u128] + local);
}

proof fn lemma_tail_address(spec: SpineUnionSpec, p: Seq<u128>, head: Seq<u128>)
    requires
        spec.wf(),
        spec.start() <= spec.block_log_a,
        spec.tree_base < pow2(spec.block_log_a as nat),
        p.len() == 4 + spec.cap_log + spec.tx_log,
        head.len() == 5,
    ensures
        address(
            head + p.subrange(4, 4 + spec.cap_log) + spec.base() + p.subrange(
                4 + spec.cap_log,
                p.len() as int,
            ) + point_values(spec.walk_high_bits@),
        ) == address(head) + pow2(5) * address(p.subrange(4, 4 + spec.cap_log)) + spec.tree_base
            + pow2(spec.block_log_a as nat) * address(
            p.subrange(4 + spec.cap_log, p.len() as int),
        ) + pow2((spec.block_log_a + spec.tx_log) as nat) * address(
            point_values(spec.walk_high_bits@),
        ),
{
    let own = p.subrange(4, 4 + spec.cap_log);
    let tx = p.subrange(4 + spec.cap_log, p.len() as int);
    let high = point_values(spec.walk_high_bits@);
    lemma_base_address(spec);
    lemma_address_append(head, own);
    lemma_address_append(head + own, spec.base());
    lemma_address_append(head + own + spec.base(), tx);
    lemma_address_append(head + own + spec.base() + tx, high);
    let (x, y) = (address(spec.base()), pow2(spec.start()));
    assert(x * y == y * x) by (nonlinear_arith);
}

} // verus!
