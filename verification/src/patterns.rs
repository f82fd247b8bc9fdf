//! Fixed patterns over a walk: public columns that repeat a table, gated to an
//! aligned part of the walk.
use crate::dyadic::{exact_log, is_dyadic, lemma_pow2_injective, power_of_two};
use crate::field::F128;
use crate::tx_root::{index_bit, index_bits};
use vstd::arithmetic::power2::{lemma_pow2_adds, lemma_pow2_pos, lemma_pow2_unfold, pow2};
use vstd::prelude::*;

verus! {

/// A public column: a table of `2^low_log` cells that repeats over the walk,
/// restricted to the slots whose coordinates from `gate_from` on are `gate`.
#[derive(Clone, Debug, PartialEq, Eq)]
pub struct FixedPattern {
    pub low_log: usize,
    pub table: Vec<F128>,
    pub gate_from: usize,
    pub gate: Vec<bool>,
}

impl FixedPattern {
    pub open spec fn wf(&self) -> bool {
        self.table@.len() == pow2(self.low_log as nat)
    }

    /// The slot lies in the gated part of the walk.
    pub open spec fn gate_open(&self, slot: int) -> bool {
        forall|i: int|
            0 <= i < self.gate@.len() ==> #[trigger] self.gate@[i] == index_bit(
                slot,
                self.gate_from + i,
            )
    }

    /// The cell of the column at `slot`.
    pub open spec fn cell(&self, slot: int) -> F128 {
        if self.gate_open(slot) {
            self.table@[slot % pow2(self.low_log as nat) as int]
        } else {
            F128 { bits: 0 }
        }
    }

    /// An ungated pattern.
    pub fn new(low_log: usize, table: Vec<F128>) -> (r: FixedPattern)
        requires
            table@.len() == pow2(low_log as nat),
        ensures
            r.wf(),
            r.low_log == low_log,
            r.table@ == table@,
            r.gate@.len() == 0,
            forall|slot: int| #[trigger] r.cell(slot) == table@[slot % pow2(low_log as nat) as int],
    {
        FixedPattern { low_log, table, gate_from: 0, gate: Vec::new() }
    }

    /// Restricts an ungated pattern to the slots with the given high bits.
    pub fn gated(self, from: usize, bits: Vec<bool>) -> (r: FixedPattern)
        requires
            self.wf(),
            self.gate@.len() == 0,
            bits@.len() > 0,
            self.low_log <= from,
        ensures
            r.wf(),
            r.low_log == self.low_log,
            r.table@ == self.table@,
            r.gate_from == from,
            r.gate@ == bits@,
    {
        FixedPattern { low_log: self.low_log, table: self.table, gate_from: from, gate: bits }
    }

    /// Whether a slot is in the gated part.
    pub fn is_open(&self, slot: usize) -> (r: bool)
        requires
            self.gate_from + self.gate@.len() <= usize::MAX,
        ensures
            r == self.gate_open(slot as int),
    {
        let bits = index_bits(slot, self.gate_from + self.gate.len());
        let mut i: usize = 0;
        while i < self.gate.len()
            invariant
                i <= self.gate@.len(),
                self.gate_from + self.gate@.len() <= usize::MAX,
                bits@.len() == self.gate_from + self.gate@.len(),
                forall|l: int|
                    0 <= l < bits@.len() ==> #[trigger] bits@[l] == index_bit(slot as int, l),
                forall|k: int|
                    0 <= k < i ==> #[trigger] self.gate@[k] == index_bit(
                        slot as int,
                        self.gate_from + k,
                    ),
            decreases self.gate@.len() - i,
        {
            if self.gate[i] != bits[self.gate_from + i] {
                assert(self.gate@[i as int] != index_bit(slot as int, self.gate_from + i));
                return false;
            }
            i = i + 1;
        }
        true
    }

    /// The first `len` cells of the column.
    pub fn materialize(&self, len: usize) -> (r: Vec<F128>)
        requires
            self.wf(),
            self.gate_from + self.gate@.len() <= usize::MAX,
        ensures
            r@.len() == len,
            forall|slot: int| 0 <= slot < len ==> #[trigger] r@[slot] == self.cell(slot),
    {
        let period = self.table.len();
        proof {
            lemma_pow2_pos(self.low_log as nat);
        }
        let mut r: Vec<F128> = Vec::with_capacity(len);
        let mut slot: usize = 0;
        while slot < len
            invariant
                slot <= len,
                self.wf(),
                period == self.table@.len(),
                period > 0,
                self.gate_from + self.gate@.len() <= usize::MAX,
                r@.len() == slot,
                forall|k: int| 0 <= k < slot ==> #[trigger] r@[k] == self.cell(k),
            decreases len - slot,
        {
            let cell = if self.is_open(slot) {
                self.table[slot % period]
            } else {
                F128::zero()
            };
            r.push(cell);
            slot = slot + 1;
        }
        r
    }
}

/// A pattern that repeats `stride_table` `n_tiles` times from `offset` on in
/// every block of `2^block_log` slots, and is zero elsewhere.
pub fn common_period_pattern(
    stride_table: &[F128],
    offset: usize,
    n_tiles: usize,
    block_log: usize,
) -> (r: FixedPattern)
    requires
        pow2(block_log as nat) <= usize::MAX,
        offset + n_tiles * stride_table@.len() <= pow2(block_log as nat),
    ensures
        r.wf(),
        r.low_log == block_log,
        r.gate@.len() == 0,
        forall|s: int|
            0 <= s < pow2(block_log as nat) ==> #[trigger] r.table@[s] == if offset <= s < offset
                + n_tiles * stride_table@.len() {
                stride_table@[(s - offset) % stride_table@.len() as int]
            } else {
                F128 { bits: 0 }
            },
{
    let block = power_of_two(block_log);
    let stride = stride_table.len();
    let mut t: Vec<F128> = Vec::with_capacity(block);
    let mut s: usize = 0;
    let live: usize = n_tiles * stride;
    while s < block
        invariant
            s <= block,
            block == pow2(block_log as nat),
            stride == stride_table@.len(),
            live == n_tiles * stride,
            offset + live <= block,
            t@.len() == s,
            forall|k: int|
                0 <= k < s ==> #[trigger] t@[k] == if offset <= k < offset + live {
                    stride_table@[(k - offset) % stride as int]
                } else {
                    F128 { bits: 0 }
                },
        decreases block - s,
    {
        if s >= offset && s < offset + live {
            proof {
                if stride == 0 {
                    assert(n_tiles * stride == 0) by (nonlinear_arith)
                        requires
                            stride == 0,
                    ;
                }
            }
            t.push(stride_table[(s - offset) % stride]);
        } else {
            t.push(F128::zero());
        }
        s = s + 1;
    }
    FixedPattern::new(block_log, t)
}

/// A pattern that is one on `[offset, offset + len)` of every block of
/// `2^block_log` slots, and zero elsewhere.
pub fn common_period_ones(offset: usize, len: usize, block_log: usize) -> (r: FixedPattern)
    requires
        pow2(block_log as nat) <= usize::MAX,
        offset + len <= pow2(block_log as nat),
    ensures
        r.wf(),
        r.low_log == block_log,
        r.gate@.len() == 0,
        forall|s: int|
            0 <= s < pow2(block_log as nat) ==> (#[trigger] r.table@[s])@ == if offset <= s < offset
                + len {
                1u128
            } else {
                0u128
            },
{
    let block = power_of_two(block_log);
    let mut t: Vec<F128> = Vec::with_capacity(block);
    let mut s: usize = 0;
    while s < block
        invariant
            s <= block,
            block == pow2(block_log as nat),
            offset + len <= block,
            t@.len() == s,
            forall|k: int|
                0 <= k < s ==> (#[trigger] t@[k])@ == if offset <= k < offset + len {
                    1u128
                } else {
                    0u128
                },
        decreases block - s,
    {
        if s >= offset && s < offset + len {
            t.push(F128::one());
        } else {
            t.push(F128::zero());
        }
        s = s + 1;
    }
    FixedPattern::new(block_log, t)
}

/// The bits of `off` from `from` up to `w_log`.
pub fn rec_hi_bits(off: usize, from: usize, w_log: usize) -> (r: Vec<bool>)
    ensures
        r@.len() == if from <= w_log {
            w_log - from
        } else {
            0
        },
        forall|i: int| 0 <= i < r@.len() ==> #[trigger] r@[i] == index_bit(off as int, from + i),
{
    let bits = index_bits(off, w_log);
    let mut r: Vec<bool> = Vec::new();
    let mut c: usize = from;
    while c < w_log
        invariant
            from <= c,
            from <= w_log ==> c <= w_log,
            from > w_log ==> c == from,
            r@.len() == c - from,
            bits@.len() == w_log,
            forall|l: int| 0 <= l < w_log ==> #[trigger] bits@[l] == index_bit(off as int, l),
            forall|i: int|
                0 <= i < r@.len() ==> #[trigger] r@[i] == index_bit(off as int, from + i),
        decreases w_log - c,
    {
        r.push(bits[c]);
        c = c + 1;
    }
    r
}

/// The high bits that select the aligned region of `slots` slots at `base`,
/// lowest first. No bits select the whole walk.
pub fn dyadic_region_bits(base: usize, slots: usize, w_log: usize) -> (r: Vec<bool>)
    requires
        is_dyadic(slots as nat),
        base as int % slots as int == 0,
        base + slots <= pow2(w_log as nat),
        pow2(w_log as nat) <= usize::MAX,
    ensures
        forall|region_log: nat|
            slots == #[trigger] pow2(region_log) ==> region_log <= w_log && r@.len() == w_log
                - region_log && forall|i: int|
                0 <= i < r@.len() ==> #[trigger] r@[i] == index_bit(base as int, region_log + i),
{
    match exact_log(slots) {
        Some(region_log) => {
            proof {
                if region_log > w_log {
                    vstd::arithmetic::power2::lemma_pow2_strictly_increases(
                        w_log as nat,
                        region_log as nat,
                    );
                }
                assert forall|l: nat| slots == #[trigger] pow2(l) implies l == region_log by {
                    lemma_pow2_injective(l, region_log as nat);
                }
            }
            rec_hi_bits(base, region_log, w_log)
        },
        None => Vec::new(),
    }
}

/// Two numbers below `2^k` with the same bits are the same.
pub proof fn lemma_bits_determine(x: int, y: int, k: nat)
    requires
        0 <= x < pow2(k),
        0 <= y < pow2(k),
        forall|i: int| 0 <= i < k ==> #[trigger] index_bit(x, i) == index_bit(y, i),
    ensures
        x == y,
    decreases k,
{
    if k == 0 {
        vstd::arithmetic::power2::lemma2_to64();
    } else {
        lemma_pow2_unfold(k);
        let hx = x / 2;
        let hy = y / 2;
        vstd::arithmetic::power2::lemma2_to64();
        assert(index_bit(x, 0) == index_bit(y, 0));
        assert(pow2(0) == 1);
        assert(x / 1 == x && y / 1 == y);
        assert(x % 2 == y % 2);
        assert forall|i: int| 0 <= i < k - 1 implies #[trigger] index_bit(hx, i) == index_bit(
            hy,
            i,
        ) by {
            lemma_pow2_pos(i as nat);
            lemma_pow2_unfold((i + 1) as nat);
            vstd::arithmetic::div_mod::lemma_div_denominator(x, 2, pow2(i as nat) as int);
            vstd::arithmetic::div_mod::lemma_div_denominator(y, 2, pow2(i as nat) as int);
            assert(index_bit(x, i + 1) == index_bit(y, i + 1));
        }
        lemma_bits_determine(hx, hy, (k - 1) as nat);
    }
}

/// A slot below `2^w` has the bits of `base` from `r` on exactly when it lies
/// in the aligned run of `2^r` slots at `base`.
pub proof fn lemma_region_bits(base: int, slot: int, r: nat, w: nat)
    requires
        r <= w,
        0 <= base < pow2(w),
        0 <= slot < pow2(w),
        base % pow2(r) as int == 0,
    ensures
        (forall|i: int|
            0 <= i < w - r ==> #[trigger] index_bit(slot, r + i) == index_bit(base, r + i)) <==> (
        base <= slot < base + pow2(r)),
{
    let m = pow2(r) as int;
    lemma_pow2_pos(r);
    lemma_pow2_adds(r, (w - r) as nat);
    let hs = slot / m;
    let hb = base / m;
    vstd::arithmetic::div_mod::lemma_fundamental_div_mod(slot, m);
    vstd::arithmetic::div_mod::lemma_fundamental_div_mod(base, m);
    vstd::arithmetic::div_mod::lemma_mod_bound(slot, m);
    vstd::arithmetic::div_mod::lemma_div_pos_is_pos(slot, m);
    vstd::arithmetic::div_mod::lemma_div_pos_is_pos(base, m);
    vstd::arithmetic::div_mod::lemma_multiply_divide_lt(slot, m, pow2((w - r) as nat) as int);
    vstd::arithmetic::div_mod::lemma_multiply_divide_lt(base, m, pow2((w - r) as nat) as int);
    assert(pow2((w - r) as nat) * m == m * pow2((w - r) as nat)) by (nonlinear_arith);
    assert forall|i: int| 0 <= i < w - r implies #[trigger] index_bit(slot, r + i) == index_bit(
        hs,
        i,
    ) && index_bit(base, r + i) == index_bit(hb, i) by {
        lemma_pow2_pos(i as nat);
        lemma_pow2_adds(r, i as nat);
        vstd::arithmetic::div_mod::lemma_div_denominator(slot, m, pow2(i as nat) as int);
        vstd::arithmetic::div_mod::lemma_div_denominator(base, m, pow2(i as nat) as int);
    }
    if forall|i: int|
        0 <= i < w - r ==> #[trigger] index_bit(slot, r + i) == index_bit(base, r + i) {
        assert forall|i: int| 0 <= i < w - r implies #[trigger] index_bit(hs, i) == index_bit(
            hb,
            i,
        ) by {
            assert(index_bit(slot, r + i) == index_bit(base, r + i));
        }
        lemma_bits_determine(hs, hb, (w - r) as nat);
    }
    if base <= slot < base + m {
        assert(hs == hb) by (nonlinear_arith)
            requires
                slot == m * hs + slot % m,
                base == m * hb,
                base <= slot < base + m,
                0 <= slot % m < m,
                m > 0,
        ;
    }
}

/// Restricts an ungated periodic pattern to the aligned region of `slots`
/// slots at `base`.
pub fn pattern_in_dyadic_region(
    pattern: FixedPattern,
    base: usize,
    slots: usize,
    w_log: usize,
) -> (r: FixedPattern)
    requires
        pattern.wf(),
        pattern.gate@.len() == 0,
        is_dyadic(slots as nat),
        base as int % slots as int == 0,
        base + slots <= pow2(w_log as nat),
        pow2(w_log as nat) <= usize::MAX,
        pow2(pattern.low_log as nat) <= slots,
    ensures
        r.wf(),
        r.low_log == pattern.low_log,
        r.table@ == pattern.table@,
        r.gate@.len() > 0 ==> r.gate_from + r.gate@.len() == w_log,
        forall|slot: int|
            0 <= slot < pow2(w_log as nat) ==> #[trigger] r.cell(slot) == if base <= slot < base
                + slots {
                pattern.table@[slot % pow2(pattern.low_log as nat) as int]
            } else {
                F128 { bits: 0 }
            },
{
    let bits = dyadic_region_bits(base, slots, w_log);
    let ghost region = choose|k: nat| slots == #[trigger] pow2(k);
    assert(slots == pow2(region));
    proof {
        lemma_pow2_pos(region);
    }
    if bits.len() == 0 {
        proof {
            assert(region == w_log);
            assert(base == 0);
        }
        pattern
    } else {
        let region_log = match exact_log(slots) {
            Some(l) => l,
            None => 0,
        };
        proof {
            lemma_pow2_injective(region_log as nat, region);
            if pattern.low_log > region_log {
                vstd::arithmetic::power2::lemma_pow2_strictly_increases(
                    region_log as nat,
                    pattern.low_log as nat,
                );
            }
        }
        let ghost bits0 = bits@;
        let r = pattern.gated(region_log, bits);
        proof {
            assert forall|slot: int| 0 <= slot < pow2(w_log as nat) implies #[trigger] r.cell(slot)
                == if base <= slot < base + slots {
                pattern.table@[slot % pow2(pattern.low_log as nat) as int]
            } else {
                F128 { bits: 0 }
            } by {
                lemma_region_bits(base as int, slot, region_log as nat, w_log as nat);
                if r.gate_open(slot) {
                    assert forall|i: int| 0 <= i < w_log - region_log implies #[trigger] index_bit(
                        slot,
                        region_log + i,
                    ) == index_bit(base as int, region_log + i) by {
                        assert(r.gate@[i] == index_bit(slot, region_log + i));
                        assert(bits0[i] == index_bit(base as int, region + i));
                    }
                }
                if base <= slot < base + slots {
                    assert forall|i: int| 0 <= i < r.gate@.len() implies #[trigger] r.gate@[i]
                        == index_bit(slot, r.gate_from + i) by {
                        assert(bits0[i] == index_bit(base as int, region + i));
                        assert(index_bit(slot, region_log + i) == index_bit(
                            base as int,
                            region_log + i,
                        ));
                    }
                }
            }
        }
        r
    }
}

} // verus!
