//! The extension as a ring, and its tables.
use crate::ext_trace::{
    emul, eone, esum, ext_fold, ext_mle, ext_tensor, ezero, lemma_emul_comm, norm, seventh, Ext,
    ExtRule,
};
use crate::field::{
    fmul, lemma_fmul_assoc, lemma_fmul_comm, lemma_fmul_distrib, lemma_xor, lemma_xor_swap,
};
use crate::wiring_laws::lemma_plain;
use vstd::arithmetic::power2::{lemma_pow2_unfold, pow2};
use vstd::prelude::*;

verus! {

/// The product is bilinear over the base field, one is its unit, and the square of the
/// generator is the rule's own element.
pub proof fn lemma_emul_rule(rule: ExtRule, s: u128, x: Ext, y: Ext, z: Ext)
    ensures
        emul(rule, eone(), x) == x,
        emul(rule, Ext { lo: s, hi: 0 }, x) == (Ext { lo: fmul(s, x.lo), hi: fmul(s, x.hi) }),
        emul(rule, Ext { lo: 0, hi: 1 }, Ext { lo: 0, hi: 1 }) == (Ext {
            lo: rule.n@,
            hi: rule.t@,
        }),
        emul(rule, esum(x, y), z) == esum(emul(rule, x, z), emul(rule, y, z)),
        emul(rule, z, esum(x, y)) == esum(emul(rule, z, x), emul(rule, z, y)),
        emul(rule, x, y) == emul(rule, y, x),
{
    lemma_plain();
    lemma_emul_comm(rule, x, y);
    lemma_emul_comm(rule, esum(x, y), z);
    lemma_emul_comm(rule, x, z);
    lemma_emul_comm(rule, y, z);
    lemma_fmul_distrib(x.lo, y.lo, z.lo);
    lemma_fmul_distrib(x.hi, y.hi, z.hi);
    lemma_fmul_distrib(x.lo, y.lo, z.hi);
    lemma_fmul_distrib(x.hi, y.hi, z.lo);
    let (p, q) = (fmul(x.hi, z.hi), fmul(y.hi, z.hi));
    lemma_fmul_distrib(p, q, rule.n@);
    lemma_fmul_distrib(p, q, rule.t@);
    lemma_xor_swap(fmul(x.lo, z.lo), fmul(y.lo, z.lo), fmul(rule.n@, p), fmul(rule.n@, q));
    lemma_xor_swap(fmul(x.lo, z.hi), fmul(y.lo, z.hi), fmul(x.hi, z.lo), fmul(y.hi, z.lo));
    lemma_xor_swap(
        fmul(x.lo, z.hi) ^ fmul(x.hi, z.lo),
        fmul(y.lo, z.hi) ^ fmul(y.hi, z.lo),
        fmul(rule.t@, p),
        fmul(rule.t@, q),
    );
}

proof fn lemma_pull(a: u128, n: u128, w: u128)
    ensures
        fmul(a, fmul(n, w)) == fmul(n, fmul(a, w)),
{
    lemma_fmul_assoc(a, n, w);
    lemma_fmul_comm(a, n);
    lemma_fmul_assoc(n, a, w);
}

proof fn lemma_orders(
    p0: u128,
    p1: u128,
    q0: u128,
    q1: u128,
    q2: u128,
    r0: u128,
    r1: u128,
    r2: u128,
)
    ensures
        ((p0 ^ p1) ^ ((q0 ^ q1) ^ q2)) ^ ((r0 ^ r1) ^ r2) == (((p0 ^ q0) ^ r0) ^ (q1 ^ p1)) ^ ((r1
            ^ q2) ^ r2),
        (p0 ^ p1) ^ ((q0 ^ q1) ^ q2) == (p0 ^ q0) ^ ((q1 ^ p1) ^ q2),
{
    assert(((p0 ^ p1) ^ ((q0 ^ q1) ^ q2)) ^ ((r0 ^ r1) ^ r2) == (((p0 ^ q0) ^ r0) ^ (q1 ^ p1)) ^ ((
    r1 ^ q2) ^ r2) && (p0 ^ p1) ^ ((q0 ^ q1) ^ q2) == (p0 ^ q0) ^ ((q1 ^ p1) ^ q2)) by (bit_vector);
}

/// The product is associative.
pub proof fn lemma_emul_assoc(rule: ExtRule, x: Ext, y: Ext, z: Ext)
    ensures
        emul(rule, emul(rule, x, y), z) == emul(rule, x, emul(rule, y, z)),
{
    let n = rule.n@;
    let t = rule.t@;
    let p = fmul(x.hi, y.hi);
    let r = fmul(y.hi, z.hi);
    let (u, v) = (fmul(x.lo, y.hi), fmul(x.hi, y.lo));
    let (g, h) = (fmul(y.lo, z.hi), fmul(y.hi, z.lo));
    // The left side.
    let low = fmul(x.lo, y.lo);
    lemma_fmul_distrib(low, fmul(n, p), z.lo);
    lemma_fmul_assoc(n, p, z.lo);
    lemma_fmul_distrib(low, fmul(n, p), z.hi);
    lemma_fmul_assoc(n, p, z.hi);
    let tp = fmul(t, p);
    lemma_fmul_distrib(u ^ v, tp, z.lo);
    lemma_fmul_distrib(u, v, z.lo);
    lemma_fmul_assoc(t, p, z.lo);
    lemma_fmul_distrib(u ^ v, tp, z.hi);
    lemma_fmul_distrib(u, v, z.hi);
    lemma_fmul_assoc(t, p, z.hi);
    let (uh, vh, ph) = (fmul(u, z.hi), fmul(v, z.hi), fmul(p, z.hi));
    lemma_fmul_distrib(uh ^ vh, fmul(t, ph), n);
    lemma_fmul_distrib(uh, vh, n);
    lemma_fmul_distrib(uh ^ vh, fmul(t, ph), t);
    lemma_fmul_distrib(uh, vh, t);
    // The right side.
    let tail = fmul(y.lo, z.lo);
    lemma_fmul_distrib(tail, fmul(n, r), x.lo);
    lemma_pull(x.lo, n, r);
    lemma_fmul_distrib(tail, fmul(n, r), x.hi);
    lemma_pull(x.hi, n, r);
    let tr = fmul(t, r);
    lemma_fmul_distrib(g ^ h, tr, x.lo);
    lemma_fmul_distrib(g, h, x.lo);
    lemma_pull(x.lo, t, r);
    lemma_fmul_distrib(g ^ h, tr, x.hi);
    lemma_fmul_distrib(g, h, x.hi);
    lemma_pull(x.hi, t, r);
    let (xg, xh, xr) = (fmul(x.hi, g), fmul(x.hi, h), fmul(x.hi, r));
    lemma_fmul_distrib(xg ^ xh, fmul(t, xr), n);
    lemma_fmul_distrib(xg, xh, n);
    lemma_fmul_distrib(xg ^ xh, fmul(t, xr), t);
    lemma_fmul_distrib(xg, xh, t);
    // The products of three.
    lemma_fmul_assoc(x.lo, y.lo, z.lo);
    lemma_fmul_assoc(x.lo, y.lo, z.hi);
    lemma_fmul_assoc(x.lo, y.hi, z.lo);
    lemma_fmul_assoc(x.lo, y.hi, z.hi);
    lemma_fmul_assoc(x.hi, y.lo, z.lo);
    lemma_fmul_assoc(x.hi, y.lo, z.hi);
    lemma_fmul_assoc(x.hi, y.hi, z.lo);
    lemma_fmul_assoc(x.hi, y.hi, z.hi);
    let pl = fmul(p, z.lo);
    lemma_orders(
        fmul(low, z.lo),
        fmul(n, pl),
        fmul(n, uh),
        fmul(n, vh),
        fmul(n, fmul(t, ph)),
        0,
        0,
        0,
    );
    lemma_orders(
        fmul(low, z.hi),
        fmul(n, ph),
        fmul(u, z.lo),
        fmul(v, z.lo),
        fmul(t, pl),
        fmul(t, uh),
        fmul(t, vh),
        fmul(t, fmul(t, ph)),
    );
}

/// An element times its conjugate is its norm.
pub proof fn lemma_norm(rule: ExtRule, x: Ext)
    ensures
        emul(rule, x, Ext { lo: x.lo ^ fmul(rule.t@, x.hi), hi: x.hi }) == (Ext {
            lo: norm(rule, x),
            hi: 0,
        }),
{
    let t = rule.t@;
    let th = fmul(t, x.hi);
    lemma_plain();
    lemma_fmul_distrib(x.lo, th, x.lo);
    lemma_fmul_distrib(x.lo, th, x.hi);
    lemma_pull(x.lo, t, x.hi);
    lemma_pull(x.hi, t, x.hi);
    lemma_fmul_comm(x.lo, x.hi);
    let s = fmul(x.lo, x.hi);
    lemma_xor(s, fmul(t, fmul(x.hi, x.hi)), 0);
    lemma_xor(s, s ^ fmul(t, fmul(x.hi, x.hi)), fmul(t, fmul(x.hi, x.hi)));
}

/// The seventh power is the product of seven.
pub proof fn lemma_seventh(rule: ExtRule, x: Ext)
    ensures
        seventh(rule, x) == emul(
            rule,
            emul(rule, emul(rule, emul(rule, emul(rule, emul(rule, x, x), x), x), x), x),
            x,
        ),
{
    let two = emul(rule, x, x);
    let three = emul(rule, two, x);
    let four = emul(rule, three, x);
    let five = emul(rule, four, x);
    lemma_emul_assoc(rule, three, two, x);
    lemma_emul_assoc(rule, three, x, x);
}

/// Bound to zero, the highest coordinate keeps the lower half of a table; bound to one, it
/// keeps the upper half.
pub proof fn lemma_fold_halves(rule: ExtRule, tab: Seq<Ext>)
    requires
        tab.len() % 2 == 0,
    ensures
        ext_fold(rule, tab, ezero()) == tab.subrange(0, tab.len() as int / 2),
        ext_fold(rule, tab, eone()) == tab.subrange(tab.len() as int / 2, tab.len() as int),
{
    let half = tab.len() as int / 2;
    lemma_plain();
    assert forall|i: int| 0 <= i < half implies #[trigger] ext_fold(rule, tab, ezero())[i]
        == tab[i] by {
        lemma_emul_rule(rule, 0, esum(tab[i], tab[i + half]), ezero(), ezero());
    }
    assert forall|i: int| 0 <= i < half implies #[trigger] ext_fold(rule, tab, eone())[i] == tab[i
        + half] by {
        lemma_emul_rule(rule, 0, esum(tab[i], tab[i + half]), ezero(), ezero());
        lemma_xor(tab[i].lo, tab[i + half].lo, 0);
        lemma_xor(tab[i].hi, tab[i + half].hi, 0);
    }
    assert(ext_fold(rule, tab, ezero()) =~= tab.subrange(0, half));
    assert(ext_fold(rule, tab, eone()) =~= tab.subrange(half, tab.len() as int));
}

/// The sum of the products of the first `n` entries.
pub open spec fn edot(rule: ExtRule, x: Seq<Ext>, y: Seq<Ext>, n: nat) -> Ext
    decreases n,
{
    if n == 0 {
        ezero()
    } else {
        esum(edot(rule, x, y, (n - 1) as nat), emul(rule, x[n - 1], y[n - 1]))
    }
}

proof fn lemma_esum(x: Ext, y: Ext, z: Ext, w: Ext)
    ensures
        esum(esum(x, y), esum(z, w)) == esum(esum(x, z), esum(y, w)),
        esum(x, ezero()) == x,
        esum(ezero(), x) == x,
        esum(esum(x, y), z) == esum(x, esum(y, z)),
{
    lemma_xor_swap(x.lo, y.lo, z.lo, w.lo);
    lemma_xor_swap(x.hi, y.hi, z.hi, w.hi);
    lemma_xor(x.lo, y.lo, z.lo);
    lemma_xor(x.hi, y.hi, z.hi);
}

proof fn lemma_tensor_len(rule: ExtRule, r: Seq<Ext>, n: nat)
    ensures
        ext_tensor(rule, r, n).len() == pow2(n),
    decreases n,
{
    if n == 0 {
        vstd::arithmetic::power2::lemma2_to64();
    } else {
        lemma_tensor_len(rule, r, (n - 1) as nat);
        lemma_pow2_unfold(n);
    }
}

proof fn lemma_edot_split(rule: ExtRule, x: Seq<Ext>, y: Seq<Ext>, h: nat, k: nat)
    requires
        h + k <= x.len(),
        h + k <= y.len(),
    ensures
        edot(rule, x, y, h + k) == esum(
            edot(rule, x, y, h),
            edot(rule, x.skip(h as int), y.skip(h as int), k),
        ),
    decreases k,
{
    lemma_esum(edot(rule, x, y, h), ezero(), ezero(), ezero());
    if k > 0 {
        lemma_edot_split(rule, x, y, h, (k - 1) as nat);
        let a = edot(rule, x, y, h);
        let b = edot(rule, x.skip(h as int), y.skip(h as int), (k - 1) as nat);
        let c = emul(rule, x[h + k - 1], y[h + k - 1]);
        assert(x.skip(h as int)[k - 1] == x[h + k - 1]);
        assert(y.skip(h as int)[k - 1] == y[h + k - 1]);
        lemma_esum(a, b, c, ezero());
    }
}

/// One coordinate more: the weighted sum over both halves is the weighted sum of the folded
/// table.
proof fn lemma_edot_fold(
    rule: ExtRule,
    below: Seq<Ext>,
    tab: Seq<Ext>,
    r: Ext,
    low: Seq<Ext>,
    high: Seq<Ext>,
    n: nat,
)
    requires
        n <= below.len(),
        tab.len() == 2 * below.len(),
        low.len() == below.len(),
        high.len() == below.len(),
        forall|j: int|
            0 <= j < below.len() ==> #[trigger] high[j] == emul(rule, below[j], r) && low[j] == esum(
                below[j],
                high[j],
            ),
    ensures
        esum(
            edot(rule, low, tab, n),
            edot(rule, high, tab.skip(below.len() as int), n),
        ) == edot(rule, below, ext_fold(rule, tab, r), n),
    decreases n,
{
    let half = below.len() as int;
    let up = tab.skip(half);
    let fold = ext_fold(rule, tab, r);
    if n == 0 {
        lemma_esum(ezero(), ezero(), ezero(), ezero());
    } else {
        let j = n - 1;
        lemma_edot_fold(rule, below, tab, r, low, high, (n - 1) as nat);
        lemma_esum(
            edot(rule, low, tab, (n - 1) as nat),
            emul(rule, low[j], tab[j]),
            edot(rule, high, up, (n - 1) as nat),
            emul(rule, high[j], up[j]),
        );
        assert(up[j] == tab[j + half]);
        let w = below[j];
        let (a, b) = (tab[j], tab[j + half]);
        let wr = emul(rule, w, r);
        assert(high[j] == wr);
        lemma_emul_rule(rule, 0, w, wr, a);
        lemma_emul_rule(rule, 0, a, b, wr);
        lemma_esum(emul(rule, w, a), emul(rule, wr, a), emul(rule, wr, b), ezero());
        lemma_emul_assoc(rule, w, r, esum(a, b));
        lemma_emul_rule(rule, 0, a, emul(rule, r, esum(a, b)), w);
        assert(fold[j] == esum(a, emul(rule, r, esum(a, b))));
    }
}

/// A table at a point is the sum of its entries under the weights of the tensor.
pub proof fn lemma_tensor_evaluates(rule: ExtRule, tab: Seq<Ext>, r: Seq<Ext>)
    requires
        tab.len() == pow2(r.len()),
    ensures
        ext_tensor(rule, r, r.len()).len() == tab.len(),
        ext_mle(rule, tab, r) == edot(rule, ext_tensor(rule, r, r.len()), tab, tab.len()),
    decreases r.len(),
{
    lemma_tensor_len(rule, r, r.len());
    if r.len() == 0 {
        vstd::arithmetic::power2::lemma2_to64();
        reveal_with_fuel(edot, 2);
        lemma_emul_rule(rule, 0, tab[0], tab[0], tab[0]);
        lemma_esum(tab[0], ezero(), ezero(), ezero());
    } else {
        let n = (r.len() - 1) as nat;
        let rest = r.drop_last();
        lemma_pow2_unfold(r.len());
        lemma_tensor_prefix(rule, r, rest, n);
        lemma_tensor_len(rule, rest, n);
        let below = ext_tensor(rule, rest, n);
        let high = below.map_values(|w: Ext| emul(rule, w, r[n as int]));
        let low = Seq::new(below.len(), |j: int| esum(below[j], high[j]));
        let all = ext_tensor(rule, r, r.len());
        let h = below.len();
        assert(all == low + high);
        lemma_edot_split(rule, all, tab, h, h);
        assert(all.skip(h as int) =~= high);
        lemma_edot_prefix(rule, all, low, tab, h);
        lemma_edot_fold(rule, below, tab, r.last(), low, high, h);
        lemma_tensor_evaluates(rule, ext_fold(rule, tab, r.last()), rest);
    }
}

proof fn lemma_edot_prefix(rule: ExtRule, x: Seq<Ext>, y: Seq<Ext>, tab: Seq<Ext>, n: nat)
    requires
        forall|i: int| 0 <= i < n ==> x[i] == y[i],
    ensures
        edot(rule, x, tab, n) == edot(rule, y, tab, n),
    decreases n,
{
    if n > 0 {
        lemma_edot_prefix(rule, x, y, tab, (n - 1) as nat);
    }
}

proof fn lemma_tensor_prefix(rule: ExtRule, r: Seq<Ext>, s: Seq<Ext>, n: nat)
    requires
        n <= r.len(),
        n <= s.len(),
        forall|i: int| 0 <= i < n ==> r[i] == s[i],
    ensures
        ext_tensor(rule, r, n) == ext_tensor(rule, s, n),
    decreases n,
{
    if n > 0 {
        lemma_tensor_prefix(rule, r, s, (n - 1) as nat);
    }
}

/// At the corner whose coordinates are the bits of an index, lowest first, a table is its
/// entry at that index.
pub proof fn lemma_corner(rule: ExtRule, tab: Seq<Ext>, bits: Seq<bool>)
    requires
        tab.len() == pow2(bits.len()),
    ensures
        crate::pin_laws::number(bits) < tab.len(),
        ext_mle(
            rule,
            tab,
            bits.map_values(
                |d: bool|
                    if d {
                        eone()
                    } else {
                        ezero()
                    },
            ),
        ) == tab[crate::pin_laws::number(bits) as int],
    decreases bits.len(),
{
    let corner = |d: bool|
        if d {
            eone()
        } else {
            ezero()
        };
    let r = bits.map_values(corner);
    if bits.len() == 0 {
        vstd::arithmetic::power2::lemma2_to64();
    } else {
        let top = bits.last();
        let rest = bits.drop_last();
        lemma_pow2_unfold(bits.len());
        lemma_fold_halves(rule, tab);
        assert(r.drop_last() =~= rest.map_values(corner));
        lemma_corner(rule, ext_fold(rule, tab, r.last()), rest);
        lemma_number_push(rest, top);
        assert(rest.push(top) =~= bits);
    }
}

proof fn lemma_number_push(d: Seq<bool>, top: bool)
    ensures
        crate::pin_laws::number(d.push(top)) == crate::pin_laws::number(d) + if top {
            pow2(d.len())
        } else {
            0
        },
    decreases d.len(),
{
    vstd::arithmetic::power2::lemma2_to64();
    let all = d.push(top);
    if d.len() == 0 {
        reveal_with_fuel(crate::pin_laws::number, 3);
        assert(all.skip(1) =~= seq![]);
    } else {
        lemma_number_push(d.skip(1), top);
        assert(all.skip(1) =~= d.skip(1).push(top));
        lemma_pow2_unfold(d.len());
    }
}

} // verus!
