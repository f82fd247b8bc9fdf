//! Little-endian bytes of integers and field elements.
use vstd::prelude::*;

verus! {

/// The first `n` little-endian bytes of `v`.
pub open spec fn le(v: nat, n: nat) -> Seq<u8>
    decreases n,
{
    if n == 0 {
        seq![]
    } else {
        seq![(v % 256) as u8] + le(v / 256, (n - 1) as nat)
    }
}

/// The number whose little-endian bytes these are.
pub open spec fn le_value(s: Seq<u8>) -> nat
    decreases s.len(),
{
    if s.len() == 0 {
        0
    } else {
        s[0] as nat + 256 * le_value(s.subrange(1, s.len() as int))
    }
}

/// `256^n`.
pub open spec fn byte_range(n: nat) -> nat
    decreases n,
{
    if n == 0 {
        1
    } else {
        256 * byte_range((n - 1) as nat)
    }
}

pub proof fn lemma_le_len(v: nat, n: nat)
    ensures
        le(v, n).len() == n,
    decreases n,
{
    if n > 0 {
        lemma_le_len(v / 256, (n - 1) as nat);
    }
}

/// Bytes give back the number they encode.
pub proof fn lemma_le_value(v: nat, n: nat)
    requires
        v < byte_range(n),
    ensures
        le_value(le(v, n)) == v,
    decreases n,
{
    if n > 0 {
        let s = le(v, n);
        lemma_le_len(v / 256, (n - 1) as nat);
        assert(v / 256 < byte_range((n - 1) as nat)) by (nonlinear_arith)
            requires
                v < 256 * byte_range((n - 1) as nat),
        ;
        lemma_le_value(v / 256, (n - 1) as nat);
        assert(s.subrange(1, s.len() as int) =~= le(v / 256, (n - 1) as nat));
    }
}

/// A number gives back the bytes that encode it.
pub proof fn lemma_value_le(s: Seq<u8>)
    ensures
        le(le_value(s), s.len()) == s,
        le_value(s) < byte_range(s.len()),
    decreases s.len(),
{
    if s.len() > 0 {
        let rest = s.subrange(1, s.len() as int);
        lemma_value_le(rest);
        let v = le_value(s);
        assert(v % 256 == s[0] as nat && v / 256 == le_value(rest)) by (nonlinear_arith)
            requires
                v == s[0] as nat + 256 * le_value(rest),
                0 <= s[0] < 256,
        ;
        assert(s =~= seq![s[0]] + rest);
    } else {
        assert(s =~= seq![]);
    }
}

pub proof fn lemma_ranges()
    ensures
        byte_range(8) == 0x1_0000_0000_0000_0000,
        byte_range(16) == 0x1_0000_0000_0000_0000_0000_0000_0000_0000,
{
    reveal_with_fuel(byte_range, 17);
    assert(byte_range(8) == 0x1_0000_0000_0000_0000);
    assert(byte_range(9) == 256 * byte_range(8));
    assert(byte_range(10) == 256 * byte_range(9));
    assert(byte_range(11) == 256 * byte_range(10));
    assert(byte_range(12) == 256 * byte_range(11));
    assert(byte_range(13) == 256 * byte_range(12));
    assert(byte_range(14) == 256 * byte_range(13));
    assert(byte_range(15) == 256 * byte_range(14));
    assert(byte_range(16) == 256 * byte_range(15));
}

/// Appends `n` little-endian bytes of `v`.
pub fn push_le(bytes: &mut Vec<u8>, v: u128, n: usize)
    ensures
        final(bytes)@ == old(bytes)@ + le(v as nat, n as nat),
{
    let ghost before = bytes@;
    let mut rest: u128 = v;
    let mut i: usize = 0;
    assert(bytes@ + le(rest as nat, n as nat) =~= before + le(v as nat, n as nat));
    while i < n
        invariant
            i <= n,
            bytes@ + le(rest as nat, (n - i) as nat) == before + le(v as nat, n as nat),
        decreases n - i,
    {
        let ghost start = bytes@;
        let ghost left = rest as nat;
        bytes.push((rest % 256) as u8);
        rest = rest / 256;
        proof {
            assert(le(left, (n - i) as nat) == seq![(left % 256) as u8] + le(
                left / 256,
                (n - i - 1) as nat,
            ));
            assert(bytes@ + le(rest as nat, (n - i - 1) as nat) =~= start + le(
                left,
                (n - i) as nat,
            ));
        }
        i = i + 1;
    }
    assert(bytes@ =~= bytes@ + le(rest as nat, 0));
}

/// The number in `n` little-endian bytes from `at` on.
pub fn read_le(bytes: &[u8], at: usize, n: usize) -> (r: u128)
    requires
        at + n <= bytes@.len(),
        n <= 16,
    ensures
        r == le_value(bytes@.subrange(at as int, at + n)),
{
    let len = bytes.len();
    let mut r: u128 = 0;
    let mut i: usize = n;
    proof {
        assert(bytes@.subrange(at + n, at + n) =~= seq![]);
        lemma_ranges();
    }
    while i > 0
        invariant
            i <= n,
            n <= 16,
            len == bytes@.len(),
            at + n <= len,
            r == le_value(bytes@.subrange(at + i, at + n)),
        decreases i,
    {
        i = i - 1;
        let ghost tail = bytes@.subrange(at + i + 1, at + n);
        let ghost whole = bytes@.subrange(at + i, at + n);
        proof {
            assert(whole.subrange(1, whole.len() as int) =~= tail);
            assert(le_value(whole) == bytes@[at + i] as nat + 256 * le_value(tail));
            lemma_value_le(whole);
            lemma_range_mono(whole.len(), 16);
            lemma_ranges();
        }
        r = (bytes[at + i] as u128) + 256 * r;
    }
    r
}

proof fn lemma_range_mono(m: nat, n: nat)
    requires
        m <= n,
    ensures
        byte_range(m) <= byte_range(n),
        0 < byte_range(m),
    decreases n,
{
    if m < n {
        lemma_range_mono(m, (n - 1) as nat);
    } else if m > 0 {
        lemma_range_mono((m - 1) as nat, (n - 1) as nat);
    }
}

} // verus!
