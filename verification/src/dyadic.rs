//! Powers of two as sizes.
use vstd::arithmetic::power2::{lemma_pow2_pos, lemma_pow2_strictly_increases, lemma_pow2_unfold, pow2};
use vstd::prelude::*;

verus! {

/// `n` is a power of two.
pub open spec fn is_dyadic(n: nat) -> bool {
    exists|k: nat| n == #[trigger] pow2(k)
}

/// `k` is the smallest exponent whose power of two covers `n`.
pub open spec fn covers(k: nat, n: nat) -> bool {
    n <= pow2(k) && (k > 0 ==> pow2((k - 1) as nat) < n)
}

/// A power of two and its exponent.
#[derive(Clone, Copy, Debug, PartialEq, Eq, Structural)]
pub struct Dyadic {
    pub size: usize,
    pub log: usize,
}

impl Dyadic {
    pub open spec fn wf(&self) -> bool {
        self.size == pow2(self.log as nat)
    }
}

pub proof fn lemma_pow2_injective(j: nat, k: nat)
    requires
        pow2(j) == pow2(k),
    ensures
        j == k,
{
    if j < k {
        lemma_pow2_strictly_increases(j, k);
    }
    if k < j {
        lemma_pow2_strictly_increases(k, j);
    }
}

pub proof fn lemma_pow2_mono(j: nat, k: nat)
    requires
        j <= k,
    ensures
        pow2(j) <= pow2(k),
{
    if j < k {
        lemma_pow2_strictly_increases(j, k);
    }
}

/// The covering exponent is unique.
pub proof fn lemma_covers_unique(j: nat, k: nat, n: nat)
    requires
        covers(j, n),
        covers(k, n),
    ensures
        j == k,
{
    if j < k {
        lemma_pow2_mono(j, (k - 1) as nat);
    }
    if k < j {
        lemma_pow2_mono(k, (j - 1) as nat);
    }
}

/// An exponent is smaller than its power of two.
pub proof fn lemma_pow2_above(k: nat)
    ensures
        k < pow2(k),
    decreases k,
{
    if k == 0 {
        lemma_pow2_pos(0);
    } else {
        lemma_pow2_above((k - 1) as nat);
        lemma_pow2_unfold(k);
    }
}

/// `2^k`.
pub fn power_of_two(k: usize) -> (r: usize)
    requires
        pow2(k as nat) <= usize::MAX,
    ensures
        r == pow2(k as nat),
{
    let mut r: usize = 1;
    let mut i: usize = 0;
    proof {
        vstd::arithmetic::power2::lemma2_to64();
    }
    while i < k
        invariant
            i <= k,
            r == pow2(i as nat),
            pow2(k as nat) <= usize::MAX,
        decreases k - i,
    {
        proof {
            lemma_pow2_unfold((i + 1) as nat);
            lemma_pow2_mono((i + 1) as nat, k as nat);
        }
        r = 2 * r;
        i = i + 1;
    }
    r
}

/// `2^k`, or nothing if it does not fit.
pub fn checked_power_of_two(k: usize) -> (r: Option<usize>)
    ensures
        r matches Some(v) ==> v == pow2(k as nat),
        r is None <==> pow2(k as nat) > usize::MAX,
{
    let mut r: usize = 1;
    let mut i: usize = 0;
    proof {
        vstd::arithmetic::power2::lemma2_to64();
    }
    while i < k
        invariant
            i <= k,
            r == pow2(i as nat),
        decreases k - i,
    {
        proof {
            lemma_pow2_unfold((i + 1) as nat);
            lemma_pow2_mono((i + 1) as nat, k as nat);
        }
        match r.checked_mul(2) {
            None => {
                return None;
            },
            Some(next) => {
                r = next;
            },
        }
        i = i + 1;
    }
    Some(r)
}

/// The smallest power of two that covers `n`, or nothing if it does not fit.
pub fn checked_next_power_of_two(n: usize) -> (r: Option<Dyadic>)
    ensures
        r matches Some(d) ==> d.wf() && covers(d.log as nat, n as nat),
        r is None <==> forall|k: nat| #[trigger] pow2(k) >= n ==> pow2(k) > usize::MAX,
{
    let mut size: usize = 1;
    let mut log: usize = 0;
    proof {
        vstd::arithmetic::power2::lemma2_to64();
    }
    while size < n
        invariant
            size == pow2(log as nat),
            log > 0 ==> pow2((log - 1) as nat) < n,
            log < size,
        decreases usize::MAX - size,
    {
        proof {
            lemma_pow2_unfold((log + 1) as nat);
        }
        match size.checked_mul(2) {
            None => {
                proof {
                    assert forall|k: nat| #[trigger] pow2(k) >= n implies pow2(k) > usize::MAX by {
                        if k <= log {
                            lemma_pow2_mono(k, log as nat);
                        } else {
                            lemma_pow2_mono((log + 1) as nat, k);
                        }
                    }
                }
                return None;
            },
            Some(next) => {
                size = next;
            },
        }
        log = log + 1;
    }
    assert(pow2(log as nat) >= n);
    Some(Dyadic { size, log })
}

/// The exponent of the smallest power of two that covers `n`.
pub open spec fn ceil_log(n: nat) -> nat {
    choose|k: nat| #[trigger] covers(k, n)
}

/// The smallest power of two that covers `n`.
pub open spec fn ceil_pow2(n: nat) -> nat {
    pow2(ceil_log(n))
}

proof fn lemma_covers_exists(n: nat, e: nat)
    requires
        n <= pow2(e),
    ensures
        exists|k: nat| k <= e && #[trigger] covers(k, n),
    decreases e,
{
    if e > 0 && n <= pow2((e - 1) as nat) {
        lemma_covers_exists(n, (e - 1) as nat);
    } else {
        assert(covers(e, n));
    }
}

/// Every number is covered by some power of two.
pub proof fn lemma_covers_some(n: nat)
    ensures
        exists|k: nat| #[trigger] covers(k, n),
{
    lemma_pow2_above(n);
    lemma_covers_exists(n, n);
}

/// The covering power of two covers.
pub proof fn lemma_ceil(n: nat)
    ensures
        covers(ceil_log(n), n),
        n <= ceil_pow2(n),
        ceil_pow2(n) > 0,
        is_dyadic(ceil_pow2(n)),
        forall|k: nat| #[trigger] covers(k, n) ==> k == ceil_log(n),
{
    lemma_covers_some(n);
    lemma_pow2_pos(ceil_log(n));
    assert forall|k: nat| #[trigger] covers(k, n) implies k == ceil_log(n) by {
        lemma_covers_unique(k, ceil_log(n), n);
    }
}

/// The smallest power of two that covers `n`.
pub fn next_power_of_two(n: usize) -> (r: Dyadic)
    requires
        ceil_pow2(n as nat) <= usize::MAX,
    ensures
        r.size == ceil_pow2(n as nat),
        r.log == ceil_log(n as nat),
{
    proof {
        lemma_ceil(n as nat);
    }
    match checked_next_power_of_two(n) {
        Some(d) => d,
        None => {
            assert(pow2(ceil_log(n as nat)) >= n);
            Dyadic { size: 0, log: 0 }
        },
    }
}

/// The exponent of a power of two, or nothing for another number.
pub fn exact_log(n: usize) -> (r: Option<usize>)
    ensures
        r matches Some(k) ==> n == pow2(k as nat),
        r is Some <==> is_dyadic(n as nat),
{
    if n == 0 {
        proof {
            assert forall|k: nat| #[trigger] pow2(k) != 0 by {
                lemma_pow2_pos(k);
            }
        }
        return None;
    }
    match checked_next_power_of_two(n) {
        None => {
            assert(!is_dyadic(n as nat)) by {
                if is_dyadic(n as nat) {
                    let k = choose|k: nat| n == #[trigger] pow2(k);
                    assert(pow2(k) >= n);
                }
            }
            None
        },
        Some(d) => if d.size == n {
            assert(n == pow2(d.log as nat));
            Some(d.log)
        } else {
            assert(!is_dyadic(n as nat)) by {
                if is_dyadic(n as nat) {
                    let k = choose|k: nat| n == #[trigger] pow2(k);
                    if k > 0 {
                        lemma_pow2_strictly_increases((k - 1) as nat, k);
                    }
                    assert(covers(k, n as nat));
                    lemma_covers_unique(k, d.log as nat, n as nat);
                }
            }
            None
        },
    }
}

} // verus!
