//! The change of basis between integers and circuit wires.
//!
//! Wires carry field elements in the flat basis. An integer enters a circuit
//! through a fixed invertible XOR-linear map that fixes one, so that a sum of
//! selected powers of two is a sum of selected basis elements.
use crate::field::{bit_at, low_bits, F128};
use crate::field::{lemma_low_bits_step, lemma_xor, lemma_xor_swap};
use vstd::prelude::*;

verus! {

/// The XOR of the table entries at the set bits of `v` below `n`.
pub open spec fn table_sum(table: Seq<F128>, v: u128, n: nat) -> u128
    decreases n,
{
    if n == 0 {
        0
    } else {
        table_sum(table, v, (n - 1) as nat) ^ (if bit_at(v, (n - 1) as u128) {
            table[n - 1]@
        } else {
            0u128
        })
    }
}

pub proof fn lemma_table_linear(table: Seq<F128>, v: u128, w: u128, n: nat)
    requires
        n <= 128,
    ensures
        table_sum(table, v ^ w, n) == table_sum(table, v, n) ^ table_sum(table, w, n),
    decreases n,
{
    lemma_xor(0, 0, 0);
    if n > 0 {
        let m = (n - 1) as nat;
        lemma_table_linear(table, v, w, m);
        let i = m as u128;
        assert(bit_at(v ^ w, i) == (bit_at(v, i) != bit_at(w, i))) by (bit_vector);
        let t = table[m as int]@;
        let a = if bit_at(v, i) {
            t
        } else {
            0
        };
        let c = if bit_at(w, i) {
            t
        } else {
            0
        };
        lemma_xor_swap(table_sum(table, v, m), table_sum(table, w, m), a, c);
        lemma_xor(t, 0, 0);
    }
}

proof fn lemma_table_zero(table: Seq<F128>, n: nat)
    requires
        n <= 128,
    ensures
        table_sum(table, 0, n) == 0,
    decreases n,
{
    lemma_xor(0, 0, 0);
    if n > 0 {
        lemma_table_zero(table, (n - 1) as nat);
        let i = (n - 1) as u128;
        assert(!bit_at(0, i)) by (bit_vector);
    }
}

proof fn lemma_table_monomial(table: Seq<F128>, k: nat, n: nat)
    requires
        k < 128,
        n <= 128,
    ensures
        table_sum(table, 1u128 << (k as u128), n) == if k < n {
            table[k as int]@
        } else {
            0
        },
    decreases n,
{
    if n > 0 {
        let m = (n - 1) as nat;
        lemma_table_monomial(table, k, m);
        let i = m as u128;
        let j = k as u128;
        assert(bit_at(1u128 << j, i) == (i == j)) by (bit_vector)
            requires
                i < 128,
                j < 128,
        ;
        lemma_xor(table[k as int]@, 0, 0);
        lemma_xor(0, 0, 0);
    }
}

/// One direction of a change of basis undoes the other.
proof fn lemma_table_inverse(outer: Seq<F128>, inner: Seq<F128>, v: u128, n: nat)
    requires
        n <= 128,
        forall|k: int|
            0 <= k < 128 ==> table_sum(outer, (#[trigger] inner[k])@, 128) == 1u128 << (k as u128),
    ensures
        table_sum(outer, table_sum(inner, v, n), 128) == low_bits(v, n),
    decreases n,
{
    if n == 0 {
        lemma_low_bits_step(v, 0);
        lemma_table_zero(outer, 128);
    } else {
        let m = (n - 1) as nat;
        lemma_table_inverse(outer, inner, v, m);
        lemma_low_bits_step(v, m);
        let x = if bit_at(v, m as u128) {
            inner[m as int]@
        } else {
            0
        };
        lemma_table_linear(outer, table_sum(inner, v, m), x, 128);
        lemma_table_zero(outer, 128);
        assert(table_sum(outer, inner[m as int]@, 128) == 1u128 << (m as u128));
    }
}

/// An invertible XOR-linear map between 128-bit integers and field elements,
/// given by the images of the powers of two in both directions.
#[derive(Debug, PartialEq, Eq)]
pub struct FlatBasis {
    forward: Vec<F128>,
    backward: Vec<F128>,
}

impl FlatBasis {
    pub closed spec fn wf(&self) -> bool {
        &&& self.forward@.len() == 128
        &&& self.backward@.len() == 128
        &&& self.forward@[0]@ == 1
        &&& forall|k: int|
            0 <= k < 128 ==> table_sum(self.forward@, (#[trigger] self.backward@[k])@, 128)
                == 1u128 << (k as u128)
        &&& forall|k: int|
            0 <= k < 128 ==> table_sum(self.backward@, (#[trigger] self.forward@[k])@, 128)
                == 1u128 << (k as u128)
    }

    /// The field element that stands for the integer `v`.
    pub closed spec fn flat(&self, v: u128) -> u128 {
        table_sum(self.forward@, v, 128)
    }

    /// All field elements that integers stand for.
    pub open spec fn flat_fn(&self) -> spec_fn(u128) -> u128 {
        |v: u128| self.flat(v)
    }

    /// The integer that the field element `f` stands for.
    pub closed spec fn tower(&self, f: u128) -> u128 {
        table_sum(self.backward@, f, 128)
    }

    /// The map and its inverse undo each other.
    pub proof fn lemma_inverse(&self, v: u128)
        requires
            self.wf(),
        ensures
            self.tower(self.flat(v)) == v,
            self.flat(self.tower(v)) == v,
    {
        lemma_table_inverse(self.backward@, self.forward@, v, 128);
        lemma_table_inverse(self.forward@, self.backward@, v, 128);
    }

    /// The map is XOR-linear and fixes zero and one.
    pub proof fn lemma_linear(&self, v: u128, w: u128)
        requires
            self.wf(),
        ensures
            self.flat(v ^ w) == self.flat(v) ^ self.flat(w),
            self.tower(v ^ w) == self.tower(v) ^ self.tower(w),
            self.flat(0) == 0,
            self.tower(0) == 0,
            self.flat(1) == 1,
            self.tower(1) == 1,
    {
        lemma_table_linear(self.forward@, v, w, 128);
        lemma_table_linear(self.backward@, v, w, 128);
        lemma_table_zero(self.forward@, 128);
        lemma_table_zero(self.backward@, 128);
        lemma_table_monomial(self.forward@, 0, 128);
        assert(1u128 << 0u128 == 1) by (bit_vector);
        self.lemma_inverse(1);
    }

    fn apply(table: &Vec<F128>, v: u128) -> (r: F128)
        requires
            table@.len() == 128,
        ensures
            r@ == table_sum(table@, v, 128),
    {
        let mut acc = F128::zero();
        let mut i: usize = 0;
        while i < 128
            invariant
                i <= 128,
                table@.len() == 128,
                acc@ == table_sum(table@, v, i as nat),
            decreases 128 - i,
        {
            proof {
                lemma_xor(acc@, 0, 0);
            }
            if (v >> (i as u128)) & 1 == 1 {
                acc = acc.plus(table[i]);
            }
            i = i + 1;
        }
        acc
    }

    /// The field element that stands for the integer `v`.
    pub fn to_flat(&self, v: u128) -> (r: F128)
        requires
            self.wf(),
        ensures
            r@ == self.flat(v),
    {
        FlatBasis::apply(&self.forward, v)
    }

    /// The integer that a field element stands for.
    pub fn to_tower(&self, f: F128) -> (r: u128)
        requires
            self.wf(),
        ensures
            r == self.tower(f@),
    {
        FlatBasis::apply(&self.backward, f.bits).bits
    }

    /// A basis from the images of the powers of two in both directions, or
    /// nothing if the two tables do not undo each other or do not fix one.
    pub fn from_tables(forward: Vec<F128>, backward: Vec<F128>) -> (r: Option<FlatBasis>)
        ensures
            r is Some ==> r->0.wf() && r->0.forward_table() == forward@ && r->0.backward_table()
                == backward@,
            r is None <==> !(forward@.len() == 128 && backward@.len() == 128 && forward@[0]@ == 1
                && (forall|k: int|
                0 <= k < 128 ==> table_sum(forward@, (#[trigger] backward@[k])@, 128) == 1u128 << (
                k as u128)) && (forall|k: int|
                0 <= k < 128 ==> table_sum(backward@, (#[trigger] forward@[k])@, 128) == 1u128 << (
                k as u128))),
    {
        if forward.len() != 128 || backward.len() != 128 {
            return None;
        }
        if forward[0].bits != 1 {
            return None;
        }
        let mut k: usize = 0;
        while k < 128
            invariant
                k <= 128,
                forward@.len() == 128,
                backward@.len() == 128,
                forall|j: int|
                    0 <= j < k ==> table_sum(forward@, (#[trigger] backward@[j])@, 128) == 1u128
                        << (j as u128),
                forall|j: int|
                    0 <= j < k ==> table_sum(backward@, (#[trigger] forward@[j])@, 128) == 1u128
                        << (j as u128),
            decreases 128 - k,
        {
            let unit: u128 = 1u128 << (k as u128);
            let there = FlatBasis::apply(&forward, backward[k].bits);
            let back = FlatBasis::apply(&backward, forward[k].bits);
            if there.bits != unit || back.bits != unit {
                assert(table_sum(forward@, backward@[k as int]@, 128) != 1u128 << (k as u128)
                    || table_sum(backward@, forward@[k as int]@, 128) != 1u128 << (k as u128));
                return None;
            }
            k = k + 1;
        }
        Some(FlatBasis { forward, backward })
    }

    pub closed spec fn forward_table(&self) -> Seq<F128> {
        self.forward@
    }

    pub closed spec fn backward_table(&self) -> Seq<F128> {
        self.backward@
    }

    /// The basis in which an integer stands for itself.
    pub fn coordinate() -> (r: FlatBasis)
        ensures
            r.wf(),
            forall|v: u128| #[trigger] r.flat(v) == v,
            forall|v: u128| #[trigger] r.tower(v) == v,
    {
        let mut forward: Vec<F128> = Vec::new();
        let mut backward: Vec<F128> = Vec::new();
        let mut k: usize = 0;
        while k < 128
            invariant
                k <= 128,
                forward@.len() == k,
                backward@.len() == k,
                forall|j: int| 0 <= j < k ==> (#[trigger] forward@[j])@ == 1u128 << (j as u128),
                forall|j: int| 0 <= j < k ==> (#[trigger] backward@[j])@ == 1u128 << (j as u128),
            decreases 128 - k,
        {
            let unit: u128 = 1u128 << (k as u128);
            forward.push(F128 { bits: unit });
            backward.push(F128 { bits: unit });
            k = k + 1;
        }
        proof {
            assert(1u128 << 0u128 == 1) by (bit_vector);
            assert forall|v: u128| table_sum(forward@, v, 128) == v && table_sum(
                backward@,
                v,
                128,
            ) == v by {
                lemma_table_coordinate(forward@, v, 128);
                lemma_table_coordinate(backward@, v, 128);
            }
        }
        FlatBasis { forward, backward }
    }
}

proof fn lemma_table_coordinate(table: Seq<F128>, v: u128, n: nat)
    requires
        n <= 128,
        table.len() == 128,
        forall|j: int| 0 <= j < 128 ==> (#[trigger] table[j])@ == 1u128 << (j as u128),
    ensures
        table_sum(table, v, n) == low_bits(v, n),
    decreases n,
{
    if n == 0 {
        lemma_low_bits_step(v, 0);
    } else {
        lemma_table_coordinate(table, v, (n - 1) as nat);
        lemma_low_bits_step(v, (n - 1) as nat);
    }
}

} // verus!
